use redbase::storage::{SSTable, SSTableReader};
use redbase::{CellValue, Entry, EntryKey};

fn entry(row: &[u8], column: &[u8], timestamp: u64, value: CellValue) -> Entry {
    Entry { key: EntryKey { row: row.to_vec(), column: column.to_vec(), timestamp }, value }
}

fn create_test_entries() -> Vec<Entry> {
    let mut entries = Vec::new();
    for i in 1..=3u64 {
        entries.push(entry(
            b"row1",
            format!("col{}", i).as_bytes(),
            100 + i,
            CellValue::Put(format!("value{}", i).into_bytes()),
        ));
    }
    entries.push(entry(b"row2", b"col1", 200, CellValue::Put(b"row2value".to_vec())));
    entries.push(entry(b"row1", b"col4", 300, CellValue::Delete(Some(3600 * 1000))));
    entries.sort_by(|a, b| {
        (&a.key.row, &a.key.column, a.key.timestamp).cmp(&(
            &b.key.row,
            &b.key.column,
            b.key.timestamp,
        ))
    });
    entries
}

#[test]
fn test_sstable_create_and_read() {
    let entries = create_test_entries();
    let bytes = SSTable::create(&entries).expect("entries fit the format");
    let reader = SSTableReader::open(&bytes).expect("a written table reads back");
    assert_eq!(reader.len(), entries.len());
    assert!(bytes.len() > 4);
}

#[test]
fn test_sstable_reader_get_full() {
    let entries = create_test_entries();
    let bytes = SSTable::create(&entries).unwrap();
    let reader = SSTableReader::open(&bytes).unwrap();

    let result = reader.get_full(b"row1", b"col1");
    assert!(result.is_some());
    match result.unwrap() {
        CellValue::Put(data) => assert_eq!(data, b"value1"),
        _ => panic!("Expected Put value"),
    }

    let result = reader.get_full(b"row3", b"col1");
    assert!(result.is_none());

    let result = reader.get_full(b"row1", b"col4");
    assert!(result.is_some());
    match result.unwrap() {
        CellValue::Delete(ttl) => {
            assert!(ttl.is_some());
            assert_eq!(ttl.unwrap(), 3600 * 1000);
        },
        _ => panic!("Expected Delete value"),
    }
}

#[test]
fn test_sstable_reader_get_versions_full() {
    let mut entries = Vec::new();
    for i in 1..=3u64 {
        entries.push(entry(
            b"row1",
            b"col1",
            i * 100,
            CellValue::Put(format!("value{}", i).into_bytes()),
        ));
    }
    let bytes = SSTable::create(&entries).unwrap();
    let reader = SSTableReader::open(&bytes).unwrap();

    let versions = reader.get_versions_full(b"row1", b"col1");
    assert_eq!(versions.len(), 3);
    assert_eq!(versions[0].0, 300);
    assert_eq!(versions[1].0, 200);
    assert_eq!(versions[2].0, 100);
    match &versions[0].1 {
        CellValue::Put(data) => assert_eq!(data, b"value3"),
        _ => panic!("Expected Put value"),
    }
}

#[test]
fn test_sstable_reader_scan_row_full() {
    let entries = create_test_entries();
    let bytes = SSTable::create(&entries).unwrap();
    let reader = SSTableReader::open(&bytes).unwrap();

    let results = reader.scan_row_full(b"row1");
    assert_eq!(results.len(), 4);
    for (col, _, _) in &results {
        assert!(col.starts_with(b"col"));
    }

    let results = reader.scan_row_full(b"row2");
    assert_eq!(results.len(), 1);

    let results = reader.scan_row_full(b"row3");
    assert_eq!(results.len(), 0);
}

#[test]
fn test_sstable_reader_scan_all() {
    let entries = create_test_entries();
    let bytes = SSTable::create(&entries).unwrap();
    let reader = SSTableReader::open(&bytes).unwrap();

    let all_entries = reader.scan_all();
    assert_eq!(all_entries.len(), entries.len());
    for i in 0..entries.len() {
        assert_eq!(all_entries[i].0, entries[i].key);
        match (&all_entries[i].1, &entries[i].value) {
            (CellValue::Put(data1), CellValue::Put(data2)) => {
                assert_eq!(data1, data2);
            },
            (CellValue::Delete(ttl1), CellValue::Delete(ttl2)) => {
                assert_eq!(ttl1, ttl2);
            },
            _ => panic!("Mismatched CellValue types"),
        }
    }
}

#[test]
fn test_sstable_bytes_deterministic() {
    // The file bytes are a function of the entries alone: writing the
    // same run twice gives identical bytes, so a run, once written, has
    // exactly one on-disk form.
    let entries = create_test_entries();
    let bytes1 = SSTable::create(&entries).unwrap();
    let bytes2 = SSTable::create(&entries).unwrap();
    assert_eq!(bytes1, bytes2);
}

#[test]
fn test_sstable_rejects_unsorted() {
    let mut entries = create_test_entries();
    entries.reverse();
    let bytes = SSTable::create(&entries).unwrap();
    assert!(SSTableReader::open(&bytes).is_none());
}
