use redbase::codec::{decode_wal_stream, encode_wal_record};
use redbase::memstore::{replay, MemStore};
use redbase::{CellValue, Entry, EntryKey};

fn entry(row: &[u8], column: &[u8], timestamp: u64, value: CellValue) -> Entry {
    Entry { key: EntryKey { row: row.to_vec(), column: column.to_vec(), timestamp }, value }
}

#[test]
fn test_memstore_open_empty() {
    let store = MemStore::new();
    assert_eq!(store.len(), 0);
    assert!(store.is_empty());
}

#[test]
fn test_memstore_append_and_get() {
    let mut store = MemStore::new();
    store.insert(entry(b"row1", b"col1", 100, CellValue::Put(b"value1".to_vec())));

    assert_eq!(store.len(), 1);
    assert!(!store.is_empty());

    let value = store.get_full(b"row1", b"col1");
    assert!(value.is_some());
    match value.unwrap() {
        CellValue::Put(data) => assert_eq!(data, b"value1"),
        _ => panic!("Expected Put value"),
    }

    let value = store.get_full(b"row2", b"col1");
    assert!(value.is_none());
}

#[test]
fn test_memstore_get_versions_full() {
    let mut store = MemStore::new();
    for i in 1..=3u64 {
        store.insert(entry(
            b"row1",
            b"col1",
            i * 100,
            CellValue::Put(format!("value{}", i).into_bytes()),
        ));
    }

    let versions = store.get_versions_full(b"row1", b"col1");
    assert_eq!(versions.len(), 3);
    assert_eq!(versions[0].0, 300);
    assert_eq!(versions[1].0, 200);
    assert_eq!(versions[2].0, 100);
    match &versions[0].1 {
        CellValue::Put(data) => assert_eq!(data, b"value3"),
        _ => panic!("Expected Put value"),
    }
}

#[test]
fn test_memstore_drain_all() {
    let mut store = MemStore::new();
    for i in 1..=3u64 {
        store.insert(entry(
            format!("row{}", i).as_bytes(),
            b"col1",
            100,
            CellValue::Put(format!("value{}", i).into_bytes()),
        ));
    }

    assert_eq!(store.len(), 3);

    let entries = store.drain_all();
    assert_eq!(entries.len(), 3);
    assert_eq!(store.len(), 0);
    assert!(store.is_empty());

    assert_eq!(String::from_utf8_lossy(&entries[0].key.row), "row1");
    assert_eq!(String::from_utf8_lossy(&entries[1].key.row), "row2");
    assert_eq!(String::from_utf8_lossy(&entries[2].key.row), "row3");
}

#[test]
fn test_memstore_scan_row_full() {
    let mut store = MemStore::new();
    for i in 1..=3u64 {
        store.insert(entry(
            b"row1",
            format!("col{}", i).as_bytes(),
            100 + i,
            CellValue::Put(format!("value{}", i).into_bytes()),
        ));
    }
    store.insert(entry(b"row2", b"col1", 100, CellValue::Put(b"other_value".to_vec())));

    let results = store.scan_row_full(b"row1");
    assert_eq!(results.len(), 3);
    for (key, _) in &results {
        assert_eq!(key.row, b"row1");
    }

    let results = store.scan_row_full(b"row2");
    assert_eq!(results.len(), 1);

    let results = store.scan_row_full(b"row3");
    assert_eq!(results.len(), 0);
}

#[test]
fn test_memstore_wal_persistence() {
    // Frame every record as the write path would, then replay the bytes
    // as recovery does: the same map comes back.
    let mut log: Vec<u8> = Vec::new();
    let mut store = MemStore::new();
    for i in 1..=3u64 {
        let e = entry(
            b"row1",
            format!("col{}", i).as_bytes(),
            100 + i,
            CellValue::Put(format!("value{}", i).into_bytes()),
        );
        let record = encode_wal_record(&e).expect("record fits its length prefix");
        log.extend_from_slice(&record);
        store.insert(e);
    }
    assert_eq!(store.len(), 3);

    let recovered_entries = decode_wal_stream(&log);
    let recovered = replay(&recovered_entries);
    assert_eq!(recovered.len(), 3);
    for i in 1..=3u64 {
        let col = format!("col{}", i).into_bytes();
        let value = recovered.get_full(b"row1", &col);
        assert!(value.is_some());
        match value.unwrap() {
            CellValue::Put(data) => assert_eq!(data, format!("value{}", i).as_bytes()),
            _ => panic!("Expected Put value"),
        }
    }

    // A torn trailing record is ignored; everything before it survives.
    let mut torn = log.clone();
    torn.extend_from_slice(&[0, 0, 0, 99, 1, 2, 3]);
    let recovered_entries = decode_wal_stream(&torn);
    assert_eq!(recovered_entries.len(), 3);
}

#[test]
fn test_memstore_tombstone() {
    let mut store = MemStore::new();
    store.insert(entry(b"row1", b"col1", 100, CellValue::Put(b"value1".to_vec())));
    store.insert(entry(b"row1", b"col1", 200, CellValue::Delete(None)));

    let value = store.get_full(b"row1", b"col1");
    assert!(value.is_some());
    match value.unwrap() {
        CellValue::Delete(_) => {},
        _ => panic!("Expected Delete value"),
    }

    let versions = store.get_versions_full(b"row1", b"col1");
    assert_eq!(versions.len(), 2);
    match &versions[0].1 {
        CellValue::Delete(_) => assert_eq!(versions[0].0, 200),
        _ => panic!("Expected Delete value"),
    }
    match &versions[1].1 {
        CellValue::Put(data) => {
            assert_eq!(versions[1].0, 100);
            assert_eq!(data, b"value1");
        },
        _ => panic!("Expected Put value"),
    }
}
