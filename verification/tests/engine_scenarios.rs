use redbase::api::{ColumnFamily, CompactionOptions, CompactionType};
use redbase::codec::{decode_wal_stream, encode_wal_record};
use redbase::memstore::replay;
use redbase::storage::SSTableReader;
use redbase::{CellValue, Entry, EntryKey};

#[test]
fn test_two_writes_newest_wins() {
    let mut cf = ColumnFamily::new();
    let _ = cf.put(b"row1".to_vec(), b"col1".to_vec(), b"v1".to_vec());
    let _ = cf.put(b"row1".to_vec(), b"col1".to_vec(), b"v2".to_vec());

    assert_eq!(cf.get(b"row1", b"col1").unwrap(), b"v2");

    let versions = cf.get_versions(b"row1", b"col1", 10);
    assert_eq!(versions.len(), 2);
    assert_eq!(versions[0].1, b"v2");
    assert_eq!(versions[1].1, b"v1");
    assert!(versions[0].0 > versions[1].0);
}

#[test]
fn test_flush_threshold_exactly_one_flush() {
    let mut cf = ColumnFamily::new();
    let mut flushes: usize = 0;
    for i in 0..10_001u64 {
        let artifact = cf.put(
            format!("row{}", i).into_bytes(),
            b"col1".to_vec(),
            format!("value{}", i).into_bytes(),
        );
        if artifact.is_some() {
            flushes += 1;
        }
    }
    assert_eq!(flushes, 1);
    assert_eq!(cf.sstable_count(), 1);
    assert_eq!(cf.memstore_len(), 0);
    assert_eq!(cf.get(b"row0", b"col1").unwrap(), b"value0");
}

#[test]
fn test_major_compact_version_cap() {
    let mut cf = ColumnFamily::new();
    for i in 1..=3u64 {
        let _ = cf.put(
            b"row1".to_vec(),
            b"col1".to_vec(),
            format!("value{}", i).into_bytes(),
        );
    }
    assert!(cf.flush().is_some());

    let options = CompactionOptions {
        compaction_type: CompactionType::Major,
        max_versions: Some(2),
        max_age_ms: None,
        cleanup_tombstones: true,
    };
    assert!(cf.compact_with_options(options).is_some());

    let versions = cf.get_versions(b"row1", b"col1", usize::MAX);
    assert_eq!(versions.len(), 2);
    assert_eq!(versions[0].1, b"value3");
    assert_eq!(versions[1].1, b"value2");
}

#[test]
fn test_tombstone_shadows_across_flush_and_compaction() {
    let mut cf = ColumnFamily::new();
    let _ = cf.put(b"row1".to_vec(), b"col1".to_vec(), b"value1".to_vec());
    let _ = cf.delete(b"row1".to_vec(), b"col1".to_vec());
    assert!(cf.get(b"row1", b"col1").is_none());

    assert!(cf.flush().is_some());
    assert!(cf.get(b"row1", b"col1").is_none());

    let _ = cf.put(b"row2".to_vec(), b"col1".to_vec(), b"other".to_vec());
    assert!(cf.flush().is_some());
    assert!(cf.major_compact().is_some());
    assert!(cf.get(b"row1", b"col1").is_none());

    // A newer write lifts the shadow.
    let _ = cf.put(b"row1".to_vec(), b"col1".to_vec(), b"value2".to_vec());
    assert_eq!(cf.get(b"row1", b"col1").unwrap(), b"value2");
}

#[test]
fn test_expired_ttl_tombstone_removed_by_compaction() {
    let mut cf = ColumnFamily::new();
    let _ = cf.put(b"r".to_vec(), b"c".to_vec(), b"value1".to_vec());
    let _ = cf.delete_with_ttl(b"r".to_vec(), b"c".to_vec(), Some(1000));
    assert!(cf.get(b"r", b"c").is_none());
    assert!(cf.flush().is_some());

    // Compact at a moment past the tombstone's expiry: the marker goes,
    // and so does everything it shadowed — the new run holds no trace
    // of the cell.
    let options = CompactionOptions {
        compaction_type: CompactionType::Major,
        max_versions: None,
        max_age_ms: None,
        cleanup_tombstones: true,
    };
    let far_future = u64::MAX / 2;
    let artifact = cf.compact_with_options_at(options, far_future);
    assert!(artifact.is_some());
    let (_, bytes, _) = artifact.unwrap();
    let reader = SSTableReader::open(&bytes).unwrap();
    for (key, _) in reader.scan_all() {
        assert!(!(key.row == b"r" && key.column == b"c"));
    }

    assert!(cf.get(b"r", b"c").is_none());
    let versions = cf.get_versions(b"r", b"c", usize::MAX);
    assert_eq!(versions.len(), 0);
}

#[test]
fn test_compaction_preserves_reads_without_pruning() {
    let mut cf = ColumnFamily::new();
    for i in 1..=3u64 {
        let _ = cf.put(
            b"row1".to_vec(),
            b"colA".to_vec(),
            format!("value{}", i).into_bytes(),
        );
        let _ = cf.put(
            b"row1".to_vec(),
            b"colB".to_vec(),
            format!("other{}", i).into_bytes(),
        );
    }
    assert!(cf.flush().is_some());
    for i in 4..=5u64 {
        let _ = cf.put(
            b"row1".to_vec(),
            b"colA".to_vec(),
            format!("value{}", i).into_bytes(),
        );
    }
    assert!(cf.flush().is_some());

    let before_a = cf.get_versions(b"row1", b"colA", usize::MAX);
    let before_b = cf.get_versions(b"row1", b"colB", 2);

    let options = CompactionOptions {
        compaction_type: CompactionType::Major,
        max_versions: None,
        max_age_ms: None,
        cleanup_tombstones: false,
    };
    assert!(cf.compact_with_options(options).is_some());

    assert_eq!(cf.get_versions(b"row1", b"colA", usize::MAX), before_a);
    assert_eq!(cf.get_versions(b"row1", b"colB", 2), before_b);
}

#[test]
fn test_range_scan_rows_across_sources() {
    let mut cf = ColumnFamily::new();
    let _ = cf.put(b"alpha".to_vec(), b"col1".to_vec(), b"1".to_vec());
    let _ = cf.put(b"beta".to_vec(), b"col1".to_vec(), b"2".to_vec());
    assert!(cf.flush().is_some());
    let _ = cf.put(b"beta".to_vec(), b"col2".to_vec(), b"3".to_vec());
    let _ = cf.put(b"gamma".to_vec(), b"col1".to_vec(), b"4".to_vec());

    let rows = cf.get_row_keys_in_range(b"alpha", b"gamma");
    assert_eq!(rows.len(), 3);
    assert_eq!(rows[0], b"alpha");
    assert_eq!(rows[1], b"beta");
    assert_eq!(rows[2], b"gamma");

    let rows = cf.get_row_keys_in_range(b"b", b"z");
    assert_eq!(rows.len(), 2);
    assert_eq!(rows[0], b"beta");
    assert_eq!(rows[1], b"gamma");
}

#[test]
fn test_aggregate_range_per_row_sums() {
    let mut cf = ColumnFamily::new();
    let _ = cf.put(b"row1".to_vec(), b"colA".to_vec(), b"10".to_vec());
    let _ = cf.put(b"row2".to_vec(), b"colA".to_vec(), b"20".to_vec());

    let mut aggs = redbase::aggregation::AggregationSet::new();
    aggs.add_aggregation(b"colA".to_vec(), redbase::aggregation::AggregationType::Sum);

    let result = cf.aggregate_range(b"row1", b"row2", None, &aggs);
    assert_eq!(result.len(), 2);
    assert_eq!(result[0].0, b"row1");
    assert_eq!(
        result[0].1[0].1,
        redbase::aggregation::AggregationResult::Sum(10)
    );
    assert_eq!(result[1].0, b"row2");
    assert_eq!(
        result[1].1[0].1,
        redbase::aggregation::AggregationResult::Sum(20)
    );
}

#[test]
fn test_engine_recovery_roundtrip() {
    // Run a column family, mirroring what an embedding program persists:
    // log records before each write, run files on flush.
    let mut cf = ColumnFamily::new();
    let mut log: Vec<u8> = Vec::new();
    let mut run: Option<(u64, Vec<u8>)> = None;

    let mut write = |cf: &mut ColumnFamily,
                     log: &mut Vec<u8>,
                     run: &mut Option<(u64, Vec<u8>)>,
                     row: &[u8],
                     col: &[u8],
                     ts: u64,
                     value: CellValue| {
        let entry = Entry {
            key: EntryKey { row: row.to_vec(), column: col.to_vec(), timestamp: ts },
            value: value.clone(),
        };
        let record = encode_wal_record(&entry).unwrap();
        log.extend_from_slice(&record);
        if let Some(artifact) = cf.write_cell_at(row.to_vec(), col.to_vec(), ts, value) {
            *run = Some(artifact);
            log.clear();
        }
    };

    write(&mut cf, &mut log, &mut run, b"row1", b"col1", 100, CellValue::Put(b"v1".to_vec()));
    write(&mut cf, &mut log, &mut run, b"row2", b"col1", 101, CellValue::Put(b"v2".to_vec()));
    if let Some(artifact) = cf.flush() {
        run = Some(artifact);
        log.clear();
    }
    write(&mut cf, &mut log, &mut run, b"row1", b"col1", 102, CellValue::Put(b"v3".to_vec()));
    write(&mut cf, &mut log, &mut run, b"row3", b"col1", 103, CellValue::Delete(None));

    // Rebuild from what was persisted, as recovery does after a kill.
    let (seq, bytes) = run.clone().unwrap();
    let recovered_mem = replay(&decode_wal_stream(&log));
    let reader = SSTableReader::open(&bytes).unwrap();
    let recovered = ColumnFamily::from_parts(recovered_mem, vec![(seq, reader)]);

    assert_eq!(recovered.get(b"row1", b"col1"), cf.get(b"row1", b"col1"));
    assert_eq!(recovered.get(b"row2", b"col1"), cf.get(b"row2", b"col1"));
    assert_eq!(recovered.get(b"row3", b"col1"), cf.get(b"row3", b"col1"));
    assert_eq!(recovered.get(b"row1", b"col1").unwrap(), b"v3");
    assert_eq!(
        recovered.get_versions(b"row1", b"col1", 10),
        cf.get_versions(b"row1", b"col1", 10)
    );
}
