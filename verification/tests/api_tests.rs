use redbase::api::{ColumnFamily, CompactionOptions, CompactionType, Table};

#[test]
fn test_table_open_empty() {
    let table = Table::new();
    assert!(table.cf("default").is_none());
}

#[test]
fn test_table_create_cf() {
    let mut table = Table::new();
    assert!(table.create_cf("test_cf").is_ok());
    assert!(table.create_cf("test_cf").is_err());
}

#[test]
fn test_table_cf_mut_routes_writes() {
    let mut table = Table::new();
    table.create_cf("test_cf").unwrap();
    {
        let cf = table.cf_mut("test_cf").unwrap();
        let _ = cf.put(b"row1".to_vec(), b"col1".to_vec(), b"value1".to_vec());
    }
    let cf = table.cf("test_cf").unwrap();
    assert_eq!(cf.get(b"row1", b"col1").unwrap(), b"value1");
    assert!(table.cf_mut("nonexistent").is_none());
}

#[test]
fn test_table_cf() {
    let mut table = Table::new();
    table.create_cf("test_cf").unwrap();
    assert!(table.cf("test_cf").is_some());
    assert!(table.cf("nonexistent").is_none());
}

#[test]
fn test_column_family_put_and_get() {
    let mut cf = ColumnFamily::new();
    let _ = cf.put(b"row1".to_vec(), b"col1".to_vec(), b"value1".to_vec());

    let value = cf.get(b"row1", b"col1");
    assert!(value.is_some());
    assert_eq!(value.unwrap(), b"value1");
    assert!(cf.get(b"row2", b"col1").is_none());
}

#[test]
fn test_column_family_delete() {
    let mut cf = ColumnFamily::new();
    let _ = cf.put(b"row1".to_vec(), b"col1".to_vec(), b"value1".to_vec());
    assert!(cf.get(b"row1", b"col1").is_some());
    let _ = cf.delete(b"row1".to_vec(), b"col1".to_vec());
    assert!(cf.get(b"row1", b"col1").is_none());
}

#[test]
fn test_column_family_delete_with_ttl() {
    let mut cf = ColumnFamily::new();
    let _ = cf.put(b"row1".to_vec(), b"col1".to_vec(), b"value1".to_vec());
    assert!(cf.get(b"row1", b"col1").is_some());
    let _ = cf.delete_with_ttl(b"row1".to_vec(), b"col1".to_vec(), Some(1000));
    assert!(cf.get(b"row1", b"col1").is_none());
}

#[test]
fn test_column_family_get_versions() {
    let mut cf = ColumnFamily::new();
    for i in 1..=3u64 {
        let _ = cf.put(
            b"row1".to_vec(),
            b"col1".to_vec(),
            format!("value{}", i).into_bytes(),
        );
    }

    let versions = cf.get_versions(b"row1", b"col1", 10);
    assert_eq!(versions.len(), 3);
    assert_eq!(versions[0].1, b"value3");
    assert_eq!(versions[1].1, b"value2");
    assert_eq!(versions[2].1, b"value1");
    assert!(versions[0].0 > versions[1].0);
    assert!(versions[1].0 > versions[2].0);

    let versions = cf.get_versions(b"row1", b"col1", 2);
    assert_eq!(versions.len(), 2);
    assert_eq!(versions[0].1, b"value3");
    assert_eq!(versions[1].1, b"value2");
}

#[test]
fn test_column_family_scan_row_versions() {
    let mut cf = ColumnFamily::new();
    for i in 1..=3u64 {
        let _ = cf.put(
            b"row1".to_vec(),
            format!("col{}", i).into_bytes(),
            format!("value{}", i).into_bytes(),
        );
    }
    let _ = cf.put(b"row1".to_vec(), b"col1".to_vec(), b"updated1".to_vec());

    let scan = cf.scan_row_versions(b"row1", 10);
    assert_eq!(scan.len(), 3);
    assert_eq!(scan[0].0, b"col1");
    assert_eq!(scan[0].1[0].1, b"updated1");
    assert_eq!(scan[0].1[1].1, b"value1");
    assert_eq!(scan[1].0, b"col2");
    assert_eq!(scan[1].1[0].1, b"value2");
    assert_eq!(scan[2].0, b"col3");
    assert_eq!(scan[2].1[0].1, b"value3");
}

#[test]
fn test_column_family_flush() {
    let mut cf = ColumnFamily::new();
    for i in 1..=5u64 {
        let _ = cf.put(
            format!("row{}", i).into_bytes(),
            b"col1".to_vec(),
            format!("value{}", i).into_bytes(),
        );
    }

    let artifact = cf.flush();
    assert!(artifact.is_some());
    let (seq, bytes) = artifact.unwrap();
    assert_eq!(seq, 1);
    assert!(bytes.len() > 4);
    assert_eq!(cf.memstore_len(), 0);
    assert_eq!(cf.sstable_count(), 1);
    assert_eq!(cf.get(b"row1", b"col1").unwrap(), b"value1");
}

#[test]
fn test_column_family_compaction() {
    let mut cf = ColumnFamily::new();
    for batch in 0..2u64 {
        for i in 0..3u64 {
            let _ = cf.put(
                format!("row{}", i).into_bytes(),
                b"col1".to_vec(),
                format!("batch{}_value{}", batch, i).into_bytes(),
            );
        }
        assert!(cf.flush().is_some());
    }
    assert_eq!(cf.sstable_count(), 2);

    let result = cf.compact();
    assert!(result.is_some());
    assert_eq!(cf.sstable_count(), 1);
    for i in 0..3u64 {
        let value = cf.get(format!("row{}", i).as_bytes(), b"col1");
        assert_eq!(value.unwrap(), format!("batch1_value{}", i).into_bytes());
    }
}

#[test]
fn test_column_family_version_compaction() {
    let mut cf = ColumnFamily::new();
    for i in 1..=5u64 {
        let _ = cf.put(
            b"row1".to_vec(),
            b"col1".to_vec(),
            format!("value{}", i).into_bytes(),
        );
    }
    assert!(cf.flush().is_some());
    // Two runs, so a minor compaction has something to merge.
    for i in 4..=5u64 {
        let _ = cf.put(
            b"row1".to_vec(),
            b"col1".to_vec(),
            format!("value{}", i).into_bytes(),
        );
    }
    assert!(cf.flush().is_some());

    assert!(cf.compact_with_max_versions(2).is_some());
    let versions = cf.get_versions(b"row1", b"col1", 10);
    assert_eq!(versions.len(), 2);
    assert_eq!(versions[0].1, b"value5");
    assert_eq!(versions[1].1, b"value4");
}

#[test]
fn test_column_family_custom_compaction() {
    let mut cf = ColumnFamily::new();
    for i in 1..=5u64 {
        let _ = cf.put(
            b"row1".to_vec(),
            b"col1".to_vec(),
            format!("value{}", i).into_bytes(),
        );
    }
    let _ = cf.put(b"row2".to_vec(), b"col1".to_vec(), b"value1".to_vec());
    assert!(cf.flush().is_some());

    let options = CompactionOptions {
        compaction_type: CompactionType::Major,
        max_versions: Some(2),
        max_age_ms: Some(10000),
        cleanup_tombstones: true,
    };
    assert!(cf.compact_with_options(options).is_some());
    let versions = cf.get_versions(b"row1", b"col1", 10);
    assert_eq!(versions.len(), 2);
    assert_eq!(versions[0].1, b"value5");
    assert_eq!(versions[1].1, b"value4");
    assert_eq!(cf.get(b"row2", b"col1").unwrap(), b"value1");
}
