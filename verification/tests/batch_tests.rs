use redbase::api::ColumnFamily;
use redbase::batch::{Batch, SyncBatchExt};

#[test]
fn batch_test_sync_batch_operations() {
    let mut cf = ColumnFamily::new();

    let mut batch = Batch::new();
    batch.put(b"row1".to_vec(), b"col1".to_vec(), b"value1".to_vec());
    batch.put(b"row1".to_vec(), b"col2".to_vec(), b"value2".to_vec());
    batch.put(b"row2".to_vec(), b"col1".to_vec(), b"value3".to_vec());
    assert_eq!(batch.len(), 3);
    assert!(!batch.is_empty());

    let _ = cf.execute_batch(&batch);

    assert_eq!(cf.get(b"row1", b"col1").unwrap(), b"value1");
    assert_eq!(cf.get(b"row1", b"col2").unwrap(), b"value2");
    assert_eq!(cf.get(b"row2", b"col1").unwrap(), b"value3");

    let mut batch = Batch::new();
    batch.delete(b"row1".to_vec(), b"col1".to_vec());
    batch.delete_with_ttl(b"row1".to_vec(), b"col2".to_vec(), Some(3600 * 1000));
    let _ = cf.execute_batch(&batch);

    assert!(cf.get(b"row1", b"col1").is_none());
    assert!(cf.get(b"row1", b"col2").is_none());
    assert_eq!(cf.get(b"row2", b"col1").unwrap(), b"value3");
}

#[test]
fn client_features_tests_test_sync_batch_operations() {
    let mut table = redbase::api::Table::new();
    table.create_cf("test_cf").unwrap();
    assert!(table.cf("test_cf").is_some());

    let mut cf = ColumnFamily::new();
    let mut batch = Batch::new();
    batch.put(b"row1".to_vec(), b"col1".to_vec(), b"value1".to_vec());
    batch.put(b"row1".to_vec(), b"col2".to_vec(), b"value2".to_vec());
    batch.put(b"row2".to_vec(), b"col1".to_vec(), b"value3".to_vec());
    let _ = cf.execute_batch(&batch);

    assert_eq!(cf.get(b"row1", b"col1").unwrap(), b"value1");
    assert_eq!(cf.get(b"row1", b"col2").unwrap(), b"value2");
    assert_eq!(cf.get(b"row2", b"col1").unwrap(), b"value3");
}

#[test]
fn test_batch_clear() {
    let mut batch = Batch::new();
    batch.put(b"row1".to_vec(), b"col1".to_vec(), b"value1".to_vec());
    assert_eq!(batch.len(), 1);
    batch.clear();
    assert_eq!(batch.len(), 0);
    assert!(batch.is_empty());
}
