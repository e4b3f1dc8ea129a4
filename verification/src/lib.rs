//! An embedded, single-node, wide-column key/value store with an LSM layout.
//!
//! Data is organised into tables of column families.  Each column family
//! stores versioned cells keyed by `(row, column, timestamp)`: recent writes
//! sit in an in-memory sorted map, flushes turn that map into immutable
//! sorted runs, and a compactor merges runs while optionally pruning old
//! versions and expired tombstones.  Reads merge the in-memory map with the
//! runs and support predicate filters and per-column aggregations.
//!
//! The crate holds the storage logic itself; durable file handling and the
//! asynchronous front ends are left to the embedding program, which feeds
//! file contents in and writes returned encodings out.

pub mod aggregation;
pub mod api;
pub mod batch;
pub mod bytes;
pub mod codec;
pub mod filter;
pub mod laws;
pub mod memstore;
pub mod model;
pub mod numeric;
pub mod storage;
pub mod types;

pub use aggregation::{Aggregation, AggregationResult, AggregationSet, AggregationType};
pub use api::{ColumnFamily, CompactionOptions, CompactionType, Table};
pub use batch::{Batch, BatchOperation, SyncBatchExt};
pub use bytes::contains_subsequence;
pub use filter::{ColumnFilter, Filter, FilterSet};
pub use memstore::MemStore;
pub use storage::{SSTable, SSTableReader};
pub use types::{CellValue, Column, Entry, EntryKey, RowKey, Timestamp, WalEntry};
