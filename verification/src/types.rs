//! The cell-level data model: entry keys, cell values and their ordering.
//!
//! Every stored cell is identified by `(row, column, timestamp)` and holds
//! either written bytes or a deletion marker.  Keys are ordered
//! lexicographically on the triple; that order governs the in-memory map and
//! every on-disk run.

use vstd::prelude::*;

use crate::bytes::{bytes_cmp, lex_lt};

verus! {

/// A row identifier: a plain byte string.
pub type RowKey = Vec<u8>;

/// A column identifier: a plain byte string.
pub type Column = Vec<u8>;

/// Milliseconds of Unix time, assigned when a write arrives.
pub type Timestamp = u64;

/// A cell is either written bytes or a deletion marker.  A marker may carry
/// a time-to-live in milliseconds after which compaction may discard it.
#[derive(Debug, Clone, PartialEq, Eq)]
pub enum CellValue {
    /// Written data bytes.
    Put(Vec<u8>),
    /// Deletion marker, optionally expiring after the given span.
    Delete(Option<u64>),
}

/// The key of one versioned cell: `(row, column, timestamp)`.
#[derive(Debug, Clone, PartialEq, Eq)]
pub struct EntryKey {
    pub row: RowKey,
    pub column: Column,
    pub timestamp: Timestamp,
}

/// One stored unit: a key together with its cell value.
#[derive(Debug, Clone, PartialEq, Eq)]
pub struct Entry {
    pub key: EntryKey,
    pub value: CellValue,
}

/// A single write-ahead-log record: one entry.
#[derive(Debug, Clone, PartialEq, Eq)]
pub struct WalEntry(pub Entry);

/// Mathematical model of an entry key.
pub struct KeyModel {
    pub row: Seq<u8>,
    pub column: Seq<u8>,
    pub timestamp: u64,
}

/// Mathematical model of a cell value.
pub enum CellModel {
    Put(Seq<u8>),
    Delete(Option<u64>),
}

/// Mathematical model of an entry.
pub struct EntryModel {
    pub key: KeyModel,
    pub value: CellModel,
}

impl View for EntryKey {
    type V = KeyModel;

    open spec fn view(&self) -> KeyModel {
        KeyModel { row: self.row@, column: self.column@, timestamp: self.timestamp }
    }
}

impl View for CellValue {
    type V = CellModel;

    open spec fn view(&self) -> CellModel {
        match self {
            CellValue::Put(data) => CellModel::Put(data@),
            CellValue::Delete(ttl) => CellModel::Delete(*ttl),
        }
    }
}

impl View for Entry {
    type V = EntryModel;

    open spec fn view(&self) -> EntryModel {
        EntryModel { key: self.key@, value: self.value@ }
    }
}

impl View for WalEntry {
    type V = EntryModel;

    open spec fn view(&self) -> EntryModel {
        self.0@
    }
}

/// Strict order on keys: lexicographic on the row, then the column, then
/// the timestamp.
pub open spec fn key_lt(a: KeyModel, b: KeyModel) -> bool {
    ||| lex_lt(a.row, b.row)
    ||| (a.row == b.row && lex_lt(a.column, b.column))
    ||| (a.row == b.row && a.column == b.column && a.timestamp < b.timestamp)
}

/// Non-strict order on keys.
pub open spec fn key_le(a: KeyModel, b: KeyModel) -> bool {
    key_lt(a, b) || a == b
}

/// Exactly one of `a < b`, `a == b`, `b < a` holds for keys.
pub proof fn lemma_key_trichotomy(a: KeyModel, b: KeyModel)
    ensures
        key_lt(a, b) ==> !(a == b) && !key_lt(b, a),
        a == b ==> !key_lt(a, b) && !key_lt(b, a),
        !key_lt(a, b) && !key_lt(b, a) ==> a == b,
{
    crate::bytes::lemma_lex_trichotomy(a.row, b.row);
    crate::bytes::lemma_lex_trichotomy(a.column, b.column);
}

/// The key order is transitive.
pub proof fn lemma_key_transitive(a: KeyModel, b: KeyModel, c: KeyModel)
    requires
        key_lt(a, b),
        key_lt(b, c),
    ensures
        key_lt(a, c),
{
    crate::bytes::lemma_lex_trichotomy(a.row, b.row);
    crate::bytes::lemma_lex_trichotomy(b.row, c.row);
    if lex_lt(a.row, b.row) && lex_lt(b.row, c.row) {
        crate::bytes::lemma_lex_transitive(a.row, b.row, c.row);
    }
    if a.row == b.row && a.column == b.column {
    } else if lex_lt(a.column, b.column) && lex_lt(b.column, c.column) {
        crate::bytes::lemma_lex_transitive(a.column, b.column, c.column);
    }
}

/// Three-way comparison of two entry keys in the store order.
pub fn key_cmp(a: &EntryKey, b: &EntryKey) -> (r: i8)
    ensures
        -1 <= r <= 1,
        r == -1 <==> key_lt(a@, b@),
        r == 0 <==> a@ == b@,
        r == 1 <==> key_lt(b@, a@),
{
    proof {
        lemma_key_trichotomy(a@, b@);
    }
    let rc = bytes_cmp(a.row.as_slice(), b.row.as_slice());
    if rc != 0 {
        return rc;
    }
    let cc = bytes_cmp(a.column.as_slice(), b.column.as_slice());
    if cc != 0 {
        return cc;
    }
    if a.timestamp < b.timestamp {
        -1
    } else if a.timestamp > b.timestamp {
        1
    } else {
        0
    }
}

/// Copy a byte string.
pub fn clone_bytes(v: &Vec<u8>) -> (r: Vec<u8>)
    ensures
        r@ == v@,
{
    let r = v.clone();
    proof {
        assert(r@ =~= v@);
    }
    r
}

/// Copy an entry key.
pub fn clone_key(k: &EntryKey) -> (r: EntryKey)
    ensures
        r@ == k@,
{
    EntryKey { row: clone_bytes(&k.row), column: clone_bytes(&k.column), timestamp: k.timestamp }
}

/// Copy a cell value.
pub fn clone_cell(c: &CellValue) -> (r: CellValue)
    ensures
        r@ == c@,
{
    match c {
        CellValue::Put(data) => CellValue::Put(clone_bytes(data)),
        CellValue::Delete(ttl) => CellValue::Delete(*ttl),
    }
}

/// Copy an entry.
pub fn clone_entry(e: &Entry) -> (r: Entry)
    ensures
        r@ == e@,
{
    Entry { key: clone_key(&e.key), value: clone_cell(&e.value) }
}

} // verus!
