//! On-disk tables: immutable sorted runs of entries.
//!
//! A table's bytes are `[u32 BE count]` followed by the framed bytes of
//! each entry in key order.  The writer turns a sorted entry list into
//! those bytes; the reader parses them back and answers the same point,
//! version and range queries as the in-memory map.  Reading and writing
//! the actual files is left to the embedding program.

use vstd::prelude::*;

use crate::bytes::{bytes_eq, bytes_le};
use crate::codec::{be32, decode_entry_at, encode_entry, entry_bytes, entry_wf,
    lemma_be32_roundtrip};
use crate::memstore::{distinct_rows_of, entries_model, pairs_model, row_list_exact, rows_model,
    versions_model};
use crate::model::{cell_entries, cell_versions, in_range, in_row, is_cell, latest_cell,
    lemma_filter_all_false, lemma_filter_last_match, lemma_filter_take_step, sorted_weak};
use crate::types::{clone_cell, clone_key, key_le, CellValue, Column, Entry, EntryKey, EntryModel,
    Timestamp};

verus! {

/// The concatenated framed bytes of a run of entries.
pub open spec fn sst_stream(es: Seq<EntryModel>) -> Seq<u8>
    decreases es.len(),
{
    if es.len() == 0 {
        Seq::<u8>::empty()
    } else {
        sst_stream(es.drop_last()) + entry_bytes(es.last())
    }
}

/// The bytes of a whole table file: the entry count, then the entries.
pub open spec fn sst_file(es: Seq<EntryModel>) -> Seq<u8> {
    be32(es.len() as u32) + sst_stream(es)
}

/// Every entry fits its length prefixes and the count fits its field.
pub open spec fn sst_wf(es: Seq<EntryModel>) -> bool {
    es.len() <= u32::MAX && forall|i: int| 0 <= i < es.len() ==> entry_wf(#[trigger] es[i])
}

/// The bytes `b` are the file of the well-formed sorted run `es`.
pub open spec fn sst_match(b: Seq<u8>, es: Seq<EntryModel>) -> bool {
    sst_wf(es) && sorted_weak(es) && b == sst_file(es)
}

/// A run's bytes split into the bytes of its prefix and the rest.
pub proof fn lemma_sst_stream_split(es: Seq<EntryModel>, k: int)
    requires
        0 <= k <= es.len(),
    ensures
        sst_stream(es) == sst_stream(es.take(k)) + sst_stream(es.skip(k)),
    decreases es.len(),
{
    if k == es.len() {
        assert(es.take(k) =~= es);
        assert(es.skip(k) =~= Seq::<EntryModel>::empty());
        assert(sst_stream(es) =~= sst_stream(es.take(k)) + sst_stream(es.skip(k)));
    } else {
        lemma_sst_stream_split(es.drop_last(), k);
        assert(es.drop_last().take(k) =~= es.take(k));
        assert(es.drop_last().skip(k) =~= es.skip(k).drop_last());
        assert(es.skip(k).last() == es.last());
        assert(sst_stream(es.take(k)) + (sst_stream(es.skip(k).drop_last()) + entry_bytes(
            es.last(),
        )) =~= (sst_stream(es.take(k)) + sst_stream(es.skip(k).drop_last())) + entry_bytes(
            es.last(),
        ));
    }
}

/// Extending a run's prefix by one entry appends that entry's bytes.
pub proof fn lemma_sst_stream_step(es: Seq<EntryModel>, k: int)
    requires
        0 <= k < es.len(),
    ensures
        sst_stream(es.take(k + 1)) == sst_stream(es.take(k)) + entry_bytes(es[k]),
{
    assert(es.take(k + 1).drop_last() =~= es.take(k));
    assert(es.take(k + 1).last() == es[k]);
}

/// Where `k` entries of the run have been parsed up to `pos`, the bytes
/// of the `k`-th entry sit at `pos`.
proof fn sst_record_position(b: Seq<u8>, es: Seq<EntryModel>, k: int, pos: int)
    requires
        sst_match(b, es),
        0 <= k < es.len(),
        pos == 4 + sst_stream(es.take(k)).len(),
    ensures
        pos + entry_bytes(es[k]).len() <= b.len(),
        b.subrange(pos, pos + entry_bytes(es[k]).len()) == entry_bytes(es[k]),
        entry_wf(es[k]),
{
    lemma_sst_stream_split(es, k);
    lemma_sst_stream_step(es, k);
    lemma_sst_stream_split(es, k + 1);
    assert(b == be32(es.len() as u32) + (sst_stream(es.take(k)) + entry_bytes(es[k]) + sst_stream(
        es.skip(k + 1),
    )));
    let eb = entry_bytes(es[k]);
    assert forall|i: int| 0 <= i < eb.len() implies b[pos + i] == eb[i] by {
        assert(b[pos + i] == (be32(es.len() as u32) + (sst_stream(es.take(k)) + entry_bytes(
            es[k],
        ) + sst_stream(es.skip(k + 1))))[pos + i]);
    }
    assert(b.subrange(pos, pos + eb.len()) =~= eb);
}

/// An on-disk table writer.
pub struct SSTable;

impl SSTable {
    /// Serialize a run of entries into a table file's bytes, or nothing
    /// when an entry or the count exceeds a `u32` length field.
    pub fn create(entries: &Vec<Entry>) -> (r: Option<Vec<u8>>)
        ensures
            match r {
                Some(v) => sst_wf(entries_model(entries@)) && v@ == sst_file(
                    entries_model(entries@),
                ),
                None => !sst_wf(entries_model(entries@)),
            },
    {
        let ghost es = entries_model(entries@);
        let n = entries.len();
        if n > 0xFFFF_FFFFusize {
            return None;
        }
        let mut out: Vec<u8> = Vec::new();
        crate::codec::push_be32(&mut out, n as u32);
        let mut i: usize = 0;
        proof {
            assert(es.take(0) =~= Seq::<EntryModel>::empty());
            assert(out@ =~= be32(n as u32) + sst_stream(es.take(0)));
        }
        while i < n
            invariant
                0 <= i <= n,
                n == entries@.len(),
                n <= 0xFFFF_FFFFusize,
                es == entries_model(entries@),
                forall|j: int| 0 <= j < i ==> entry_wf(#[trigger] es[j]),
                out@ == be32(n as u32) + sst_stream(es.take(i as int)),
            decreases n - i,
        {
            let enc = encode_entry(&entries[i]);
            match enc {
                None => {
                    proof {
                        assert(!entry_wf(es[i as int]));
                    }
                    return None;
                },
                Some(mut eb) => {
                    let ghost out0 = out@;
                    out.append(&mut eb);
                    proof {
                        lemma_sst_stream_step(es, i as int);
                        assert(out@ =~= be32(n as u32) + sst_stream(es.take(i + 1)));
                    }
                },
            }
            i = i + 1;
        }
        proof {
            assert(es.take(n as int) =~= es);
        }
        Some(out)
    }
}

/// A parsed on-disk table: its entries, in key order.
pub struct SSTableReader {
    entries: Vec<Entry>,
}

impl View for SSTableReader {
    type V = Seq<EntryModel>;

    closed spec fn view(&self) -> Seq<EntryModel> {
        entries_model(self.entries@)
    }
}

impl SSTableReader {
    /// The table's entries are sorted by key; equal keys may repeat.
    pub open spec fn wf(&self) -> bool {
        sorted_weak(self@)
    }

    /// Wrap an already sorted run of entries, as a flush or a compaction
    /// hands it over.
    pub fn from_entries(entries: Vec<Entry>) -> (r: SSTableReader)
        requires
            sorted_weak(entries_model(entries@)),
        ensures
            r.wf(),
            r@ == entries_model(entries@),
    {
        SSTableReader { entries }
    }

    /// Parse a table file.  Whatever well-formed sorted run the bytes
    /// are, a reader holding exactly its entries comes back; bytes that
    /// parse but are out of key order are rejected.
    pub fn open(b: &[u8]) -> (r: Option<SSTableReader>)
        ensures
            forall|es: Seq<EntryModel>|
                #[trigger] sst_match(b@, es) ==> (r matches Some(t) && t@ == es),
            r matches Some(t) ==> t.wf(),
    {
        let n = b.len();
        if n < 4 {
            proof {
                assert forall|es: Seq<EntryModel>| #[trigger] sst_match(b@, es) implies false by {
                    assert(b@.len() >= 4);
                }
            }
            return None;
        }
        let count_u32 = crate::codec::read_be32(b, 0);
        let count = count_u32 as usize;
        proof {
            assert forall|es: Seq<EntryModel>| #[trigger] sst_match(b@, es) implies es.len()
                == count by {
                lemma_be32_roundtrip(es.len() as u32);
                assert(b@.subrange(0, 4) =~= be32(es.len() as u32));
            }
        }
        let mut out: Vec<Entry> = Vec::new();
        let mut pos: usize = 4;
        let mut k: usize = 0;
        proof {
            assert(entries_model(out@) =~= Seq::<EntryModel>::empty());
            assert forall|es: Seq<EntryModel>| #[trigger] sst_match(b@, es) implies pos == 4
                + sst_stream(es.take(0)).len() by {
                assert(es.take(0) =~= Seq::<EntryModel>::empty());
            }
        }
        while k < count
            invariant
                0 <= k <= count,
                count == count_u32 as usize,
                n == b@.len(),
                pos <= n,
                entries_model(out@).len() == k,
                forall|es: Seq<EntryModel>|
                    #[trigger] sst_match(b@, es) ==> es.len() == count && entries_model(out@)
                        == es.take(k as int) && pos == 4 + sst_stream(es.take(k as int)).len(),
            decreases count - k,
        {
            let ghost out0 = entries_model(out@);
            let parsed = decode_entry_at(b, pos);
            match parsed {
                None => {
                    proof {
                        assert forall|es: Seq<EntryModel>| #[trigger] sst_match(b@, es) implies
                            false by {
                            sst_record_position(b@, es, k as int, pos as int);
                        }
                    }
                    return None;
                },
                Some((ent, newpos)) => {
                    out.push(ent);
                    pos = newpos;
                    proof {
                        assert(entries_model(out@) =~= out0.push(ent@));
                        assert forall|es: Seq<EntryModel>| #[trigger] sst_match(b@, es) implies
                            es.len() == count && entries_model(out@) == es.take(k + 1) && pos == 4
                            + sst_stream(es.take(k + 1)).len() by {
                            sst_record_position(b@, es, k as int, (4 + sst_stream(
                                es.take(k as int),
                            ).len()) as int);
                            assert(ent@ == es[k as int]);
                            lemma_sst_stream_step(es, k as int);
                            assert(entries_model(out@) =~= es.take(k + 1));
                        }
                    }
                    k = k + 1;
                },
            }
        }
        let sorted_ok = check_sorted(&out);
        proof {
            assert forall|es: Seq<EntryModel>| #[trigger] sst_match(b@, es) implies entries_model(
                out@,
            ) == es && sorted_ok by {
                assert(es.take(count as int) =~= es);
            }
        }
        if sorted_ok {
            Some(SSTableReader { entries: out })
        } else {
            None
        }
    }

    /// Number of entries in the table.
    pub fn len(&self) -> (r: usize)
        ensures
            r == self@.len(),
    {
        self.entries.len()
    }

    /// The newest value of `(row, column)` in this table: the last match
    /// in key order, or nothing.
    pub fn get_full(&self, row: &[u8], column: &[u8]) -> (r: Option<CellValue>)
        requires
            self.wf(),
        ensures
            match r {
                Some(c) => latest_cell(self@, row@, column@) == Some(c@),
                None => latest_cell(self@, row@, column@) is None,
            },
    {
        let ghost pred = |e: EntryModel| is_cell(e, row@, column@);
        let mut i: usize = self.entries.len();
        while i > 0
            invariant
                0 <= i <= self@.len(),
                self@.len() == self.entries@.len(),
                forall|j: int| i <= j < self@.len() ==> !pred(#[trigger] self@[j]),
                pred == (|e: EntryModel| is_cell(e, row@, column@)),
            decreases i,
        {
            i = i - 1;
            let ent = &self.entries[i];
            if bytes_eq(ent.key.row.as_slice(), row) && bytes_eq(ent.key.column.as_slice(), column) {
                proof {
                    lemma_filter_last_match(self@, pred, i as int);
                }
                return Some(clone_cell(&ent.value));
            }
        }
        proof {
            lemma_filter_all_false(self@, pred);
        }
        None
    }

    /// All versions of `(row, column)` in this table with their
    /// timestamps, newest first.
    pub fn get_versions_full(&self, row: &[u8], column: &[u8]) -> (r: Vec<(Timestamp, CellValue)>)
        requires
            self.wf(),
        ensures
            versions_model(r@) == cell_versions(self@, row@, column@).reverse(),
    {
        let ghost pred = |e: EntryModel| is_cell(e, row@, column@);
        let n = self.entries.len();
        let mut r: Vec<(Timestamp, CellValue)> = Vec::new();
        let mut i: usize = n;
        proof {
            assert(self@.skip(n as int) =~= Seq::<EntryModel>::empty());
            reveal(Seq::filter);
            assert(versions_model(r@) =~= cell_versions(self@.skip(n as int), row@, column@)
                .reverse());
        }
        while i > 0
            invariant
                0 <= i <= self@.len(),
                self@.len() == self.entries@.len(),
                versions_model(r@) == cell_versions(self@.skip(i as int), row@, column@).reverse(),
            decreases i,
        {
            let ghost r0 = r@;
            i = i - 1;
            let ent = &self.entries[i];
            proof {
                assert(self@.skip(i as int) =~= seq![self@[i as int]] + self@.skip(i + 1));
                Seq::filter_distributes_over_add(
                    seq![self@[i as int]],
                    self@.skip(i + 1),
                    |e: EntryModel| is_cell(e, row@, column@),
                );
                reveal(Seq::filter);
                assert(Seq::<EntryModel>::empty().filter(
                    |e: EntryModel| is_cell(e, row@, column@),
                ) =~= Seq::<EntryModel>::empty());
                assert(seq![self@[i as int]].drop_last() =~= Seq::<EntryModel>::empty());
            }
            if bytes_eq(ent.key.row.as_slice(), row) && bytes_eq(ent.key.column.as_slice(), column) {
                r.push((ent.key.timestamp, clone_cell(&ent.value)));
                proof {
                    assert(versions_model(r@) =~= versions_model(r0).push(
                        (ent.key.timestamp, ent.value@),
                    ));
                    assert(cell_entries(self@.skip(i as int), row@, column@)
                        =~= seq![self@[i as int]] + cell_entries(self@.skip(i + 1), row@, column@));
                    assert(cell_versions(self@.skip(i as int), row@, column@) =~= seq![
                        (ent.key.timestamp, ent.value@),
                    ] + cell_versions(self@.skip(i + 1), row@, column@));
                    assert(cell_versions(self@.skip(i as int), row@, column@).reverse()
                        =~= cell_versions(self@.skip(i + 1), row@, column@).reverse().push(
                        (ent.key.timestamp, ent.value@),
                    ));
                }
            } else {
                proof {
                    assert(cell_entries(self@.skip(i as int), row@, column@) =~= cell_entries(
                        self@.skip(i + 1),
                        row@,
                        column@,
                    ));
                }
            }
        }
        proof {
            assert(self@.skip(0) =~= self@);
        }
        r
    }

    /// All entries of one row as `(column, timestamp, value)` triples, in
    /// key order.
    pub fn scan_row_full(&self, row: &[u8]) -> (r: Vec<(Column, Timestamp, CellValue)>)
        requires
            self.wf(),
        ensures
            triples_model_at(r@, row@) == self@.filter(|e: EntryModel| in_row(e, row@)),
    {
        let ghost pred = |e: EntryModel| in_row(e, row@);
        let ghost rowg = row@;
        let n = self.entries.len();
        let mut r: Vec<(Column, Timestamp, CellValue)> = Vec::new();
        proof {
            assert(self@.take(0) =~= Seq::<EntryModel>::empty());
            reveal(Seq::filter);
            assert(triples_model_at(r@, rowg) =~= self@.take(0).filter(pred));
        }
        let mut i: usize = 0;
        while i < n
            invariant
                0 <= i <= self@.len(),
                n == self@.len(),
                self@.len() == self.entries@.len(),
                triples_model_at(r@, rowg) == self@.take(i as int).filter(pred),
                pred == (|e: EntryModel| in_row(e, rowg)),
                rowg == row@,
            decreases n - i,
        {
            let ghost r0 = r@;
            let ent = &self.entries[i];
            proof {
                lemma_filter_take_step(self@, pred, i as int);
            }
            if bytes_eq(ent.key.row.as_slice(), row) {
                r.push((clone_bytes_local(&ent.key.column), ent.key.timestamp, clone_cell(
                    &ent.value,
                )));
                proof {
                    assert(triples_model_at(r@, rowg) =~= triples_model_at(r0, rowg).push(
                        self@[i as int],
                    ));
                }
            }
            i = i + 1;
        }
        proof {
            assert(self@.take(n as int) =~= self@);
        }
        r
    }

    /// Every `(key, value)` pair of the table, in key order.
    pub fn scan_all(&self) -> (r: Vec<(EntryKey, CellValue)>)
        ensures
            pairs_model(r@) == self@,
    {
        let n = self.entries.len();
        let mut r: Vec<(EntryKey, CellValue)> = Vec::new();
        let mut i: usize = 0;
        proof {
            assert(pairs_model(r@) =~= self@.take(0));
        }
        while i < n
            invariant
                0 <= i <= n,
                n == self@.len(),
                self@.len() == self.entries@.len(),
                pairs_model(r@) == self@.take(i as int),
            decreases n - i,
        {
            let ghost r0 = r@;
            let ent = &self.entries[i];
            r.push((clone_key(&ent.key), clone_cell(&ent.value)));
            proof {
                assert(pairs_model(r@) =~= pairs_model(r0).push(self@[i as int]));
                assert(self@.take(i + 1) =~= self@.take(i as int).push(self@[i as int]));
            }
            i = i + 1;
        }
        proof {
            assert(self@.take(n as int) =~= self@);
        }
        r
    }

    /// All entries whose row lies in the inclusive range `[lo, hi]`, in
    /// key order.
    pub fn scan_range(&self, start_row: &[u8], end_row: &[u8]) -> (r: Vec<(EntryKey, CellValue)>)
        requires
            self.wf(),
        ensures
            pairs_model(r@) == self@.filter(|e: EntryModel| in_range(e, start_row@, end_row@)),
    {
        let ghost pred = |e: EntryModel| in_range(e, start_row@, end_row@);
        let n = self.entries.len();
        let mut r: Vec<(EntryKey, CellValue)> = Vec::new();
        proof {
            assert(self@.take(0) =~= Seq::<EntryModel>::empty());
            reveal(Seq::filter);
            assert(pairs_model(r@) =~= self@.take(0).filter(pred));
        }
        let mut i: usize = 0;
        while i < n
            invariant
                0 <= i <= self@.len(),
                n == self@.len(),
                self@.len() == self.entries@.len(),
                pairs_model(r@) == self@.take(i as int).filter(pred),
                pred == (|e: EntryModel| in_range(e, start_row@, end_row@)),
            decreases n - i,
        {
            let ghost r0 = r@;
            let ent = &self.entries[i];
            proof {
                lemma_filter_take_step(self@, pred, i as int);
            }
            if bytes_le(start_row, ent.key.row.as_slice()) && bytes_le(
                ent.key.row.as_slice(),
                end_row,
            ) {
                r.push((clone_key(&ent.key), clone_cell(&ent.value)));
                proof {
                    assert(pairs_model(r@) =~= pairs_model(r0).push(self@[i as int]));
                }
            }
            i = i + 1;
        }
        proof {
            assert(self@.take(n as int) =~= self@);
        }
        r
    }

    /// The distinct row keys in the inclusive range `[lo, hi]`, in
    /// ascending order.
    pub fn get_row_keys_in_range(&self, start_row: &[u8], end_row: &[u8]) -> (r: Vec<Vec<u8>>)
        requires
            self.wf(),
        ensures
            row_list_exact(rows_model(r@), self@, start_row@, end_row@),
    {
        let pairs = self.scan_range(start_row, end_row);
        distinct_rows_of(pairs, Ghost(self@), Ghost(start_row@), Ghost(end_row@))
    }
}

/// The model of a `(column, timestamp, value)` triple list, all in row
/// `row`.
pub open spec fn triples_model_at(
    v: Seq<(Column, Timestamp, CellValue)>,
    row: Seq<u8>,
) -> Seq<EntryModel> {
    v.map_values(
        |t: (Column, Timestamp, CellValue)| EntryModel {
            key: crate::types::KeyModel { row: row, column: t.0@, timestamp: t.1 },
            value: t.2@,
        },
    )
}

/// Copy a byte string.
fn clone_bytes_local(v: &Vec<u8>) -> (r: Vec<u8>)
    ensures
        r@ == v@,
{
    crate::types::clone_bytes(v)
}

/// The run is sorted by key, duplicates allowed.
fn check_sorted(entries: &Vec<Entry>) -> (r: bool)
    ensures
        r == sorted_weak(entries_model(entries@)),
{
    let ghost es = entries_model(entries@);
    let n = entries.len();
    if n == 0 {
        return true;
    }
    let mut i: usize = 0;
    while i < n - 1
        invariant
            0 <= i <= n - 1,
            n == entries@.len(),
            n >= 1,
            es == entries_model(entries@),
            forall|j: int| 0 <= j < i ==> key_le(#[trigger] es[j].key, es[j + 1].key),
        decreases n - i,
    {
        if crate::types::key_cmp(&entries[i].key, &entries[i + 1].key) == 1 {
            proof {
                crate::types::lemma_key_trichotomy(es[i as int].key, es[i + 1].key);
            }
            return false;
        }
        proof {
            crate::types::lemma_key_trichotomy(es[i as int].key, es[i + 1].key);
        }
        i = i + 1;
    }
    proof {
        lemma_adjacent_sorted_weak(es);
    }
    true
}

/// Pairwise order between neighbours gives order between all pairs.
proof fn lemma_adjacent_sorted_weak(s: Seq<EntryModel>)
    requires
        forall|j: int| 0 <= j < s.len() - 1 ==> key_le(#[trigger] s[j].key, s[j + 1].key),
    ensures
        sorted_weak(s),
{
    assert forall|i: int, j: int| 0 <= i < j < s.len() implies key_le(
        #[trigger] s[i].key,
        #[trigger] s[j].key,
    ) by {
        lemma_le_chain(s, i, j);
    }
}

/// Order accumulates along a chain of neighbours.
proof fn lemma_le_chain(s: Seq<EntryModel>, i: int, j: int)
    requires
        forall|k: int| 0 <= k < s.len() - 1 ==> key_le(#[trigger] s[k].key, s[k + 1].key),
        0 <= i < j < s.len(),
    ensures
        key_le(s[i].key, s[j].key),
    decreases j - i,
{
    if i + 1 == j {
        assert(key_le(s[i].key, s[i + 1].key));
    } else {
        lemma_le_chain(s, i, j - 1);
        assert(key_le(s[j - 1].key, s[j].key));
        if crate::types::key_lt(s[i].key, s[j - 1].key) && crate::types::key_lt(
            s[j - 1].key,
            s[j].key,
        ) {
            crate::types::lemma_key_transitive(s[i].key, s[j - 1].key, s[j].key);
        }
    }
}

} // verus!
