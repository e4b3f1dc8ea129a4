//! The in-memory side of a column family: a key-sorted map of recent
//! writes.
//!
//! Entries are held in a vector kept strictly sorted by key, so the map is
//! also the sorted run that a flush turns into an on-disk table.  The
//! write-ahead framing that makes these entries durable lives in the codec
//! module; replaying a recovered log is inserting its entries in order.

use vstd::prelude::*;

use crate::bytes::{bytes_eq, bytes_le, lex_le, lex_lt};
use crate::model::{cell_entries, cell_versions, in_range, in_row, is_cell, latest_cell,
    lemma_filter_all_false, lemma_filter_last_match, lemma_filter_take_step, lemma_map_insert_at,
    lemma_map_insert_sorted, map_insert, sorted_strict};
use crate::types::{clone_cell, clone_entry, clone_key, key_lt, CellModel, CellValue, Entry,
    EntryKey, EntryModel, Timestamp};

verus! {

/// The model of an option of a borrowed cell value.
pub open spec fn opt_cell_model(r: Option<&CellValue>) -> Option<CellModel> {
    match r {
        Some(c) => Some(c@),
        None => None,
    }
}

/// The model of a `(timestamp, value)` version list.
pub open spec fn versions_model(v: Seq<(Timestamp, CellValue)>) -> Seq<(u64, CellModel)> {
    v.map_values(|p: (Timestamp, CellValue)| (p.0, p.1@))
}

/// The model of a `(key, value)` pair list.
pub open spec fn pairs_model(v: Seq<(EntryKey, CellValue)>) -> Seq<EntryModel> {
    v.map_values(|p: (EntryKey, CellValue)| EntryModel { key: p.0@, value: p.1@ })
}

/// The model of a list of entries.
pub open spec fn entries_model(v: Seq<Entry>) -> Seq<EntryModel> {
    v.map_values(|e: Entry| e@)
}

/// The model of a list of row keys.
pub open spec fn rows_model(v: Seq<Vec<u8>>) -> Seq<Seq<u8>> {
    v.map_values(|r: Vec<u8>| r@)
}

/// An in-memory map from entry keys to cell values, kept sorted by key.
pub struct MemStore {
    entries: Vec<Entry>,
}

impl View for MemStore {
    type V = Seq<EntryModel>;

    closed spec fn view(&self) -> Seq<EntryModel> {
        entries_model(self.entries@)
    }
}

impl MemStore {
    /// The map's entries are strictly sorted by key.
    pub open spec fn wf(&self) -> bool {
        sorted_strict(self@)
    }

    /// An empty map.
    pub fn new() -> (r: MemStore)
        ensures
            r.wf(),
            r@ == Seq::<EntryModel>::empty(),
    {
        let r = MemStore { entries: Vec::new() };
        proof {
            assert(r@ =~= Seq::<EntryModel>::empty());
        }
        r
    }

    /// Number of entries in the map.
    pub fn len(&self) -> (r: usize)
        ensures
            r == self@.len(),
    {
        self.entries.len()
    }

    /// Whether the map holds no entry.
    pub fn is_empty(&self) -> (r: bool)
        ensures
            r == (self@.len() == 0),
    {
        self.entries.len() == 0
    }

    /// The first position whose key is not below `key`.
    fn lower_bound(&self, key: &EntryKey) -> (i: usize)
        requires
            self.wf(),
        ensures
            0 <= i <= self@.len(),
            forall|j: int| 0 <= j < i ==> key_lt(#[trigger] self@[j].key, key@),
            forall|j: int| i <= j < self@.len() ==> !key_lt(#[trigger] self@[j].key, key@),
    {
        let mut lo: usize = 0;
        let mut hi: usize = self.entries.len();
        while lo < hi
            invariant
                0 <= lo <= hi <= self@.len(),
                self.wf(),
                self@.len() == self.entries@.len(),
                forall|j: int| 0 <= j < lo ==> key_lt(#[trigger] self@[j].key, key@),
                forall|j: int| hi <= j < self@.len() ==> !key_lt(#[trigger] self@[j].key, key@),
            decreases hi - lo,
        {
            let mid = lo + (hi - lo) / 2;
            let c = crate::types::key_cmp(&self.entries[mid].key, key);
            if c == -1 {
                proof {
                    assert forall|j: int| 0 <= j < mid + 1 implies key_lt(
                        #[trigger] self@[j].key,
                        key@,
                    ) by {
                        if j < mid {
                            assert(key_lt(self@[j].key, self@[mid as int].key));
                            crate::types::lemma_key_transitive(
                                self@[j].key,
                                self@[mid as int].key,
                                key@,
                            );
                        }
                    }
                }
                lo = mid + 1;
            } else {
                proof {
                    assert forall|j: int| mid <= j < self@.len() implies !key_lt(
                        #[trigger] self@[j].key,
                        key@,
                    ) by {
                        if j > mid {
                            assert(key_lt(self@[mid as int].key, self@[j].key));
                            if key_lt(self@[j].key, key@) {
                                crate::types::lemma_key_transitive(
                                    self@[mid as int].key,
                                    self@[j].key,
                                    key@,
                                );
                            }
                        }
                    }
                }
                hi = mid;
            }
        }
        lo
    }

    /// Insert one entry; an entry with the same key is overwritten.
    pub fn insert(&mut self, e: Entry)
        requires
            old(self).wf(),
        ensures
            final(self).wf(),
            final(self)@ == map_insert(old(self)@, e@),
    {
        let ghost s = self@;
        let i = self.lower_bound(&e.key);
        proof {
            lemma_map_insert_at(s, e@, i as int);
            lemma_map_insert_sorted(s, e@, i as int);
        }
        if i < self.entries.len() && crate::types::key_cmp(&self.entries[i].key, &e.key) == 0 {
            self.entries.set(i, e);
            proof {
                assert(self@ =~= s.update(i as int, e@));
            }
        } else {
            proof {
                if i < s.len() {
                    crate::types::lemma_key_trichotomy(s[i as int].key, e@.key);
                }
            }
            self.entries.insert(i, e);
            proof {
                assert(self@ =~= s.subrange(0, i as int) + seq![e@] + s.skip(i as int));
            }
        }
    }

    /// The newest value of `(row, column)`, or nothing when the cell is
    /// absent from the map.
    pub fn get_full(&self, row: &[u8], column: &[u8]) -> (r: Option<&CellValue>)
        requires
            self.wf(),
        ensures
            opt_cell_model(r) == latest_cell(self@, row@, column@),
    {
        let ghost pred = |e: EntryModel| is_cell(e, row@, column@);
        let mut i: usize = self.entries.len();
        while i > 0
            invariant
                0 <= i <= self@.len(),
                self@.len() == self.entries@.len(),
                forall|j: int| i <= j < self@.len() ==> !pred(#[trigger] self@[j]),
                pred == (|e: EntryModel| is_cell(e, row@, column@)),
            decreases i,
        {
            i = i - 1;
            let ent = &self.entries[i];
            if bytes_eq(ent.key.row.as_slice(), row) && bytes_eq(ent.key.column.as_slice(), column) {
                proof {
                    lemma_filter_last_match(self@, pred, i as int);
                }
                return Some(&ent.value);
            }
        }
        proof {
            lemma_filter_all_false(self@, pred);
        }
        None
    }

    /// All versions of `(row, column)` with their timestamps, newest
    /// first.
    pub fn get_versions_full(&self, row: &[u8], column: &[u8]) -> (r: Vec<(Timestamp, CellValue)>)
        requires
            self.wf(),
        ensures
            versions_model(r@) == cell_versions(self@, row@, column@).reverse(),
    {
        let ghost pred = |e: EntryModel| is_cell(e, row@, column@);
        let n = self.entries.len();
        let mut r: Vec<(Timestamp, CellValue)> = Vec::new();
        let mut i: usize = n;
        proof {
            assert(self@.skip(n as int) =~= Seq::<EntryModel>::empty());
            reveal(Seq::filter);
            assert(versions_model(r@) =~= cell_versions(self@.skip(n as int), row@, column@)
                .reverse());
        }
        while i > 0
            invariant
                0 <= i <= self@.len(),
                self@.len() == self.entries@.len(),
                versions_model(r@) == cell_versions(self@.skip(i as int), row@, column@).reverse(),
            decreases i,
        {
            let ghost r0 = r@;
            i = i - 1;
            let ent = &self.entries[i];
            proof {
                assert(self@.skip(i as int) =~= seq![self@[i as int]] + self@.skip(i + 1));
                Seq::filter_distributes_over_add(
                    seq![self@[i as int]],
                    self@.skip(i + 1),
                    |e: EntryModel| is_cell(e, row@, column@),
                );
                reveal(Seq::filter);
                assert(Seq::<EntryModel>::empty().filter(
                    |e: EntryModel| is_cell(e, row@, column@),
                ) =~= Seq::<EntryModel>::empty());
                assert(seq![self@[i as int]].drop_last() =~= Seq::<EntryModel>::empty());
            }
            if bytes_eq(ent.key.row.as_slice(), row) && bytes_eq(ent.key.column.as_slice(), column) {
                r.push((ent.key.timestamp, clone_cell(&ent.value)));
                proof {
                    assert(versions_model(r@) =~= versions_model(r0).push(
                        (ent.key.timestamp, ent.value@),
                    ));
                    assert(cell_entries(self@.skip(i as int), row@, column@)
                        =~= seq![self@[i as int]] + cell_entries(self@.skip(i + 1), row@, column@));
                    assert(cell_versions(self@.skip(i as int), row@, column@) =~= seq![
                        (ent.key.timestamp, ent.value@),
                    ] + cell_versions(self@.skip(i + 1), row@, column@));
                    assert(cell_versions(self@.skip(i as int), row@, column@).reverse()
                        =~= cell_versions(self@.skip(i + 1), row@, column@).reverse().push(
                        (ent.key.timestamp, ent.value@),
                    ));
                }
            } else {
                proof {
                    assert(cell_entries(self@.skip(i as int), row@, column@) =~= cell_entries(
                        self@.skip(i + 1),
                        row@,
                        column@,
                    ));
                }
            }
        }
        proof {
            assert(self@.skip(0) =~= self@);
        }
        r
    }

    /// Copy every entry in key order, leaving the map unchanged.
    pub fn to_entries(&self) -> (r: Vec<Entry>)
        ensures
            entries_model(r@) == self@,
    {
        let n = self.entries.len();
        let mut out: Vec<Entry> = Vec::new();
        let mut i: usize = 0;
        proof {
            assert(entries_model(out@) =~= self@.take(0));
        }
        while i < n
            invariant
                0 <= i <= n,
                n == self.entries@.len(),
                self@.len() == n,
                entries_model(out@) == self@.take(i as int),
                out@.len() == i,
            decreases n - i,
        {
            let ghost out0 = out@;
            let e = clone_entry(&self.entries[i]);
            out.push(e);
            proof {
                assert forall|k: int| 0 <= k < i + 1 implies #[trigger] entries_model(out@)[k]
                    == self@.take(i + 1)[k] by {
                    if k < i {
                        assert(out@[k] == out0[k]);
                        assert(entries_model(out0)[k] == self@.take(i as int)[k]);
                    } else {
                        assert(out@[k]@ == self@[i as int]);
                    }
                }
                assert(entries_model(out@) =~= self@.take(i + 1));
            }
            i = i + 1;
        }
        proof {
            assert(self@.take(n as int) =~= self@);
        }
        out
    }

    /// Hand out every entry in key order and clear the map.
    pub fn drain_all(&mut self) -> (r: Vec<Entry>)
        requires
            old(self).wf(),
        ensures
            final(self).wf(),
            final(self)@ == Seq::<EntryModel>::empty(),
            entries_model(r@) == old(self)@,
    {
        let mut out: Vec<Entry> = Vec::new();
        core::mem::swap(&mut out, &mut self.entries);
        proof {
            assert(self@ =~= Seq::<EntryModel>::empty());
        }
        out
    }

    /// All entries of one row, in key order.
    pub fn scan_row_full(&self, row: &[u8]) -> (r: Vec<(EntryKey, CellValue)>)
        requires
            self.wf(),
        ensures
            pairs_model(r@) == self@.filter(|e: EntryModel| in_row(e, row@)),
    {
        let ghost pred = |e: EntryModel| in_row(e, row@);
        let n = self.entries.len();
        let mut r: Vec<(EntryKey, CellValue)> = Vec::new();
        proof {
            assert(self@.take(0) =~= Seq::<EntryModel>::empty());
            reveal(Seq::filter);
            assert(pairs_model(r@) =~= self@.take(0).filter(pred));
        }
        let mut i: usize = 0;
        while i < n
            invariant
                0 <= i <= self@.len(),
                n == self@.len(),
                self@.len() == self.entries@.len(),
                pairs_model(r@) == self@.take(i as int).filter(pred),
                pred == (|e: EntryModel| in_row(e, row@)),
            decreases n - i,
        {
            let ghost r0 = r@;
            let ent = &self.entries[i];
            proof {
                lemma_filter_take_step(self@, pred, i as int);
            }
            if bytes_eq(ent.key.row.as_slice(), row) {
                r.push((clone_key(&ent.key), clone_cell(&ent.value)));
                proof {
                    assert(pairs_model(r@) =~= pairs_model(r0).push(self@[i as int]));
                }
            }
            i = i + 1;
        }
        proof {
            assert(self@.take(n as int) =~= self@);
        }
        r
    }

    /// All entries whose row lies in the inclusive range `[lo, hi]`, in
    /// key order.
    pub fn scan_range(&self, start_row: &[u8], end_row: &[u8]) -> (r: Vec<(EntryKey, CellValue)>)
        requires
            self.wf(),
        ensures
            pairs_model(r@) == self@.filter(|e: EntryModel| in_range(e, start_row@, end_row@)),
    {
        let ghost pred = |e: EntryModel| in_range(e, start_row@, end_row@);
        let n = self.entries.len();
        let mut r: Vec<(EntryKey, CellValue)> = Vec::new();
        proof {
            assert(self@.take(0) =~= Seq::<EntryModel>::empty());
            reveal(Seq::filter);
            assert(pairs_model(r@) =~= self@.take(0).filter(pred));
        }
        let mut i: usize = 0;
        while i < n
            invariant
                0 <= i <= self@.len(),
                n == self@.len(),
                self@.len() == self.entries@.len(),
                pairs_model(r@) == self@.take(i as int).filter(pred),
                pred == (|e: EntryModel| in_range(e, start_row@, end_row@)),
            decreases n - i,
        {
            let ghost r0 = r@;
            let ent = &self.entries[i];
            proof {
                lemma_filter_take_step(self@, pred, i as int);
            }
            if bytes_le(start_row, ent.key.row.as_slice()) && bytes_le(
                ent.key.row.as_slice(),
                end_row,
            ) {
                r.push((clone_key(&ent.key), clone_cell(&ent.value)));
                proof {
                    assert(pairs_model(r@) =~= pairs_model(r0).push(self@[i as int]));
                }
            }
            i = i + 1;
        }
        proof {
            assert(self@.take(n as int) =~= self@);
        }
        r
    }

    /// The distinct row keys in the inclusive range `[lo, hi]`, in
    /// ascending order.
    pub fn get_row_keys_in_range(&self, start_row: &[u8], end_row: &[u8]) -> (r: Vec<Vec<u8>>)
        requires
            self.wf(),
        ensures
            row_list_exact(rows_model(r@), self@, start_row@, end_row@),
    {
        proof {
            crate::model::lemma_strict_implies_weak(self@);
        }
        let pairs = self.scan_range(start_row, end_row);
        distinct_rows_of(pairs, Ghost(self@), Ghost(start_row@), Ghost(end_row@))
    }
}

/// A strictly ascending list of rows holding exactly the rows of `s` that
/// lie in `[lo, hi]`.  Strict order plus exact membership pins the list.
pub open spec fn row_list_exact(
    rows: Seq<Seq<u8>>,
    s: Seq<EntryModel>,
    lo: Seq<u8>,
    hi: Seq<u8>,
) -> bool {
    &&& forall|p: int, q: int| 0 <= p < q < rows.len() ==> lex_lt(#[trigger] rows[p], #[trigger] rows[q])
    &&& forall|p: int|
        0 <= p < rows.len() ==> exists|j: int|
            0 <= j < s.len() && in_range(#[trigger] s[j], lo, hi) && s[j].key.row
                == #[trigger] rows[p]
    &&& forall|j: int|
        0 <= j < s.len() && in_range(#[trigger] s[j], lo, hi) ==> rows.contains(s[j].key.row)
}

/// Collect the distinct rows of a key-sorted in-range pair list.
pub(crate) fn distinct_rows_of(
    pairs: Vec<(EntryKey, CellValue)>,
    src: Ghost<Seq<EntryModel>>,
    lo: Ghost<Seq<u8>>,
    hi: Ghost<Seq<u8>>,
) -> (r: Vec<Vec<u8>>)
    requires
        crate::model::sorted_weak(src@),
        pairs_model(pairs@) == src@.filter(|e: EntryModel| in_range(e, lo@, hi@)),
    ensures
        row_list_exact(rows_model(r@), src@, lo@, hi@),
{
    let ghost fs = pairs_model(pairs@);
    let ghost pred = |e: EntryModel| in_range(e, lo@, hi@);
    proof {
        lemma_filtered_sorted_weak(src@, pred);
        broadcast use vstd::seq_lib::group_filter_ensures;

    }
    let n = pairs.len();
    let mut r: Vec<Vec<u8>> = Vec::new();
    let mut i: usize = 0;
    while i < n
        invariant
            0 <= i <= n,
            n == pairs@.len(),
            fs == pairs_model(pairs@),
            fs.len() == n,
            crate::model::sorted_weak(fs),
            forall|p: int, q: int|
                0 <= p < q < rows_model(r@).len() ==> lex_lt(
                    #[trigger] rows_model(r@)[p],
                    #[trigger] rows_model(r@)[q],
                ),
            forall|p: int|
                0 <= p < rows_model(r@).len() ==> exists|j: int|
                    0 <= j < i && #[trigger] fs[j].key.row == #[trigger] rows_model(r@)[p],
            forall|j: int|
                0 <= j < i ==> rows_model(r@).contains(#[trigger] fs[j].key.row),
            i > 0 && r@.len() > 0 ==> rows_model(r@).last() == fs[i - 1].key.row,
            r@.len() > 0 ==> i > 0,
        decreases n - i,
    {
        let ghost r0 = rows_model(r@);
        let row_ref = &pairs[i].0.row;
        let is_new: bool = if r.len() == 0 {
            true
        } else {
            !bytes_eq(r[r.len() - 1].as_slice(), row_ref.as_slice())
        };
        if is_new {
            proof {
                if r0.len() > 0 {
                    assert(fs[i - 1].key.row == r0.last());
                    lemma_rows_nondecreasing(fs, i - 1, i as int);
                    crate::bytes::lemma_lex_trichotomy(r0.last(), fs[i as int].key.row);
                    assert forall|p: int| 0 <= p < r0.len() implies lex_lt(
                        #[trigger] r0[p],
                        fs[i as int].key.row,
                    ) by {
                        if p < r0.len() - 1 {
                            crate::bytes::lemma_lex_transitive(
                                r0[p],
                                r0.last(),
                                fs[i as int].key.row,
                            );
                        }
                    }
                }
            }
            r.push(crate::types::clone_bytes(row_ref));
            proof {
                assert(rows_model(r@) =~= r0.push(fs[i as int].key.row));
                assert forall|j: int| 0 <= j < i + 1 implies rows_model(r@).contains(
                    #[trigger] fs[j].key.row,
                ) by {
                    if j < i {
                        let p = choose|p: int|
                            0 <= p < r0.len() && r0[p] == fs[j].key.row;
                        assert(rows_model(r@)[p] == fs[j].key.row);
                    } else {
                        assert(rows_model(r@).last() == fs[i as int].key.row);
                    }
                }
            }
        } else {
            proof {
                assert(r0.last() == fs[i - 1].key.row);
                assert(fs[i as int].key.row == r0.last());
                assert forall|j: int| 0 <= j < i + 1 implies rows_model(r@).contains(
                    #[trigger] fs[j].key.row,
                ) by {
                    if j < i {
                    } else {
                        let p = r0.len() - 1;
                        assert(rows_model(r@)[p] == fs[j].key.row);
                    }
                }
            }
        }
        i = i + 1;
    }
    proof {
        broadcast use vstd::seq_lib::group_filter_ensures;

        assert forall|p: int| 0 <= p < rows_model(r@).len() implies exists|j: int|
            0 <= j < src@.len() && in_range(#[trigger] src@[j], lo@, hi@) && src@[j].key.row
                == #[trigger] rows_model(r@)[p] by {
            let j = choose|j: int|
                0 <= j < fs.len() && #[trigger] fs[j].key.row == #[trigger] rows_model(r@)[p];
            assert(fs[j] == src@.filter(pred)[j]);
            crate::model::lemma_filter_subset(src@, pred, j);
            let k = choose|k: int| 0 <= k < src@.len() && #[trigger] src@[k] == src@.filter(pred)[j];
            Seq::lemma_filter_pred(src@, pred, j);
            assert(in_range(src@[k], lo@, hi@));
        }
        assert forall|j: int| 0 <= j < src@.len() && in_range(#[trigger] src@[j], lo@, hi@) implies
            rows_model(r@).contains(src@[j].key.row) by {
            assert(pred(src@[j]));
            Seq::lemma_filter_contains(src@, pred, j);
            let k = choose|k: int| 0 <= k < fs.len() && #[trigger] fs[k] == src@[j];
            assert(rows_model(r@).contains(fs[k].key.row));
        }
    }
    r
}

/// In a key-sorted entry sequence the rows are non-decreasing.
proof fn lemma_rows_nondecreasing(s: Seq<EntryModel>, p: int, q: int)
    requires
        crate::model::sorted_weak(s),
        0 <= p <= q < s.len(),
    ensures
        lex_le(s[p].key.row, s[q].key.row),
{
    if p < q {
        assert(crate::types::key_le(s[p].key, s[q].key));
    }
}

/// Filtering a weakly key-sorted sequence keeps it weakly key-sorted.
pub(crate) proof fn lemma_filtered_sorted_weak(s: Seq<EntryModel>, pred: spec_fn(EntryModel) -> bool)
    requires
        crate::model::sorted_weak(s),
    ensures
        crate::model::sorted_weak(s.filter(pred)),
    decreases s.len(),
{
    reveal(Seq::filter);
    if s.len() > 0 {
        lemma_filtered_sorted_weak(s.drop_last(), pred);
        broadcast use vstd::seq_lib::group_filter_ensures;

        let f = s.filter(pred);
        if pred(s.last()) {
            assert forall|i: int, j: int| 0 <= i < j < f.len() implies crate::types::key_le(
                #[trigger] f[i].key,
                #[trigger] f[j].key,
            ) by {
                if j == f.len() - 1 {
                    let fd = s.drop_last().filter(pred);
                    assert(f[i] == fd[i]);
                    crate::model::lemma_filter_subset(s.drop_last(), pred, i);
                    let k = choose|k: int|
                        0 <= k < s.drop_last().len() && #[trigger] s.drop_last()[k] == fd[i];
                    assert(s[k] == fd[i]);
                    assert(crate::types::key_le(s[k].key, s.last().key));
                }
            }
        }
    }
}

/// Filtering a key-sorted sequence keeps it key-sorted.
proof fn lemma_filtered_rows_sorted(s: Seq<EntryModel>, pred: spec_fn(EntryModel) -> bool)
    requires
        sorted_strict(s),
    ensures
        sorted_strict(s.filter(pred)),
    decreases s.len(),
{
    reveal(Seq::filter);
    if s.len() > 0 {
        lemma_filtered_rows_sorted(s.drop_last(), pred);
        broadcast use vstd::seq_lib::group_filter_ensures;

        let f = s.filter(pred);
        if pred(s.last()) {
            assert forall|i: int, j: int| 0 <= i < j < f.len() implies key_lt(
                #[trigger] f[i].key,
                #[trigger] f[j].key,
            ) by {
                if j == f.len() - 1 {
                    let fd = s.drop_last().filter(pred);
                    assert(f[i] == fd[i]);
                    crate::model::lemma_filter_subset(s.drop_last(), pred, i);
                    let k = choose|k: int|
                        0 <= k < s.drop_last().len() && #[trigger] s.drop_last()[k] == fd[i];
                    assert(s[k] == fd[i]);
                    assert(key_lt(s[k].key, s.last().key));
                }
            }
        }
    }
}

/// Reversing the ascending version list of a sorted sequence yields a
/// list sorted descending by timestamp.
pub proof fn lemma_versions_reverse(s: Seq<EntryModel>, row: Seq<u8>, column: Seq<u8>)
    requires
        sorted_strict(s),
    ensures
        forall|p: int, q: int|
            0 <= p < q < cell_versions(s, row, column).reverse().len() ==> (
            #[trigger] cell_versions(s, row, column).reverse()[p]).0 > (
            #[trigger] cell_versions(s, row, column).reverse()[q]).0,
{
    let pred = |e: EntryModel| is_cell(e, row, column);
    lemma_filtered_rows_sorted(s, pred);
    broadcast use vstd::seq_lib::group_filter_ensures;

    let f = s.filter(pred);
    let v = cell_versions(s, row, column);
    assert forall|p: int, q: int| 0 <= p < q < v.reverse().len() implies (
    #[trigger] v.reverse()[p]).0 > (#[trigger] v.reverse()[q]).0 by {
        let pp = v.len() - 1 - p;
        let qq = v.len() - 1 - q;
        assert(v.reverse()[p] == v[pp]);
        assert(v.reverse()[q] == v[qq]);
        assert(v[pp] == (f[pp].key.timestamp, f[pp].value));
        assert(v[qq] == (f[qq].key.timestamp, f[qq].value));
        assert(key_lt(f[qq].key, f[pp].key));
        assert(f[qq].key.row == row && f[pp].key.row == row);
        assert(f[qq].key.column == column && f[pp].key.column == column);
        crate::bytes::lemma_lex_trichotomy(row, row);
        crate::bytes::lemma_lex_trichotomy(column, column);
    }
}

/// Inserting entries one after another from an empty map: the shape of a
/// write-ahead-log replay.
pub open spec fn replay_inserts(entries: Seq<EntryModel>) -> Seq<EntryModel>
    decreases entries.len(),
{
    if entries.len() == 0 {
        Seq::<EntryModel>::empty()
    } else {
        map_insert(replay_inserts(entries.drop_last()), entries.last())
    }
}

/// Build a map by inserting the given entries in order, as recovery does
/// with the records replayed from a write-ahead log.
pub fn replay(entries: &Vec<Entry>) -> (r: MemStore)
    ensures
        r.wf(),
        r@ == replay_inserts(entries_model(entries@)),
{
    let mut r = MemStore::new();
    let n = entries.len();
    let mut i: usize = 0;
    proof {
        assert(entries_model(entries@).take(0) =~= Seq::<EntryModel>::empty());
    }
    while i < n
        invariant
            0 <= i <= n,
            n == entries@.len(),
            r.wf(),
            r@ == replay_inserts(entries_model(entries@).take(i as int)),
        decreases n - i,
    {
        r.insert(clone_entry(&entries[i]));
        proof {
            assert(entries_model(entries@).take(i + 1).drop_last() =~= entries_model(
                entries@,
            ).take(i as int));
            assert(entries_model(entries@).take(i + 1).last() == entries@[i as int]@);
        }
        i = i + 1;
    }
    proof {
        assert(entries_model(entries@).take(n as int) =~= entries_model(entries@));
    }
    r
}

} // verus!
