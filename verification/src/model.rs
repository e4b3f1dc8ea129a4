//! Mathematical model of entry sequences.
//!
//! The in-memory map and every on-disk run are modelled as sequences of
//! entry models ordered by key.  The spec functions here say what the
//! query and update operations of the store return in terms of those
//! sequences; the executable structures prove their results against them.

use vstd::prelude::*;

use crate::bytes::lex_le;
use crate::types::{key_le, key_lt, lemma_key_transitive, lemma_key_trichotomy, CellModel,
    EntryModel};

verus! {

/// Strictly sorted by key: the shape of the in-memory map, where a key
/// occurs at most once.
pub open spec fn sorted_strict(s: Seq<EntryModel>) -> bool {
    forall|i: int, j: int| 0 <= i < j < s.len() ==> key_lt(#[trigger] s[i].key, #[trigger] s[j].key)
}

/// Sorted by key, duplicates allowed: the shape of an on-disk run.
pub open spec fn sorted_weak(s: Seq<EntryModel>) -> bool {
    forall|i: int, j: int| 0 <= i < j < s.len() ==> key_le(#[trigger] s[i].key, #[trigger] s[j].key)
}

pub proof fn lemma_strict_implies_weak(s: Seq<EntryModel>)
    requires
        sorted_strict(s),
    ensures
        sorted_weak(s),
{
}

/// The entry belongs to the cell `(row, column)`.
pub open spec fn is_cell(e: EntryModel, row: Seq<u8>, column: Seq<u8>) -> bool {
    e.key.row == row && e.key.column == column
}

/// The entry belongs to the given row.
pub open spec fn in_row(e: EntryModel, row: Seq<u8>) -> bool {
    e.key.row == row
}

/// The entry's row lies in the inclusive range `[lo, hi]`.
pub open spec fn in_range(e: EntryModel, lo: Seq<u8>, hi: Seq<u8>) -> bool {
    lex_le(lo, e.key.row) && lex_le(e.key.row, hi)
}

/// All entries of one cell, in the order they appear in `s`.
pub open spec fn cell_entries(s: Seq<EntryModel>, row: Seq<u8>, column: Seq<u8>) -> Seq<
    EntryModel,
> {
    s.filter(|e: EntryModel| is_cell(e, row, column))
}

/// The `(timestamp, value)` pairs of one cell, in the order they appear in
/// `s`.  In a sorted sequence this order is ascending by timestamp.
pub open spec fn cell_versions(s: Seq<EntryModel>, row: Seq<u8>, column: Seq<u8>) -> Seq<
    (u64, CellModel),
> {
    cell_entries(s, row, column).map_values(|e: EntryModel| (e.key.timestamp, e.value))
}

/// The newest value of one cell in a sorted sequence: the value of the
/// last matching entry, or nothing when the cell is absent.
pub open spec fn latest_cell(s: Seq<EntryModel>, row: Seq<u8>, column: Seq<u8>) -> Option<
    CellModel,
> {
    let m = cell_entries(s, row, column);
    if m.len() == 0 {
        None
    } else {
        Some(m.last().value)
    }
}

/// Insertion into a key-sorted sequence: an entry with the same key is
/// replaced, otherwise the new entry takes its ordered place.
pub open spec fn map_insert(s: Seq<EntryModel>, e: EntryModel) -> Seq<EntryModel>
    decreases s.len(),
{
    if s.len() == 0 {
        seq![e]
    } else if key_lt(e.key, s[0].key) {
        seq![e] + s
    } else if e.key == s[0].key {
        seq![e] + s.drop_first()
    } else {
        seq![s[0]] + map_insert(s.drop_first(), e)
    }
}

/// Splitting an insertion at a position that every earlier key precedes.
pub proof fn lemma_map_insert_split(s: Seq<EntryModel>, e: EntryModel, i: int)
    requires
        0 <= i <= s.len(),
        forall|j: int| 0 <= j < i ==> key_lt(#[trigger] s[j].key, e.key),
    ensures
        map_insert(s, e) == s.subrange(0, i) + map_insert(s.skip(i), e),
    decreases i,
{
    if i == 0 {
        assert(s.skip(0) =~= s);
        assert(s.subrange(0, 0) + map_insert(s, e) =~= map_insert(s, e));
    } else {
        lemma_key_trichotomy(e.key, s[0].key);
        assert(forall|j: int|
            0 <= j < i - 1 ==> key_lt(#[trigger] s.drop_first()[j].key, e.key));
        lemma_map_insert_split(s.drop_first(), e, i - 1);
        assert(s.drop_first().skip(i - 1) =~= s.skip(i));
        assert(seq![s[0]] + s.drop_first().subrange(0, i - 1) =~= s.subrange(0, i));
        assert(seq![s[0]] + (s.drop_first().subrange(0, i - 1) + map_insert(s.skip(i), e)) =~= (
        seq![s[0]] + s.drop_first().subrange(0, i - 1)) + map_insert(s.skip(i), e));
    }
}

/// The result of a sorted insertion at the found position: replacement
/// when the key is already present, a three-way split otherwise.
pub proof fn lemma_map_insert_at(s: Seq<EntryModel>, e: EntryModel, i: int)
    requires
        0 <= i <= s.len(),
        forall|j: int| 0 <= j < i ==> key_lt(#[trigger] s[j].key, e.key),
        forall|j: int| i <= j < s.len() ==> !key_lt(#[trigger] s[j].key, e.key),
    ensures
        i < s.len() && s[i].key == e.key ==> map_insert(s, e) == s.update(i, e),
        !(i < s.len() && s[i].key == e.key) ==> map_insert(s, e) == s.subrange(0, i) + seq![e]
            + s.skip(i),
{
    lemma_map_insert_split(s, e, i);
    if i < s.len() {
        assert(s.skip(i)[0] == s[i]);
        lemma_key_trichotomy(e.key, s[i].key);
        if s[i].key == e.key {
            assert(map_insert(s.skip(i), e) == seq![e] + s.skip(i).drop_first());
            assert(s.skip(i).drop_first() =~= s.skip(i + 1));
            assert(s.subrange(0, i) + (seq![e] + s.skip(i + 1)) =~= s.update(i, e));
        } else {
            assert(key_lt(e.key, s.skip(i)[0].key));
            assert(map_insert(s.skip(i), e) == seq![e] + s.skip(i));
            assert(s.subrange(0, i) + (seq![e] + s.skip(i)) =~= s.subrange(0, i) + seq![e]
                + s.skip(i));
        }
    } else {
        assert(s.skip(i) =~= Seq::<EntryModel>::empty());
        assert(map_insert(s.skip(i), e) == seq![e]);
        assert(s.subrange(0, i) + seq![e] =~= s.subrange(0, i) + seq![e] + s.skip(i));
    }
}

/// Sorted insertion keeps the sequence strictly sorted.
pub proof fn lemma_map_insert_sorted(s: Seq<EntryModel>, e: EntryModel, i: int)
    requires
        sorted_strict(s),
        0 <= i <= s.len(),
        forall|j: int| 0 <= j < i ==> key_lt(#[trigger] s[j].key, e.key),
        forall|j: int| i <= j < s.len() ==> !key_lt(#[trigger] s[j].key, e.key),
    ensures
        sorted_strict(map_insert(s, e)),
{
    lemma_map_insert_at(s, e, i);
    if i < s.len() && s[i].key == e.key {
        let out = s.update(i, e);
        assert forall|p: int, q: int| 0 <= p < q < out.len() implies key_lt(out[p].key, out[q].key)
        by {
            assert(key_lt(s[p].key, s[q].key));
        }
    } else {
        let out = s.subrange(0, i) + seq![e] + s.skip(i);
        assert forall|j: int| i <= j < s.len() implies key_lt(e.key, s[j].key) by {
            lemma_key_trichotomy(e.key, s[j].key);
            if s[j].key == e.key && i < s.len() && j > i {
                assert(key_lt(s[i].key, s[j].key));
                assert(!key_lt(s[i].key, e.key));
            }
        }
        assert forall|p: int, q: int| 0 <= p < q < out.len() implies key_lt(out[p].key, out[q].key)
        by {
            if p < i && q < i {
                assert(out[p] == s[p] && out[q] == s[q]);
            } else if p < i && q == i {
                assert(out[p] == s[p] && out[q] == e);
            } else if p < i && q > i {
                assert(out[p] == s[p] && out[q] == s[q - 1]);
                assert(key_lt(s[p].key, e.key));
                assert(key_lt(e.key, s[q - 1].key));
                lemma_key_transitive(s[p].key, e.key, s[q - 1].key);
            } else if p == i {
                assert(out[p] == e && out[q] == s[q - 1]);
            } else {
                assert(out[p] == s[p - 1] && out[q] == s[q - 1]);
            }
        }
    }
}

/// One step of a forward filter scan: extending the scanned prefix by one
/// element extends the filtered output exactly when the element matches.
pub proof fn lemma_filter_take_step<T>(s: Seq<T>, pred: spec_fn(T) -> bool, i: int)
    requires
        0 <= i < s.len(),
    ensures
        s.take(i + 1).filter(pred) == if pred(s[i]) {
            s.take(i).filter(pred).push(s[i])
        } else {
            s.take(i).filter(pred)
        },
{
    reveal(Seq::filter);
    assert(s.take(i + 1).drop_last() =~= s.take(i));
    assert(s.take(i + 1).last() == s[i]);
}

/// A sequence none of whose elements match filters to nothing.
pub proof fn lemma_filter_all_false<T>(s: Seq<T>, pred: spec_fn(T) -> bool)
    requires
        forall|i: int| 0 <= i < s.len() ==> !pred(#[trigger] s[i]),
    ensures
        s.filter(pred).len() == 0,
    decreases s.len(),
{
    reveal(Seq::filter);
    if s.len() > 0 {
        assert(s.drop_last() =~= s.take(s.len() - 1));
        lemma_filter_all_false(s.drop_last(), pred);
    }
}

/// Every element of a filtered sequence occurs in the original.
pub proof fn lemma_filter_subset<T>(s: Seq<T>, pred: spec_fn(T) -> bool, i: int)
    requires
        0 <= i < s.filter(pred).len(),
    ensures
        exists|k: int| 0 <= k < s.len() && #[trigger] s[k] == s.filter(pred)[i],
    decreases s.len(),
{
    reveal(Seq::filter);
    if s.len() > 0 {
        let f = s.filter(pred);
        let fd = s.drop_last().filter(pred);
        if pred(s.last()) && i == f.len() - 1 {
            assert(s[s.len() - 1] == f[i]);
        } else {
            lemma_filter_subset(s.drop_last(), pred, i);
            let k = choose|k: int| 0 <= k < s.drop_last().len() && #[trigger] s.drop_last()[k]
                == fd[i];
            assert(s[k] == f[i]);
        }
    }
}

/// If position `i` matches and nothing after it does, the filtered
/// sequence is non-empty and ends with `s[i]`.
pub proof fn lemma_filter_last_match<T>(s: Seq<T>, pred: spec_fn(T) -> bool, i: int)
    requires
        0 <= i < s.len(),
        pred(s[i]),
        forall|j: int| i < j < s.len() ==> !pred(#[trigger] s[j]),
    ensures
        s.filter(pred).len() > 0,
        s.filter(pred).last() == s[i],
    decreases s.len(),
{
    reveal(Seq::filter);
    if i == s.len() - 1 {
        Seq::lemma_filter_len(s.drop_last(), pred);
    } else {
        assert(!pred(s.last()));
        lemma_filter_last_match(s.drop_last(), pred, i);
    }
}

} // verus!
