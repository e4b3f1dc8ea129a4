//! Statements the store keeps, proved over its models.
//!
//! Each law here is phrased over the spec functions that the engine's
//! contracts speak, so together with those contracts it says what holds
//! of the running code: what a recovered log replays to, which write a
//! read sees, what a flush leaves readable, and what sums and counts
//! amount to.

use vstd::prelude::*;

use crate::aggregation::{agg_values, bytes_of, sum_scan, AggResultModel, AggregationType, SumScan};
use crate::api::{cf_flush, cf_get, cf_put, cf_wf, CfModel};
use crate::codec::{partial_tail, stream_wf, wal_match, wal_stream};
use crate::model::{cell_entries, is_cell, latest_cell, lemma_filter_all_false,
    lemma_filter_last_match, map_insert, sorted_strict};
use crate::numeric::{int_value, parses_as_i64};
use crate::types::{key_lt, lemma_key_transitive, lemma_key_trichotomy, CellModel, EntryModel,
    KeyModel};

verus! {

/// A write-ahead log written as a stream of records, followed by any
/// truncated tail, is recoverable: it matches exactly the entries it was
/// built from.  Replaying those bytes therefore yields those entries, by
/// the replay function's contract, and inserting them in order rebuilds
/// the map that wrote them.
pub proof fn lemma_wal_recoverable(es: Seq<EntryModel>, extra: Seq<u8>)
    requires
        stream_wf(es),
        partial_tail(extra),
    ensures
        wal_match(wal_stream(es) + extra, es, extra),
{
}

/// Sorted insertion yields the inserted entry and otherwise only entries
/// of the original.
pub proof fn lemma_map_insert_elems(s: Seq<EntryModel>, e: EntryModel)
    ensures
        map_insert(s, e).contains(e),
        forall|k: int|
            0 <= k < map_insert(s, e).len() ==> #[trigger] map_insert(s, e)[k] == e || s.contains(
                map_insert(s, e)[k],
            ),
    decreases s.len(),
{
    let out = map_insert(s, e);
    if s.len() == 0 {
        assert(out[0] == e);
    } else if key_lt(e.key, s[0].key) {
        assert(out[0] == e);
        assert forall|k: int| 0 <= k < out.len() implies #[trigger] out[k] == e || s.contains(
            out[k],
        ) by {
            if k > 0 {
                assert(out[k] == s[k - 1]);
            }
        }
    } else if e.key == s[0].key {
        assert(out[0] == e);
        assert forall|k: int| 0 <= k < out.len() implies #[trigger] out[k] == e || s.contains(
            out[k],
        ) by {
            if k > 0 {
                assert(out[k] == s.drop_first()[k - 1]);
                assert(s.drop_first()[k - 1] == s[k]);
            }
        }
    } else {
        lemma_map_insert_elems(s.drop_first(), e);
        let rest = map_insert(s.drop_first(), e);
        assert(rest.contains(e));
        let i = choose|i: int| 0 <= i < rest.len() && rest[i] == e;
        assert(out[i + 1] == e);
        assert forall|k: int| 0 <= k < out.len() implies #[trigger] out[k] == e || s.contains(
            out[k],
        ) by {
            if k == 0 {
                assert(out[0] == s[0]);
            } else {
                assert(out[k] == rest[k - 1]);
                if rest[k - 1] != e {
                    assert(s.drop_first().contains(rest[k - 1]));
                    let j = choose|j: int|
                        0 <= j < s.drop_first().len() && s.drop_first()[j] == rest[k - 1];
                    assert(s[j + 1] == rest[k - 1]);
                }
            }
        }
    }
}

/// Sorted insertion keeps the map strictly sorted, wherever the entry
/// lands.
pub proof fn lemma_map_insert_sorted_any(s: Seq<EntryModel>, e: EntryModel)
    requires
        sorted_strict(s),
    ensures
        sorted_strict(map_insert(s, e)),
    decreases s.len(),
{
    let out = map_insert(s, e);
    if s.len() == 0 {
    } else if key_lt(e.key, s[0].key) {
        assert forall|p: int, q: int| 0 <= p < q < out.len() implies key_lt(
            (#[trigger] out[p]).key,
            (#[trigger] out[q]).key,
        ) by {
            if p == 0 {
                assert(out[q] == s[q - 1]);
                if q > 1 {
                    lemma_key_transitive(e.key, s[0].key, s[q - 1].key);
                }
            } else {
                assert(out[p] == s[p - 1] && out[q] == s[q - 1]);
            }
        }
    } else if e.key == s[0].key {
        assert forall|p: int, q: int| 0 <= p < q < out.len() implies key_lt(
            (#[trigger] out[p]).key,
            (#[trigger] out[q]).key,
        ) by {
            if p == 0 {
                assert(out[q] == s.drop_first()[q - 1]);
                assert(s.drop_first()[q - 1] == s[q]);
            } else {
                assert(out[p] == s.drop_first()[p - 1]);
                assert(out[q] == s.drop_first()[q - 1]);
                assert(s.drop_first()[p - 1] == s[p]);
                assert(s.drop_first()[q - 1] == s[q]);
            }
        }
    } else {
        lemma_key_trichotomy(e.key, s[0].key);
        assert(key_lt(s[0].key, e.key));
        lemma_map_insert_sorted_any(s.drop_first(), e);
        lemma_map_insert_elems(s.drop_first(), e);
        let rest = map_insert(s.drop_first(), e);
        assert forall|p: int, q: int| 0 <= p < q < out.len() implies key_lt(
            (#[trigger] out[p]).key,
            (#[trigger] out[q]).key,
        ) by {
            if p == 0 {
                assert(out[q] == rest[q - 1]);
                if rest[q - 1] == e {
                } else {
                    assert(s.drop_first().contains(rest[q - 1]));
                    let j = choose|j: int|
                        0 <= j < s.drop_first().len() && s.drop_first()[j] == rest[q - 1];
                    assert(s[j + 1] == rest[q - 1]);
                    assert(key_lt(s[0].key, s[j + 1].key));
                }
            } else {
                assert(out[p] == rest[p - 1] && out[q] == rest[q - 1]);
            }
        }
    }
}

/// The newest write to a cell decides its point read: after a write at a
/// timestamp past every version the map holds for that cell, the read
/// returns exactly that write — its bytes, or nothing for a deletion
/// marker — whatever flushes left in the runs beneath.
pub proof fn lemma_newest_write_wins(
    cf: CfModel,
    row: Seq<u8>,
    column: Seq<u8>,
    ts: u64,
    cell: CellModel,
)
    requires
        sorted_strict(cf.mem),
        forall|j: int|
            0 <= j < cf.mem.len() && is_cell(#[trigger] cf.mem[j], row, column)
                ==> cf.mem[j].key.timestamp < ts,
    ensures
        cf_get(cf_put(cf, row, column, ts, cell), row, column) == (match cell {
            CellModel::Put(d) => Some(d),
            CellModel::Delete(_) => None,
        }),
{
    let e = EntryModel { key: KeyModel { row, column, timestamp: ts }, value: cell };
    let m2 = map_insert(cf.mem, e);
    lemma_map_insert_elems(cf.mem, e);
    lemma_map_insert_sorted_any(cf.mem, e);
    let i = choose|i: int| 0 <= i < m2.len() && m2[i] == e;
    let pred = |x: EntryModel| is_cell(x, row, column);
    assert forall|j: int| i < j < m2.len() implies !pred(#[trigger] m2[j]) by {
        if pred(m2[j]) {
            assert(key_lt(m2[i as int].key, m2[j].key));
            if m2[j] == e {
                lemma_key_trichotomy(e.key, e.key);
            } else {
                assert(cf.mem.contains(m2[j]));
                let k = choose|k: int| 0 <= k < cf.mem.len() && cf.mem[k] == m2[j];
                assert(cf.mem[k].key.timestamp < ts);
                assert(key_lt(m2[j].key, e.key));
                lemma_key_trichotomy(e.key, m2[j].key);
            }
        }
    }
    assert(pred(m2[i as int]));
    lemma_filter_last_match(m2, pred, i);
    assert(latest_cell(m2, row, column) == Some(cell));
}

/// A flush moves the map into the newest run without changing what any
/// point read returns: a deletion marker shadows exactly as it did, and
/// written bytes stay readable.
pub proof fn lemma_flush_preserves_get(cf: CfModel, row: Seq<u8>, column: Seq<u8>)
    requires
        cf_wf(cf),
    ensures
        cf_get(cf_flush(cf), row, column) == cf_get(cf, row, column),
{
    let f = cf_flush(cf);
    let pred = |x: EntryModel| is_cell(x, row, column);
    lemma_filter_all_false(f.mem, pred);
    assert(latest_cell(f.mem, row, column) is None);
    assert(f.ssts.last().entries == cf.mem);
    assert(f.ssts.drop_last() =~= cf.ssts);
}

/// Counting a column's versions is exactly the length of its scanned
/// version list.
pub proof fn lemma_count_is_length(vs: Seq<(u64, Seq<u8>)>)
    ensures
        agg_values(AggregationType::Count, vs) == AggResultModel::Count(vs.len() as u64),
{
}

/// The exact integer sum of a list of values.
pub open spec fn int_sum(bs: Seq<Seq<u8>>) -> int
    decreases bs.len(),
{
    if bs.len() == 0 {
        0
    } else {
        int_value(bs[0]) + int_sum(bs.drop_first())
    }
}

/// A sequence of ASCII bytes is valid UTF-8.
pub proof fn lemma_ascii_utf8(s: Seq<u8>)
    requires
        forall|i: int| 0 <= i < s.len() ==> #[trigger] s[i] <= 0x7f,
    ensures
        vstd::utf8::valid_utf8(s),
    decreases s.len(),
{
    if s.len() > 0 {
        assert(s[0] <= 0x7f);
        assert(vstd::utf8::valid_first_scalar(s));
        assert(vstd::utf8::length_of_first_scalar(s) == 1);
        assert(vstd::utf8::pop_first_scalar(s) =~= s.drop_first());
        assert forall|i: int| 0 <= i < s.drop_first().len() implies #[trigger] s.drop_first()[i]
            <= 0x7f by {
            assert(s.drop_first()[i] == s[i + 1]);
        }
        lemma_ascii_utf8(s.drop_first());
    }
}

/// An integer literal is ASCII throughout.
proof fn lemma_int_literal_ascii(b: Seq<u8>)
    requires
        parses_as_i64(b),
    ensures
        forall|i: int| 0 <= i < b.len() ==> #[trigger] b[i] <= 0x7f,
{
    assert forall|i: int| 0 <= i < b.len() implies #[trigger] b[i] <= 0x7f by {
        let body = crate::numeric::sign_body(b);
        if b.len() > 0 && (b[0] == 43 || b[0] == 45) {
            if i > 0 {
                assert(body[i - 1] == b[i]);
                assert(crate::numeric::is_digit(body[i - 1]));
            }
        } else {
            assert(body[i] == b[i]);
            assert(crate::numeric::is_digit(body[i]));
        }
    }
}

/// Summing values that all read as integers scans to exactly their
/// integer sum.
pub proof fn lemma_sum_all_ints(bs: Seq<Seq<u8>>)
    requires
        forall|i: int| 0 <= i < bs.len() ==> parses_as_i64(#[trigger] bs[i]),
    ensures
        sum_scan(bs) == SumScan::Int(int_sum(bs)),
    decreases bs.len(),
{
    if bs.len() > 0 {
        lemma_int_literal_ascii(bs[0]);
        lemma_ascii_utf8(bs[0]);
        assert forall|i: int| 0 <= i < bs.drop_first().len() implies parses_as_i64(
            #[trigger] bs.drop_first()[i],
        ) by {
            assert(bs.drop_first()[i] == bs[i + 1]);
        }
        lemma_sum_all_ints(bs.drop_first());
    }
}

/// The sum of a column whose values all read as integers, their true sum
/// within bounds, is exactly that integer sum.
pub proof fn lemma_sum_exact(vs: Seq<(u64, Seq<u8>)>)
    requires
        forall|i: int| 0 <= i < vs.len() ==> parses_as_i64((#[trigger] vs[i]).1),
        i64::MIN <= int_sum(bytes_of(vs)) <= i64::MAX,
    ensures
        agg_values(AggregationType::Sum, vs) == AggResultModel::Sum(
            int_sum(bytes_of(vs)) as i64,
        ),
{
    assert forall|i: int| 0 <= i < bytes_of(vs).len() implies parses_as_i64(
        #[trigger] bytes_of(vs)[i],
    ) by {
        assert(bytes_of(vs)[i] == vs[i].1);
    }
    lemma_sum_all_ints(bytes_of(vs));
}

/// The written versions a run holds for one cell.
pub open spec fn put_count(s: Seq<EntryModel>, row: Seq<u8>, column: Seq<u8>) -> int {
    cell_entries(s, row, column).filter(|e: EntryModel| e.value is Put).len() as int
}

/// A singleton filters to itself or nothing.
proof fn lemma_filter_singleton<T>(x: T, pred: spec_fn(T) -> bool)
    ensures
        seq![x].filter(pred) == if pred(x) {
            seq![x]
        } else {
            Seq::<T>::empty()
        },
{
    reveal(Seq::filter);
    assert(seq![x].drop_last() =~= Seq::<T>::empty());
    assert(Seq::<T>::empty().filter(pred) =~= Seq::<T>::empty());
    if pred(x) {
        assert(seq![x].filter(pred) =~= seq![x]);
    }
}

/// Appending one entry adds its own contribution to a cell's written
/// count.
proof fn lemma_put_count_snoc(s: Seq<EntryModel>, e: EntryModel, row: Seq<u8>, column: Seq<u8>)
    ensures
        put_count(s + seq![e], row, column) == put_count(s, row, column) + (
        if is_cell(e, row, column) && e.value is Put {
            1int
        } else {
            0int
        }),
{
    broadcast use vstd::seq_lib::group_filter_ensures;

    let cellp = |x: EntryModel| is_cell(x, row, column);
    let putp = |x: EntryModel| x.value is Put;
    Seq::filter_distributes_over_add(s, seq![e], cellp);
    lemma_filter_singleton(e, cellp);
    if cellp(e) {
        Seq::filter_distributes_over_add(cell_entries(s, row, column), seq![e], putp);
        lemma_filter_singleton(e, putp);
    } else {
        assert(cell_entries(s, row, column) + Seq::<EntryModel>::empty() =~= cell_entries(
            s,
            row,
            column,
        ));
    }
}

/// In a key-sorted run, a cell's entries sit together: between two
/// entries of a cell there is no entry of another cell.
proof fn lemma_cell_block(
    s: Seq<EntryModel>,
    row: Seq<u8>,
    column: Seq<u8>,
    i: int,
    j: int,
    k: int,
)
    requires
        crate::model::sorted_weak(s),
        0 <= i <= j <= k < s.len(),
        is_cell(s[i], row, column),
        is_cell(s[k], row, column),
    ensures
        is_cell(s[j], row, column),
{
    if i < j {
        assert(crate::types::key_le(s[i].key, s[j].key));
    }
    if j < k {
        assert(crate::types::key_le(s[j].key, s[k].key));
    }
    crate::bytes::lemma_lex_trichotomy(row, s[j].key.row);
    crate::bytes::lemma_lex_trichotomy(column, s[j].key.column);
}

/// Nothing in a run without entries of a cell counts toward it.
proof fn lemma_put_count_absent(s: Seq<EntryModel>, row: Seq<u8>, column: Seq<u8>)
    requires
        forall|t: int| 0 <= t < s.len() ==> !is_cell(#[trigger] s[t], row, column),
    ensures
        put_count(s, row, column) == 0,
{
    lemma_filter_all_false(s, |x: EntryModel| is_cell(x, row, column));
    broadcast use vstd::seq_lib::group_filter_ensures;

    assert(cell_entries(s, row, column).len() == 0);
    assert(cell_entries(s, row, column) =~= Seq::<EntryModel>::empty());
    assert(Seq::<EntryModel>::empty().filter(|x: EntryModel| x.value is Put)
        =~= Seq::<EntryModel>::empty()) by {
        reveal(Seq::filter);
    }
}

/// What the pruning walk leaves of one cell, bounded: at most the
/// version cap, less whatever the walk already kept above.
proof fn lemma_prune_put_cap(
    s: Seq<EntryModel>,
    now: u64,
    opts: crate::api::CompactionOptions,
    kp: int,
    sl: bool,
    sh: bool,
    row: Seq<u8>,
    column: Seq<u8>,
    mv: usize,
)
    requires
        crate::model::sorted_weak(s),
        opts.max_versions == Some(mv),
        kp >= 0,
    ensures
        put_count(crate::api::prune_back(s, now, opts, kp, sl, sh), row, column) <= (
        if s.len() > 0 && is_cell(s.last(), row, column) {
            if kp <= mv {
                mv - kp
            } else {
                0int
            }
        } else {
            mv as int
        }),
        put_count(crate::api::prune_back(s, now, opts, kp, sl, sh), row, column) >= 0,
    decreases s.len(),
{
    broadcast use vstd::seq_lib::group_filter_ensures;

    if s.len() == 0 {
        lemma_put_count_absent(
            crate::api::prune_back(s, now, opts, kp, sl, sh),
            row,
            column,
        );
    } else {
        let e = s.last();
        let keep = crate::api::keep_entry(e, now, opts, kp, sl, sh);
        let kp2 = if keep && e.value is Put {
            kp + 1
        } else {
            kp
        };
        let sl2 = sl || (keep && e.value is Put);
        let sh2 = sh || crate::api::expired_marker(e, now, opts);
        let boundary = s.len() < 2 || !crate::api::same_cell(s[s.len() - 2], e);
        assert(crate::model::sorted_weak(s.drop_last()));
        let rest = if boundary {
            crate::api::prune_back(s.drop_last(), now, opts, 0, false, false)
        } else {
            crate::api::prune_back(s.drop_last(), now, opts, kp2, sl2, sh2)
        };
        if boundary {
            lemma_prune_put_cap(s.drop_last(), now, opts, 0, false, false, row, column, mv);
        } else {
            lemma_prune_put_cap(s.drop_last(), now, opts, kp2, sl2, sh2, row, column, mv);
        }
        let out = crate::api::prune_back(s, now, opts, kp, sl, sh);
        if keep {
            lemma_put_count_snoc(rest, e, row, column);
        }
        if is_cell(e, row, column) {
            // Entries of this cell above the last one sit right below it.
            if boundary && s.len() >= 2 {
                assert forall|t: int| 0 <= t < s.drop_last().len() implies !is_cell(
                    #[trigger] s.drop_last()[t],
                    row,
                    column,
                ) by {
                    assert(s.drop_last()[t] == s[t]);
                    if is_cell(s[t], row, column) {
                        lemma_cell_block(s, row, column, t, s.len() - 2, s.len() - 1);
                        assert(crate::api::same_cell(s[s.len() - 2], e));
                    }
                }
                crate::api::lemma_prune_back_sub(s.drop_last(), now, opts, 0, false, false);
                assert forall|t: int| 0 <= t < rest.len() implies !is_cell(
                    #[trigger] rest[t],
                    row,
                    column,
                ) by {
                    let j = choose|j: int|
                        0 <= j < s.drop_last().len() && #[trigger] rest[t] == s.drop_last()[j];
                }
                lemma_put_count_absent(rest, row, column);
            } else if boundary {
                lemma_put_count_absent(rest, row, column);
            } else {
                assert(crate::api::same_cell(s[s.len() - 2], e));
                assert(is_cell(s.drop_last().last(), row, column));
            }
            if e.value is Put && keep {
                assert(kp < mv);
            }
        } else {
            if !boundary {
                assert(!is_cell(s.drop_last().last(), row, column)) by {
                    assert(crate::api::same_cell(s[s.len() - 2], e));
                }
            }
        }
    }
}

/// The pruned output of a whole walk keeps at most the version cap of
/// written versions for every cell.
pub proof fn lemma_prune_version_cap(
    s: Seq<EntryModel>,
    now: u64,
    opts: crate::api::CompactionOptions,
    row: Seq<u8>,
    column: Seq<u8>,
    mv: usize,
)
    requires
        crate::model::sorted_weak(s),
        opts.max_versions == Some(mv),
    ensures
        put_count(crate::api::prune_back(s, now, opts, 0, false, false), row, column) <= mv,
{
    lemma_prune_put_cap(s, now, opts, 0, false, false, row, column, mv);
}

/// Written pairs split over concatenation.
proof fn lemma_puts_of_add(a: Seq<(u64, CellModel)>, b: Seq<(u64, CellModel)>)
    ensures
        crate::api::puts_of(a + b) == crate::api::puts_of(a) + crate::api::puts_of(b),
{
    broadcast use vstd::seq_lib::group_filter_ensures;

    let pred = |p: (u64, CellModel)| crate::api::is_put(p);
    Seq::filter_distributes_over_add(a, b, pred);
    assert(crate::api::puts_of(a + b) =~= crate::api::puts_of(a) + crate::api::puts_of(b));
}

/// A singleton's written pairs: itself when written, nothing otherwise.
proof fn lemma_puts_of_singleton(x: (u64, CellModel))
    ensures
        crate::api::puts_of(seq![x]).len() == if crate::api::is_put(x) {
            1int
        } else {
            0int
        },
{
    let pred = |p: (u64, CellModel)| crate::api::is_put(p);
    lemma_filter_singleton(x, pred);
}

/// A cell's version pairs hold as many written entries as the run does.
proof fn lemma_cv_put_count(s: Seq<EntryModel>, row: Seq<u8>, column: Seq<u8>)
    ensures
        crate::api::puts_of(crate::model::cell_versions(s, row, column)).len() == put_count(
            s,
            row,
            column,
        ),
    decreases s.len(),
{
    broadcast use vstd::seq_lib::group_filter_ensures;

    if s.len() == 0 {
        reveal(Seq::filter);
        assert(crate::model::cell_versions(s, row, column) =~= Seq::<(u64, CellModel)>::empty());
        assert(crate::api::puts_of(Seq::<(u64, CellModel)>::empty()) =~= Seq::<
            (u64, Seq<u8>),
        >::empty());
        assert(cell_entries(s, row, column) =~= Seq::<EntryModel>::empty());
        assert(Seq::<EntryModel>::empty().filter(|e: EntryModel| e.value is Put) =~= Seq::<
            EntryModel,
        >::empty());
    } else {
        let e = s.last();
        lemma_cv_put_count(s.drop_last(), row, column);
        assert(s =~= s.drop_last() + seq![e]);
        let cellp = |x: EntryModel| is_cell(x, row, column);
        Seq::filter_distributes_over_add(s.drop_last(), seq![e], cellp);
        lemma_filter_singleton(e, cellp);
        lemma_put_count_snoc(s.drop_last(), e, row, column);
        let ce = cell_entries(s.drop_last(), row, column);
        if cellp(e) {
            assert(cell_entries(s, row, column) == ce + seq![e]);
            assert(crate::model::cell_versions(s, row, column) =~= crate::model::cell_versions(
                s.drop_last(),
                row,
                column,
            ) + seq![(e.key.timestamp, e.value)]);
            lemma_puts_of_add(
                crate::model::cell_versions(s.drop_last(), row, column),
                seq![(e.key.timestamp, e.value)],
            );
            lemma_puts_of_singleton((e.key.timestamp, e.value));
        } else {
            assert(cell_entries(s, row, column) == ce + Seq::<EntryModel>::empty());
            assert(ce + Seq::<EntryModel>::empty() =~= ce);
            assert(crate::model::cell_versions(s, row, column) =~= crate::model::cell_versions(
                s.drop_last(),
                row,
                column,
            ));
        }
    }
}

/// Reversal keeps the number of written pairs.
proof fn lemma_puts_of_reverse(s: Seq<(u64, CellModel)>)
    ensures
        crate::api::puts_of(s.reverse()).len() == crate::api::puts_of(s).len(),
    decreases s.len(),
{
    if s.len() == 0 {
        assert(s.reverse() =~= s);
    } else {
        assert(s.reverse() =~= seq![s.last()] + s.drop_last().reverse());
        lemma_puts_of_add(seq![s.last()], s.drop_last().reverse());
        lemma_puts_of_singleton(s.last());
        lemma_puts_of_reverse(s.drop_last());
        assert(s =~= s.drop_last() + seq![s.last()]);
        lemma_puts_of_add(s.drop_last(), seq![s.last()]);
    }
}

/// A descending insertion adds one pair's contribution.
proof fn lemma_insert_desc_puts(s: Seq<(u64, CellModel)>, x: (u64, CellModel))
    ensures
        crate::api::puts_of(crate::api::insert_desc(s, x)).len() == crate::api::puts_of(s).len()
            + (if crate::api::is_put(x) {
            1int
        } else {
            0int
        }),
    decreases s.len(),
{
    if s.len() == 0 {
        lemma_puts_of_singleton(x);
        reveal(Seq::filter);
        assert(crate::api::puts_of(s) =~= Seq::<(u64, Seq<u8>)>::empty());
    } else if x.0 > s[0].0 {
        assert(crate::api::insert_desc(s, x) == seq![x] + s);
        lemma_puts_of_add(seq![x], s);
        lemma_puts_of_singleton(x);
    } else {
        let rest = crate::api::insert_desc(s.drop_first(), x);
        assert(crate::api::insert_desc(s, x) == seq![s[0]] + rest);
        lemma_puts_of_add(seq![s[0]], rest);
        lemma_puts_of_singleton(s[0]);
        lemma_insert_desc_puts(s.drop_first(), x);
        assert(s =~= seq![s[0]] + s.drop_first());
        lemma_puts_of_add(seq![s[0]], s.drop_first());
    }
}

/// The descending sort keeps the number of written pairs.
proof fn lemma_sort_desc_puts(s: Seq<(u64, CellModel)>)
    ensures
        crate::api::puts_of(crate::api::sort_desc(s)).len() == crate::api::puts_of(s).len(),
    decreases s.len(),
{
    if s.len() == 0 {
    } else {
        lemma_sort_desc_puts(s.drop_last());
        lemma_insert_desc_puts(crate::api::sort_desc(s.drop_last()), s.last());
        assert(s =~= s.drop_last() + seq![s.last()]);
        lemma_puts_of_add(s.drop_last(), seq![s.last()]);
        lemma_puts_of_singleton(s.last());
    }
}

/// After a major compaction under a version cap, with the in-memory map
/// empty, a cell's version read returns at most the cap, whatever bound
/// the reader asks for.
pub proof fn lemma_compaction_version_cap(
    cf: CfModel,
    opts: crate::api::CompactionOptions,
    now: u64,
    row: Seq<u8>,
    column: Seq<u8>,
    mv: usize,
    n: int,
)
    requires
        cf_wf(cf),
        cf.mem.len() == 0,
        opts.compaction_type is Major,
        opts.max_versions == Some(mv),
        n >= 0,
    ensures
        crate::api::cf_get_versions(
            crate::api::cf_compact(cf, opts, now),
            row,
            column,
            n,
        ).len() <= mv,
{
    let ccf = crate::api::cf_compact(cf, opts, now);
    let count = crate::api::selected_count(opts, cf.ssts.len() as int);
    assert(count == cf.ssts.len());
    assert(cf.ssts.skip(count) =~= Seq::<crate::api::SstModel>::empty());
    let entries = crate::api::compact_entries(cf, opts, now);
    let merged = crate::api::sort_key(
        crate::api::sst_entries_cat(cf.ssts.take(count)),
    );
    crate::api::lemma_sort_key_sorted(crate::api::sst_entries_cat(cf.ssts.take(count)));
    assert(crate::api::pruning_active(opts));
    assert(entries == crate::api::prune_back(merged, now, opts, 0, false, false));
    lemma_prune_version_cap(merged, now, opts, row, column, mv);

    // The compacted family holds one run of exactly those entries.
    assert(ccf.ssts =~= seq![
        crate::api::SstModel {
            seq: crate::api::next_seq(cf.ssts) as u64,
            entries: entries,
        },
    ]);
    reveal(Seq::filter);
    assert(crate::model::cell_versions(ccf.mem, row, column) =~= Seq::<(u64, CellModel)>::empty());
    assert(crate::model::cell_versions(ccf.mem, row, column).reverse() =~= Seq::<
        (u64, CellModel),
    >::empty());
    assert(ccf.ssts.drop_last() =~= Seq::<crate::api::SstModel>::empty());
    assert(crate::api::sst_versions_cat(ccf.ssts.drop_last(), row, column) =~= Seq::<
        (u64, CellModel),
    >::empty());
    assert(ccf.ssts.last().entries == entries);
    assert(crate::api::sst_versions_cat(ccf.ssts, row, column) =~= crate::model::cell_versions(
        entries,
        row,
        column,
    ).reverse());
    let av = crate::api::cf_all_versions(ccf, row, column);
    assert(av =~= crate::model::cell_versions(entries, row, column).reverse());
    lemma_cv_put_count(entries, row, column);
    lemma_puts_of_reverse(crate::model::cell_versions(entries, row, column));
    lemma_sort_desc_puts(av);
    let inner = crate::api::puts_of(crate::api::sort_desc(av));
    assert(inner.len() <= mv);
    assert(crate::api::cf_get_versions(ccf, row, column, n) == crate::api::take_n(inner, n));
    if inner.len() > n {
        assert(crate::api::take_n(inner, n) == inner.take(n));
        assert(inner.take(n).len() == n);
    }
}

/// A cell's written count splits over concatenation.
proof fn lemma_put_count_add(a: Seq<EntryModel>, b: Seq<EntryModel>, row: Seq<u8>, column: Seq<
    u8,
>)
    ensures
        put_count(a + b, row, column) == put_count(a, row, column) + put_count(b, row, column),
{
    broadcast use vstd::seq_lib::group_filter_ensures;

    let cellp = |x: EntryModel| is_cell(x, row, column);
    let putp = |x: EntryModel| x.value is Put;
    Seq::filter_distributes_over_add(a, b, cellp);
    Seq::filter_distributes_over_add(
        cell_entries(a, row, column),
        cell_entries(b, row, column),
        putp,
    );
}

/// A keyed insertion adds one entry's contribution to a cell's count.
proof fn lemma_insert_key_put_count(
    s: Seq<EntryModel>,
    x: EntryModel,
    row: Seq<u8>,
    column: Seq<u8>,
)
    ensures
        put_count(crate::api::insert_key(s, x), row, column) == put_count(s, row, column) + (
        if is_cell(x, row, column) && x.value is Put {
            1int
        } else {
            0int
        }),
    decreases s.len(),
{
    if s.len() == 0 {
        lemma_put_count_snoc(Seq::<EntryModel>::empty(), x, row, column);
        assert(Seq::<EntryModel>::empty() + seq![x] =~= seq![x]);
        lemma_put_count_absent(Seq::<EntryModel>::empty(), row, column);
    } else if crate::types::key_lt(x.key, s[0].key) {
        assert(crate::api::insert_key(s, x) == seq![x] + s);
        lemma_put_count_add(seq![x], s, row, column);
        lemma_put_count_snoc(Seq::<EntryModel>::empty(), x, row, column);
        assert(Seq::<EntryModel>::empty() + seq![x] =~= seq![x]);
        lemma_put_count_absent(Seq::<EntryModel>::empty(), row, column);
    } else {
        let rest = crate::api::insert_key(s.drop_first(), x);
        assert(crate::api::insert_key(s, x) == seq![s[0]] + rest);
        lemma_put_count_add(seq![s[0]], rest, row, column);
        lemma_insert_key_put_count(s.drop_first(), x, row, column);
        assert(s =~= seq![s[0]] + s.drop_first());
        lemma_put_count_add(seq![s[0]], s.drop_first(), row, column);
    }
}

/// Sorting entries by key keeps every cell's written count.
proof fn lemma_sort_key_put_count(s: Seq<EntryModel>, row: Seq<u8>, column: Seq<u8>)
    ensures
        put_count(crate::api::sort_key(s), row, column) == put_count(s, row, column),
    decreases s.len(),
{
    if s.len() == 0 {
    } else {
        lemma_sort_key_put_count(s.drop_last(), row, column);
        lemma_insert_key_put_count(crate::api::sort_key(s.drop_last()), s.last(), row, column);
        lemma_put_count_snoc(s.drop_last(), s.last(), row, column);
        assert(s =~= s.drop_last() + seq![s.last()]);
    }
}

/// The written pairs a family's full version gathering holds for one
/// cell, counted: the map's plus every run's.
proof fn lemma_all_versions_put_count(
    ssts: Seq<crate::api::SstModel>,
    row: Seq<u8>,
    column: Seq<u8>,
)
    ensures
        crate::api::puts_of(crate::api::sst_versions_cat(ssts, row, column)).len() == put_count(
            crate::api::sst_entries_cat(ssts),
            row,
            column,
        ),
    decreases ssts.len(),
{
    if ssts.len() == 0 {
        reveal(Seq::filter);
        lemma_put_count_absent(crate::api::sst_entries_cat(ssts), row, column);
        assert(crate::api::puts_of(crate::api::sst_versions_cat(ssts, row, column)) =~= Seq::<
            (u64, Seq<u8>),
        >::empty());
    } else {
        lemma_all_versions_put_count(ssts.drop_last(), row, column);
        lemma_puts_of_add(
            crate::api::sst_versions_cat(ssts.drop_last(), row, column),
            crate::model::cell_versions(ssts.last().entries, row, column).reverse(),
        );
        lemma_puts_of_reverse(crate::model::cell_versions(ssts.last().entries, row, column));
        lemma_cv_put_count(ssts.last().entries, row, column);
        lemma_put_count_add(
            crate::api::sst_entries_cat(ssts.drop_last()),
            ssts.last().entries,
            row,
            column,
        );
    }
}

/// A major compaction asked to prune nothing keeps the number of
/// versions every cell's read returns: reads before and after the merge
/// return equally many versions, for every bound asked.
pub proof fn lemma_major_compaction_preserves_version_count(
    cf: CfModel,
    opts: crate::api::CompactionOptions,
    now: u64,
    row: Seq<u8>,
    column: Seq<u8>,
    n: int,
)
    requires
        cf_wf(cf),
        cf.mem.len() == 0,
        opts.compaction_type is Major,
        opts.max_versions is None,
        opts.max_age_ms is None,
        !opts.cleanup_tombstones,
        n >= 0,
    ensures
        crate::api::cf_get_versions(
            crate::api::cf_compact(cf, opts, now),
            row,
            column,
            n,
        ).len() == crate::api::cf_get_versions(cf, row, column, n).len(),
{
    let ccf = crate::api::cf_compact(cf, opts, now);
    let count = crate::api::selected_count(opts, cf.ssts.len() as int);
    assert(count == cf.ssts.len());
    assert(cf.ssts.take(count) =~= cf.ssts);
    let merged = crate::api::sort_key(crate::api::sst_entries_cat(cf.ssts));
    let entries = crate::api::compact_entries(cf, opts, now);
    assert(!crate::api::pruning_active(opts));
    assert(entries == merged);

    // The compacted family's gathered versions, counted.
    assert(ccf.ssts =~= seq![
        crate::api::SstModel {
            seq: crate::api::next_seq(cf.ssts) as u64,
            entries: entries,
        },
    ]);
    reveal(Seq::filter);
    assert(crate::model::cell_versions(ccf.mem, row, column) =~= Seq::<(u64, CellModel)>::empty());
    assert(crate::model::cell_versions(ccf.mem, row, column).reverse() =~= Seq::<
        (u64, CellModel),
    >::empty());
    assert(ccf.ssts.drop_last() =~= Seq::<crate::api::SstModel>::empty());
    assert(crate::api::sst_versions_cat(ccf.ssts.drop_last(), row, column) =~= Seq::<
        (u64, CellModel),
    >::empty());
    assert(crate::api::sst_versions_cat(ccf.ssts, row, column) =~= crate::model::cell_versions(
        entries,
        row,
        column,
    ).reverse());
    let av_after = crate::api::cf_all_versions(ccf, row, column);
    assert(av_after =~= crate::model::cell_versions(entries, row, column).reverse());
    lemma_cv_put_count(entries, row, column);
    lemma_puts_of_reverse(crate::model::cell_versions(entries, row, column));
    lemma_sort_desc_puts(av_after);
    lemma_sort_key_put_count(crate::api::sst_entries_cat(cf.ssts), row, column);

    // The original family's gathered versions, counted.
    assert(crate::model::cell_versions(cf.mem, row, column) =~= Seq::<(u64, CellModel)>::empty());
    assert(crate::model::cell_versions(cf.mem, row, column).reverse() =~= Seq::<
        (u64, CellModel),
    >::empty());
    let av_before = crate::api::cf_all_versions(cf, row, column);
    assert(av_before =~= crate::api::sst_versions_cat(cf.ssts, row, column));
    lemma_all_versions_put_count(cf.ssts, row, column);
    lemma_sort_desc_puts(av_before);

    let inner_after = crate::api::puts_of(crate::api::sort_desc(av_after));
    let inner_before = crate::api::puts_of(crate::api::sort_desc(av_before));
    assert(inner_after.len() == inner_before.len());
    assert(crate::api::cf_get_versions(ccf, row, column, n) == crate::api::take_n(
        inner_after,
        n,
    ));
    assert(crate::api::cf_get_versions(cf, row, column, n) == crate::api::take_n(
        inner_before,
        n,
    ));
    if inner_after.len() > n {
        assert(crate::api::take_n(inner_after, n) == inner_after.take(n));
        assert(crate::api::take_n(inner_before, n) == inner_before.take(n));
        assert(inner_after.take(n).len() == n);
        assert(inner_before.take(n).len() == n);
    }
}

/// A never-expiring deletion marker that is the newest entry of its
/// cell in a sorted run survives the pruning walk, whatever the
/// options, and stays the newest of its cell in the output.
pub proof fn lemma_tombstone_survives_prune(
    s: Seq<EntryModel>,
    now: u64,
    opts: crate::api::CompactionOptions,
    kp: int,
    sl: bool,
    sh: bool,
    row: Seq<u8>,
    column: Seq<u8>,
    i: int,
)
    requires
        crate::model::sorted_weak(s),
        0 <= i < s.len(),
        is_cell(s[i], row, column),
        s[i].value == CellModel::Delete(None),
        forall|j: int| i < j < s.len() ==> !is_cell(#[trigger] s[j], row, column),
        i == s.len() - 1 ==> !sl && !sh,
    ensures
        exists|k: int|
            0 <= k < crate::api::prune_back(s, now, opts, kp, sl, sh).len()
                && #[trigger] crate::api::prune_back(s, now, opts, kp, sl, sh)[k] == s[i] && (
            forall|kk: int|
                k < kk < crate::api::prune_back(s, now, opts, kp, sl, sh).len() ==> !is_cell(
                    #[trigger] crate::api::prune_back(s, now, opts, kp, sl, sh)[kk],
                    row,
                    column,
                )),
    decreases s.len(),
{
    let out = crate::api::prune_back(s, now, opts, kp, sl, sh);
    let e = s.last();
    let keep = crate::api::keep_entry(e, now, opts, kp, sl, sh);
    let kp2 = if keep && e.value is Put {
        kp + 1
    } else {
        kp
    };
    let sl2 = sl || (keep && e.value is Put);
    let sh2 = sh || crate::api::expired_marker(e, now, opts);
    let boundary = s.len() < 2 || !crate::api::same_cell(s[s.len() - 2], e);
    let rest = if boundary {
        crate::api::prune_back(s.drop_last(), now, opts, 0, false, false)
    } else {
        crate::api::prune_back(s.drop_last(), now, opts, kp2, sl2, sh2)
    };
    if i == s.len() - 1 {
        assert(keep);
        assert(out == rest + seq![e]);
        let k = rest.len() as int;
        assert(out[k] == s[i]);
    } else {
        assert(!is_cell(e, row, column));
        assert(crate::model::sorted_weak(s.drop_last()));
        assert forall|j: int| i < j < s.drop_last().len() implies !is_cell(
            #[trigger] s.drop_last()[j],
            row,
            column,
        ) by {
            assert(s.drop_last()[j] == s[j]);
        }
        assert(s.drop_last()[i] == s[i]);
        if boundary {
            lemma_tombstone_survives_prune(
                s.drop_last(),
                now,
                opts,
                0,
                false,
                false,
                row,
                column,
                i,
            );
        } else {
            if i == s.len() - 2 {
                assert(crate::api::same_cell(s[s.len() - 2], e));
                assert(is_cell(e, row, column));
            }
            lemma_tombstone_survives_prune(
                s.drop_last(),
                now,
                opts,
                kp2,
                sl2,
                sh2,
                row,
                column,
                i,
            );
        }
        let k = choose|k: int|
            0 <= k < rest.len() && #[trigger] rest[k] == s[i] && (forall|kk: int|
                k < kk < rest.len() ==> !is_cell(#[trigger] rest[kk], row, column));
        assert(out[k] == s[i]);
        assert forall|kk: int| k < kk < out.len() implies !is_cell(
            #[trigger] out[kk],
            row,
            column,
        ) by {
            if kk < rest.len() {
                assert(out[kk] == rest[kk]);
            } else {
                assert(out[kk] == e);
            }
        }
    }
}

/// After a major compaction with the in-memory map empty, a cell whose
/// newest merged entry is a never-expiring deletion marker still reads
/// as absent: the marker shadows through the merge, whatever the
/// pruning options.
pub proof fn lemma_tombstone_shadow_after_compaction(
    cf: CfModel,
    opts: crate::api::CompactionOptions,
    now: u64,
    row: Seq<u8>,
    column: Seq<u8>,
    i: int,
)
    requires
        cf_wf(cf),
        cf.mem.len() == 0,
        opts.compaction_type is Major,
        0 <= i < crate::api::sort_key(crate::api::sst_entries_cat(cf.ssts)).len(),
        is_cell(crate::api::sort_key(crate::api::sst_entries_cat(cf.ssts))[i], row, column),
        crate::api::sort_key(crate::api::sst_entries_cat(cf.ssts))[i].value == CellModel::Delete(
            None,
        ),
        forall|j: int|
            i < j < crate::api::sort_key(crate::api::sst_entries_cat(cf.ssts)).len() ==> !is_cell(
                #[trigger] crate::api::sort_key(crate::api::sst_entries_cat(cf.ssts))[j],
                row,
                column,
            ),
    ensures
        cf_get(crate::api::cf_compact(cf, opts, now), row, column) is None,
{
    let ccf = crate::api::cf_compact(cf, opts, now);
    let count = crate::api::selected_count(opts, cf.ssts.len() as int);
    assert(count == cf.ssts.len());
    assert(cf.ssts.take(count) =~= cf.ssts);
    let merged = crate::api::sort_key(crate::api::sst_entries_cat(cf.ssts));
    crate::api::lemma_sort_key_sorted(crate::api::sst_entries_cat(cf.ssts));
    let entries = crate::api::compact_entries(cf, opts, now);
    let pred = |x: EntryModel| is_cell(x, row, column);
    if crate::api::pruning_active(opts) {
        assert(entries == crate::api::prune_back(merged, now, opts, 0, false, false));
        lemma_tombstone_survives_prune(merged, now, opts, 0, false, false, row, column, i);
        let k = choose|k: int|
            0 <= k < entries.len() && #[trigger] entries[k] == merged[i] && (forall|kk: int|
                k < kk < entries.len() ==> !is_cell(#[trigger] entries[kk], row, column));
        assert forall|kk: int| k < kk < entries.len() implies !pred(#[trigger] entries[kk]) by {}
        assert(pred(entries[k]));
        lemma_filter_last_match(entries, pred, k);
    } else {
        assert(entries == merged);
        assert forall|kk: int| i < kk < entries.len() implies !pred(#[trigger] entries[kk]) by {}
        assert(pred(entries[i]));
        lemma_filter_last_match(entries, pred, i);
    }
    assert(latest_cell(entries, row, column) == Some(CellModel::Delete(None)));
    assert(ccf.ssts =~= seq![
        crate::api::SstModel {
            seq: crate::api::next_seq(cf.ssts) as u64,
            entries: entries,
        },
    ]);
    reveal(Seq::filter);
    assert(cell_entries(ccf.mem, row, column) =~= Seq::<EntryModel>::empty());
    assert(latest_cell(ccf.mem, row, column) is None);
    assert(ccf.ssts.last().entries == entries);
}

/// Writes to one cell read back in order: after two writes at rising
/// timestamps, both past everything the map holds for the cell, the
/// point read returns the second value and never the first.
pub proof fn lemma_put_order(
    cf: CfModel,
    row: Seq<u8>,
    column: Seq<u8>,
    ts1: u64,
    v1: Seq<u8>,
    ts2: u64,
    v2: Seq<u8>,
)
    requires
        sorted_strict(cf.mem),
        ts1 < ts2,
        forall|j: int|
            0 <= j < cf.mem.len() && is_cell(#[trigger] cf.mem[j], row, column)
                ==> cf.mem[j].key.timestamp < ts1,
    ensures
        cf_get(
            cf_put(cf_put(cf, row, column, ts1, CellModel::Put(v1)), row, column, ts2,
            CellModel::Put(v2)),
            row,
            column,
        ) == Some(v2),
{
    let mid = cf_put(cf, row, column, ts1, CellModel::Put(v1));
    let e1 = EntryModel {
        key: KeyModel { row, column, timestamp: ts1 },
        value: CellModel::Put(v1),
    };
    lemma_map_insert_elems(cf.mem, e1);
    lemma_map_insert_sorted_any(cf.mem, e1);
    assert forall|j: int|
        0 <= j < mid.mem.len() && is_cell(#[trigger] mid.mem[j], row, column) implies
        mid.mem[j].key.timestamp < ts2 by {
        if mid.mem[j] == e1 {
        } else {
            assert(cf.mem.contains(mid.mem[j]));
            let k = choose|k: int| 0 <= k < cf.mem.len() && cf.mem[k] == mid.mem[j];
        }
    }
    lemma_newest_write_wins(mid, row, column, ts2, CellModel::Put(v2));
}

/// A flush changes the number of versions no cell's read returns.
pub proof fn lemma_flush_preserves_version_count(
    cf: CfModel,
    row: Seq<u8>,
    column: Seq<u8>,
    n: int,
)
    requires
        cf_wf(cf),
        n >= 0,
    ensures
        crate::api::cf_get_versions(cf_flush(cf), row, column, n).len()
            == crate::api::cf_get_versions(cf, row, column, n).len(),
{
    let f = cf_flush(cf);
    reveal(Seq::filter);
    assert(crate::model::cell_versions(f.mem, row, column) =~= Seq::<(u64, CellModel)>::empty());
    assert(crate::model::cell_versions(f.mem, row, column).reverse() =~= Seq::<
        (u64, CellModel),
    >::empty());
    assert(f.ssts.drop_last() =~= cf.ssts);
    assert(f.ssts.last().entries == cf.mem);
    let av_after = crate::api::cf_all_versions(f, row, column);
    assert(av_after =~= crate::api::sst_versions_cat(cf.ssts, row, column)
        + crate::model::cell_versions(cf.mem, row, column).reverse());
    let av_before = crate::api::cf_all_versions(cf, row, column);
    lemma_puts_of_add(
        crate::api::sst_versions_cat(cf.ssts, row, column),
        crate::model::cell_versions(cf.mem, row, column).reverse(),
    );
    lemma_puts_of_add(
        crate::model::cell_versions(cf.mem, row, column).reverse(),
        crate::api::sst_versions_cat(cf.ssts, row, column),
    );
    assert(av_before == crate::model::cell_versions(cf.mem, row, column).reverse()
        + crate::api::sst_versions_cat(cf.ssts, row, column));
    lemma_sort_desc_puts(av_after);
    lemma_sort_desc_puts(av_before);
    let inner_after = crate::api::puts_of(crate::api::sort_desc(av_after));
    let inner_before = crate::api::puts_of(crate::api::sort_desc(av_before));
    assert(inner_after.len() == inner_before.len());
    if inner_after.len() > n {
        assert(crate::api::take_n(inner_after, n) == inner_after.take(n));
        assert(crate::api::take_n(inner_before, n) == inner_before.take(n));
        assert(inner_after.take(n).len() == n);
        assert(inner_before.take(n).len() == n);
    }
}

/// A cell's version pairs split over concatenation of runs.
proof fn lemma_cv_add(a: Seq<EntryModel>, b: Seq<EntryModel>, row: Seq<u8>, column: Seq<u8>)
    ensures
        crate::model::cell_versions(a + b, row, column) == crate::model::cell_versions(
            a,
            row,
            column,
        ) + crate::model::cell_versions(b, row, column),
{
    broadcast use vstd::seq_lib::group_filter_ensures;

    let cellp = |x: EntryModel| is_cell(x, row, column);
    Seq::filter_distributes_over_add(a, b, cellp);
    assert(crate::model::cell_versions(a + b, row, column) =~= crate::model::cell_versions(
        a,
        row,
        column,
    ) + crate::model::cell_versions(b, row, column));
}

/// A single entry's version pairs: its own pair when it belongs to the
/// cell, nothing otherwise.
proof fn lemma_cv_singleton(x: EntryModel, row: Seq<u8>, column: Seq<u8>)
    ensures
        crate::model::cell_versions(seq![x], row, column) == if is_cell(x, row, column) {
            seq![(x.key.timestamp, x.value)]
        } else {
            Seq::<(u64, CellModel)>::empty()
        },
{
    let cellp = |e: EntryModel| is_cell(e, row, column);
    lemma_filter_singleton(x, cellp);
    if is_cell(x, row, column) {
        assert(crate::model::cell_versions(seq![x], row, column) =~= seq![
            (x.key.timestamp, x.value),
        ]);
    } else {
        assert(crate::model::cell_versions(seq![x], row, column) =~= Seq::<
            (u64, CellModel),
        >::empty());
    }
}

/// What one entry adds to a cell's version multiset.
pub open spec fn cv_with(
    m: vstd::multiset::Multiset<(u64, CellModel)>,
    x: EntryModel,
    row: Seq<u8>,
    column: Seq<u8>,
) -> vstd::multiset::Multiset<(u64, CellModel)> {
    if is_cell(x, row, column) {
        m.insert((x.key.timestamp, x.value))
    } else {
        m
    }
}

/// A keyed insertion adds one entry's pair to the cell's version
/// multiset.
proof fn lemma_insert_key_cv_multiset(
    s: Seq<EntryModel>,
    x: EntryModel,
    row: Seq<u8>,
    column: Seq<u8>,
)
    ensures
        crate::model::cell_versions(crate::api::insert_key(s, x), row, column).to_multiset()
            == cv_with(
            crate::model::cell_versions(s, row, column).to_multiset(),
            x,
            row,
            column,
        ),
    decreases s.len(),
{
    broadcast use vstd::seq_lib::group_to_multiset_ensures;
    broadcast use vstd::seq_lib::lemma_multiset_commutative;

    if s.len() == 0 {
        lemma_cv_singleton(x, row, column);
        reveal(Seq::filter);
        assert(crate::model::cell_versions(s, row, column) =~= Seq::<(u64, CellModel)>::empty());
        if is_cell(x, row, column) {
            assert(seq![(x.key.timestamp, x.value)] =~= Seq::<(u64, CellModel)>::empty().push(
                (x.key.timestamp, x.value),
            ));
            assert(crate::model::cell_versions(crate::api::insert_key(s, x), row, column)
                .to_multiset() =~= cv_with(
                crate::model::cell_versions(s, row, column).to_multiset(),
                x,
                row,
                column,
            ));
        }
    } else if crate::types::key_lt(x.key, s[0].key) {
        assert(crate::api::insert_key(s, x) == seq![x] + s);
        lemma_cv_add(seq![x], s, row, column);
        lemma_cv_singleton(x, row, column);
        if is_cell(x, row, column) {
            assert(seq![(x.key.timestamp, x.value)] + crate::model::cell_versions(
                s,
                row,
                column,
            ) =~= (Seq::<(u64, CellModel)>::empty() + crate::model::cell_versions(
                s,
                row,
                column,
            )).insert(0, (x.key.timestamp, x.value)));
            vstd::seq_lib::to_multiset_insert(
                Seq::<(u64, CellModel)>::empty() + crate::model::cell_versions(s, row, column),
                0,
                (x.key.timestamp, x.value),
            );
            assert(Seq::<(u64, CellModel)>::empty() + crate::model::cell_versions(s, row, column)
                =~= crate::model::cell_versions(s, row, column));
        } else {
            assert(Seq::<(u64, CellModel)>::empty() + crate::model::cell_versions(s, row, column)
                =~= crate::model::cell_versions(s, row, column));
        }
    } else {
        let rest = crate::api::insert_key(s.drop_first(), x);
        assert(crate::api::insert_key(s, x) == seq![s[0]] + rest);
        lemma_cv_add(seq![s[0]], rest, row, column);
        lemma_cv_singleton(s[0], row, column);
        lemma_insert_key_cv_multiset(s.drop_first(), x, row, column);
        assert(s =~= seq![s[0]] + s.drop_first());
        lemma_cv_add(seq![s[0]], s.drop_first(), row, column);
        let cv0 = crate::model::cell_versions(seq![s[0]], row, column);
        let cvr = crate::model::cell_versions(rest, row, column);
        let cvd = crate::model::cell_versions(s.drop_first(), row, column);
        assert((cv0 + cvr).to_multiset() == cv0.to_multiset().add(cvr.to_multiset()));
        assert((cv0 + cvd).to_multiset() == cv0.to_multiset().add(cvd.to_multiset()));
        assert(crate::model::cell_versions(crate::api::insert_key(s, x), row, column)
            .to_multiset() =~= cv_with(
            crate::model::cell_versions(s, row, column).to_multiset(),
            x,
            row,
            column,
        ));
    }
}

/// The merge sort keeps every cell's version multiset.
proof fn lemma_sort_key_cv_multiset(s: Seq<EntryModel>, row: Seq<u8>, column: Seq<u8>)
    ensures
        crate::model::cell_versions(crate::api::sort_key(s), row, column).to_multiset()
            == crate::model::cell_versions(s, row, column).to_multiset(),
    decreases s.len(),
{
    broadcast use vstd::seq_lib::group_to_multiset_ensures;
    broadcast use vstd::seq_lib::lemma_multiset_commutative;

    if s.len() > 0 {
        lemma_sort_key_cv_multiset(s.drop_last(), row, column);
        lemma_insert_key_cv_multiset(
            crate::api::sort_key(s.drop_last()),
            s.last(),
            row,
            column,
        );
        assert(s =~= s.drop_last() + seq![s.last()]);
        lemma_cv_add(s.drop_last(), seq![s.last()], row, column);
        lemma_cv_singleton(s.last(), row, column);
        let cvd = crate::model::cell_versions(s.drop_last(), row, column);
        if is_cell(s.last(), row, column) {
            assert(cvd + seq![(s.last().key.timestamp, s.last().value)] =~= cvd.push(
                (s.last().key.timestamp, s.last().value),
            ));
        } else {
            assert(cvd + Seq::<(u64, CellModel)>::empty() =~= cvd);
        }
        assert(crate::model::cell_versions(crate::api::sort_key(s), row, column).to_multiset()
            =~= crate::model::cell_versions(s, row, column).to_multiset());
    } else {
        reveal(Seq::filter);
        assert(crate::model::cell_versions(s, row, column) =~= Seq::<(u64, CellModel)>::empty());
    }
}

/// The versions a family's runs hold of one cell, as gathered run by
/// run, carry the same multiset as the versions of the concatenated
/// entries.
proof fn lemma_cat_cv_multiset(
    ssts: Seq<crate::api::SstModel>,
    row: Seq<u8>,
    column: Seq<u8>,
)
    ensures
        crate::api::sst_versions_cat(ssts, row, column).to_multiset()
            == crate::model::cell_versions(
            crate::api::sst_entries_cat(ssts),
            row,
            column,
        ).to_multiset(),
    decreases ssts.len(),
{
    broadcast use vstd::seq_lib::group_to_multiset_ensures;
    broadcast use vstd::seq_lib::lemma_multiset_commutative;

    if ssts.len() == 0 {
        reveal(Seq::filter);
        assert(crate::api::sst_versions_cat(ssts, row, column) =~= Seq::<
            (u64, CellModel),
        >::empty());
        assert(crate::model::cell_versions(crate::api::sst_entries_cat(ssts), row, column)
            =~= Seq::<(u64, CellModel)>::empty());
    } else {
        lemma_cat_cv_multiset(ssts.drop_last(), row, column);
        let tailv = crate::model::cell_versions(ssts.last().entries, row, column);
        tailv.lemma_reverse_to_multiset();
        lemma_cv_add(
            crate::api::sst_entries_cat(ssts.drop_last()),
            ssts.last().entries,
            row,
            column,
        );
        assert(crate::api::sst_versions_cat(ssts, row, column).to_multiset()
            =~= crate::model::cell_versions(
            crate::api::sst_entries_cat(ssts),
            row,
            column,
        ).to_multiset());
    }
}

/// A descending insertion adds its pair to the multiset.
proof fn lemma_insert_desc_multiset(s: Seq<(u64, CellModel)>, x: (u64, CellModel))
    ensures
        crate::api::insert_desc(s, x).to_multiset() == s.to_multiset().insert(x),
    decreases s.len(),
{
    broadcast use vstd::seq_lib::group_to_multiset_ensures;

    lemma_insert_desc_pos(s, x);
    let i = insert_desc_pos_of(s, x);
    crate::api::lemma_insert_desc_split(s, x, i);
    assert(s.take(i) + seq![x] + s.skip(i) =~= s.insert(i, x));
    vstd::seq_lib::to_multiset_insert(s, i, x);
}

/// The position a descending insertion lands at.
pub open spec fn insert_desc_pos_of(s: Seq<(u64, CellModel)>, x: (u64, CellModel)) -> int
    decreases s.len(),
{
    if s.len() == 0 {
        0
    } else if x.0 > s[0].0 {
        0
    } else {
        1 + insert_desc_pos_of(s.drop_first(), x)
    }
}

/// The landing position splits the list as the insertion does.
proof fn lemma_insert_desc_pos(s: Seq<(u64, CellModel)>, x: (u64, CellModel))
    ensures
        0 <= insert_desc_pos_of(s, x) <= s.len(),
        forall|j: int|
            0 <= j < insert_desc_pos_of(s, x) ==> !(x.0 > (#[trigger] s[j]).0),
        insert_desc_pos_of(s, x) < s.len() ==> x.0 > s[insert_desc_pos_of(s, x)].0,
    decreases s.len(),
{
    if s.len() > 0 && !(x.0 > s[0].0) {
        lemma_insert_desc_pos(s.drop_first(), x);
        let i = insert_desc_pos_of(s, x);
        assert forall|j: int| 0 <= j < i implies !(x.0 > (#[trigger] s[j]).0) by {
            if j > 0 {
                assert(s.drop_first()[j - 1] == s[j]);
            }
        }
        if i < s.len() {
            assert(s.drop_first()[i - 1] == s[i]);
        }
    }
}

/// The descending sort keeps the multiset of pairs.
proof fn lemma_sort_desc_multiset(s: Seq<(u64, CellModel)>)
    ensures
        crate::api::sort_desc(s).to_multiset() == s.to_multiset(),
    decreases s.len(),
{
    broadcast use vstd::seq_lib::group_to_multiset_ensures;

    if s.len() > 0 {
        lemma_sort_desc_multiset(s.drop_last());
        lemma_insert_desc_multiset(crate::api::sort_desc(s.drop_last()), s.last());
        assert(s.drop_last().push(s.last()) =~= s);
    }
}

/// Timestamps never rise along the list.
pub open spec fn wk_desc(s: Seq<(u64, CellModel)>) -> bool {
    forall|p: int, q: int| 0 <= p < q < s.len() ==> (#[trigger] s[p]).0 >= (#[trigger] s[q]).0
}

/// A descending insertion keeps the list descending.
proof fn lemma_insert_desc_sorted(s: Seq<(u64, CellModel)>, x: (u64, CellModel))
    requires
        wk_desc(s),
    ensures
        wk_desc(crate::api::insert_desc(s, x)),
{
    lemma_insert_desc_pos(s, x);
    let i = insert_desc_pos_of(s, x);
    crate::api::lemma_insert_desc_split(s, x, i);
    let out = s.take(i) + seq![x] + s.skip(i);
    assert forall|p: int, q: int| 0 <= p < q < out.len() implies (#[trigger] out[p]).0 >= (
    #[trigger] out[q]).0 by {
        if p < i && q < i {
            assert(out[p] == s[p] && out[q] == s[q]);
        } else if p < i && q == i {
            assert(out[p] == s[p] && out[q] == x);
        } else if p < i && q > i {
            assert(out[p] == s[p] && out[q] == s[q - 1]);
        } else if p == i {
            assert(out[p] == x);
            if q > i {
                assert(out[q] == s[q - 1]);
                if i < s.len() && q - 1 > i {
                    assert(s[i].0 >= s[q - 1].0);
                }
            }
        } else {
            assert(out[p] == s[p - 1] && out[q] == s[q - 1]);
        }
    }
}

/// The descending sort yields a descending list.
proof fn lemma_sort_desc_sorted(s: Seq<(u64, CellModel)>)
    ensures
        wk_desc(crate::api::sort_desc(s)),
    decreases s.len(),
{
    if s.len() > 0 {
        lemma_sort_desc_sorted(s.drop_last());
        lemma_insert_desc_sorted(crate::api::sort_desc(s.drop_last()), s.last());
    }
}

/// No two positions hold the same timestamp.
pub open spec fn ts_unique(s: Seq<(u64, CellModel)>) -> bool {
    forall|p: int, q: int| 0 <= p < q < s.len() ==> (#[trigger] s[p]).0 != (#[trigger] s[q]).0
}

/// Distinct timestamps carry over to any list with the same multiset.
proof fn lemma_ts_unique_transfer(src: Seq<(u64, CellModel)>, dst: Seq<(u64, CellModel)>)
    requires
        ts_unique(src),
        dst.to_multiset() == src.to_multiset(),
    ensures
        ts_unique(dst),
{
    broadcast use vstd::seq_lib::group_to_multiset_ensures;

    assert forall|p: int, q: int| 0 <= p < q < dst.len() implies (#[trigger] dst[p]).0 != (
    #[trigger] dst[q]).0 by {
        if dst[p].0 == dst[q].0 {
            if dst[p] == dst[q] {
                // The same pair twice would count twice in the multiset,
                // but in the source every pair occurs at most once.
                let s0 = dst.subrange(0, q);
                let s1 = dst.subrange(q, dst.len() as int);
                assert(dst =~= s0 + s1);
                vstd::seq_lib::lemma_multiset_commutative(s0, s1);
                assert(s0.to_multiset().contains(dst[p])) by {
                    assert(s0[p] == dst[p]);
                    assert(s0.contains(dst[p]));
                }
                assert(s1.to_multiset().contains(dst[q])) by {
                    assert(s1[0] == dst[q]);
                    assert(s1.contains(dst[q]));
                }
                assert(dst.to_multiset().count(dst[p]) >= 2);
                assert(src.no_duplicates()) by {
                    assert forall|a: int, b: int|
                        0 <= a < src.len() && 0 <= b < src.len() && a != b implies src[a]
                        != src[b] by {
                        if a < b {
                            assert(src[a].0 != src[b].0);
                        } else {
                            assert(src[b].0 != src[a].0);
                        }
                    }
                }
                src.lemma_multiset_has_no_duplicates();
                assert(src.to_multiset().count(dst[p]) <= 1);
            } else {
                // Two different pairs with one timestamp would both sit
                // in the source, which keeps timestamps apart.
                assert(dst.contains(dst[p]));
                assert(dst.contains(dst[q]));
                assert(src.to_multiset().count(dst[p]) > 0);
                assert(src.to_multiset().count(dst[q]) > 0);
                assert(src.contains(dst[p]));
                assert(src.contains(dst[q]));
                let a = choose|a: int| 0 <= a < src.len() && src[a] == dst[p];
                let b = choose|b: int| 0 <= b < src.len() && src[b] == dst[q];
                if a < b {
                    assert(src[a].0 != src[b].0);
                } else if b < a {
                    assert(src[b].0 != src[a].0);
                }
            }
        }
    }
}

/// Two descending lists of pairwise distinct timestamps holding the
/// same pairs are the same list.
proof fn lemma_sorted_desc_unique(a: Seq<(u64, CellModel)>, b: Seq<(u64, CellModel)>)
    requires
        wk_desc(a),
        wk_desc(b),
        ts_unique(a),
        ts_unique(b),
        a.to_multiset() == b.to_multiset(),
    ensures
        a == b,
    decreases a.len(),
{
    broadcast use vstd::seq_lib::group_to_multiset_ensures;

    assert(a.len() == a.to_multiset().len());
    assert(b.len() == b.to_multiset().len());
    if a.len() == 0 {
        assert(a =~= b);
    } else {
        assert(a.contains(a[0]));
        assert(b.to_multiset().count(a[0]) > 0);
        assert(b.contains(a[0]));
        let k = choose|k: int| 0 <= k < b.len() && b[k] == a[0];
        assert(b.contains(b[0]));
        assert(a.to_multiset().count(b[0]) > 0);
        assert(a.contains(b[0]));
        let k2 = choose|k2: int| 0 <= k2 < a.len() && a[k2] == b[0];
        assert(b[0].0 >= b[k].0);
        assert(a[0].0 >= a[k2].0);
        assert(a[0].0 == b[0].0);
        if k > 0 {
            assert(b[0].0 != b[k].0);
        }
        assert(b[0] == a[0]);
        assert(a.drop_first() =~= a.remove(0));
        assert(b.drop_first() =~= b.remove(0));
        vstd::seq_lib::to_multiset_remove(a, 0);
        vstd::seq_lib::to_multiset_remove(b, 0);
        assert(a.drop_first().to_multiset() == b.drop_first().to_multiset());
        assert forall|p: int, q: int| 0 <= p < q < a.drop_first().len() implies (
        #[trigger] a.drop_first()[p]).0 >= (#[trigger] a.drop_first()[q]).0 && a.drop_first()[p].0
            != a.drop_first()[q].0 by {
            assert(a.drop_first()[p] == a[p + 1]);
            assert(a.drop_first()[q] == a[q + 1]);
        }
        assert forall|p: int, q: int| 0 <= p < q < b.drop_first().len() implies (
        #[trigger] b.drop_first()[p]).0 >= (#[trigger] b.drop_first()[q]).0 && b.drop_first()[p].0
            != b.drop_first()[q].0 by {
            assert(b.drop_first()[p] == b[p + 1]);
            assert(b.drop_first()[q] == b[q + 1]);
        }
        lemma_sorted_desc_unique(a.drop_first(), b.drop_first());
        assert forall|i: int| 0 <= i < a.len() implies a[i] == b[i] by {
            if i > 0 {
                assert(a.drop_first()[i - 1] == b.drop_first()[i - 1]);
            }
        }
        assert(a =~= b);
    }
}

/// A run list's gathered versions split at any point.
proof fn lemma_cat_versions_split(
    ssts: Seq<crate::api::SstModel>,
    k: int,
    row: Seq<u8>,
    column: Seq<u8>,
)
    requires
        0 <= k <= ssts.len(),
    ensures
        crate::api::sst_versions_cat(ssts, row, column) == crate::api::sst_versions_cat(
            ssts.take(k),
            row,
            column,
        ) + crate::api::sst_versions_cat(ssts.skip(k), row, column),
    decreases ssts.len(),
{
    if k == ssts.len() {
        assert(ssts.take(k) =~= ssts);
        assert(ssts.skip(k) =~= Seq::<crate::api::SstModel>::empty());
        assert(crate::api::sst_versions_cat(ssts, row, column) =~= crate::api::sst_versions_cat(
            ssts.take(k),
            row,
            column,
        ) + crate::api::sst_versions_cat(ssts.skip(k), row, column));
    } else {
        lemma_cat_versions_split(ssts.drop_last(), k, row, column);
        assert(ssts.drop_last().take(k) =~= ssts.take(k));
        assert(ssts.drop_last().skip(k) =~= ssts.skip(k).drop_last());
        assert(ssts.skip(k).last() == ssts.last());
        assert(crate::api::sst_versions_cat(ssts.take(k), row, column)
            + (crate::api::sst_versions_cat(ssts.skip(k).drop_last(), row, column)
            + crate::model::cell_versions(ssts.last().entries, row, column).reverse())
            =~= (crate::api::sst_versions_cat(ssts.take(k), row, column)
            + crate::api::sst_versions_cat(ssts.skip(k).drop_last(), row, column))
            + crate::model::cell_versions(ssts.last().entries, row, column).reverse());
    }
}

/// A compaction asked to prune nothing preserves every cell's version
/// read exactly, for every bound asked, wherever the cell's versions
/// carry pairwise distinct timestamps.
pub proof fn lemma_compaction_preserves_reads(
    cf: CfModel,
    opts: crate::api::CompactionOptions,
    now: u64,
    row: Seq<u8>,
    column: Seq<u8>,
    n: int,
)
    requires
        cf_wf(cf),
        cf.mem.len() == 0,
        opts.max_versions is None,
        opts.max_age_ms is None,
        !opts.cleanup_tombstones,
        ts_unique(crate::api::cf_all_versions(cf, row, column)),
    ensures
        crate::api::cf_get_versions(crate::api::cf_compact(cf, opts, now), row, column, n)
            == crate::api::cf_get_versions(cf, row, column, n),
{
    broadcast use vstd::seq_lib::lemma_multiset_commutative;

    let ccf = crate::api::cf_compact(cf, opts, now);
    let count = crate::api::selected_count(opts, cf.ssts.len() as int);
    assert(0 <= count <= cf.ssts.len());
    let merged = crate::api::sort_key(
        crate::api::sst_entries_cat(cf.ssts.take(count)),
    );
    let entries = crate::api::compact_entries(cf, opts, now);
    assert(!crate::api::pruning_active(opts));
    assert(entries == merged);

    let newsst = crate::api::SstModel {
        seq: crate::api::next_seq(cf.ssts) as u64,
        entries: entries,
    };
    assert(ccf.ssts == cf.ssts.skip(count).push(newsst));
    reveal(Seq::filter);
    assert(crate::model::cell_versions(ccf.mem, row, column) =~= Seq::<(u64, CellModel)>::empty());
    assert(crate::model::cell_versions(ccf.mem, row, column).reverse() =~= Seq::<
        (u64, CellModel),
    >::empty());
    assert(ccf.ssts.drop_last() =~= cf.ssts.skip(count));
    assert(ccf.ssts.last().entries == entries);
    let av_after = crate::api::cf_all_versions(ccf, row, column);
    assert(av_after =~= crate::api::sst_versions_cat(cf.ssts.skip(count), row, column)
        + crate::model::cell_versions(entries, row, column).reverse());

    assert(crate::model::cell_versions(cf.mem, row, column) =~= Seq::<(u64, CellModel)>::empty());
    assert(crate::model::cell_versions(cf.mem, row, column).reverse() =~= Seq::<
        (u64, CellModel),
    >::empty());
    let av_before = crate::api::cf_all_versions(cf, row, column);
    assert(av_before =~= crate::api::sst_versions_cat(cf.ssts, row, column));

    // Both gatherings hold the same pairs: the merged run's versions are
    // the selected runs' versions, and the untouched runs stay.
    crate::model::cell_versions(entries, row, column).lemma_reverse_to_multiset();
    lemma_sort_key_cv_multiset(crate::api::sst_entries_cat(cf.ssts.take(count)), row, column);
    lemma_cat_cv_multiset(cf.ssts.take(count), row, column);
    lemma_cat_versions_split(cf.ssts, count, row, column);
    assert(av_before.to_multiset() == crate::api::sst_versions_cat(
        cf.ssts.take(count),
        row,
        column,
    ).to_multiset().add(
        crate::api::sst_versions_cat(cf.ssts.skip(count), row, column).to_multiset(),
    ));
    assert(av_after.to_multiset() =~= av_before.to_multiset());

    // Sorting both newest first therefore yields the same list.
    lemma_sort_desc_multiset(av_after);
    lemma_sort_desc_multiset(av_before);
    lemma_sort_desc_sorted(av_after);
    lemma_sort_desc_sorted(av_before);
    lemma_ts_unique_transfer(av_before, crate::api::sort_desc(av_after));
    lemma_ts_unique_transfer(av_before, crate::api::sort_desc(av_before));
    lemma_sorted_desc_unique(
        crate::api::sort_desc(av_after),
        crate::api::sort_desc(av_before),
    );
}

/// Once an expired deletion marker has consumed its cell, the rest of
/// that cell's run is dropped entirely by the walk.
proof fn lemma_shadowed_run_dropped(
    s: Seq<EntryModel>,
    now: u64,
    opts: crate::api::CompactionOptions,
    kp: int,
    sl: bool,
    row: Seq<u8>,
    column: Seq<u8>,
)
    requires
        crate::model::sorted_weak(s),
        s.len() > 0,
        is_cell(s.last(), row, column),
    ensures
        forall|k: int|
            0 <= k < crate::api::prune_back(s, now, opts, kp, sl, true).len() ==> !is_cell(
                #[trigger] crate::api::prune_back(s, now, opts, kp, sl, true)[k],
                row,
                column,
            ),
    decreases s.len(),
{
    let out = crate::api::prune_back(s, now, opts, kp, sl, true);
    let e = s.last();
    assert(!crate::api::keep_entry(e, now, opts, kp, sl, true));
    let boundary = s.len() < 2 || !crate::api::same_cell(s[s.len() - 2], e);
    if boundary {
        let rest = crate::api::prune_back(s.drop_last(), now, opts, 0, false, false);
        assert forall|t: int| 0 <= t < s.drop_last().len() implies !is_cell(
            #[trigger] s.drop_last()[t],
            row,
            column,
        ) by {
            assert(s.drop_last()[t] == s[t]);
            if is_cell(s[t], row, column) {
                lemma_cell_block(s, row, column, t, s.len() - 2, s.len() - 1);
                assert(crate::api::same_cell(s[s.len() - 2], e));
            }
        }
        crate::api::lemma_prune_back_sub(s.drop_last(), now, opts, 0, false, false);
        assert forall|k: int| 0 <= k < out.len() implies !is_cell(
            #[trigger] out[k],
            row,
            column,
        ) by {
            assert(out[k] == rest[k]);
            let j = choose|j: int|
                0 <= j < s.drop_last().len() && #[trigger] rest[k] == s.drop_last()[j];
        }
    } else {
        assert(crate::api::same_cell(s[s.len() - 2], e));
        assert(is_cell(s.drop_last().last(), row, column));
        assert(crate::model::sorted_weak(s.drop_last()));
        lemma_shadowed_run_dropped(s.drop_last(), now, opts, kp, sl, row, column);
        assert(out == crate::api::prune_back(s.drop_last(), now, opts, kp, sl, true));
    }
}

/// An expired deletion marker that is the newest entry of its cell takes
/// the whole cell with it: nothing of that cell survives the walk.
pub proof fn lemma_expired_tombstone_consumes(
    s: Seq<EntryModel>,
    now: u64,
    opts: crate::api::CompactionOptions,
    kp: int,
    sl: bool,
    sh: bool,
    row: Seq<u8>,
    column: Seq<u8>,
    i: int,
)
    requires
        crate::model::sorted_weak(s),
        0 <= i < s.len(),
        is_cell(s[i], row, column),
        crate::api::expired_marker(s[i], now, opts),
    forall|j: int| i < j < s.len() ==> !is_cell(#[trigger] s[j], row, column),
    ensures
        forall|k: int|
            0 <= k < crate::api::prune_back(s, now, opts, kp, sl, sh).len() ==> !is_cell(
                #[trigger] crate::api::prune_back(s, now, opts, kp, sl, sh)[k],
                row,
                column,
            ),
    decreases s.len(),
{
    let out = crate::api::prune_back(s, now, opts, kp, sl, sh);
    let e = s.last();
    let keep = crate::api::keep_entry(e, now, opts, kp, sl, sh);
    let kp2 = if keep && e.value is Put {
        kp + 1
    } else {
        kp
    };
    let sl2 = sl || (keep && e.value is Put);
    let sh2 = sh || crate::api::expired_marker(e, now, opts);
    let boundary = s.len() < 2 || !crate::api::same_cell(s[s.len() - 2], e);
    if i == s.len() - 1 {
        // The marker itself is dropped: expired markers never survive.
        assert(!keep);
        assert(sh2);
        if boundary {
            let rest = crate::api::prune_back(s.drop_last(), now, opts, 0, false, false);
            assert forall|t: int| 0 <= t < s.drop_last().len() implies !is_cell(
                #[trigger] s.drop_last()[t],
                row,
                column,
            ) by {
                assert(s.drop_last()[t] == s[t]);
                if is_cell(s[t], row, column) {
                    lemma_cell_block(s, row, column, t, s.len() - 2, s.len() - 1);
                    assert(crate::api::same_cell(s[s.len() - 2], e));
                }
            }
            crate::api::lemma_prune_back_sub(s.drop_last(), now, opts, 0, false, false);
            assert forall|k: int| 0 <= k < out.len() implies !is_cell(
                #[trigger] out[k],
                row,
                column,
            ) by {
                assert(out[k] == rest[k]);
                let j = choose|j: int|
                    0 <= j < s.drop_last().len() && #[trigger] rest[k] == s.drop_last()[j];
            }
        } else {
            assert(crate::api::same_cell(s[s.len() - 2], e));
            assert(is_cell(s.drop_last().last(), row, column));
            assert(crate::model::sorted_weak(s.drop_last()));
            lemma_shadowed_run_dropped(s.drop_last(), now, opts, kp2, sl2, row, column);
            assert(out == crate::api::prune_back(s.drop_last(), now, opts, kp2, sl2, true));
        }
    } else {
        assert(!is_cell(e, row, column));
        assert(crate::model::sorted_weak(s.drop_last()));
        assert forall|j: int| i < j < s.drop_last().len() implies !is_cell(
            #[trigger] s.drop_last()[j],
            row,
            column,
        ) by {
            assert(s.drop_last()[j] == s[j]);
        }
        assert(s.drop_last()[i] == s[i]);
        if boundary {
            lemma_expired_tombstone_consumes(
                s.drop_last(),
                now,
                opts,
                0,
                false,
                false,
                row,
                column,
                i,
            );
        } else {
            lemma_expired_tombstone_consumes(
                s.drop_last(),
                now,
                opts,
                kp2,
                sl2,
                sh2,
                row,
                column,
                i,
            );
        }
        let rest = if boundary {
            crate::api::prune_back(s.drop_last(), now, opts, 0, false, false)
        } else {
            crate::api::prune_back(s.drop_last(), now, opts, kp2, sl2, sh2)
        };
        assert forall|k: int| 0 <= k < out.len() implies !is_cell(
            #[trigger] out[k],
            row,
            column,
        ) by {
            if keep && k == out.len() - 1 {
                assert(out[k] == e);
            } else {
                assert(out[k] == rest[k]);
            }
        }
    }
}

/// After a major compaction whose newest merged entry for a cell is an
/// expired deletion marker, nothing of that cell remains: the written
/// run holds no entry for it, its point read is absent and its version
/// read is empty — the expired marker and everything it shadowed are
/// cleaned up together.
pub proof fn lemma_expired_tombstone_cleaned_by_compaction(
    cf: CfModel,
    opts: crate::api::CompactionOptions,
    now: u64,
    row: Seq<u8>,
    column: Seq<u8>,
    i: int,
    n: int,
)
    requires
        cf_wf(cf),
        cf.mem.len() == 0,
        opts.compaction_type is Major,
        n >= 0,
        0 <= i < crate::api::sort_key(crate::api::sst_entries_cat(cf.ssts)).len(),
        is_cell(crate::api::sort_key(crate::api::sst_entries_cat(cf.ssts))[i], row, column),
        crate::api::expired_marker(
            crate::api::sort_key(crate::api::sst_entries_cat(cf.ssts))[i],
            now,
            opts,
        ),
        forall|j: int|
            i < j < crate::api::sort_key(crate::api::sst_entries_cat(cf.ssts)).len() ==> !is_cell(
                #[trigger] crate::api::sort_key(crate::api::sst_entries_cat(cf.ssts))[j],
                row,
                column,
            ),
    ensures
        cell_entries(crate::api::compact_entries(cf, opts, now), row, column).len() == 0,
        cf_get(crate::api::cf_compact(cf, opts, now), row, column) is None,
        crate::api::cf_get_versions(crate::api::cf_compact(cf, opts, now), row, column, n)
            == Seq::<(u64, Seq<u8>)>::empty(),
{
    let ccf = crate::api::cf_compact(cf, opts, now);
    let count = crate::api::selected_count(opts, cf.ssts.len() as int);
    assert(count == cf.ssts.len());
    assert(cf.ssts.take(count) =~= cf.ssts);
    let merged = crate::api::sort_key(crate::api::sst_entries_cat(cf.ssts));
    crate::api::lemma_sort_key_sorted(crate::api::sst_entries_cat(cf.ssts));
    let entries = crate::api::compact_entries(cf, opts, now);
    assert(crate::api::pruning_active(opts));
    assert(entries == crate::api::prune_back(merged, now, opts, 0, false, false));
    lemma_expired_tombstone_consumes(merged, now, opts, 0, false, false, row, column, i);
    let pred = |x: EntryModel| is_cell(x, row, column);
    lemma_filter_all_false(entries, pred);
    assert(latest_cell(entries, row, column) is None);

    assert(ccf.ssts =~= seq![
        crate::api::SstModel {
            seq: crate::api::next_seq(cf.ssts) as u64,
            entries: entries,
        },
    ]);
    reveal(Seq::filter);
    assert(cell_entries(ccf.mem, row, column) =~= Seq::<EntryModel>::empty());
    assert(latest_cell(ccf.mem, row, column) is None);
    assert(ccf.ssts.last().entries == entries);
    assert(ccf.ssts.drop_last() =~= Seq::<crate::api::SstModel>::empty());
    assert(crate::api::sst_get(Seq::<crate::api::SstModel>::empty(), row, column) is None);
    assert(crate::api::sst_get(ccf.ssts.drop_last(), row, column) is None);
    assert(crate::api::sst_get(ccf.ssts, row, column) is None);

    // No entries of the cell at all, so its version read is empty too.
    assert(crate::model::cell_versions(entries, row, column) =~= Seq::<(u64, CellModel)>::empty());
    assert(crate::model::cell_versions(entries, row, column).reverse() =~= Seq::<
        (u64, CellModel),
    >::empty());
    assert(crate::model::cell_versions(ccf.mem, row, column) =~= Seq::<(u64, CellModel)>::empty());
    assert(crate::model::cell_versions(ccf.mem, row, column).reverse() =~= Seq::<
        (u64, CellModel),
    >::empty());
    assert(crate::api::sst_versions_cat(ccf.ssts.drop_last(), row, column) =~= Seq::<
        (u64, CellModel),
    >::empty());
    let av = crate::api::cf_all_versions(ccf, row, column);
    assert(av =~= Seq::<(u64, CellModel)>::empty());
    assert(crate::api::sort_desc(av) =~= Seq::<(u64, CellModel)>::empty());
    assert(crate::api::puts_of(crate::api::sort_desc(av)) =~= Seq::<(u64, Seq<u8>)>::empty());
    assert(crate::api::puts_of(crate::api::sort_desc(av)).len() <= n);
    assert(crate::api::take_n(crate::api::puts_of(crate::api::sort_desc(av)), n)
        == crate::api::puts_of(crate::api::sort_desc(av)));
    assert(crate::api::cf_get_versions(ccf, row, column, n) =~= Seq::<(u64, Seq<u8>)>::empty());
}

/// A non-empty map of moderate entries, while run numbers remain,
/// always flushes: the run and its file bytes come back.
pub proof fn lemma_flush_returns_run(
    pre: CfModel,
    post: CfModel,
    r: Option<(u64, Vec<u8>)>,
)
    requires
        crate::api::flush_outcome(pre, post, r),
        0 < pre.mem.len() <= u32::MAX,
        crate::api::next_seq(pre.ssts) <= u64::MAX,
        forall|i: int|
            0 <= i < pre.mem.len() ==> (#[trigger] pre.mem[i]).key.row.len()
                + pre.mem[i].key.column.len() <= 0x7FFF_0000,
        forall|i: int|
            0 <= i < pre.mem.len() ==> ((#[trigger] pre.mem[i]).value matches CellModel::Put(d)
                ==> d.len() <= 0x7FFF_0000),
    ensures
        r is Some,
{
    crate::codec::lemma_sst_wf_bounded(pre.mem);
}

} // verus!
