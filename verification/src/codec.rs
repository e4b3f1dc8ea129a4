//! Binary encoding of entries: the write-ahead-log records and the rows of
//! an on-disk table.
//!
//! An entry is framed as `[u32 BE key length][key bytes][u32 BE value
//! length][value bytes]`, where the key and value bytes are the
//! fixed-width little-endian serializations `bincode` produces, stated
//! here byte for byte.  A write-ahead-log record is an
//! entry framing prefixed by its own `u32 BE` length, so a log can be
//! replayed by streaming until the end of the file; a truncated trailing
//! record is treated as absent.

use vstd::prelude::*;
use vstd::slice::slice_subrange;

use crate::memstore::entries_model;
use crate::types::{CellModel, CellValue, Entry, EntryKey, EntryModel, KeyModel};

verus! {

/// Eight bytes, little endian.
pub open spec fn le64(n: u64) -> Seq<u8> {
    seq![
        (n % 0x100) as u8,
        ((n / 0x100) % 0x100) as u8,
        ((n / 0x10000) % 0x100) as u8,
        ((n / 0x1000000) % 0x100) as u8,
        ((n / 0x100000000) % 0x100) as u8,
        ((n / 0x10000000000) % 0x100) as u8,
        ((n / 0x1000000000000) % 0x100) as u8,
        ((n / 0x100000000000000) % 0x100) as u8,
    ]
}

/// The serialized bytes of a key triple: each byte string as its 8-byte
/// little-endian length and then its bytes, the timestamp as 8 bytes
/// little endian, in field order.
#[verifier::opaque]
pub open spec fn key_enc(row: Seq<u8>, column: Seq<u8>, timestamp: u64) -> Seq<u8> {
    le64(row.len() as u64) + row + le64(column.len() as u64) + column + le64(timestamp)
}

/// The serialized bytes of a cell's parts: the tag byte, the data bytes
/// behind their 8-byte little-endian length, then the time-to-live as a
/// one-byte presence tag followed, when present, by 8 bytes little
/// endian.
#[verifier::opaque]
pub open spec fn cell_enc(tag: u8, data: Seq<u8>, ttl: Option<u64>) -> Seq<u8> {
    seq![tag] + le64(data.len() as u64) + data + (match ttl {
        None => seq![0u8],
        Some(t) => seq![1u8] + le64(t),
    })
}

/// Relies on bincode::serialize (fixed-width little-endian integers): a
/// byte string is its 8-byte length then its bytes, an optional value a
/// one-byte tag then the value, a tuple its parts in order; never fails
/// for a tuple of plain values.
#[verifier::external_body]
fn bincode_encode_key(row: &Vec<u8>, column: &Vec<u8>, timestamp: u64) -> (r: Vec<u8>)
    ensures
        r@ == key_enc(row@, column@, timestamp),
{
    bincode::serialize(&(row, column, timestamp)).unwrap()
}

/// The decoder returned exactly the given key triple.
pub open spec fn key_decoded(
    r: Option<(Vec<u8>, Vec<u8>, u64)>,
    row: Seq<u8>,
    column: Seq<u8>,
    timestamp: u64,
) -> bool {
    match r {
        Some(t) => t.0@ == row && t.1@ == column && t.2 == timestamp,
        None => false,
    }
}

/// Relies on bincode::deserialize: on the exact bytes that
/// bincode::serialize produced for a key triple it returns that triple.
#[verifier::external_body]
fn bincode_decode_key(b: &[u8]) -> (r: Option<(Vec<u8>, Vec<u8>, u64)>)
    ensures
        forall|row: Seq<u8>, column: Seq<u8>, timestamp: u64|
            b@ == key_enc(row, column, timestamp) ==> key_decoded(r, row, column, timestamp),
{
    bincode::deserialize::<(Vec<u8>, Vec<u8>, u64)>(b).ok()
}

/// Relies on bincode::serialize (fixed-width little-endian integers),
/// with the same layout as for keys; never fails for a tuple of plain
/// values.
#[verifier::external_body]
fn bincode_encode_cell(tag: u8, data: &Vec<u8>, ttl: Option<u64>) -> (r: Vec<u8>)
    ensures
        r@ == cell_enc(tag, data@, ttl),
{
    bincode::serialize(&(tag, data, ttl)).unwrap()
}

/// The decoder returned exactly the given cell parts.
pub open spec fn cell_parts_decoded(
    r: Option<(u8, Vec<u8>, Option<u64>)>,
    tag: u8,
    data: Seq<u8>,
    ttl: Option<u64>,
) -> bool {
    match r {
        Some(t) => t.0 == tag && t.1@ == data && t.2 == ttl,
        None => false,
    }
}

/// Relies on bincode::deserialize: on the exact bytes that
/// bincode::serialize produced for a cell's parts it returns those parts.
#[verifier::external_body]
fn bincode_decode_cell(b: &[u8]) -> (r: Option<(u8, Vec<u8>, Option<u64>)>)
    ensures
        forall|tag: u8, data: Seq<u8>, ttl: Option<u64>|
            b@ == cell_enc(tag, data, ttl) ==> cell_parts_decoded(r, tag, data, ttl),
{
    bincode::deserialize::<(u8, Vec<u8>, Option<u64>)>(b).ok()
}

/// The tag under which a cell's variant is serialized.
pub open spec fn cell_tag(c: CellModel) -> u8 {
    match c {
        CellModel::Put(_) => 0,
        CellModel::Delete(_) => 1,
    }
}

/// The data bytes under which a cell is serialized.
pub open spec fn cell_data(c: CellModel) -> Seq<u8> {
    match c {
        CellModel::Put(d) => d,
        CellModel::Delete(_) => Seq::<u8>::empty(),
    }
}

/// The time-to-live under which a cell is serialized.
pub open spec fn cell_ttl(c: CellModel) -> Option<u64> {
    match c {
        CellModel::Put(_) => None,
        CellModel::Delete(t) => t,
    }
}

/// The serialized bytes of a key.
pub open spec fn key_bytes(k: KeyModel) -> Seq<u8> {
    key_enc(k.row, k.column, k.timestamp)
}

/// The serialized bytes of a cell value.
pub open spec fn cell_bytes(c: CellModel) -> Seq<u8> {
    cell_enc(cell_tag(c), cell_data(c), cell_ttl(c))
}

/// Four bytes, big endian.
pub open spec fn be32(n: u32) -> Seq<u8> {
    seq![
        (n / 0x1000000) as u8,
        ((n / 0x10000) % 0x100) as u8,
        ((n / 0x100) % 0x100) as u8,
        (n % 0x100) as u8,
    ]
}

/// The value read back from four big-endian bytes.
pub open spec fn be32_val(b: Seq<u8>) -> int
    recommends
        b.len() >= 4,
{
    (b[0] as int) * 0x1000000 + (b[1] as int) * 0x10000 + (b[2] as int) * 0x100 + (b[3] as int)
}

/// Reading back the four big-endian bytes of a value yields the value.
pub proof fn lemma_be32_roundtrip(n: u32)
    ensures
        be32(n).len() == 4,
        be32_val(be32(n)) == n,
{
    assert((n / 0x1000000) * 0x1000000 + ((n / 0x10000) % 0x100) * 0x10000 + ((n / 0x100) % 0x100)
        * 0x100 + (n % 0x100) == n) by (nonlinear_arith);
}

/// Append the four big-endian bytes of `n`.
pub(crate) fn push_be32(out: &mut Vec<u8>, n: u32)
    ensures
        final(out)@ == old(out)@ + be32(n),
{
    let ghost o = out@;
    out.push((n / 0x1000000) as u8);
    out.push(((n / 0x10000) % 0x100) as u8);
    out.push(((n / 0x100) % 0x100) as u8);
    out.push((n % 0x100) as u8);
    proof {
        assert(out@ =~= o + be32(n));
    }
}

/// Read a big-endian `u32` at the given position.
pub(crate) fn read_be32(b: &[u8], pos: usize) -> (r: u32)
    requires
        pos + 4 <= b@.len(),
    ensures
        r == be32_val(b@.subrange(pos as int, pos + 4)),
{
    let n = b.len();
    proof {
        assert(pos + 4 <= n);
    }
    let b0 = *vstd::slice::slice_index_get(b, pos) as u32;
    let b1 = *vstd::slice::slice_index_get(b, pos + 1) as u32;
    let b2 = *vstd::slice::slice_index_get(b, pos + 2) as u32;
    let b3 = *vstd::slice::slice_index_get(b, pos + 3) as u32;
    proof {
        assert(b@.subrange(pos as int, pos + 4)[0] == b@[pos as int]);
        assert(b@.subrange(pos as int, pos + 4)[1] == b@[pos + 1]);
        assert(b@.subrange(pos as int, pos + 4)[2] == b@[pos + 2]);
        assert(b@.subrange(pos as int, pos + 4)[3] == b@[pos + 3]);
    }
    b0 * 0x1000000 + b1 * 0x10000 + b2 * 0x100 + b3
}

/// Both serialized blobs of the entry fit their length prefixes.
pub open spec fn entry_wf(e: EntryModel) -> bool {
    key_bytes(e.key).len() <= u32::MAX && cell_bytes(e.value).len() <= u32::MAX
}

/// The framed bytes of one entry: length-prefixed key blob, then
/// length-prefixed value blob.
pub open spec fn entry_bytes(e: EntryModel) -> Seq<u8> {
    be32(key_bytes(e.key).len() as u32) + key_bytes(e.key) + be32(cell_bytes(e.value).len() as u32)
        + cell_bytes(e.value)
}

/// A key's serialized length: its fixed fields and its byte strings.
pub proof fn lemma_key_bytes_len(k: KeyModel)
    ensures
        key_bytes(k).len() == 24 + k.row.len() + k.column.len(),
{
    reveal(key_enc);
}

/// A cell's serialized length, by variant.
pub proof fn lemma_cell_bytes_len(c: CellModel)
    ensures
        cell_bytes(c).len() == (match c {
            CellModel::Put(d) => 10 + d.len() as int,
            CellModel::Delete(None) => 10int,
            CellModel::Delete(Some(_)) => 18int,
        }),
{
    reveal(cell_enc);
}

/// A framed entry's length: both prefixes and both blobs.
pub proof fn lemma_entry_bytes_len(e: EntryModel)
    ensures
        entry_bytes(e).len() == 8 + key_bytes(e.key).len() + cell_bytes(e.value).len(),
{
}

/// An entry whose byte strings are of moderate size fits every length
/// prefix, so it can always be framed and logged.
pub proof fn lemma_entry_wf_bounded(e: EntryModel)
    requires
        e.key.row.len() + e.key.column.len() <= 0x7FFF_0000,
        e.value matches CellModel::Put(d) ==> d.len() <= 0x7FFF_0000,
    ensures
        entry_wf(e),
        wal_record_wf(e),
{
    lemma_key_bytes_len(e.key);
    lemma_cell_bytes_len(e.value);
    lemma_entry_bytes_len(e);
}

/// A run of moderate entries, no more than the count field can hold,
/// always fits the table format.
pub proof fn lemma_sst_wf_bounded(es: Seq<EntryModel>)
    requires
        es.len() <= u32::MAX,
        forall|i: int|
            0 <= i < es.len() ==> (#[trigger] es[i]).key.row.len() + es[i].key.column.len()
                <= 0x7FFF_0000,
        forall|i: int|
            0 <= i < es.len() ==> ((#[trigger] es[i]).value matches CellModel::Put(d) ==> d.len()
                <= 0x7FFF_0000),
    ensures
        crate::storage::sst_wf(es),
{
    assert forall|i: int| 0 <= i < es.len() implies entry_wf(#[trigger] es[i]) by {
        lemma_entry_wf_bounded(es[i]);
    }
}

/// A whole write-ahead-log record: the framed entry prefixed by its own
/// length.
pub open spec fn wal_record(e: EntryModel) -> Seq<u8> {
    be32(entry_bytes(e).len() as u32) + entry_bytes(e)
}

/// The entry's record fits its length prefix.
pub open spec fn wal_record_wf(e: EntryModel) -> bool {
    entry_wf(e) && entry_bytes(e).len() <= u32::MAX
}

/// The bytes of a whole write-ahead log: one record per entry, in order.
pub open spec fn wal_stream(es: Seq<EntryModel>) -> Seq<u8>
    decreases es.len(),
{
    if es.len() == 0 {
        Seq::<u8>::empty()
    } else {
        wal_stream(es.drop_last()) + wal_record(es.last())
    }
}

/// Every entry of the log fits its length prefixes.
pub open spec fn stream_wf(es: Seq<EntryModel>) -> bool {
    forall|i: int| 0 <= i < es.len() ==> wal_record_wf(#[trigger] es[i])
}

/// A truncated trailing record: too short for a length prefix, or shorter
/// than the length its prefix declares.
pub open spec fn partial_tail(t: Seq<u8>) -> bool {
    t.len() < 4 || t.len() < 4 + be32_val(t.subrange(0, 4))
}

/// The bytes `b` are the records of the well-formed log `es` followed by
/// a truncated trailing record `extra`.
pub open spec fn wal_match(b: Seq<u8>, es: Seq<EntryModel>, extra: Seq<u8>) -> bool {
    stream_wf(es) && b == wal_stream(es) + extra && partial_tail(extra)
}

/// A log splits into the records of its prefix and the rest.
pub proof fn lemma_wal_stream_split(es: Seq<EntryModel>, k: int)
    requires
        0 <= k <= es.len(),
    ensures
        wal_stream(es) == wal_stream(es.take(k)) + wal_stream(es.skip(k)),
    decreases es.len(),
{
    if k == es.len() {
        assert(es.take(k) =~= es);
        assert(es.skip(k) =~= Seq::<EntryModel>::empty());
        assert(wal_stream(es) =~= wal_stream(es.take(k)) + wal_stream(es.skip(k)));
    } else {
        lemma_wal_stream_split(es.drop_last(), k);
        assert(es.drop_last().take(k) =~= es.take(k));
        assert(es.drop_last().skip(k) =~= es.skip(k).drop_last());
        assert(es.skip(k).last() == es.last());
        assert(wal_stream(es.take(k)) + (wal_stream(es.skip(k).drop_last()) + wal_record(
            es.last(),
        )) =~= (wal_stream(es.take(k)) + wal_stream(es.skip(k).drop_last())) + wal_record(
            es.last(),
        ));
    }
}

/// Appending one record extends the log by that record.
pub proof fn lemma_wal_stream_step(es: Seq<EntryModel>, k: int)
    requires
        0 <= k < es.len(),
    ensures
        wal_stream(es.take(k + 1)) == wal_stream(es.take(k)) + wal_record(es[k]),
{
    assert(es.take(k + 1).drop_last() =~= es.take(k));
    assert(es.take(k + 1).last() == es[k]);
}

/// Serialize one entry into its framed bytes, or nothing when a blob
/// exceeds its `u32` length prefix.
pub fn encode_entry(e: &Entry) -> (r: Option<Vec<u8>>)
    ensures
        match r {
            Some(v) => entry_wf(e@) && v@ == entry_bytes(e@),
            None => !entry_wf(e@),
        },
{
    let key_b = bincode_encode_key(&e.key.row, &e.key.column, e.key.timestamp);
    let cell_b = match &e.value {
        CellValue::Put(data) => bincode_encode_cell(0, data, None),
        CellValue::Delete(ttl) => {
            let empty: Vec<u8> = Vec::new();
            proof {
                assert(empty@ =~= Seq::<u8>::empty());
            }
            bincode_encode_cell(1, &empty, *ttl)
        },
    };
    if key_b.len() > 0xFFFF_FFFFusize || cell_b.len() > 0xFFFF_FFFFusize {
        return None;
    }
    let mut out: Vec<u8> = Vec::new();
    push_be32(&mut out, key_b.len() as u32);
    let mut key_b = key_b;
    out.append(&mut key_b);
    push_be32(&mut out, cell_b.len() as u32);
    let mut cell_b = cell_b;
    out.append(&mut cell_b);
    proof {
        assert(out@ =~= entry_bytes(e@));
    }
    Some(out)
}

/// Serialize one write-ahead-log record, or nothing when the entry
/// exceeds a `u32` length prefix.
pub fn encode_wal_record(e: &Entry) -> (r: Option<Vec<u8>>)
    ensures
        match r {
            Some(v) => wal_record_wf(e@) && v@ == wal_record(e@),
            None => !wal_record_wf(e@),
        },
{
    let body = encode_entry(e);
    match body {
        None => None,
        Some(body) => {
            if body.len() > 0xFFFF_FFFFusize {
                return None;
            }
            let mut out: Vec<u8> = Vec::new();
            push_be32(&mut out, body.len() as u32);
            let mut body = body;
            out.append(&mut body);
            proof {
                assert(out@ =~= wal_record(e@));
            }
            Some(out)
        },
    }
}

/// Parse one framed entry at `pos`.  Wherever the bytes at `pos` are the
/// framing of an entry, that entry and the position after it come back.
pub fn decode_entry_at(b: &[u8], pos: usize) -> (r: Option<(Entry, usize)>)
    requires
        pos <= b@.len(),
    ensures
        r matches Some(p) ==> pos < p.1 <= b@.len(),
        forall|e: EntryModel|
            entry_wf(e) && pos + (#[trigger] entry_bytes(e)).len() <= b@.len() && b@.subrange(
                pos as int,
                pos + entry_bytes(e).len(),
            ) == entry_bytes(e) ==> (r matches Some(p) && p.0@ == e && p.1 == pos + entry_bytes(
                e,
            ).len()),
{
    let n = b.len();
    if n - pos < 4 {
        proof {
            lemma_no_entry_here(b@, pos as int, n - pos < 4);
        }
        return None;
    }
    let klen_u32 = read_be32(b, pos);
    let klen = klen_u32 as usize;
    if n - pos - 4 < klen {
        proof {
            lemma_entry_premise(b@, pos as int, klen_u32);
        }
        return None;
    }
    let key_slice = slice_subrange(b, pos + 4, pos + 4 + klen);
    let key_parts = bincode_decode_key(key_slice);
    let pos2 = pos + 4 + klen;
    if n - pos2 < 4 {
        proof {
            lemma_entry_premise(b@, pos as int, klen_u32);
        }
        return None;
    }
    let vlen_u32 = read_be32(b, pos2);
    let vlen = vlen_u32 as usize;
    if n - pos2 - 4 < vlen {
        proof {
            lemma_entry_premise(b@, pos as int, klen_u32);
        }
        return None;
    }
    let cell_slice = slice_subrange(b, pos2 + 4, pos2 + 4 + vlen);
    let cell_parts = bincode_decode_cell(cell_slice);
    let endpos = pos2 + 4 + vlen;
    let out: Option<(Entry, usize)> = match (key_parts, cell_parts) {
        (Some((row, column, timestamp)), Some((tag, data, ttl))) => {
            if tag == 0 {
                Some(
                    (
                        Entry {
                            key: EntryKey { row, column, timestamp },
                            value: CellValue::Put(data),
                        },
                        endpos,
                    ),
                )
            } else if tag == 1 {
                Some(
                    (
                        Entry {
                            key: EntryKey { row, column, timestamp },
                            value: CellValue::Delete(ttl),
                        },
                        endpos,
                    ),
                )
            } else {
                None
            }
        },
        _ => None,
    };
    proof {
        assert forall|e: EntryModel|
            entry_wf(e) && pos + (#[trigger] entry_bytes(e)).len() <= b@.len() && b@.subrange(
                pos as int,
                pos + entry_bytes(e).len(),
            ) == entry_bytes(e) implies (out matches Some(p) && p.0@ == e && p.1 == pos
            + entry_bytes(e).len()) by {
            lemma_entry_layout(b@, pos as int, e);
            lemma_be32_roundtrip(key_bytes(e.key).len() as u32);
            lemma_be32_roundtrip(cell_bytes(e.value).len() as u32);
            assert(klen == key_bytes(e.key).len());
            assert(key_slice@ == key_bytes(e.key));
            assert(vlen == cell_bytes(e.value).len());
            assert(cell_slice@ == cell_bytes(e.value));
            assert(key_decoded(key_parts, e.key.row, e.key.column, e.key.timestamp));
            assert(cell_parts_decoded(cell_parts, cell_tag(e.value), cell_data(e.value), cell_ttl(
                e.value,
            )));
        }
    }
    out
}

/// No framed entry fits where fewer than four bytes remain.
proof fn lemma_no_entry_here(b: Seq<u8>, pos: int, short: bool)
    requires
        short ==> b.len() - pos < 4,
        short,
    ensures
        forall|e: EntryModel|
            !(entry_wf(e) && pos + (#[trigger] entry_bytes(e)).len() <= b.len()),
{
    assert forall|e: EntryModel|
        !(entry_wf(e) && pos + (#[trigger] entry_bytes(e)).len() <= b.len()) by {
        assert(entry_bytes(e).len() >= 8);
    }
}

/// Where a framed entry sits at `pos`, the four bytes at `pos` are the
/// big-endian length of its key blob, and the rest lines up after it.
proof fn lemma_entry_layout(b: Seq<u8>, pos: int, e: EntryModel)
    requires
        entry_wf(e),
        0 <= pos,
        pos + entry_bytes(e).len() <= b.len(),
        b.subrange(pos, pos + entry_bytes(e).len()) == entry_bytes(e),
    ensures
        b.subrange(pos, pos + 4) == be32(key_bytes(e.key).len() as u32),
        b.subrange(pos + 4, pos + 4 + key_bytes(e.key).len()) == key_bytes(e.key),
        b.subrange(
            pos + 4 + key_bytes(e.key).len(),
            pos + 8 + key_bytes(e.key).len(),
        ) == be32(cell_bytes(e.value).len() as u32),
        b.subrange(
            pos + 8 + key_bytes(e.key).len(),
            pos + 8 + key_bytes(e.key).len() + cell_bytes(e.value).len(),
        ) == cell_bytes(e.value),
{
    let eb = entry_bytes(e);
    let ka = key_bytes(e.key);
    let va = cell_bytes(e.value);
    let kl = ka.len() as int;
    let vl = va.len() as int;
    let lb = be32(ka.len() as u32);
    let vb = be32(va.len() as u32);
    assert forall|i: int| 0 <= i < eb.len() implies b[pos + i] == eb[i] by {
        assert(b.subrange(pos, pos + eb.len())[i] == b[pos + i]);
    }
    assert forall|j: int| 0 <= j < 4 implies b.subrange(pos, pos + 4)[j] == lb[j] by {
        assert(b[pos + j] == eb[j]);
    }
    assert(b.subrange(pos, pos + 4) =~= lb);
    assert forall|j: int| 0 <= j < kl implies b.subrange(pos + 4, pos + 4 + kl)[j] == ka[j] by {
        assert(b[pos + (4 + j)] == eb[4 + j]);
    }
    assert(b.subrange(pos + 4, pos + 4 + kl) =~= ka);
    assert forall|j: int| 0 <= j < 4 implies b.subrange(pos + 4 + kl, pos + 8 + kl)[j] == vb[j] by {
        assert(b[pos + (4 + kl + j)] == eb[4 + kl + j]);
    }
    assert(b.subrange(pos + 4 + kl, pos + 8 + kl) =~= vb);
    assert forall|j: int| 0 <= j < vl implies b.subrange(pos + 8 + kl, pos + 8 + kl + vl)[j]
        == va[j] by {
        assert(b[pos + (8 + kl + j)] == eb[8 + kl + j]);
    }
    assert(b.subrange(pos + 8 + kl, pos + 8 + kl + vl) =~= va);
}

/// Where the declared key length does not match what a framed entry at
/// `pos` would declare, no framed entry sits at `pos`.
proof fn lemma_entry_premise(b: Seq<u8>, pos: int, klen: u32)
    requires
        0 <= pos,
        pos + 4 <= b.len(),
        klen == be32_val(b.subrange(pos, pos + 4)),
    ensures
        forall|e: EntryModel|
            entry_wf(e) && pos + (#[trigger] entry_bytes(e)).len() <= b.len() && b.subrange(
                pos,
                pos + entry_bytes(e).len(),
            ) == entry_bytes(e) ==> key_bytes(e.key).len() == klen && pos + 8 + key_bytes(
                e.key,
            ).len() + cell_bytes(e.value).len() <= b.len() && cell_bytes(e.value).len()
                == be32_val(
                b.subrange(
                    pos + 4 + key_bytes(e.key).len(),
                    pos + 8 + key_bytes(e.key).len(),
                ),
            ),
{
    assert forall|e: EntryModel|
        entry_wf(e) && pos + (#[trigger] entry_bytes(e)).len() <= b.len() && b.subrange(
            pos,
            pos + entry_bytes(e).len(),
        ) == entry_bytes(e) implies key_bytes(e.key).len() == klen && pos + 8 + key_bytes(
        e.key,
    ).len() + cell_bytes(e.value).len() <= b.len() && cell_bytes(e.value).len() == be32_val(
        b.subrange(pos + 4 + key_bytes(e.key).len(), pos + 8 + key_bytes(e.key).len()),
    ) by {
        lemma_entry_layout(b, pos, e);
        lemma_be32_roundtrip(key_bytes(e.key).len() as u32);
        lemma_be32_roundtrip(cell_bytes(e.value).len() as u32);
    }
}

/// Replay a write-ahead log: parse records until the end of the bytes or
/// a truncated trailing record.  Whatever well-formed log the bytes are,
/// exactly its entries come back, in order.
#[verifier::rlimit(60)]
#[verifier::spinoff_prover]
pub fn decode_wal_stream(b: &[u8]) -> (r: Vec<Entry>)
    ensures
        forall|es: Seq<EntryModel>, extra: Seq<u8>|
            #[trigger] wal_match(b@, es, extra) ==> entries_model(r@) == es,
{
    let n = b.len();
    let mut pos: usize = 0;
    let mut out: Vec<Entry> = Vec::new();
    proof {
        assert(entries_model(out@) =~= Seq::<EntryModel>::empty());
    }
    while n - pos >= 4
        invariant
            0 <= pos <= n,
            n == b@.len(),
            forall|es: Seq<EntryModel>, extra: Seq<u8>|
                #[trigger] wal_match(b@, es, extra) ==> entries_model(out@).len() <= es.len()
                    && entries_model(out@) == es.take(entries_model(out@).len() as int) && pos
                    == wal_stream(es.take(entries_model(out@).len() as int)).len(),
        decreases n - pos,
    {
        let ghost out0 = entries_model(out@);
        let ghost pos0 = pos as int;
        let l_u32 = read_be32(b, pos);
        let l = l_u32 as usize;
        if n - pos - 4 < l {
            proof {
                wal_exit_proof(b@, out0, pos0, true, l_u32 as int);
            }
            return out;
        }
        let parsed = decode_entry_at(b, pos + 4);
        match parsed {
            Some((ent, _consumed)) => {
                out.push(ent);
                pos = pos + 4 + l;
                proof {
                    assert(entries_model(out@) =~= out0.push(ent@));
                    assert forall|es: Seq<EntryModel>, extra: Seq<u8>|
                        #[trigger] wal_match(b@, es, extra) implies entries_model(out@).len()
                        <= es.len() && entries_model(out@) == es.take(
                        entries_model(out@).len() as int,
                    ) && pos == wal_stream(es.take(entries_model(out@).len() as int)).len() by {
                        let k = out0.len() as int;
                        wal_step_facts(b@, es, extra, k, pos0);
                        assert(ent@ == es[k]);
                        assert(l_u32 == entry_bytes(es[k]).len());
                        lemma_wal_stream_step(es, k);
                        assert(entries_model(out@) =~= es.take(k + 1));
                    }
                }
            },
            None => {
                proof {
                    assert forall|es: Seq<EntryModel>, extra: Seq<u8>|
                        #[trigger] wal_match(b@, es, extra) implies entries_model(out@) == es by {
                        let k = out0.len() as int;
                        if k < es.len() {
                            wal_step_facts(b@, es, extra, k, pos0);
                            assert(false);
                        }
                        assert(es.take(k) =~= es);
                    }
                }
                return out;
            },
        }
    }
    proof {
        assert forall|es: Seq<EntryModel>, extra: Seq<u8>|
            #[trigger] wal_match(b@, es, extra) implies entries_model(out@) == es by {
            let k = entries_model(out@).len() as int;
            if k < es.len() {
                wal_record_position(b@, es, extra, k, pos as int);
                assert(false);
            }
            assert(es.take(k) =~= es);
        }
    }
    out
}

/// Where `k` log entries have been consumed up to `pos` and a `k`-th
/// exists, its whole record sits at `pos`.
proof fn wal_record_position(b: Seq<u8>, es: Seq<EntryModel>, extra: Seq<u8>, k: int, pos: int)
    requires
        stream_wf(es),
        b == wal_stream(es) + extra,
        0 <= k < es.len(),
        pos == wal_stream(es.take(k)).len(),
    ensures
        pos + 4 + entry_bytes(es[k]).len() <= b.len(),
        b.subrange(pos, pos + 4) == be32(entry_bytes(es[k]).len() as u32),
        b.subrange(pos + 4, pos + 4 + entry_bytes(es[k]).len()) == entry_bytes(es[k]),
        be32_val(b.subrange(pos, pos + 4)) == entry_bytes(es[k]).len(),
{
    lemma_wal_stream_split(es, k);
    lemma_wal_stream_step(es, k);
    lemma_wal_stream_split(es, k + 1);
    assert(b == wal_stream(es.take(k)) + wal_record(es[k]) + wal_stream(es.skip(k + 1)) + extra);
    let rec = wal_record(es[k]);
    assert(rec == be32(entry_bytes(es[k]).len() as u32) + entry_bytes(es[k]));
    assert(wal_record_wf(es[k]));
    lemma_be32_roundtrip(entry_bytes(es[k]).len() as u32);
    assert forall|i: int| 0 <= i < rec.len() implies b[pos + i] == rec[i] by {
        assert(b[pos + i] == (wal_stream(es.take(k)) + wal_record(es[k]) + wal_stream(
            es.skip(k + 1),
        ) + extra)[pos + i]);
    }
    assert(b.subrange(pos, pos + 4) =~= be32(entry_bytes(es[k]).len() as u32));
    assert(b.subrange(pos + 4, pos + 4 + entry_bytes(es[k]).len()) =~= entry_bytes(es[k]));
}

/// The facts the replay loop needs at a step: the record at `pos` is the
/// `k`-th record, so the runtime length check passes and the parsed entry
/// is the `k`-th entry.
proof fn wal_step_facts(b: Seq<u8>, es: Seq<EntryModel>, extra: Seq<u8>, k: int, pos: int)
    requires
        stream_wf(es),
        b == wal_stream(es) + extra,
        partial_tail(extra),
        0 <= k <= es.len(),
        pos == wal_stream(es.take(k)).len(),
        pos + 4 <= b.len(),
        b.len() - pos - 4 >= be32_val(b.subrange(pos, pos + 4)),
    ensures
        k < es.len(),
        be32_val(b.subrange(pos, pos + 4)) == entry_bytes(es[k]).len(),
        pos + 4 + entry_bytes(es[k]).len() <= b.len(),
        b.subrange(pos + 4, pos + 4 + entry_bytes(es[k]).len()) == entry_bytes(es[k]),
        entry_wf(es[k]),
{
    if k == es.len() {
        lemma_wal_stream_split(es, k);
        assert(es.take(k) =~= es);
        assert(b.subrange(pos, b.len() as int) =~= extra);
        assert(extra.len() >= 4);
        assert(extra.subrange(0, 4) =~= b.subrange(pos, pos + 4));
        assert(false);
    }
    wal_record_position(b, es, extra, k, pos);
    assert(wal_record_wf(es[k]));
}

/// The postcondition of replay at a stop site: whatever remains cannot be
/// a further record of any matching log.
proof fn wal_exit_proof(b: Seq<u8>, out0: Seq<EntryModel>, pos: int, len_short: bool, l: int)
    requires
        len_short,
        0 <= pos,
        pos + 4 <= b.len(),
        l == be32_val(b.subrange(pos, pos + 4)),
        b.len() - pos - 4 < l,
        forall|es: Seq<EntryModel>, extra: Seq<u8>|
            #[trigger] wal_match(b, es, extra) ==> out0.len() <= es.len() && out0 == es.take(
                out0.len() as int,
            ) && pos == wal_stream(es.take(out0.len() as int)).len(),
    ensures
        forall|es: Seq<EntryModel>, extra: Seq<u8>|
            #[trigger] wal_match(b, es, extra) ==> out0 == es,
{
    assert forall|es: Seq<EntryModel>, extra: Seq<u8>|
        #[trigger] wal_match(b, es, extra) implies out0 == es by {
        let k = out0.len() as int;
        if k < es.len() {
            wal_record_position(b, es, extra, k, pos);
            assert(false);
        }
        assert(es.take(k) =~= es);
    }
}

} // verus!
