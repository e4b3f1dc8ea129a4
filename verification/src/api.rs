//! The column-family engine: write path, flush, reads and compaction.
//!
//! A column family pairs an in-memory sorted map of recent writes with an
//! ordered list of immutable sorted runs, numbered by creation.  Writes
//! insert into the map at a fresh timestamp; when the map grows past its
//! threshold it is flushed into a new run.  Reads ask the map first and
//! then the runs newest first; version scans merge every source.  The
//! engine works purely in memory and returns the bytes of every run it
//! creates: the embedding program persists them, feeds recovered files
//! back in, and provides the clock behind a fresh timestamp.

use vstd::prelude::*;

use crate::memstore::{entries_model, MemStore};
use crate::model::{latest_cell, map_insert, sorted_strict, sorted_weak};
use crate::storage::{sst_file, sst_wf, SSTable, SSTableReader};
use crate::types::{CellModel, CellValue, Column, Entry, EntryKey, EntryModel, KeyModel, RowKey,
    Timestamp};

verus! {

/// Relies on chrono::Utc::now: milliseconds of Unix time; nothing is
/// promised of the clock's value.
#[verifier::external_body]
fn now_ms() -> u64 {
    chrono::Utc::now().timestamp_millis() as u64
}

/// Writes the map absorbs before a flush is forced.
pub const MEMTABLE_MAX: usize = 10_000;

/// Which runs a compaction merges.
#[derive(Debug, Clone, Copy, PartialEq, Eq, Structural)]
pub enum CompactionType {
    /// Merge the oldest half of the runs, at least two.
    Minor,
    /// Merge every run into one.
    Major,
}

/// What a compaction merges and what it prunes.
#[derive(Debug, Clone, Copy)]
pub struct CompactionOptions {
    /// Which runs to merge.
    pub compaction_type: CompactionType,
    /// Keep at most this many written versions per cell.
    pub max_versions: Option<usize>,
    /// Keep only written versions at most this old, in milliseconds.
    pub max_age_ms: Option<u64>,
    /// Discard deletion markers that no longer shadow anything, and
    /// expired ones together with the versions they shadowed.
    pub cleanup_tombstones: bool,
}

impl Default for CompactionOptions {
    /// A minor compaction that cleans up tombstones and prunes nothing
    /// else.
    fn default() -> (r: CompactionOptions)
        ensures
            r.compaction_type == CompactionType::Minor,
            r.max_versions is None,
            r.max_age_ms is None,
            r.cleanup_tombstones == true,
    {
        CompactionOptions {
            compaction_type: CompactionType::Minor,
            max_versions: None,
            max_age_ms: None,
            cleanup_tombstones: true,
        }
    }
}

/// Model of one run: its creation number and its entries.
pub struct SstModel {
    pub seq: u64,
    pub entries: Seq<EntryModel>,
}

/// Model of a column family: the in-memory map, the runs oldest first,
/// and the last write timestamp handed out.
pub struct CfModel {
    pub mem: Seq<EntryModel>,
    pub ssts: Seq<SstModel>,
    pub last_ts: u64,
}

/// One run held by the engine.
pub struct Sst {
    seq: u64,
    table: SSTableReader,
}

impl View for Sst {
    type V = SstModel;

    closed spec fn view(&self) -> SstModel {
        SstModel { seq: self.seq, entries: self.table@ }
    }
}

/// Model of a run list.
pub open spec fn ssts_model(v: Seq<Sst>) -> Seq<SstModel> {
    v.map_values(|s: Sst| s@)
}

/// A column family: in-memory map plus ordered immutable runs.
pub struct ColumnFamily {
    memstore: MemStore,
    sstables: Vec<Sst>,
    last_ts: u64,
}

impl View for ColumnFamily {
    type V = CfModel;

    closed spec fn view(&self) -> CfModel {
        CfModel {
            mem: self.memstore@,
            ssts: ssts_model(self.sstables@),
            last_ts: self.last_ts,
        }
    }
}

/// The engine's shape: the map is strictly sorted, every run is sorted,
/// and run numbers strictly increase with age.
pub open spec fn cf_wf(cf: CfModel) -> bool {
    &&& sorted_strict(cf.mem)
    &&& forall|i: int| 0 <= i < cf.ssts.len() ==> sorted_weak((#[trigger] cf.ssts[i]).entries)
    &&& forall|i: int, j: int|
        0 <= i < j < cf.ssts.len() ==> (#[trigger] cf.ssts[i]).seq < (#[trigger] cf.ssts[j]).seq
}

/// The number the next run gets: one past the newest, or one.
pub open spec fn next_seq(ssts: Seq<SstModel>) -> int {
    if ssts.len() == 0 {
        1
    } else {
        ssts.last().seq + 1
    }
}

/// A write at timestamp `ts`: the cell goes into the map, and the
/// timestamp is remembered.
pub open spec fn cf_put(cf: CfModel, row: Seq<u8>, column: Seq<u8>, ts: u64, cell: CellModel)
    -> CfModel {
    CfModel {
        mem: map_insert(
            cf.mem,
            EntryModel { key: KeyModel { row, column, timestamp: ts }, value: cell },
        ),
        ssts: cf.ssts,
        last_ts: ts,
    }
}

/// A flush: the map's entries become the newest run and the map empties.
pub open spec fn cf_flush(cf: CfModel) -> CfModel {
    CfModel {
        mem: Seq::<EntryModel>::empty(),
        ssts: cf.ssts.push(SstModel { seq: next_seq(cf.ssts) as u64, entries: cf.mem }),
        last_ts: cf.last_ts,
    }
}

/// The timestamp a write gets: never behind the last one, and strictly
/// past it while the clock can still advance.
pub open spec fn ts_fresh(last: u64, ts: u64) -> bool {
    ts >= last && (last < u64::MAX ==> ts > last)
}

/// What a flush call yields: either the map was moved into a new run
/// whose file bytes come back, or nothing could be done — the map was
/// empty, a blob exceeded its length field, or the run numbers are spent
/// — and the family is unchanged.
pub open spec fn flush_outcome(pre: CfModel, post: CfModel, r: Option<(u64, Vec<u8>)>) -> bool {
    match r {
        Some(p) => {
            &&& pre.mem.len() > 0
            &&& sst_wf(pre.mem)
            &&& next_seq(pre.ssts) <= u64::MAX
            &&& post == cf_flush(pre)
            &&& p.0 == next_seq(pre.ssts)
            &&& p.1@ == sst_file(pre.mem)
        },
        None => {
            &&& (pre.mem.len() == 0 || !sst_wf(pre.mem) || next_seq(pre.ssts) > u64::MAX)
            &&& post == pre
        },
    }
}

/// What a write call yields: the cell is in the map at the fresh
/// timestamp; if that pushed the map past its threshold, a flush
/// followed.
pub open spec fn put_outcome(
    pre: CfModel,
    post: CfModel,
    r: Option<(u64, Vec<u8>)>,
    row: Seq<u8>,
    column: Seq<u8>,
    cell: CellModel,
    ts: u64,
) -> bool {
    let mid = cf_put(pre, row, column, ts, cell);
    if mid.mem.len() > MEMTABLE_MAX {
        flush_outcome(mid, post, r)
    } else {
        post == mid && r is None
    }
}

/// Model of an optional byte-string result.
pub open spec fn opt_bytes_model(r: Option<Vec<u8>>) -> Option<Seq<u8>> {
    match r {
        Some(v) => Some(v@),
        None => None,
    }
}

/// The newest live value of a cell across the runs, asking newest runs
/// first: written bytes, or nothing on a deletion marker or absence.
pub open spec fn sst_get(ssts: Seq<SstModel>, row: Seq<u8>, column: Seq<u8>) -> Option<Seq<u8>>
    decreases ssts.len(),
{
    if ssts.len() == 0 {
        None
    } else {
        match latest_cell(ssts.last().entries, row, column) {
            Some(CellModel::Put(d)) => Some(d),
            Some(CellModel::Delete(_)) => None,
            None => sst_get(ssts.drop_last(), row, column),
        }
    }
}

/// The newest live value of a cell: the map decides if it holds the
/// cell, else the newest run that does.
pub open spec fn cf_get(cf: CfModel, row: Seq<u8>, column: Seq<u8>) -> Option<Seq<u8>> {
    match latest_cell(cf.mem, row, column) {
        Some(CellModel::Put(d)) => Some(d),
        Some(CellModel::Delete(_)) => None,
        None => sst_get(cf.ssts, row, column),
    }
}

impl ColumnFamily {
    /// The engine's shape invariant.
    pub open spec fn wf(&self) -> bool {
        cf_wf(self@)
    }

    /// A fresh, empty column family.
    pub fn new() -> (r: ColumnFamily)
        ensures
            r.wf(),
            r@.mem == Seq::<EntryModel>::empty(),
            r@.ssts == Seq::<SstModel>::empty(),
            r@.last_ts == 0,
    {
        let r = ColumnFamily { memstore: MemStore::new(), sstables: Vec::new(), last_ts: 0 };
        proof {
            assert(ssts_model(r.sstables@) =~= Seq::<SstModel>::empty());
        }
        r
    }

    /// Rebuild a column family from recovered parts: the map replayed
    /// from the write-ahead log, and the runs read from their files,
    /// oldest first with strictly increasing numbers.
    pub fn from_parts(memstore: MemStore, tables: Vec<(u64, SSTableReader)>) -> (r: ColumnFamily)
        requires
            memstore.wf(),
            forall|i: int| 0 <= i < tables@.len() ==> (#[trigger] tables@[i]).1.wf(),
            forall|i: int, j: int|
                0 <= i < j < tables@.len() ==> (#[trigger] tables@[i]).0 < (
                #[trigger] tables@[j]).0,
        ensures
            r.wf(),
            r@.mem == memstore@,
            r@.ssts.len() == tables@.len(),
            forall|i: int|
                0 <= i < tables@.len() ==> (#[trigger] r@.ssts[i]).seq == tables@[i].0
                    && r@.ssts[i].entries == tables@[i].1@,
            r@.last_ts == 0,
    {
        let ghost tm = tables@;
        let mut sstables: Vec<Sst> = Vec::new();
        let n = tables.len();
        let mut rest = tables;
        let mut i: usize = 0;
        proof {
            assert(ssts_model(sstables@) =~= Seq::<SstModel>::empty());
            assert(rest@ =~= tm.skip(0));
        }
        while i < n
            invariant
                0 <= i <= n,
                n == tm.len(),
                rest@ == tm.skip(i as int),
                ssts_model(sstables@).len() == i,
                forall|j: int|
                    0 <= j < i ==> (#[trigger] ssts_model(sstables@)[j]).seq == tm[j].0
                        && ssts_model(sstables@)[j].entries == tm[j].1@,
            decreases n - i,
        {
            let ghost s0 = sstables@;
            let (sq, tb) = rest.remove(0);
            proof {
                assert(tm.skip(i as int)[0] == tm[i as int]);
                assert(tm.skip(i as int).subrange(1, tm.skip(i as int).len() as int) =~= tm.skip(
                    i + 1,
                ));
            }
            sstables.push(Sst { seq: sq, table: tb });
            proof {
                assert forall|j: int| 0 <= j < i + 1 implies (#[trigger] ssts_model(
                    sstables@,
                )[j]).seq == tm[j].0 && ssts_model(sstables@)[j].entries == tm[j].1@ by {
                    if j < i {
                        assert(sstables@[j] == s0[j]);
                        assert(ssts_model(s0)[j].seq == tm[j].0);
                    }
                }
            }
            i = i + 1;
        }
        let r = ColumnFamily { memstore, sstables, last_ts: 0 };
        proof {
            assert forall|i2: int, j2: int| 0 <= i2 < j2 < r@.ssts.len() implies (
            #[trigger] r@.ssts[i2]).seq < (#[trigger] r@.ssts[j2]).seq by {
                assert(r@.ssts[i2].seq == tm[i2].0);
                assert(r@.ssts[j2].seq == tm[j2].0);
            }
            assert forall|i2: int| 0 <= i2 < r@.ssts.len() implies sorted_weak(
                (#[trigger] r@.ssts[i2]).entries,
            ) by {
                assert(r@.ssts[i2].entries == tm[i2].1@);
                assert(tm[i2].1.wf());
            }
        }
        r
    }

    /// Number of entries waiting in the in-memory map.
    pub fn memstore_len(&self) -> (r: usize)
        ensures
            r == self@.mem.len(),
    {
        self.memstore.len()
    }

    /// Number of runs the engine holds.
    pub fn sstable_count(&self) -> (r: usize)
        ensures
            r == self@.ssts.len(),
    {
        self.sstables.len()
    }

    /// Write a cell at a fresh timestamp.  Any run born of a forced
    /// flush comes back as its number and file bytes for the caller to
    /// persist.
    pub fn put(&mut self, row: RowKey, column: Column, value: Vec<u8>) -> (r: Option<(u64, Vec<u8>)>)
        requires
            old(self).wf(),
        ensures
            final(self).wf(),
            exists|ts: u64|
                #![trigger put_outcome(old(self)@, final(self)@, r, row@, column@, CellModel::Put(value@), ts)]
                ts_fresh(old(self)@.last_ts, ts) && put_outcome(
                    old(self)@,
                    final(self)@,
                    r,
                    row@,
                    column@,
                    CellModel::Put(value@),
                    ts,
                ),
    {
        let ghost v = value@;
        self.append_cell(row, column, CellValue::Put(value))
    }

    /// Write a deletion marker at a fresh timestamp; it never expires.
    pub fn delete(&mut self, row: RowKey, column: Column) -> (r: Option<(u64, Vec<u8>)>)
        requires
            old(self).wf(),
        ensures
            final(self).wf(),
            exists|ts: u64|
                #![trigger put_outcome(old(self)@, final(self)@, r, row@, column@, CellModel::Delete(None), ts)]
                ts_fresh(old(self)@.last_ts, ts) && put_outcome(
                    old(self)@,
                    final(self)@,
                    r,
                    row@,
                    column@,
                    CellModel::Delete(None),
                    ts,
                ),
    {
        self.delete_with_ttl(row, column, None)
    }

    /// Write a deletion marker at a fresh timestamp, expiring after the
    /// given span if one is set.
    pub fn delete_with_ttl(&mut self, row: RowKey, column: Column, ttl_ms: Option<u64>) -> (r:
        Option<(u64, Vec<u8>)>)
        requires
            old(self).wf(),
        ensures
            final(self).wf(),
            exists|ts: u64|
                #![trigger put_outcome(old(self)@, final(self)@, r, row@, column@, CellModel::Delete(ttl_ms), ts)]
                ts_fresh(old(self)@.last_ts, ts) && put_outcome(
                    old(self)@,
                    final(self)@,
                    r,
                    row@,
                    column@,
                    CellModel::Delete(ttl_ms),
                    ts,
                ),
    {
        self.append_cell(row, column, CellValue::Delete(ttl_ms))
    }

    /// Insert a cell at a fresh timestamp and flush if the map runs
    /// over.
    fn append_cell(&mut self, row: RowKey, column: Column, value: CellValue) -> (r: Option<
        (u64, Vec<u8>),
    >)
        requires
            old(self).wf(),
        ensures
            final(self).wf(),
            exists|ts: u64|
                #![trigger put_outcome(old(self)@, final(self)@, r, row@, column@, value@, ts)]
                ts_fresh(old(self)@.last_ts, ts) && put_outcome(
                    old(self)@,
                    final(self)@,
                    r,
                    row@,
                    column@,
                    value@,
                    ts,
                ),
    {
        let ghost pre = self@;
        let now = now_ms();
        let ts: u64 = if now > self.last_ts {
            now
        } else if self.last_ts < u64::MAX {
            self.last_ts + 1
        } else {
            u64::MAX
        };
        proof {
            assert(ts_fresh(pre.last_ts, ts));
        }
        self.write_cell_at(row, column, ts, value)
    }

    /// Insert a cell at the caller's timestamp and flush if the map runs
    /// over.  The caller is trusted with ordering: reads see the cell as
    /// newest only while no newer timestamp exists for it.
    pub fn write_cell_at(&mut self, row: RowKey, column: Column, ts: u64, value: CellValue) -> (r:
        Option<(u64, Vec<u8>)>)
        requires
            old(self).wf(),
        ensures
            final(self).wf(),
            put_outcome(old(self)@, final(self)@, r, row@, column@, value@, ts),
    {
        let ghost pre = self@;
        let ghost cellm = value@;
        let ghost rowm = row@;
        let ghost colm = column@;
        self.last_ts = ts;
        let e = Entry { key: EntryKey { row, column, timestamp: ts }, value };
        self.memstore.insert(e);
        let ghost mid = cf_put(pre, rowm, colm, ts, cellm);
        proof {
            assert(self@ == mid);
        }
        if self.memstore.len() > MEMTABLE_MAX {
            let r = self.flush();
            proof {
                assert(put_outcome(pre, self@, r, rowm, colm, cellm, ts));
            }
            r
        } else {
            proof {
                assert(put_outcome(pre, self@, None, rowm, colm, cellm, ts));
            }
            None
        }
    }

    /// The last write timestamp handed out.
    pub fn last_timestamp(&self) -> (r: u64)
        ensures
            r == self@.last_ts,
    {
        self.last_ts
    }

    /// Move the map's entries into a new run, handing back its number
    /// and file bytes; nothing happens on an empty map, a blob too large
    /// for its length field, or spent run numbers.
    pub fn flush(&mut self) -> (r: Option<(u64, Vec<u8>)>)
        requires
            old(self).wf(),
        ensures
            final(self).wf(),
            flush_outcome(old(self)@, final(self)@, r),
    {
        let ghost pre = self@;
        if self.memstore.is_empty() {
            return None;
        }
        let seq: u64 = if self.sstables.len() == 0 {
            1
        } else {
            let last_seq = self.sstables[self.sstables.len() - 1].seq;
            proof {
                assert(pre.ssts.last() == self.sstables@[self.sstables@.len() - 1]@);
            }
            if last_seq == u64::MAX {
                return None;
            }
            last_seq + 1
        };
        proof {
            assert(seq == next_seq(pre.ssts));
        }
        let entries = self.memstore.to_entries();
        let encoded = SSTable::create(&entries);
        match encoded {
            None => None,
            Some(bytes) => {
                let _drained = self.memstore.drain_all();
                proof {
                    crate::model::lemma_strict_implies_weak(entries_model(entries@));
                }
                let table = SSTableReader::from_entries(entries);
                let ghost ssts0 = self.sstables@;
                self.sstables.push(Sst { seq, table });
                proof {
                    assert(ssts_model(self.sstables@) =~= ssts_model(ssts0).push(
                        SstModel { seq, entries: pre.mem },
                    ));
                    assert(self@ == cf_flush(pre));
                    assert forall|i: int, j: int|
                        0 <= i < j < self@.ssts.len() implies (#[trigger] self@.ssts[i]).seq < (
                        #[trigger] self@.ssts[j]).seq by {
                        if j == self@.ssts.len() - 1 && pre.ssts.len() > 0 {
                            if i < pre.ssts.len() - 1 {
                                assert(pre.ssts[i].seq < pre.ssts[pre.ssts.len() - 1].seq);
                            }
                        }
                    }
                }
                Some((seq, bytes))
            },
        }
    }

    /// The newest live value of a cell: written bytes, or nothing when
    /// the newest version is a deletion marker or the cell is absent.
    pub fn get(&self, row: &[u8], column: &[u8]) -> (r: Option<Vec<u8>>)
        requires
            self.wf(),
        ensures
            opt_bytes_model(r) == cf_get(self@, row@, column@),
    {
        let found = self.memstore.get_full(row, column);
        match found {
            Some(cell) => match cell {
                CellValue::Put(data) => Some(crate::types::clone_bytes(data)),
                CellValue::Delete(_) => None,
            },
            None => {
                let mut i: usize = self.sstables.len();
                proof {
                    assert(self@.ssts.take(i as int) =~= self@.ssts);
                }
                while i > 0
                    invariant
                        0 <= i <= self@.ssts.len(),
                        self.wf(),
                        self@.ssts.len() == self.sstables@.len(),
                        latest_cell(self@.mem, row@, column@) is None,
                        sst_get(self@.ssts, row@, column@) == sst_get(
                            self@.ssts.take(i as int),
                            row@,
                            column@,
                        ),
                    decreases i,
                {
                    i = i - 1;
                    let table = &self.sstables[i].table;
                    proof {
                        assert(self@.ssts.take(i + 1).last() == self@.ssts[i as int]);
                        assert(self@.ssts.take(i + 1).drop_last() =~= self@.ssts.take(i as int));
                        assert(self@.ssts[i as int].entries == table@);
                        assert(sorted_weak(table@));
                    }
                    let cell = table.get_full(row, column);
                    match cell {
                        Some(CellValue::Put(data)) => {
                            return Some(data);
                        },
                        Some(CellValue::Delete(_)) => {
                            return None;
                        },
                        None => {},
                    }
                }
                proof {
                    assert(self@.ssts.take(0) =~= Seq::<SstModel>::empty());
                }
                None
            },
        }
    }
}

/// A version pair in descending insertion order: a new pair goes before
/// the first strictly older one, after any of equal timestamp.
pub open spec fn insert_desc(s: Seq<(u64, CellModel)>, x: (u64, CellModel)) -> Seq<
    (u64, CellModel),
>
    decreases s.len(),
{
    if s.len() == 0 {
        seq![x]
    } else if x.0 > s[0].0 {
        seq![x] + s
    } else {
        seq![s[0]] + insert_desc(s.drop_first(), x)
    }
}

/// Stable sort of version pairs, newest first: pairs of equal timestamp
/// keep their order.
pub open spec fn sort_desc(s: Seq<(u64, CellModel)>) -> Seq<(u64, CellModel)>
    decreases s.len(),
{
    if s.len() == 0 {
        Seq::<(u64, CellModel)>::empty()
    } else {
        insert_desc(sort_desc(s.drop_last()), s.last())
    }
}

/// Splitting a descending insertion at the position every earlier pair
/// is at least as new as the inserted one.
pub proof fn lemma_insert_desc_split(s: Seq<(u64, CellModel)>, x: (u64, CellModel), i: int)
    requires
        0 <= i <= s.len(),
        forall|j: int| 0 <= j < i ==> !(x.0 > (#[trigger] s[j]).0),
        i < s.len() ==> x.0 > s[i].0,
    ensures
        insert_desc(s, x) == s.take(i) + seq![x] + s.skip(i),
    decreases i,
{
    if i == 0 {
        if s.len() == 0 {
            assert(s.take(0) + seq![x] + s.skip(0) =~= seq![x]);
        } else {
            assert(s.take(0) + seq![x] + s.skip(0) =~= seq![x] + s);
        }
    } else {
        assert(!(x.0 > s[0].0));
        assert forall|j: int| 0 <= j < i - 1 implies !(x.0 > (#[trigger] s.drop_first()[j]).0) by {
            assert(s.drop_first()[j] == s[j + 1]);
        }
        if i < s.len() {
            assert(s.drop_first()[i - 1] == s[i]);
        }
        lemma_insert_desc_split(s.drop_first(), x, i - 1);
        assert(seq![s[0]] + (s.drop_first().take(i - 1) + seq![x] + s.drop_first().skip(i - 1))
            =~= s.take(i) + seq![x] + s.skip(i));
    }
}

/// The value bytes of a written version.
pub open spec fn put_data(c: CellModel) -> Seq<u8> {
    match c {
        CellModel::Put(d) => d,
        CellModel::Delete(_) => Seq::<u8>::empty(),
    }
}

/// The version is a written one, not a deletion marker.
pub open spec fn is_put(p: (u64, CellModel)) -> bool {
    p.1 is Put
}

/// Keep the written versions and hand out their bytes.
pub open spec fn puts_of(s: Seq<(u64, CellModel)>) -> Seq<(u64, Seq<u8>)> {
    s.filter(|p: (u64, CellModel)| is_put(p)).map_values(
        |p: (u64, CellModel)| (p.0, put_data(p.1)),
    )
}

/// The first `n` elements, or all of them when fewer.
pub open spec fn take_n<T>(s: Seq<T>, n: int) -> Seq<T> {
    if s.len() <= n {
        s
    } else {
        s.take(n)
    }
}

/// Every version of a cell across the runs, oldest run first, each
/// run's versions newest first.
pub open spec fn sst_versions_cat(ssts: Seq<SstModel>, row: Seq<u8>, column: Seq<u8>) -> Seq<
    (u64, CellModel),
>
    decreases ssts.len(),
{
    if ssts.len() == 0 {
        Seq::<(u64, CellModel)>::empty()
    } else {
        sst_versions_cat(ssts.drop_last(), row, column) + crate::model::cell_versions(
            ssts.last().entries,
            row,
            column,
        ).reverse()
    }
}

/// Every version of a cell, as the engine gathers them: the map's
/// versions newest first, then each run's, oldest run first.
pub open spec fn cf_all_versions(cf: CfModel, row: Seq<u8>, column: Seq<u8>) -> Seq<
    (u64, CellModel),
> {
    crate::model::cell_versions(cf.mem, row, column).reverse() + sst_versions_cat(
        cf.ssts,
        row,
        column,
    )
}

/// Up to `n` versions of a cell, newest first: every source's versions
/// sorted together, deletion markers dropped, the newest `n` kept.
pub open spec fn cf_get_versions(cf: CfModel, row: Seq<u8>, column: Seq<u8>, n: int) -> Seq<
    (u64, Seq<u8>),
> {
    take_n(puts_of(sort_desc(cf_all_versions(cf, row, column))), n)
}

/// Insert one version pair into a descending list at its stable place.
fn insert_desc_exec(v: &mut Vec<(Timestamp, CellValue)>, x: (Timestamp, CellValue))
    ensures
        crate::memstore::versions_model(final(v)@) == insert_desc(
            crate::memstore::versions_model(old(v)@),
            (x.0, x.1@),
        ),
{
    let ghost s = crate::memstore::versions_model(v@);
    let ghost xm = (x.0, x.1@);
    let n = v.len();
    let mut i: usize = 0;
    while i < n && x.0 <= v[i].0
        invariant
            0 <= i <= n,
            n == v@.len(),
            s == crate::memstore::versions_model(v@),
            forall|j: int| 0 <= j < i ==> !(xm.0 > (#[trigger] s[j]).0),
            xm.0 == x.0,
        decreases n - i,
    {
        proof {
            assert(s[i as int].0 == v@[i as int].0);
        }
        i = i + 1;
    }
    proof {
        if i < n {
            assert(s[i as int].0 == v@[i as int].0);
        }
    }
    proof {
        lemma_insert_desc_split(s, xm, i as int);
    }
    let ghost v0 = v@;
    v.insert(i, x);
    proof {
        assert forall|k: int| 0 <= k < v@.len() implies #[trigger] crate::memstore::versions_model(
            v@,
        )[k] == (s.take(i as int) + seq![xm] + s.skip(i as int))[k] by {
            if k < i {
                assert(v@[k] == v0[k]);
            } else if k == i {
            } else {
                assert(v@[k] == v0[k - 1]);
            }
        }
        assert(crate::memstore::versions_model(v@) =~= s.take(i as int) + seq![xm] + s.skip(
            i as int,
        ));
    }
}

impl ColumnFamily {
    /// Gather every version of a cell from the map and every run.
    fn collect_versions(&self, row: &[u8], column: &[u8]) -> (r: Vec<(Timestamp, CellValue)>)
        requires
            self.wf(),
        ensures
            crate::memstore::versions_model(r@) == cf_all_versions(self@, row@, column@),
    {
        let mut all = self.memstore.get_versions_full(row, column);
        let n = self.sstables.len();
        let mut i: usize = 0;
        proof {
            assert(sst_versions_cat(self@.ssts.take(0), row@, column@) =~= Seq::<
                (u64, CellModel),
            >::empty());
            assert(crate::memstore::versions_model(all@) =~= crate::model::cell_versions(
                self@.mem,
                row@,
                column@,
            ).reverse() + sst_versions_cat(self@.ssts.take(0), row@, column@));
        }
        while i < n
            invariant
                0 <= i <= n,
                self.wf(),
                n == self.sstables@.len(),
                self@.ssts.len() == n,
                crate::memstore::versions_model(all@) == crate::model::cell_versions(
                    self@.mem,
                    row@,
                    column@,
                ).reverse() + sst_versions_cat(self@.ssts.take(i as int), row@, column@),
            decreases n - i,
        {
            let table = &self.sstables[i].table;
            proof {
                assert(self@.ssts[i as int].entries == table@);
                assert(sorted_weak(table@));
            }
            let mut part = table.get_versions_full(row, column);
            let ghost all0 = all@;
            let ghost pm = crate::memstore::versions_model(part@);
            all.append(&mut part);
            proof {
                assert(self@.ssts.take(i + 1).drop_last() =~= self@.ssts.take(i as int));
                assert(self@.ssts.take(i + 1).last() == self@.ssts[i as int]);
                assert(crate::memstore::versions_model(all@) =~= crate::memstore::versions_model(
                    all0,
                ) + pm);
                assert(crate::memstore::versions_model(all@) =~= crate::model::cell_versions(
                    self@.mem,
                    row@,
                    column@,
                ).reverse() + sst_versions_cat(self@.ssts.take(i + 1), row@, column@));
            }
            i = i + 1;
        }
        proof {
            assert(self@.ssts.take(n as int) =~= self@.ssts);
        }
        all
    }

    /// Up to `max_versions` versions of a cell, newest first, deletion
    /// markers dropped.
    pub fn get_versions(&self, row: &[u8], column: &[u8], max_versions: usize) -> (r: Vec<
        (Timestamp, Vec<u8>),
    >)
        requires
            self.wf(),
        ensures
            crate::aggregation::vals_model(r@) == cf_get_versions(
                self@,
                row@,
                column@,
                max_versions as int,
            ),
    {
        let all = self.collect_versions(row, column);
        let ghost am = crate::memstore::versions_model(all@);
        let mut sorted: Vec<(Timestamp, CellValue)> = Vec::new();
        let n = all.len();
        let mut i: usize = 0;
        proof {
            assert(am.take(0) =~= Seq::<(u64, CellModel)>::empty());
            assert(crate::memstore::versions_model(sorted@) =~= sort_desc(am.take(0)));
        }
        let mut all = all;
        while i < n
            invariant
                0 <= i <= n,
                n == all@.len(),
                am == crate::memstore::versions_model(all@),
                crate::memstore::versions_model(sorted@) == sort_desc(am.take(i as int)),
            decreases n - i,
        {
            let pair = (all[i].0, crate::types::clone_cell(&all[i].1));
            insert_desc_exec(&mut sorted, pair);
            proof {
                assert(am.take(i + 1).drop_last() =~= am.take(i as int));
                assert(am.take(i + 1).last() == am[i as int]);
                assert(am[i as int] == (all@[i as int].0, all@[i as int].1@));
            }
            i = i + 1;
        }
        proof {
            assert(am.take(n as int) =~= am);
        }
        let ghost sm = crate::memstore::versions_model(sorted@);
        let mut out: Vec<(Timestamp, Vec<u8>)> = Vec::new();
        let m = sorted.len();
        let mut k: usize = 0;
        proof {
            reveal(Seq::filter);
            assert(sm.take(0) =~= Seq::<(u64, CellModel)>::empty());
            assert(crate::aggregation::vals_model(out@) =~= take_n(
                puts_of(sm.take(0)),
                max_versions as int,
            ));
        }
        while k < m
            invariant
                0 <= k <= m,
                m == sorted@.len(),
                sm == crate::memstore::versions_model(sorted@),
                out@.len() <= max_versions,
                crate::aggregation::vals_model(out@) == take_n(
                    puts_of(sm.take(k as int)),
                    max_versions as int,
                ),
                out@.len() < max_versions ==> crate::aggregation::vals_model(out@) == puts_of(
                    sm.take(k as int),
                ),
            decreases m - k,
        {
            let ghost out0 = out@;
            proof {
                crate::model::lemma_filter_take_step(sm, |p: (u64, CellModel)| is_put(p), k as int);
                assert(sm[k as int] == (sorted@[k as int].0, sorted@[k as int].1@));
            }
            match &sorted[k].1 {
                CellValue::Put(data) => {
                    if out.len() < max_versions {
                        out.push((sorted[k].0, crate::types::clone_bytes(data)));
                        proof {
                            assert(crate::aggregation::vals_model(out@)
                                =~= crate::aggregation::vals_model(out0).push(
                                (sorted@[k as int].0, data@),
                            ));
                            assert(puts_of(sm.take(k + 1)) =~= puts_of(sm.take(k as int)).push(
                                (sorted@[k as int].0, data@),
                            ));
                        }
                    } else {
                        proof {
                            assert(puts_of(sm.take(k + 1)) =~= puts_of(sm.take(k as int)).push(
                                (sm[k as int].0, put_data(sm[k as int].1)),
                            ));
                            assert(puts_of(sm.take(k + 1)).take(max_versions as int) =~= puts_of(
                                sm.take(k as int),
                            ).take(max_versions as int));
                        }
                    }
                },
                CellValue::Delete(_) => {
                    proof {
                        assert(puts_of(sm.take(k + 1)) =~= puts_of(sm.take(k as int)));
                    }
                },
            }
            k = k + 1;
        }
        proof {
            assert(sm.take(m as int) =~= sm);
        }
        out
    }
}

/// An entry in key-sorted insertion order: a new entry goes before the
/// first strictly greater key, after any equal one.
pub open spec fn insert_key(s: Seq<EntryModel>, x: EntryModel) -> Seq<EntryModel>
    decreases s.len(),
{
    if s.len() == 0 {
        seq![x]
    } else if crate::types::key_lt(x.key, s[0].key) {
        seq![x] + s
    } else {
        seq![s[0]] + insert_key(s.drop_first(), x)
    }
}

/// Stable sort of entries by key: entries with equal keys keep their
/// order.
pub open spec fn sort_key(s: Seq<EntryModel>) -> Seq<EntryModel>
    decreases s.len(),
{
    if s.len() == 0 {
        Seq::<EntryModel>::empty()
    } else {
        insert_key(sort_key(s.drop_last()), s.last())
    }
}

/// Splitting a keyed insertion at the position every earlier key is at
/// most the inserted one.
proof fn lemma_insert_key_split(s: Seq<EntryModel>, x: EntryModel, i: int)
    requires
        0 <= i <= s.len(),
        forall|j: int| 0 <= j < i ==> !crate::types::key_lt(x.key, (#[trigger] s[j]).key),
        i < s.len() ==> crate::types::key_lt(x.key, s[i].key),
    ensures
        insert_key(s, x) == s.take(i) + seq![x] + s.skip(i),
    decreases i,
{
    if i == 0 {
        if s.len() == 0 {
            assert(s.take(0) + seq![x] + s.skip(0) =~= seq![x]);
        } else {
            assert(s.take(0) + seq![x] + s.skip(0) =~= seq![x] + s);
        }
    } else {
        assert(!crate::types::key_lt(x.key, s[0].key));
        assert forall|j: int| 0 <= j < i - 1 implies !crate::types::key_lt(
            x.key,
            (#[trigger] s.drop_first()[j]).key,
        ) by {
            assert(s.drop_first()[j] == s[j + 1]);
        }
        if i < s.len() {
            assert(s.drop_first()[i - 1] == s[i]);
        }
        lemma_insert_key_split(s.drop_first(), x, i - 1);
        assert(seq![s[0]] + (s.drop_first().take(i - 1) + seq![x] + s.drop_first().skip(i - 1))
            =~= s.take(i) + seq![x] + s.skip(i));
    }
}

/// A keyed insertion into a sorted run keeps it sorted.
proof fn lemma_insert_key_sorted(s: Seq<EntryModel>, x: EntryModel, i: int)
    requires
        sorted_weak(s),
        0 <= i <= s.len(),
        forall|j: int| 0 <= j < i ==> !crate::types::key_lt(x.key, (#[trigger] s[j]).key),
        i < s.len() ==> crate::types::key_lt(x.key, s[i].key),
    ensures
        sorted_weak(s.take(i) + seq![x] + s.skip(i)),
{
    let out = s.take(i) + seq![x] + s.skip(i);
    assert forall|p: int, q: int| 0 <= p < q < out.len() implies crate::types::key_le(
        (#[trigger] out[p]).key,
        (#[trigger] out[q]).key,
    ) by {
        if p < i && q < i {
            assert(out[p] == s[p] && out[q] == s[q]);
        } else if p < i && q == i {
            assert(out[p] == s[p] && out[q] == x);
            crate::types::lemma_key_trichotomy(x.key, s[p].key);
        } else if p < i && q > i {
            assert(out[p] == s[p] && out[q] == s[q - 1]);
        } else if p == i {
            assert(out[p] == x);
            if q > i {
                assert(out[q] == s[q - 1]);
                crate::types::lemma_key_trichotomy(x.key, s[q - 1].key);
                if crate::types::key_lt(s[q - 1].key, x.key) {
                    if i < s.len() && q - 1 > i {
                        assert(crate::types::key_le(s[i].key, s[q - 1].key));
                        crate::types::lemma_key_trichotomy(s[i].key, s[q - 1].key);
                        if crate::types::key_lt(s[i].key, s[q - 1].key) {
                            crate::types::lemma_key_transitive(x.key, s[i].key, s[q - 1].key);
                        }
                        assert(false);
                    } else if i < s.len() && q - 1 == i {
                        assert(false);
                    }
                }
            }
        } else {
            assert(out[p] == s[p - 1] && out[q] == s[q - 1]);
        }
    }
}

/// Every entry of the concatenated selected runs, oldest run first.
pub open spec fn sst_entries_cat(ssts: Seq<SstModel>) -> Seq<EntryModel>
    decreases ssts.len(),
{
    if ssts.len() == 0 {
        Seq::<EntryModel>::empty()
    } else {
        sst_entries_cat(ssts.drop_last()) + ssts.last().entries
    }
}

/// Whether two entries belong to the same cell.
pub open spec fn same_cell(a: EntryModel, b: EntryModel) -> bool {
    a.key.row == b.key.row && a.key.column == b.key.column
}

/// The entry is a deletion marker whose time-to-live has passed and
/// which this compaction is asked to clean up.
pub open spec fn expired_marker(e: EntryModel, now: u64, opts: CompactionOptions) -> bool {
    opts.cleanup_tombstones && match e.value {
        CellModel::Delete(Some(t)) => e.key.timestamp + t <= now,
        _ => false,
    }
}

/// Whether one surviving entry is kept, given how many written versions
/// of its cell are already kept above it, whether a live write was seen
/// above it, and whether an expired deletion marker above it consumed
/// the rest of the cell.
pub open spec fn keep_entry(
    e: EntryModel,
    now: u64,
    opts: CompactionOptions,
    kept_puts: int,
    seen_live: bool,
    shadowed: bool,
) -> bool {
    if shadowed {
        false
    } else {
        match e.value {
            CellModel::Put(_) => (match opts.max_versions {
                Some(mv) => kept_puts < mv,
                None => true,
            }) && (match opts.max_age_ms {
                Some(ma) => now - e.key.timestamp <= ma,
                None => true,
            }),
            CellModel::Delete(ttl) => if !opts.cleanup_tombstones {
                true
            } else {
                match ttl {
                    Some(t) => e.key.timestamp + t > now,
                    None => !seen_live,
                }
            },
        }
    }
}

/// Prune a key-sorted run, walking each cell's versions newest first:
/// written versions are kept up to the version and age limits, deletion
/// markers according to the tombstone policy, and an expired deletion
/// marker is dropped together with everything it shadowed — every older
/// version of its cell goes with it.  The walk state resets at each
/// cell boundary; the survivors keep their ascending order.
pub open spec fn prune_back(
    s: Seq<EntryModel>,
    now: u64,
    opts: CompactionOptions,
    kept_puts: int,
    seen_live: bool,
    shadowed: bool,
) -> Seq<EntryModel>
    decreases s.len(),
{
    if s.len() == 0 {
        Seq::<EntryModel>::empty()
    } else {
        let e = s.last();
        let keep = keep_entry(e, now, opts, kept_puts, seen_live, shadowed);
        let kp = if keep && e.value is Put {
            kept_puts + 1
        } else {
            kept_puts
        };
        let sl = seen_live || (keep && e.value is Put);
        let sh = shadowed || expired_marker(e, now, opts);
        let boundary = s.len() < 2 || !same_cell(s[s.len() - 2], e);
        let rest = if boundary {
            prune_back(s.drop_last(), now, opts, 0, false, false)
        } else {
            prune_back(s.drop_last(), now, opts, kp, sl, sh)
        };
        if keep {
            rest + seq![e]
        } else {
            rest
        }
    }
}

/// Whether the options ask for any pruning at all.
pub open spec fn pruning_active(opts: CompactionOptions) -> bool {
    opts.max_versions is Some || opts.max_age_ms is Some || opts.cleanup_tombstones
}

/// How many of the oldest runs a compaction selects.
pub open spec fn selected_count(opts: CompactionOptions, n: int) -> int {
    if opts.compaction_type is Major {
        n
    } else {
        let c = if n / 2 > 2 {
            n / 2
        } else {
            2
        };
        if c > n {
            n
        } else {
            c
        }
    }
}

/// The entries of the run a compaction writes: the selected runs merged
/// in key order, pruned when any pruning option is active.
pub open spec fn compact_entries(cf: CfModel, opts: CompactionOptions, now: u64) -> Seq<
    EntryModel,
> {
    let merged = sort_key(sst_entries_cat(cf.ssts.take(selected_count(opts, cf.ssts.len() as int))));
    if pruning_active(opts) {
        prune_back(merged, now, opts, 0, false, false)
    } else {
        merged
    }
}

/// A compaction's effect: the selected oldest runs give way to one new
/// run, numbered past every existing one.
pub open spec fn cf_compact(cf: CfModel, opts: CompactionOptions, now: u64) -> CfModel {
    CfModel {
        mem: cf.mem,
        ssts: cf.ssts.skip(selected_count(opts, cf.ssts.len() as int)).push(
            SstModel { seq: next_seq(cf.ssts) as u64, entries: compact_entries(cf, opts, now) },
        ),
        last_ts: cf.last_ts,
    }
}

/// What a compaction call yields.  A merge happened exactly when
/// something came back: the new run's number, its file bytes and the
/// numbers of the runs it replaced.  Nothing happens when there is too
/// little to merge, a blob exceeds its length field, or the run numbers
/// are spent.
pub open spec fn compact_outcome(
    pre: CfModel,
    post: CfModel,
    r: Option<(u64, Vec<u8>, Vec<u64>)>,
    opts: CompactionOptions,
    now: u64,
) -> bool {
    let count = selected_count(opts, pre.ssts.len() as int);
    match r {
        Some(p) => {
            &&& !(opts.compaction_type is Minor && pre.ssts.len() <= 1)
            &&& pre.ssts.len() > 0
            &&& sst_wf(compact_entries(pre, opts, now))
            &&& next_seq(pre.ssts) <= u64::MAX
            &&& post == cf_compact(pre, opts, now)
            &&& p.0 == next_seq(pre.ssts)
            &&& p.1@ == sst_file(compact_entries(pre, opts, now))
            &&& p.2@ == Seq::new(count as nat, |i: int| pre.ssts[i].seq)
        },
        None => {
            &&& post == pre
            &&& (opts.compaction_type is Minor && pre.ssts.len() <= 1) || pre.ssts.len() == 0
                || !sst_wf(compact_entries(pre, opts, now)) || next_seq(pre.ssts) > u64::MAX
        },
    }
}

/// Every survivor of a pruning walk is an entry of the run.
pub proof fn lemma_prune_back_sub(
    s: Seq<EntryModel>,
    now: u64,
    opts: CompactionOptions,
    kp: int,
    sl: bool,
    sh: bool,
)
    ensures
        forall|k: int|
            0 <= k < prune_back(s, now, opts, kp, sl, sh).len() ==> exists|j: int|
                0 <= j < s.len() && #[trigger] prune_back(s, now, opts, kp, sl, sh)[k] == s[j],
    decreases s.len(),
{
    if s.len() > 0 {
        let e = s.last();
        let keep = keep_entry(e, now, opts, kp, sl, sh);
        let kp2 = if keep && e.value is Put {
            kp + 1
        } else {
            kp
        };
        let sl2 = sl || (keep && e.value is Put);
        let sh2 = sh || expired_marker(e, now, opts);
        let boundary = s.len() < 2 || !same_cell(s[s.len() - 2], e);
        let out = prune_back(s, now, opts, kp, sl, sh);
        assert forall|k: int| 0 <= k < out.len() implies exists|j: int|
            0 <= j < s.len() && #[trigger] out[k] == s[j] by {
            if boundary {
                lemma_prune_back_sub(s.drop_last(), now, opts, 0, false, false);
            } else {
                lemma_prune_back_sub(s.drop_last(), now, opts, kp2, sl2, sh2);
            }
            let rest = if boundary {
                prune_back(s.drop_last(), now, opts, 0, false, false)
            } else {
                prune_back(s.drop_last(), now, opts, kp2, sl2, sh2)
            };
            if k < rest.len() {
                assert(out[k] == rest[k]);
                let j = choose|j: int|
                    0 <= j < s.drop_last().len() && #[trigger] rest[k] == s.drop_last()[j];
                assert(out[k] == s[j]);
            } else {
                assert(out[k] == e);
                assert(out[k] == s[s.len() - 1]);
            }
        }
    }
}

/// Pruning a sorted run keeps it sorted.
proof fn lemma_prune_sorted(
    s: Seq<EntryModel>,
    now: u64,
    opts: CompactionOptions,
    kp: int,
    sl: bool,
    sh: bool,
)
    requires
        sorted_weak(s),
    ensures
        sorted_weak(prune_back(s, now, opts, kp, sl, sh)),
    decreases s.len(),
{
    if s.len() > 0 {
        let e = s.last();
        let keep = keep_entry(e, now, opts, kp, sl, sh);
        let kp2 = if keep && e.value is Put {
            kp + 1
        } else {
            kp
        };
        let sl2 = sl || (keep && e.value is Put);
        let sh2 = sh || expired_marker(e, now, opts);
        let boundary = s.len() < 2 || !same_cell(s[s.len() - 2], e);
        assert(sorted_weak(s.drop_last()));
        let rest = if boundary {
            prune_back(s.drop_last(), now, opts, 0, false, false)
        } else {
            prune_back(s.drop_last(), now, opts, kp2, sl2, sh2)
        };
        if boundary {
            lemma_prune_sorted(s.drop_last(), now, opts, 0, false, false);
            lemma_prune_back_sub(s.drop_last(), now, opts, 0, false, false);
        } else {
            lemma_prune_sorted(s.drop_last(), now, opts, kp2, sl2, sh2);
            lemma_prune_back_sub(s.drop_last(), now, opts, kp2, sl2, sh2);
        }
        let out = prune_back(s, now, opts, kp, sl, sh);
        assert forall|p: int, q: int| 0 <= p < q < out.len() implies crate::types::key_le(
            (#[trigger] out[p]).key,
            (#[trigger] out[q]).key,
        ) by {
            if q < rest.len() {
                assert(out[p] == rest[p] && out[q] == rest[q]);
            } else if keep && q == rest.len() {
                assert(out[q] == e);
                assert(out[p] == rest[p]);
                let j = choose|j: int|
                    0 <= j < s.drop_last().len() && #[trigger] rest[p] == s.drop_last()[j];
                assert(rest[p] == s[j]);
                assert(crate::types::key_le(s[j].key, s[s.len() - 1].key));
            }
        }
    }
}

/// Sorting entries by key yields a sorted run.
pub proof fn lemma_sort_key_sorted(s: Seq<EntryModel>)
    ensures
        sorted_weak(sort_key(s)),
    decreases s.len(),
{
    if s.len() > 0 {
        lemma_sort_key_sorted(s.drop_last());
        lemma_insert_key_sorted_any(sort_key(s.drop_last()), s.last());
    }
}

/// Inserting into a sorted run by key yields a sorted run.
proof fn lemma_insert_key_sorted_any(s: Seq<EntryModel>, x: EntryModel)
    requires
        sorted_weak(s),
    ensures
        sorted_weak(insert_key(s, x)),
    decreases s.len(),
{
    lemma_insert_key_pos(s, x);
    let i = insert_key_pos_of(s, x);
    lemma_insert_key_split(s, x, i);
    lemma_insert_key_sorted(s, x, i);
}

/// The position a keyed insertion lands at.
pub open spec fn insert_key_pos_of(s: Seq<EntryModel>, x: EntryModel) -> int
    decreases s.len(),
{
    if s.len() == 0 {
        0
    } else if crate::types::key_lt(x.key, s[0].key) {
        0
    } else {
        1 + insert_key_pos_of(s.drop_first(), x)
    }
}

/// The landing position splits the run as the insertion does.
proof fn lemma_insert_key_pos(s: Seq<EntryModel>, x: EntryModel)
    ensures
        0 <= insert_key_pos_of(s, x) <= s.len(),
        forall|j: int|
            0 <= j < insert_key_pos_of(s, x) ==> !crate::types::key_lt(
                x.key,
                (#[trigger] s[j]).key,
            ),
        insert_key_pos_of(s, x) < s.len() ==> crate::types::key_lt(
            x.key,
            s[insert_key_pos_of(s, x)].key,
        ),
    decreases s.len(),
{
    if s.len() > 0 && !crate::types::key_lt(x.key, s[0].key) {
        lemma_insert_key_pos(s.drop_first(), x);
        let i = insert_key_pos_of(s, x);
        assert forall|j: int| 0 <= j < i implies !crate::types::key_lt(
            x.key,
            (#[trigger] s[j]).key,
        ) by {
            if j > 0 {
                assert(s.drop_first()[j - 1] == s[j]);
            }
        }
        if i < s.len() {
            assert(s.drop_first()[i - 1] == s[i]);
        }
    }
}

/// Insert one entry into a key-sorted list at its stable place.
fn insert_key_exec(v: &mut Vec<Entry>, x: Entry)
    ensures
        entries_model(final(v)@) == insert_key(entries_model(old(v)@), x@),
{
    let ghost s = entries_model(v@);
    let ghost xm = x@;
    let n = v.len();
    let mut i: usize = 0;
    while i < n && crate::types::key_cmp(&x.key, &v[i].key) != -1
        invariant
            0 <= i <= n,
            n == v@.len(),
            s == entries_model(v@),
            forall|j: int| 0 <= j < i ==> !crate::types::key_lt(xm.key, (#[trigger] s[j]).key),
            xm == x@,
        decreases n - i,
    {
        proof {
            assert(s[i as int] == v@[i as int]@);
        }
        i = i + 1;
    }
    proof {
        if i < n {
            assert(s[i as int] == v@[i as int]@);
        }
        lemma_insert_key_split(s, xm, i as int);
    }
    let ghost v0 = v@;
    v.insert(i, x);
    proof {
        assert forall|k: int| 0 <= k < v@.len() implies #[trigger] entries_model(v@)[k] == (s.take(
            i as int,
        ) + seq![xm] + s.skip(i as int))[k] by {
            if k < i {
                assert(v@[k] == v0[k]);
            } else if k == i {
            } else {
                assert(v@[k] == v0[k - 1]);
            }
        }
        assert(entries_model(v@) =~= s.take(i as int) + seq![xm] + s.skip(i as int));
    }
}

impl ColumnFamily {
    /// Merge the selected runs and prune per the options at the given
    /// moment, replacing them with the new run whose number and file
    /// bytes come back along with the replaced numbers.
    pub fn compact_with_options_at(&mut self, options: CompactionOptions, now: u64) -> (r: Option<
        (u64, Vec<u8>, Vec<u64>),
    >)
        requires
            old(self).wf(),
        ensures
            final(self).wf(),
            compact_outcome(old(self)@, final(self)@, r, options, now),
    {
        let ghost pre = self@;
        let n = self.sstables.len();
        if matches!(options.compaction_type, CompactionType::Minor) && n <= 1 {
            return None;
        }
        if n == 0 {
            return None;
        }
        let count: usize = match options.compaction_type {
            CompactionType::Major => n,
            CompactionType::Minor => {
                let half = n / 2;
                let c = if half > 2 {
                    half
                } else {
                    2
                };
                if c > n {
                    n
                } else {
                    c
                }
            },
        };
        proof {
            assert(count == selected_count(options, pre.ssts.len() as int));
        }
        let last_seq = self.sstables[n - 1].seq;
        proof {
            assert(pre.ssts.last() == self.sstables@[n - 1]@);
        }
        if last_seq == u64::MAX {
            return None;
        }
        let new_seq = last_seq + 1;
        proof {
            assert(new_seq == next_seq(pre.ssts));
        }
        // Gather and sort the selected runs' entries.
        let mut merged: Vec<Entry> = Vec::new();
        let ghost sel = pre.ssts.take(count as int);
        let mut i: usize = 0;
        proof {
            assert(sst_entries_cat(sel.take(0)) =~= Seq::<EntryModel>::empty());
            assert(entries_model(merged@) =~= sst_entries_cat(sel.take(0)));
        }
        while i < count
            invariant
                0 <= i <= count,
                count <= n,
                n == self.sstables@.len(),
                self.wf(),
                sel == self@.ssts.take(count as int),
                self@.ssts.len() == n,
                entries_model(merged@) == sst_entries_cat(sel.take(i as int)),
            decreases count - i,
        {
            let pairs = self.sstables[i].table.scan_all();
            let ghost m0 = entries_model(merged@);
            let mut j: usize = 0;
            let pn = pairs.len();
            proof {
                assert(crate::memstore::pairs_model(pairs@) == self@.ssts[i as int].entries);
            }
            while j < pn
                invariant
                    0 <= j <= pn,
                    pn == pairs@.len(),
                    crate::memstore::pairs_model(pairs@) == self@.ssts.take(count as int)[
                        i as int].entries,
                    i < count <= self@.ssts.len(),
                    entries_model(merged@) == m0 + crate::memstore::pairs_model(pairs@).take(
                        j as int,
                    ),
                decreases pn - j,
            {
                let ghost mm = entries_model(merged@);
                let e = Entry {
                    key: crate::types::clone_key(&pairs[j].0),
                    value: crate::types::clone_cell(&pairs[j].1),
                };
                merged.push(e);
                proof {
                    assert(crate::memstore::pairs_model(pairs@)[j as int] == EntryModel {
                        key: pairs@[j as int].0@,
                        value: pairs@[j as int].1@,
                    });
                    assert(entries_model(merged@) =~= mm.push(
                        crate::memstore::pairs_model(pairs@)[j as int],
                    ));
                    assert(m0 + crate::memstore::pairs_model(pairs@).take(j + 1) =~= (m0
                        + crate::memstore::pairs_model(pairs@).take(j as int)).push(
                        crate::memstore::pairs_model(pairs@)[j as int],
                    ));
                }
                j = j + 1;
            }
            proof {
                assert(crate::memstore::pairs_model(pairs@).take(pn as int)
                    =~= crate::memstore::pairs_model(pairs@));
                assert(sel.take(i + 1).drop_last() =~= sel.take(i as int));
                assert(sel.take(i + 1).last() == sel[i as int]);
                assert(entries_model(merged@) =~= sst_entries_cat(sel.take(i + 1)));
            }
            i = i + 1;
        }
        proof {
            assert(sel.take(count as int) =~= sel);
        }
        // Stable sort by key.
        let ghost mm = entries_model(merged@);
        let mut sorted: Vec<Entry> = Vec::new();
        let mn = merged.len();
        let mut k: usize = 0;
        proof {
            assert(mm.take(0) =~= Seq::<EntryModel>::empty());
            assert(entries_model(sorted@) =~= sort_key(mm.take(0)));
        }
        let mut merged = merged;
        while k < mn
            invariant
                0 <= k <= mn,
                mn == merged@.len(),
                mm == entries_model(merged@),
                entries_model(sorted@) == sort_key(mm.take(k as int)),
            decreases mn - k,
        {
            let e = crate::types::clone_entry(&merged[k]);
            insert_key_exec(&mut sorted, e);
            proof {
                assert(mm.take(k + 1).drop_last() =~= mm.take(k as int));
                assert(mm.take(k + 1).last() == mm[k as int]);
                assert(mm[k as int] == merged@[k as int]@);
            }
            k = k + 1;
        }
        proof {
            assert(mm.take(mn as int) =~= mm);
        }
        // Prune if asked to.
        let prune = matches!(options.max_versions, Some(_)) || matches!(
            options.max_age_ms,
            Some(_),
        ) || options.cleanup_tombstones;
        let ghost sorted_m = entries_model(sorted@);
        let output: Vec<Entry> = if prune {
            prune_exec(&sorted, now, options, Ghost(sorted_m))
        } else {
            sorted
        };
        proof {
            assert(entries_model(output@) == compact_entries(pre, options, now));
        }
        // Encode the new run before touching any state.
        let encoded = SSTable::create(&output);
        match encoded {
            None => None,
            Some(bytes) => {
                // Collect the replaced numbers and drop the selected runs.
                let mut removed: Vec<u64> = Vec::new();
                let mut t: usize = 0;
                while t < count
                    invariant
                        0 <= t <= count,
                        count <= self.sstables@.len(),
                        self@.ssts == pre.ssts,
                        removed@.len() == t,
                        forall|j: int| 0 <= j < t ==> removed@[j] == pre.ssts[j].seq,
                    decreases count - t,
                {
                    let sq = self.sstables[t].seq;
                    proof {
                        assert(pre.ssts[t as int] == self.sstables@[t as int]@);
                    }
                    removed.push(sq);
                    t = t + 1;
                }
                let mut tail = self.sstables.split_off(count);
                core::mem::swap(&mut self.sstables, &mut tail);
                proof {
                    assert(ssts_model(self.sstables@) =~= pre.ssts.skip(count as int));
                }
                proof {
                    lemma_sort_key_sorted(mm);
                    if pruning_active(options) {
                        lemma_prune_sorted(sort_key(mm), now, options, 0, false, false);
                    }
                }
                let table = SSTableReader::from_entries(output);
                let ghost kept0 = ssts_model(self.sstables@);
                self.sstables.push(Sst { seq: new_seq, table });
                proof {
                    assert(ssts_model(self.sstables@) =~= kept0.push(
                        SstModel {
                            seq: new_seq,
                            entries: compact_entries(pre, options, now),
                        },
                    ));
                    assert(self@ == cf_compact(pre, options, now));
                    assert(removed@ =~= Seq::new(count as nat, |i: int| pre.ssts[i].seq));
                    assert forall|a: int, b: int|
                        0 <= a < b < self@.ssts.len() implies (#[trigger] self@.ssts[a]).seq < (
                        #[trigger] self@.ssts[b]).seq by {
                        if b == self@.ssts.len() - 1 {
                            assert(self@.ssts[a] == pre.ssts[count + a]);
                            assert(pre.ssts[count + a].seq <= pre.ssts[pre.ssts.len() - 1].seq)
                                by {
                                if count + a < pre.ssts.len() - 1 {
                                    assert(pre.ssts[count + a].seq < pre.ssts[pre.ssts.len()
                                        - 1].seq);
                                }
                            }
                        } else {
                            assert(self@.ssts[a] == pre.ssts[count + a]);
                            assert(self@.ssts[b] == pre.ssts[count + b]);
                        }
                    }
                }
                Some((new_seq, bytes, removed))
            },
        }
    }
}

/// Walk a key-sorted run backward, keeping what the pruning rules keep.
fn prune_exec(
    sorted: &Vec<Entry>,
    now: u64,
    opts: CompactionOptions,
    sm: Ghost<Seq<EntryModel>>,
) -> (r: Vec<Entry>)
    requires
        sm@ == entries_model(sorted@),
    ensures
        entries_model(r@) == prune_back(sm@, now, opts, 0, false, false),
{
    let n = sorted.len();
    let mut tmp: Vec<Entry> = Vec::new();
    let mut i: usize = n;
    let mut kp: u64 = 0;
    let mut sl: bool = false;
    let mut sh: bool = false;
    let ghost target = prune_back(sm@, now, opts, 0, false, false);
    proof {
        assert(sm@.take(n as int) =~= sm@);
        assert(entries_model(tmp@).reverse() =~= Seq::<EntryModel>::empty());
        assert(prune_back(sm@.take(i as int), now, opts, kp as int, sl, sh) + entries_model(
            tmp@,
        ).reverse() =~= target);
    }
    while i > 0
        invariant
            0 <= i <= n,
            n == sorted@.len(),
            sm@ == entries_model(sorted@),
            kp as int <= n - i,
            target == prune_back(sm@, now, opts, 0, false, false),
            target == prune_back(sm@.take(i as int), now, opts, kp as int, sl, sh)
                + entries_model(tmp@).reverse(),
        decreases i,
    {
        let ghost kp0 = kp as int;
        let ghost sl0 = sl;
        let ghost sh0 = sh;
        let ghost tmp0 = entries_model(tmp@);
        i = i - 1;
        let e = &sorted[i];
        proof {
            assert(sm@.take(i + 1).last() == sm@[i as int]);
            assert(sm@.take(i + 1).drop_last() =~= sm@.take(i as int));
            if i >= 1 {
                assert(sm@.take(i + 1)[i - 1] == sm@[i - 1]);
            }
            assert(sm@[i as int] == sorted@[i as int]@);
        }
        // Does this entry survive?
        let keep: bool = if sh {
            false
        } else {
            match &e.value {
                CellValue::Put(_) => {
                    let ver_ok = match opts.max_versions {
                        Some(mv) => (kp as u128) < (mv as u128),
                        None => true,
                    };
                    let age_ok = match opts.max_age_ms {
                        Some(ma) => e.key.timestamp >= now || now - e.key.timestamp <= ma,
                        None => true,
                    };
                    ver_ok && age_ok
                },
                CellValue::Delete(ttl) => {
                    if !opts.cleanup_tombstones {
                        true
                    } else {
                        match ttl {
                            Some(t) => (e.key.timestamp as u128) + (*t as u128) > (now as u128),
                            None => !sl,
                        }
                    }
                },
            }
        };
        // Does this entry consume everything older in its cell?
        let expired: bool = opts.cleanup_tombstones && match &e.value {
            CellValue::Delete(Some(t)) => {
                (e.key.timestamp as u128) + (*t as u128) <= (now as u128)
            },
            _ => false,
        };
        proof {
            assert(keep == keep_entry(sm@[i as int], now, opts, kp0, sl0, sh0));
            assert(expired == expired_marker(sm@[i as int], now, opts));
        }
        let is_put = matches!(&e.value, CellValue::Put(_));
        if keep {
            tmp.push(crate::types::clone_entry(e));
            proof {
                assert(entries_model(tmp@) =~= tmp0.push(sm@[i as int]));
                assert(entries_model(tmp@).reverse() =~= seq![sm@[i as int]] + tmp0.reverse());
            }
        }
        // Advance the walk state, resetting at a cell boundary.
        let boundary: bool = if i == 0 {
            true
        } else {
            let prev = &sorted[i - 1];
            !(crate::bytes::bytes_eq(prev.key.row.as_slice(), e.key.row.as_slice())
                && crate::bytes::bytes_eq(prev.key.column.as_slice(), e.key.column.as_slice()))
        };
        proof {
            if i >= 1 {
                assert(sm@[i - 1] == sorted@[i - 1]@);
                assert(boundary == !same_cell(sm@[i - 1], sm@[i as int]));
            }
        }
        if boundary {
            kp = 0;
            sl = false;
            sh = false;
        } else {
            if keep && is_put {
                kp = kp + 1;
                sl = true;
            }
            if expired {
                sh = true;
            }
        }
        proof {
            let s1 = sm@.take(i + 1);
            let rest = prune_back(sm@.take(i as int), now, opts, kp as int, sl, sh);
            assert(prune_back(s1, now, opts, kp0, sl0, sh0) == if keep {
                rest + seq![sm@[i as int]]
            } else {
                rest
            });
            if keep {
                assert((rest + seq![sm@[i as int]]) + tmp0.reverse() =~= rest + (seq![
                    sm@[i as int],
                ] + tmp0.reverse()));
                assert(target == rest + entries_model(tmp@).reverse());
            } else {
                assert(target == rest + entries_model(tmp@).reverse());
            }
        }
    }
    proof {
        assert(sm@.take(0) =~= Seq::<EntryModel>::empty());
        assert(prune_back(Seq::<EntryModel>::empty(), now, opts, kp as int, sl, sh) =~= Seq::<
            EntryModel,
        >::empty());
        assert(Seq::<EntryModel>::empty() + entries_model(tmp@).reverse() =~= entries_model(
            tmp@,
        ).reverse());
        assert(target == entries_model(tmp@).reverse());
    }
    // The survivors were gathered newest first; reverse into key order.
    let m = tmp.len();
    let mut out: Vec<Entry> = Vec::new();
    let mut j: usize = m;
    proof {
        assert(entries_model(out@) =~= entries_model(tmp@).skip(m as int).reverse());
    }
    while j > 0
        invariant
            0 <= j <= m,
            m == tmp@.len(),
            entries_model(out@) == entries_model(tmp@).skip(j as int).reverse(),
        decreases j,
    {
        j = j - 1;
        let ghost o0 = entries_model(out@);
        let e = crate::types::clone_entry(&tmp[j]);
        out.push(e);
        proof {
            assert(entries_model(tmp@)[j as int] == tmp@[j as int]@);
            assert(entries_model(out@) =~= o0.push(entries_model(tmp@)[j as int]));
            assert(entries_model(tmp@).skip(j as int).reverse() =~= entries_model(tmp@).skip(
                j + 1,
            ).reverse().push(entries_model(tmp@)[j as int]));
        }
    }
    proof {
        assert(entries_model(tmp@).skip(0) =~= entries_model(tmp@));
        assert(entries_model(out@) =~= target);
    }
    out
}

impl ColumnFamily {
    /// Merge and prune per the options, taking the pruning moment from
    /// the clock.
    pub fn compact_with_options(&mut self, options: CompactionOptions) -> (r: Option<
        (u64, Vec<u8>, Vec<u64>),
    >)
        requires
            old(self).wf(),
        ensures
            final(self).wf(),
            exists|now: u64|
                #[trigger] compact_outcome(old(self)@, final(self)@, r, options, now),
    {
        let now = now_ms();
        let r = self.compact_with_options_at(options, now);
        proof {
            assert(compact_outcome(old(self)@, self@, r, options, now));
        }
        r
    }

    /// The periodic compaction: minor, cleaning up tombstones.
    pub fn compact(&mut self) -> (r: Option<(u64, Vec<u8>, Vec<u64>)>)
        requires
            old(self).wf(),
        ensures
            final(self).wf(),
            exists|now: u64|
                #[trigger] compact_outcome(
                    old(self)@,
                    final(self)@,
                    r,
                    CompactionOptions {
                        compaction_type: CompactionType::Minor,
                        max_versions: None,
                        max_age_ms: None,
                        cleanup_tombstones: true,
                    },
                    now,
                ),
    {
        self.compact_with_options(CompactionOptions::default())
    }

    /// Merge every run into one, cleaning up tombstones.
    pub fn major_compact(&mut self) -> (r: Option<(u64, Vec<u8>, Vec<u64>)>)
        requires
            old(self).wf(),
        ensures
            final(self).wf(),
            exists|now: u64|
                #[trigger] compact_outcome(
                    old(self)@,
                    final(self)@,
                    r,
                    CompactionOptions {
                        compaction_type: CompactionType::Major,
                        max_versions: None,
                        max_age_ms: None,
                        cleanup_tombstones: true,
                    },
                    now,
                ),
    {
        let mut options = CompactionOptions::default();
        options.compaction_type = CompactionType::Major;
        self.compact_with_options(options)
    }

    /// Minor compaction keeping at most `max_versions` written versions
    /// per cell.
    pub fn compact_with_max_versions(&mut self, max_versions: usize) -> (r: Option<
        (u64, Vec<u8>, Vec<u64>),
    >)
        requires
            old(self).wf(),
        ensures
            final(self).wf(),
            exists|now: u64|
                #[trigger] compact_outcome(
                    old(self)@,
                    final(self)@,
                    r,
                    CompactionOptions {
                        compaction_type: CompactionType::Minor,
                        max_versions: Some(max_versions),
                        max_age_ms: None,
                        cleanup_tombstones: true,
                    },
                    now,
                ),
    {
        let mut options = CompactionOptions::default();
        options.max_versions = Some(max_versions);
        self.compact_with_options(options)
    }

    /// Minor compaction keeping only written versions at most
    /// `max_age_ms` old.
    pub fn compact_with_max_age(&mut self, max_age_ms: u64) -> (r: Option<
        (u64, Vec<u8>, Vec<u64>),
    >)
        requires
            old(self).wf(),
        ensures
            final(self).wf(),
            exists|now: u64|
                #[trigger] compact_outcome(
                    old(self)@,
                    final(self)@,
                    r,
                    CompactionOptions {
                        compaction_type: CompactionType::Minor,
                        max_versions: None,
                        max_age_ms: Some(max_age_ms),
                        cleanup_tombstones: true,
                    },
                    now,
                ),
    {
        let mut options = CompactionOptions::default();
        options.max_age_ms = Some(max_age_ms);
        self.compact_with_options(options)
    }

    /// The newest live value of a cell, kept only when it satisfies the
    /// filter.
    pub fn get_with_filter(&self, row: &[u8], column: &[u8], filter: &crate::filter::Filter) -> (r:
        Option<Vec<u8>>)
        requires
            self.wf(),
        ensures
            opt_bytes_model(r) == (match cf_get(self@, row@, column@) {
                Some(d) => if crate::filter::spec_matches(*filter, d) {
                    Some(d)
                } else {
                    None
                },
                None => None,
            }),
    {
        let value = self.get(row, column);
        match value {
            Some(data) => {
                if filter.matches(data.as_slice()) {
                    Some(data)
                } else {
                    None
                }
            },
            None => None,
        }
    }
}

/// A strictly ascending list of byte strings.
pub open spec fn strictly_ascending(s: Seq<Seq<u8>>) -> bool {
    forall|p: int, q: int|
        0 <= p < q < s.len() ==> crate::bytes::lex_lt(#[trigger] s[p], #[trigger] s[q])
}

/// Sort byte strings ascending and drop duplicates: the result is
/// strictly ascending and holds exactly the input's values.
fn sort_dedup_bytes(items: &Vec<Vec<u8>>) -> (r: Vec<Vec<u8>>)
    ensures
        strictly_ascending(crate::memstore::rows_model(r@)),
        forall|c: Seq<u8>|
            #[trigger] crate::memstore::rows_model(r@).contains(c)
                <==> crate::memstore::rows_model(items@).contains(c),
{
    let ghost im = crate::memstore::rows_model(items@);
    let n = items.len();
    let mut acc: Vec<Vec<u8>> = Vec::new();
    let mut i: usize = 0;
    proof {
        assert(crate::memstore::rows_model(acc@) =~= Seq::<Seq<u8>>::empty());
        assert forall|c: Seq<u8>| #[trigger] crate::memstore::rows_model(acc@).contains(c)
            <==> im.take(0).contains(c) by {
            assert(im.take(0) =~= Seq::<Seq<u8>>::empty());
        }
    }
    while i < n
        invariant
            0 <= i <= n,
            n == items@.len(),
            im == crate::memstore::rows_model(items@),
            im.len() == n,
            strictly_ascending(crate::memstore::rows_model(acc@)),
            forall|c: Seq<u8>|
                #[trigger] crate::memstore::rows_model(acc@).contains(c) <==> im.take(
                    i as int,
                ).contains(c),
        decreases n - i,
    {
        let ghost am = crate::memstore::rows_model(acc@);
        let item = &items[i];
        proof {
            assert(im[i as int] == items@[i as int]@);
        }
        let alen = acc.len();
        let mut j: usize = 0;
        while j < alen && crate::bytes::bytes_cmp(acc[j].as_slice(), items[i].as_slice()) == -1
            invariant
                0 <= j <= alen,
                alen == acc@.len(),
                am == crate::memstore::rows_model(acc@),
                am.len() == alen,
                forall|k: int| 0 <= k < j ==> crate::bytes::lex_lt(#[trigger] am[k], im[i as int]),
                im[i as int] == items@[i as int]@,
                i < n,
                im.len() == n,
                im == crate::memstore::rows_model(items@),
            decreases alen - j,
        {
            proof {
                assert(am[j as int] == acc@[j as int]@);
            }
            j = j + 1;
        }
        proof {
            if j < alen {
                assert(am[j as int] == acc@[j as int]@);
            }
        }
        let dup = j < alen && crate::bytes::bytes_eq(acc[j].as_slice(), items[i].as_slice());
        if dup {
            proof {
                assert(am[j as int] == im[i as int]);
                assert(am.contains(im[i as int]));
                assert forall|c: Seq<u8>| #[trigger] crate::memstore::rows_model(acc@).contains(c)
                    <==> im.take(i + 1).contains(c) by {
                    assert(im.take(i + 1).drop_last() =~= im.take(i as int));
                    assert(im.take(i + 1).last() == im[i as int]);
                    if im.take(i + 1).contains(c) {
                        let t = choose|t: int|
                            0 <= t < im.take(i + 1).len() && #[trigger] im.take(i + 1)[t] == c;
                        if t < i {
                            assert(im.take(i as int)[t] == c);
                            assert(im.take(i as int).contains(c));
                        } else {
                            assert(c == im[i as int]);
                        }
                    }
                    if am.contains(c) {
                        let t = choose|t: int| 0 <= t < am.len() && am[t] == c;
                        assert(im.take(i as int).contains(c));
                        let u = choose|u: int|
                            0 <= u < im.take(i as int).len() && im.take(i as int)[u] == c;
                        assert(im.take(i + 1)[u] == c);
                    }
                }
            }
        } else {
            let ghost a0 = acc@;
            let cl = crate::types::clone_bytes(item);
            acc.insert(j, cl);
            proof {
                let newm = crate::memstore::rows_model(acc@);
                assert forall|k: int| 0 <= k < newm.len() implies #[trigger] newm[k] == (am.take(
                    j as int,
                ) + seq![im[i as int]] + am.skip(j as int))[k] by {
                    if k < j {
                        assert(acc@[k] == a0[k]);
                    } else if k == j {
                    } else {
                        assert(acc@[k] == a0[k - 1]);
                    }
                }
                assert(newm =~= am.take(j as int) + seq![im[i as int]] + am.skip(j as int));
                assert forall|p: int, q: int| 0 <= p < q < newm.len() implies crate::bytes::lex_lt(
                    #[trigger] newm[p],
                    #[trigger] newm[q],
                ) by {
                    if p < j && q < j {
                        assert(newm[p] == am[p] && newm[q] == am[q]);
                    } else if p < j && q == j {
                        assert(newm[p] == am[p]);
                        assert(crate::bytes::lex_lt(am[p], im[i as int]));
                    } else if p < j && q > j {
                        assert(newm[p] == am[p] && newm[q] == am[q - 1]);
                    } else if p == j {
                        assert(newm[p] == im[i as int]);
                        if q > j {
                            assert(newm[q] == am[q - 1]);
                            crate::bytes::lemma_lex_trichotomy(im[i as int], am[q - 1]);
                            if crate::bytes::lex_lt(am[q - 1], im[i as int]) {
                                if q - 1 > j {
                                    assert(crate::bytes::lex_lt(am[j as int], am[q - 1]));
                                    crate::bytes::lemma_lex_transitive(
                                        am[j as int],
                                        am[q - 1],
                                        im[i as int],
                                    );
                                    assert(!crate::bytes::lex_lt(am[j as int], im[i as int]));
                                    assert(false);
                                } else {
                                    assert(q - 1 == j);
                                    assert(!crate::bytes::lex_lt(am[j as int], im[i as int]));
                                    assert(false);
                                }
                            }
                            if am[q - 1] == im[i as int] {
                                if q - 1 == j {
                                    assert(false);
                                } else {
                                    assert(crate::bytes::lex_lt(am[j as int], am[q - 1]));
                                    assert(!crate::bytes::lex_lt(am[j as int], im[i as int]));
                                    crate::bytes::lemma_lex_trichotomy(am[j as int], am[q - 1]);
                                    assert(false);
                                }
                            }
                        }
                    } else {
                        assert(newm[p] == am[p - 1] && newm[q] == am[q - 1]);
                    }
                }
                assert forall|c: Seq<u8>| #[trigger] newm.contains(c) <==> im.take(
                    i + 1,
                ).contains(c) by {
                    assert(im.take(i + 1).drop_last() =~= im.take(i as int));
                    assert(im.take(i + 1).last() == im[i as int]);
                    if newm.contains(c) {
                        let t = choose|t: int| 0 <= t < newm.len() && newm[t] == c;
                        if t == j {
                            assert(im.take(i + 1)[i as int] == c);
                        } else {
                            assert(am.contains(c));
                            assert(im.take(i as int).contains(c));
                            let u = choose|u: int|
                                0 <= u < im.take(i as int).len() && im.take(i as int)[u] == c;
                            assert(im.take(i + 1)[u] == c);
                        }
                    }
                    if im.take(i + 1).contains(c) {
                        let t = choose|t: int|
                            0 <= t < im.take(i + 1).len() && #[trigger] im.take(i + 1)[t] == c;
                        if t < i {
                            assert(im.take(i as int)[t] == c);
                            assert(im.take(i as int).contains(c));
                            assert(am.contains(c));
                            let u = choose|u: int| 0 <= u < am.len() && am[u] == c;
                            if u < j {
                                assert(newm[u] == c);
                            } else {
                                assert(newm[u + 1] == c);
                            }
                        } else {
                            assert(c == im[i as int]);
                            assert(newm[j as int] == c);
                        }
                    }
                }
            }
        }
        i = i + 1;
    }
    proof {
        assert(im.take(n as int) =~= im);
    }
    acc
}

/// Some entry of the family's sources lies in the row range `[lo, hi]`
/// with this row key.
pub open spec fn row_in_cf_range(cf: CfModel, lo: Seq<u8>, hi: Seq<u8>, row: Seq<u8>) -> bool {
    ||| exists|j: int|
        0 <= j < cf.mem.len() && crate::model::in_range(#[trigger] cf.mem[j], lo, hi)
            && cf.mem[j].key.row == row
    ||| exists|i: int, j: int|
        0 <= i < cf.ssts.len() && 0 <= j < (#[trigger] cf.ssts[i]).entries.len()
            && crate::model::in_range(#[trigger] cf.ssts[i].entries[j], lo, hi)
            && cf.ssts[i].entries[j].key.row == row
}

/// The distinct row keys the family holds in `[lo, hi]`, ascending:
/// strictly sorted with exactly the rows some source holds in range.
pub open spec fn cf_row_list_exact(
    rows: Seq<Seq<u8>>,
    cf: CfModel,
    lo: Seq<u8>,
    hi: Seq<u8>,
) -> bool {
    &&& strictly_ascending(rows)
    &&& forall|p: int| 0 <= p < rows.len() ==> row_in_cf_range(cf, lo, hi, #[trigger] rows[p])
    &&& forall|row: Seq<u8>| #[trigger] row_in_cf_range(cf, lo, hi, row) ==> rows.contains(row)
}

impl ColumnFamily {
    /// The distinct row keys in the inclusive range `[lo, hi]`, across
    /// the map and every run, in ascending order.
    pub fn get_row_keys_in_range(&self, start_row: &[u8], end_row: &[u8]) -> (r: Vec<Vec<u8>>)
        requires
            self.wf(),
        ensures
            cf_row_list_exact(crate::memstore::rows_model(r@), self@, start_row@, end_row@),
    {
        let mut items = self.memstore.get_row_keys_in_range(start_row, end_row);
        let n = self.sstables.len();
        let mut i: usize = 0;
        proof {
            crate::model::lemma_strict_implies_weak(self@.mem);
        }
        while i < n
            invariant
                0 <= i <= n,
                self.wf(),
                n == self.sstables@.len(),
                self@.ssts.len() == n,
                forall|c: Seq<u8>|
                    #[trigger] crate::memstore::rows_model(items@).contains(c)
                        <==> row_in_sources_upto(self@, start_row@, end_row@, i as int, c),
            decreases n - i,
        {
            let table = &self.sstables[i].table;
            proof {
                assert(self@.ssts[i as int].entries == table@);
                assert(sorted_weak(table@));
            }
            let part = table.get_row_keys_in_range(start_row, end_row);
            let ghost items0 = crate::memstore::rows_model(items@);
            let ghost pm = crate::memstore::rows_model(part@);
            let mut part = part;
            items.append(&mut part);
            proof {
                assert(crate::memstore::rows_model(items@) =~= items0 + pm);
                assert forall|c: Seq<u8>| #[trigger] crate::memstore::rows_model(items@).contains(
                    c,
                ) <==> row_in_sources_upto(self@, start_row@, end_row@, i + 1, c) by {
                    let m = crate::memstore::rows_model(items@);
                    if m.contains(c) {
                        let t = choose|t: int| 0 <= t < m.len() && m[t] == c;
                        if t < items0.len() {
                            assert(items0[t] == c);
                            assert(items0.contains(c));
                        } else {
                            assert(pm[t - items0.len()] == c);
                            assert(pm.contains(c));
                            let u = choose|u: int| 0 <= u < pm.len() && pm[u] == c;
                            assert(crate::memstore::row_list_exact(
                                pm,
                                table@,
                                start_row@,
                                end_row@,
                            ));
                        }
                    }
                    if row_in_sources_upto(self@, start_row@, end_row@, i + 1, c) {
                        if row_in_sources_upto(self@, start_row@, end_row@, i as int, c) {
                            assert(items0.contains(c));
                            let t = choose|t: int| 0 <= t < items0.len() && items0[t] == c;
                            assert(m[t] == c);
                        } else {
                            assert(pm.contains(c));
                            let t = choose|t: int| 0 <= t < pm.len() && pm[t] == c;
                            assert(m[items0.len() + t] == c);
                        }
                    }
                }
            }
            i = i + 1;
        }
        let r = sort_dedup_bytes(&items);
        proof {
            assert forall|c: Seq<u8>| #[trigger] crate::memstore::rows_model(r@).contains(c)
                <==> row_in_cf_range(self@, start_row@, end_row@, c) by {
                assert(crate::memstore::rows_model(items@).contains(c) <==> row_in_sources_upto(
                    self@,
                    start_row@,
                    end_row@,
                    n as int,
                    c,
                ));
            }
            assert forall|p: int|
                0 <= p < crate::memstore::rows_model(r@).len() implies row_in_cf_range(
                self@,
                start_row@,
                end_row@,
                #[trigger] crate::memstore::rows_model(r@)[p],
            ) by {
                let m = crate::memstore::rows_model(r@);
                assert(m.contains(m[p]));
            }
        }
        r
    }
}

/// The row occurs in range in the map or in one of the first `k` runs.
pub open spec fn row_in_sources_upto(
    cf: CfModel,
    lo: Seq<u8>,
    hi: Seq<u8>,
    k: int,
    row: Seq<u8>,
) -> bool {
    ||| exists|j: int|
        0 <= j < cf.mem.len() && crate::model::in_range(#[trigger] cf.mem[j], lo, hi)
            && cf.mem[j].key.row == row
    ||| exists|i: int, j: int|
        0 <= i < k && i < cf.ssts.len() && 0 <= j < (#[trigger] cf.ssts[i]).entries.len()
            && crate::model::in_range(#[trigger] cf.ssts[i].entries[j], lo, hi)
            && cf.ssts[i].entries[j].key.row == row
}

/// Some entry of the family's sources belongs to this row and column.
pub open spec fn col_in_cf_row(cf: CfModel, row: Seq<u8>, c: Seq<u8>) -> bool {
    ||| exists|j: int|
        0 <= j < cf.mem.len() && crate::model::in_row(#[trigger] cf.mem[j], row)
            && cf.mem[j].key.column == c
    ||| exists|i: int, j: int|
        0 <= i < cf.ssts.len() && 0 <= j < (#[trigger] cf.ssts[i]).entries.len()
            && crate::model::in_row(#[trigger] cf.ssts[i].entries[j], row)
            && cf.ssts[i].entries[j].key.column == c
}

/// The column occurs under the row in the map or one of the first `k`
/// runs.
pub open spec fn col_in_sources_upto(cf: CfModel, row: Seq<u8>, k: int, c: Seq<u8>) -> bool {
    ||| exists|j: int|
        0 <= j < cf.mem.len() && crate::model::in_row(#[trigger] cf.mem[j], row)
            && cf.mem[j].key.column == c
    ||| exists|i: int, j: int|
        0 <= i < k && i < cf.ssts.len() && 0 <= j < (#[trigger] cf.ssts[i]).entries.len()
            && crate::model::in_row(#[trigger] cf.ssts[i].entries[j], row)
            && cf.ssts[i].entries[j].key.column == c
}

/// The result has an entry for the column.
pub open spec fn scan_has_col(res: Seq<(Seq<u8>, Seq<(u64, Seq<u8>)>)>, c: Seq<u8>) -> bool {
    exists|p: int| 0 <= p < res.len() && (#[trigger] res[p]).0 == c
}

/// A row scan's exact shape: columns strictly ascending, each carrying
/// that cell's newest versions, and exactly the row's columns with a
/// surviving version present.
pub open spec fn scan_row_exact(
    res: Seq<(Seq<u8>, Seq<(u64, Seq<u8>)>)>,
    cf: CfModel,
    row: Seq<u8>,
    n: int,
) -> bool {
    &&& forall|p: int, q: int|
        0 <= p < q < res.len() ==> crate::bytes::lex_lt(
            (#[trigger] res[p]).0,
            (#[trigger] res[q]).0,
        )
    &&& forall|p: int|
        0 <= p < res.len() ==> (#[trigger] res[p]).1 == cf_get_versions(cf, row, res[p].0, n)
            && res[p].1.len() > 0 && col_in_cf_row(cf, row, res[p].0)
    &&& forall|c: Seq<u8>|
        #[trigger] col_in_cf_row(cf, row, c) && cf_get_versions(cf, row, c, n).len() > 0
            ==> scan_has_col(res, c)
}

impl ColumnFamily {
    /// Gather the distinct columns present under a row, ascending.
    fn collect_row_columns(&self, row: &[u8]) -> (r: Vec<Vec<u8>>)
        requires
            self.wf(),
        ensures
            strictly_ascending(crate::memstore::rows_model(r@)),
            forall|c: Seq<u8>|
                #[trigger] crate::memstore::rows_model(r@).contains(c) <==> col_in_cf_row(
                    self@,
                    row@,
                    c,
                ),
    {
        let ghost rowm = row@;
        let mut items: Vec<Vec<u8>> = Vec::new();
        let pairs = self.memstore.scan_row_full(row);
        let ghost pm = crate::memstore::pairs_model(pairs@);
        let pn = pairs.len();
        let mut t: usize = 0;
        proof {
            assert(crate::memstore::rows_model(items@) =~= Seq::<Seq<u8>>::empty());
        }
        while t < pn
            invariant
                0 <= t <= pn,
                pn == pairs@.len(),
                pm == crate::memstore::pairs_model(pairs@),
                pm.len() == pn,
                forall|c: Seq<u8>|
                    #[trigger] crate::memstore::rows_model(items@).contains(c) <==> exists|u: int|
                        0 <= u < t && (#[trigger] pm[u]).key.column == c,
            decreases pn - t,
        {
            let ghost i0 = crate::memstore::rows_model(items@);
            let cl = crate::types::clone_bytes(&pairs[t].0.column);
            items.push(cl);
            proof {
                assert(pm[t as int].key.column == pairs@[t as int].0@.column);
                assert(crate::memstore::rows_model(items@) =~= i0.push(pm[t as int].key.column));
                assert forall|c: Seq<u8>| #[trigger] crate::memstore::rows_model(items@).contains(
                    c,
                ) <==> exists|u: int| 0 <= u < t + 1 && (#[trigger] pm[u]).key.column == c by {
                    let m = crate::memstore::rows_model(items@);
                    if m.contains(c) {
                        let w = choose|w: int| 0 <= w < m.len() && m[w] == c;
                        if w < i0.len() {
                            assert(i0[w] == c);
                            assert(i0.contains(c));
                        } else {
                            assert(pm[t as int].key.column == c);
                        }
                    }
                    if exists|u: int| 0 <= u < t + 1 && (#[trigger] pm[u]).key.column == c {
                        let u = choose|u: int| 0 <= u < t + 1 && (#[trigger] pm[u]).key.column == c;
                        if u < t {
                            assert(i0.contains(c));
                            let w = choose|w: int| 0 <= w < i0.len() && i0[w] == c;
                            assert(m[w] == c);
                        } else {
                            assert(m[m.len() - 1] == c);
                        }
                    }
                }
            }
            t = t + 1;
        }
        let n = self.sstables.len();
        let mut i: usize = 0;
        proof {
            assert forall|c: Seq<u8>| #[trigger] crate::memstore::rows_model(items@).contains(c)
                <==> col_in_sources_upto(self@, rowm, 0, c) by {
                let pred = |e: EntryModel| crate::model::in_row(e, rowm);
                if crate::memstore::rows_model(items@).contains(c) {
                    let u = choose|u: int| 0 <= u < pm.len() && (#[trigger] pm[u]).key.column == c;
                    assert(pm[u] == self@.mem.filter(pred)[u]);
                    crate::model::lemma_filter_subset(self@.mem, pred, u);
                    let k = choose|k: int|
                        0 <= k < self@.mem.len() && #[trigger] self@.mem[k] == self@.mem.filter(
                            pred,
                        )[u];
                    Seq::lemma_filter_pred(self@.mem, pred, u);
                    assert(crate::model::in_row(self@.mem[k], rowm));
                }
                if col_in_sources_upto(self@, rowm, 0, c) {
                    let k = choose|k: int|
                        0 <= k < self@.mem.len() && crate::model::in_row(
                            #[trigger] self@.mem[k],
                            rowm,
                        ) && self@.mem[k].key.column == c;
                    Seq::lemma_filter_contains(self@.mem, pred, k);
                    let u = choose|u: int|
                        0 <= u < self@.mem.filter(pred).len() && #[trigger] self@.mem.filter(
                            pred,
                        )[u] == self@.mem[k];
                    assert(pm[u].key.column == c);
                }
            }
        }
        while i < n
            invariant
                0 <= i <= n,
                self.wf(),
                rowm == row@,
                n == self.sstables@.len(),
                self@.ssts.len() == n,
                forall|c: Seq<u8>|
                    #[trigger] crate::memstore::rows_model(items@).contains(c)
                        <==> col_in_sources_upto(self@, rowm, i as int, c),
            decreases n - i,
        {
            let table = &self.sstables[i].table;
            proof {
                assert(self@.ssts[i as int].entries == table@);
                assert(sorted_weak(table@));
            }
            let trips = table.scan_row_full(row);
            let ghost tm = crate::storage::triples_model_at(trips@, rowm);
            let ghost items0 = crate::memstore::rows_model(items@);
            let tn = trips.len();
            let mut t2: usize = 0;
            while t2 < tn
                invariant
                    0 <= t2 <= tn,
                    tn == trips@.len(),
                    tm == crate::storage::triples_model_at(trips@, rowm),
                    tm.len() == tn,
                    forall|c: Seq<u8>|
                        #[trigger] crate::memstore::rows_model(items@).contains(c) <==> (
                        items0.contains(c) || exists|u: int|
                            0 <= u < t2 && (#[trigger] tm[u]).key.column == c),
                decreases tn - t2,
            {
                let ghost i0 = crate::memstore::rows_model(items@);
                let cl = crate::types::clone_bytes(&trips[t2].0);
                items.push(cl);
                proof {
                    assert(tm[t2 as int].key.column == trips@[t2 as int].0@);
                    assert(crate::memstore::rows_model(items@) =~= i0.push(
                        tm[t2 as int].key.column,
                    ));
                    assert forall|c: Seq<u8>| #[trigger] crate::memstore::rows_model(
                        items@,
                    ).contains(c) <==> (items0.contains(c) || exists|u: int|
                        0 <= u < t2 + 1 && (#[trigger] tm[u]).key.column == c) by {
                        let m = crate::memstore::rows_model(items@);
                        if m.contains(c) {
                            let w = choose|w: int| 0 <= w < m.len() && m[w] == c;
                            if w < i0.len() {
                                assert(i0[w] == c);
                                assert(i0.contains(c));
                            } else {
                                assert(tm[t2 as int].key.column == c);
                            }
                        }
                        if items0.contains(c) || exists|u: int|
                            0 <= u < t2 + 1 && (#[trigger] tm[u]).key.column == c {
                            if i0.contains(c) {
                                let w = choose|w: int| 0 <= w < i0.len() && i0[w] == c;
                                assert(m[w] == c);
                            } else if exists|u: int|
                                0 <= u < t2 + 1 && (#[trigger] tm[u]).key.column == c {
                                let u = choose|u: int|
                                    0 <= u < t2 + 1 && (#[trigger] tm[u]).key.column == c;
                                if u < t2 {
                                    assert(i0.contains(c));
                                    let w = choose|w: int| 0 <= w < i0.len() && i0[w] == c;
                                    assert(m[w] == c);
                                } else {
                                    assert(m[m.len() - 1] == c);
                                }
                            }
                        }
                    }
                }
                t2 = t2 + 1;
            }
            proof {
                let pred = |e: EntryModel| crate::model::in_row(e, rowm);
                assert forall|c: Seq<u8>| #[trigger] crate::memstore::rows_model(items@).contains(
                    c,
                ) <==> col_in_sources_upto(self@, rowm, i + 1, c) by {
                    if crate::memstore::rows_model(items@).contains(c) {
                        if items0.contains(c) {
                        } else {
                            let u = choose|u: int|
                                0 <= u < tm.len() && (#[trigger] tm[u]).key.column == c;
                            assert(tm[u] == table@.filter(pred)[u]);
                            crate::model::lemma_filter_subset(table@, pred, u);
                            let k = choose|k: int|
                                0 <= k < table@.len() && #[trigger] table@[k] == table@.filter(
                                    pred,
                                )[u];
                            Seq::lemma_filter_pred(table@, pred, u);
                            assert(crate::model::in_row(self@.ssts[i as int].entries[k], rowm));
                            assert(self@.ssts[i as int].entries[k].key.column == c);
                        }
                    }
                    if col_in_sources_upto(self@, rowm, i + 1, c) {
                        if col_in_sources_upto(self@, rowm, i as int, c) {
                            assert(items0.contains(c));
                        } else {
                            let (a, k):(int, int) = choose|a: int, k: int|
                                0 <= a < i + 1 && a < self@.ssts.len() && 0 <= k < (
                                #[trigger] self@.ssts[a]).entries.len() && crate::model::in_row(
                                    #[trigger] self@.ssts[a].entries[k],
                                    rowm,
                                ) && self@.ssts[a].entries[k].key.column == c;
                            assert(a == i as int);
                            Seq::lemma_filter_contains(table@, pred, k);
                            let u = choose|u: int|
                                0 <= u < table@.filter(pred).len() && #[trigger] table@.filter(
                                    pred,
                                )[u] == table@[k];
                            assert(tm[u].key.column == c);
                        }
                    }
                }
            }
            i = i + 1;
        }
        let r = sort_dedup_bytes(&items);
        proof {
            assert forall|c: Seq<u8>| #[trigger] crate::memstore::rows_model(r@).contains(c)
                <==> col_in_cf_row(self@, rowm, c) by {
                assert(crate::memstore::rows_model(items@).contains(c) <==> col_in_sources_upto(
                    self@,
                    rowm,
                    n as int,
                    c,
                ));
            }
        }
        r
    }

    /// For each column under the row, up to `max_versions_per_column`
    /// versions newest first, deletion markers dropped; columns with no
    /// surviving version are left out.
    pub fn scan_row_versions(&self, row: &[u8], max_versions_per_column: usize) -> (r: Vec<
        (Column, Vec<(Timestamp, Vec<u8>)>),
    >)
        requires
            self.wf(),
        ensures
            scan_row_exact(
                crate::aggregation::columns_model(r@),
                self@,
                row@,
                max_versions_per_column as int,
            ),
    {
        let ghost rowm = row@;
        let ghost nn = max_versions_per_column as int;
        let cols = self.collect_row_columns(row);
        let ghost cm = crate::memstore::rows_model(cols@);
        let n = cols.len();
        let mut out: Vec<(Column, Vec<(Timestamp, Vec<u8>)>)> = Vec::new();
        let mut i: usize = 0;
        proof {
            assert(crate::aggregation::columns_model(out@) =~= Seq::<
                (Seq<u8>, Seq<(u64, Seq<u8>)>),
            >::empty());
        }
        while i < n
            invariant
                0 <= i <= n,
                self.wf(),
                rowm == row@,
                nn == max_versions_per_column as int,
                n == cols@.len(),
                cm == crate::memstore::rows_model(cols@),
                cm.len() == n,
                strictly_ascending(cm),
                forall|c: Seq<u8>| #[trigger] cm.contains(c) <==> col_in_cf_row(self@, rowm, c),
                forall|p: int, q: int|
                    0 <= p < q < crate::aggregation::columns_model(out@).len()
                        ==> crate::bytes::lex_lt(
                        (#[trigger] crate::aggregation::columns_model(out@)[p]).0,
                        (#[trigger] crate::aggregation::columns_model(out@)[q]).0,
                    ),
                forall|p: int|
                    0 <= p < crate::aggregation::columns_model(out@).len() ==> exists|j: int|
                        0 <= j < i && (#[trigger] crate::aggregation::columns_model(out@)[p]).0
                            == #[trigger] cm[j],
                forall|p: int|
                    0 <= p < crate::aggregation::columns_model(out@).len() ==> (
                    #[trigger] crate::aggregation::columns_model(out@)[p]).1 == cf_get_versions(
                        self@,
                        rowm,
                        crate::aggregation::columns_model(out@)[p].0,
                        nn,
                    ) && crate::aggregation::columns_model(out@)[p].1.len() > 0 && col_in_cf_row(
                        self@,
                        rowm,
                        crate::aggregation::columns_model(out@)[p].0,
                    ),
                forall|j: int|
                    0 <= j < i && cf_get_versions(self@, rowm, #[trigger] cm[j], nn).len() > 0
                        ==> scan_has_col(crate::aggregation::columns_model(out@), cm[j]),
            decreases n - i,
        {
            let ghost o0 = crate::aggregation::columns_model(out@);
            let vs = self.get_versions(row, cols[i].as_slice(), max_versions_per_column);
            proof {
                assert(cm[i as int] == cols@[i as int]@);
                assert(cm.contains(cm[i as int]));
            }
            if vs.len() > 0 {
                let ghost vm = crate::aggregation::vals_model(vs@);
                let cl = crate::types::clone_bytes(&cols[i]);
                out.push((cl, vs));
                proof {
                    assert(crate::aggregation::columns_model(out@) =~= o0.push(
                        (cm[i as int], vm),
                    ));
                    assert forall|p: int|
                        0 <= p < crate::aggregation::columns_model(out@).len() implies exists|
                        j: int,
                    |
                        0 <= j < i + 1 && (#[trigger] crate::aggregation::columns_model(
                            out@,
                        )[p]).0 == #[trigger] cm[j] by {
                        if p < o0.len() {
                            assert(crate::aggregation::columns_model(out@)[p] == o0[p]);
                        } else {
                            assert((crate::aggregation::columns_model(out@)[p]).0 == cm[i as int]);
                        }
                    }
                    assert forall|p: int, q: int|
                        0 <= p < q < crate::aggregation::columns_model(out@).len() implies
                        crate::bytes::lex_lt(
                        (#[trigger] crate::aggregation::columns_model(out@)[p]).0,
                        (#[trigger] crate::aggregation::columns_model(out@)[q]).0,
                    ) by {
                        let m = crate::aggregation::columns_model(out@);
                        if q < o0.len() {
                            assert(m[p] == o0[p] && m[q] == o0[q]);
                        } else {
                            assert(m[q].0 == cm[i as int]);
                            assert(m[p] == o0[p]);
                            let jp = choose|j: int|
                                0 <= j < i && (#[trigger] o0[p]).0 == #[trigger] cm[j];
                            assert(crate::bytes::lex_lt(cm[jp], cm[i as int]));
                        }
                    }
                    assert forall|j: int|
                        0 <= j < i + 1 && cf_get_versions(self@, rowm, #[trigger] cm[j], nn).len()
                            > 0 implies scan_has_col(
                        crate::aggregation::columns_model(out@),
                        cm[j],
                    ) by {
                        let m = crate::aggregation::columns_model(out@);
                        if j < i {
                            let p = choose|p: int| 0 <= p < o0.len() && (#[trigger] o0[p]).0 == cm[j];
                            assert(m[p].0 == cm[j]);
                        } else {
                            assert(m[m.len() - 1].0 == cm[j]);
                        }
                    }
                }
            } else {
                proof {
                    assert forall|j: int|
                        0 <= j < i + 1 && cf_get_versions(self@, rowm, #[trigger] cm[j], nn).len()
                            > 0 implies scan_has_col(
                        crate::aggregation::columns_model(out@),
                        cm[j],
                    ) by {
                        if j < i {
                        } else {
                            assert(crate::aggregation::vals_model(vs@).len() == 0);
                            assert(cf_get_versions(self@, rowm, cm[i as int], nn).len() == 0);
                        }
                    }
                }
            }
            i = i + 1;
        }
        proof {
            let m = crate::aggregation::columns_model(out@);
            assert forall|c: Seq<u8>|
                #[trigger] col_in_cf_row(self@, rowm, c) && cf_get_versions(
                    self@,
                    rowm,
                    c,
                    nn,
                ).len() > 0 implies scan_has_col(m, c) by {
                assert(cm.contains(c));
                let j = choose|j: int| 0 <= j < cm.len() && cm[j] == c;
            }
        }
        out
    }
}

/// The column is named by some column filter of the set.
pub open spec fn fset_lists(fs: crate::filter::FilterSet, c: Seq<u8>) -> bool {
    exists|i: int|
        0 <= i < fs.column_filters@.len() && (#[trigger] fs.column_filters@[i]).column@ == c
}

/// The version lies in the set's timestamp window and satisfies every
/// filter the set names for its column.
pub open spec fn version_passes(
    fs: crate::filter::FilterSet,
    c: Seq<u8>,
    p: (u64, Seq<u8>),
) -> bool {
    &&& crate::filter::spec_ts_matches(fs, p.0)
    &&& forall|i: int|
        0 <= i < fs.column_filters@.len() && (#[trigger] fs.column_filters@[i]).column@ == c
            ==> crate::filter::spec_matches(fs.column_filters@[i].filter, p.1)
}

/// The versions of one column that pass the set.
pub open spec fn filter_versions(
    vs: Seq<(u64, Seq<u8>)>,
    fs: crate::filter::FilterSet,
    c: Seq<u8>,
) -> Seq<(u64, Seq<u8>)>
    decreases vs.len(),
{
    if vs.len() == 0 {
        Seq::<(u64, Seq<u8>)>::empty()
    } else {
        let rest = filter_versions(vs.drop_first(), fs, c);
        if version_passes(fs, c, vs[0]) {
            seq![vs[0]] + rest
        } else {
            rest
        }
    }
}

/// A filter set applied to a row scan when it names columns: unnamed
/// columns go, named columns keep their passing versions, and a column
/// left without versions goes too.
pub open spec fn apply_fset_rec(
    scan: Seq<(Seq<u8>, Seq<(u64, Seq<u8>)>)>,
    fs: crate::filter::FilterSet,
) -> Seq<(Seq<u8>, Seq<(u64, Seq<u8>)>)>
    decreases scan.len(),
{
    if scan.len() == 0 {
        Seq::<(Seq<u8>, Seq<(u64, Seq<u8>)>)>::empty()
    } else {
        let rest = apply_fset_rec(scan.drop_first(), fs);
        let h = scan[0];
        if !fset_lists(fs, h.0) {
            rest
        } else {
            let vs = filter_versions(h.1, fs, h.0);
            if vs.len() > 0 {
                seq![(h.0, vs)] + rest
            } else {
                rest
            }
        }
    }
}

/// A filter set applied to a row scan; a set that names no columns
/// leaves the scan as it is.
pub open spec fn apply_fset(
    scan: Seq<(Seq<u8>, Seq<(u64, Seq<u8>)>)>,
    fs: crate::filter::FilterSet,
) -> Seq<(Seq<u8>, Seq<(u64, Seq<u8>)>)> {
    if fs.column_filters@.len() == 0 {
        scan
    } else {
        apply_fset_rec(scan, fs)
    }
}

/// The version cap a filter set asks of the underlying scan.
pub open spec fn fset_cap(fs: crate::filter::FilterSet) -> int {
    match fs.max_versions {
        Some(m) => m as int,
        None => usize::MAX as int,
    }
}

/// Keep the versions of one column that pass the set.
fn filter_versions_exec(
    vs: &Vec<(Timestamp, Vec<u8>)>,
    fs: &crate::filter::FilterSet,
    c: &Vec<u8>,
) -> (r: Vec<(Timestamp, Vec<u8>)>)
    ensures
        crate::aggregation::vals_model(r@) == filter_versions(
            crate::aggregation::vals_model(vs@),
            *fs,
            c@,
        ),
{
    let ghost vm = crate::aggregation::vals_model(vs@);
    let n = vs.len();
    let mut out: Vec<(Timestamp, Vec<u8>)> = Vec::new();
    let mut i: usize = 0;
    proof {
        assert(vm.skip(0) =~= vm);
        assert(crate::aggregation::vals_model(out@) =~= Seq::<(u64, Seq<u8>)>::empty());
        assert(filter_versions(vm, *fs, c@) =~= crate::aggregation::vals_model(out@)
            + filter_versions(vm.skip(0), *fs, c@));
    }
    while i < n
        invariant
            0 <= i <= n,
            n == vs@.len(),
            vm == crate::aggregation::vals_model(vs@),
            vm.len() == n,
            filter_versions(vm, *fs, c@) == crate::aggregation::vals_model(out@)
                + filter_versions(vm.skip(i as int), *fs, c@),
        decreases n - i,
    {
        let ghost o0 = crate::aggregation::vals_model(out@);
        proof {
            assert(vm.skip(i as int)[0] == vm[i as int]);
            assert(vm.skip(i as int).drop_first() =~= vm.skip(i + 1));
            assert(vm[i as int] == (vs@[i as int].0, vs@[i as int].1@));
        }
        let ts_ok = fs.timestamp_matches(vs[i].0);
        let mut all_ok = ts_ok;
        let cfl = fs.column_filters.len();
        let mut k: usize = 0;
        while k < cfl
            invariant
                0 <= k <= cfl,
                cfl == fs.column_filters@.len(),
                i < n,
                n == vs@.len(),
                vm == crate::aggregation::vals_model(vs@),
                vm.len() == n,
                vm[i as int] == (vs@[i as int].0, vs@[i as int].1@),
                ts_ok == crate::filter::spec_ts_matches(*fs, vm[i as int].0),
                all_ok == (ts_ok && forall|t: int|
                    0 <= t < k && (#[trigger] fs.column_filters@[t]).column@ == c@
                        ==> crate::filter::spec_matches(
                        fs.column_filters@[t].filter,
                        vm[i as int].1,
                    )),
            decreases cfl - k,
        {
            let cf = &fs.column_filters[k];
            if crate::bytes::bytes_eq(cf.column.as_slice(), c.as_slice()) {
                if !cf.filter.matches(vs[i].1.as_slice()) {
                    all_ok = false;
                }
            }
            k = k + 1;
        }
        proof {
            assert(all_ok == version_passes(*fs, c@, vm[i as int]));
        }
        if all_ok {
            out.push((vs[i].0, crate::types::clone_bytes(&vs[i].1)));
            proof {
                assert(crate::aggregation::vals_model(out@) =~= o0.push(vm[i as int]));
                assert(o0.push(vm[i as int]) + filter_versions(vm.skip(i + 1), *fs, c@) =~= o0 + (
                seq![vm[i as int]] + filter_versions(vm.skip(i + 1), *fs, c@)));
            }
        }
        i = i + 1;
    }
    proof {
        assert(vm.skip(n as int) =~= Seq::<(u64, Seq<u8>)>::empty());
        assert(filter_versions(vm.skip(n as int), *fs, c@) =~= Seq::<(u64, Seq<u8>)>::empty());
        assert(crate::aggregation::vals_model(out@) + Seq::<(u64, Seq<u8>)>::empty()
            =~= crate::aggregation::vals_model(out@));
    }
    out
}

/// Apply a filter set to a scanned row.
fn apply_fset_exec(
    scan: Vec<(Column, Vec<(Timestamp, Vec<u8>)>)>,
    fs: &crate::filter::FilterSet,
) -> (r: Vec<(Column, Vec<(Timestamp, Vec<u8>)>)>)
    ensures
        crate::aggregation::columns_model(r@) == apply_fset(
            crate::aggregation::columns_model(scan@),
            *fs,
        ),
{
    if fs.column_filters.len() == 0 {
        return scan;
    }
    let ghost sm = crate::aggregation::columns_model(scan@);
    let n = scan.len();
    let mut out: Vec<(Column, Vec<(Timestamp, Vec<u8>)>)> = Vec::new();
    let mut i: usize = 0;
    proof {
        assert(sm.skip(0) =~= sm);
        assert(crate::aggregation::columns_model(out@) =~= Seq::<
            (Seq<u8>, Seq<(u64, Seq<u8>)>),
        >::empty());
        assert(apply_fset_rec(sm, *fs) =~= crate::aggregation::columns_model(out@)
            + apply_fset_rec(sm.skip(0), *fs));
    }
    while i < n
        invariant
            0 <= i <= n,
            n == scan@.len(),
            sm == crate::aggregation::columns_model(scan@),
            sm.len() == n,
            fs.column_filters@.len() > 0,
            apply_fset_rec(sm, *fs) == crate::aggregation::columns_model(out@) + apply_fset_rec(
                sm.skip(i as int),
                *fs,
            ),
        decreases n - i,
    {
        let ghost o0 = crate::aggregation::columns_model(out@);
        proof {
            assert(sm.skip(i as int)[0] == sm[i as int]);
            assert(sm.skip(i as int).drop_first() =~= sm.skip(i + 1));
            assert(sm[i as int] == (scan@[i as int].0@, crate::aggregation::vals_model(
                scan@[i as int].1@,
            )));
        }
        // Is this column named by the set?
        let mut listed = false;
        let cfl = fs.column_filters.len();
        let mut k: usize = 0;
        while k < cfl
            invariant
                0 <= k <= cfl,
                cfl == fs.column_filters@.len(),
                i < n,
                n == scan@.len(),
                sm == crate::aggregation::columns_model(scan@),
                sm.len() == n,
                sm[i as int].0 == scan@[i as int].0@,
                listed == exists|t: int|
                    0 <= t < k && (#[trigger] fs.column_filters@[t]).column@ == sm[i as int].0,
            decreases cfl - k,
        {
            if crate::bytes::bytes_eq(
                fs.column_filters[k].column.as_slice(),
                scan[i].0.as_slice(),
            ) {
                listed = true;
            }
            k = k + 1;
        }
        proof {
            assert(listed == fset_lists(*fs, sm[i as int].0));
        }
        if listed {
            let vs = filter_versions_exec(&scan[i].1, fs, &scan[i].0);
            if vs.len() > 0 {
                let ghost vsm = crate::aggregation::vals_model(vs@);
                let cl = crate::types::clone_bytes(&scan[i].0);
                out.push((cl, vs));
                proof {
                    assert(crate::aggregation::columns_model(out@) =~= o0.push(
                        (sm[i as int].0, vsm),
                    ));
                    assert(o0.push((sm[i as int].0, vsm)) + apply_fset_rec(sm.skip(i + 1), *fs)
                        =~= o0 + (seq![(sm[i as int].0, vsm)] + apply_fset_rec(
                        sm.skip(i + 1),
                        *fs,
                    )));
                }
            }
        }
        i = i + 1;
    }
    proof {
        assert(sm.skip(n as int) =~= Seq::<(Seq<u8>, Seq<(u64, Seq<u8>)>)>::empty());
        assert(apply_fset_rec(sm.skip(n as int), *fs) =~= Seq::<
            (Seq<u8>, Seq<(u64, Seq<u8>)>),
        >::empty());
        assert(crate::aggregation::columns_model(out@) + Seq::<
            (Seq<u8>, Seq<(u64, Seq<u8>)>),
        >::empty() =~= crate::aggregation::columns_model(out@));
    }
    out
}

/// Two strictly ascending column lists with the same columns, agreeing
/// wherever a column is shared, are the same list.
proof fn lemma_sorted_cols_unique(
    a: Seq<(Seq<u8>, Seq<(u64, Seq<u8>)>)>,
    b: Seq<(Seq<u8>, Seq<(u64, Seq<u8>)>)>,
)
    requires
        forall|p: int, q: int|
            0 <= p < q < a.len() ==> crate::bytes::lex_lt(
                (#[trigger] a[p]).0,
                (#[trigger] a[q]).0,
            ),
        forall|p: int, q: int|
            0 <= p < q < b.len() ==> crate::bytes::lex_lt(
                (#[trigger] b[p]).0,
                (#[trigger] b[q]).0,
            ),
        forall|c: Seq<u8>| #[trigger] scan_has_col(a, c) <==> scan_has_col(b, c),
        forall|p: int, q: int|
            0 <= p < a.len() && 0 <= q < b.len() && (#[trigger] a[p]).0 == (#[trigger] b[q]).0
                ==> a[p].1 == b[q].1,
    ensures
        a == b,
    decreases a.len(),
{
    if a.len() == 0 && b.len() == 0 {
        assert(a =~= b);
    } else if a.len() == 0 {
        assert(scan_has_col(b, b[0].0));
        assert(scan_has_col(a, b[0].0));
        let p = choose|p: int| 0 <= p < a.len() && (#[trigger] a[p]).0 == b[0].0;
        assert(false);
    } else if b.len() == 0 {
        assert(scan_has_col(a, a[0].0));
        assert(scan_has_col(b, a[0].0));
        let p = choose|p: int| 0 <= p < b.len() && (#[trigger] b[p]).0 == a[0].0;
        assert(false);
    } else {
        // Both heads are the least column of the same set: equal.
        assert(scan_has_col(a, a[0].0));
        assert(scan_has_col(b, a[0].0));
        let k = choose|k: int| 0 <= k < b.len() && (#[trigger] b[k]).0 == a[0].0;
        assert(scan_has_col(b, b[0].0));
        assert(scan_has_col(a, b[0].0));
        let k2 = choose|k2: int| 0 <= k2 < a.len() && (#[trigger] a[k2]).0 == b[0].0;
        crate::bytes::lemma_lex_trichotomy(a[0].0, b[0].0);
        if crate::bytes::lex_lt(a[0].0, b[0].0) {
            if k > 0 {
                assert(crate::bytes::lex_lt(b[0].0, b[k].0));
                crate::bytes::lemma_lex_trichotomy(b[0].0, b[k].0);
            }
            assert(false);
        } else if crate::bytes::lex_lt(b[0].0, a[0].0) {
            if k2 > 0 {
                assert(crate::bytes::lex_lt(a[0].0, a[k2].0));
                crate::bytes::lemma_lex_trichotomy(a[0].0, a[k2].0);
            }
            assert(false);
        }
        assert(a[0].0 == b[0].0);
        assert(a[0].1 == b[0].1);
        let a2 = a.drop_first();
        let b2 = b.drop_first();
        assert forall|p: int, q: int| 0 <= p < q < a2.len() implies crate::bytes::lex_lt(
            (#[trigger] a2[p]).0,
            (#[trigger] a2[q]).0,
        ) by {
            assert(a2[p] == a[p + 1] && a2[q] == a[q + 1]);
        }
        assert forall|p: int, q: int| 0 <= p < q < b2.len() implies crate::bytes::lex_lt(
            (#[trigger] b2[p]).0,
            (#[trigger] b2[q]).0,
        ) by {
            assert(b2[p] == b[p + 1] && b2[q] == b[q + 1]);
        }
        assert forall|c: Seq<u8>| #[trigger] scan_has_col(a2, c) <==> scan_has_col(b2, c) by {
            if scan_has_col(a2, c) {
                let p = choose|p: int| 0 <= p < a2.len() && (#[trigger] a2[p]).0 == c;
                assert(a2[p] == a[p + 1]);
                assert(a[p + 1].0 == c);
                assert(crate::bytes::lex_lt(a[0].0, a[p + 1].0));
                crate::bytes::lemma_lex_trichotomy(a[0].0, c);
                assert(scan_has_col(a, c));
                assert(scan_has_col(b, c));
                let q = choose|q: int| 0 <= q < b.len() && (#[trigger] b[q]).0 == c;
                if q == 0 {
                    assert(false);
                }
                assert(b2[q - 1].0 == c);
                assert(scan_has_col(b2, c));
            }
            if scan_has_col(b2, c) {
                let q = choose|q: int| 0 <= q < b2.len() && (#[trigger] b2[q]).0 == c;
                assert(b2[q] == b[q + 1]);
                assert(b[q + 1].0 == c);
                assert(crate::bytes::lex_lt(b[0].0, b[q + 1].0));
                crate::bytes::lemma_lex_trichotomy(b[0].0, c);
                assert(scan_has_col(b, c));
                assert(scan_has_col(a, c));
                let p = choose|p: int| 0 <= p < a.len() && (#[trigger] a[p]).0 == c;
                if p == 0 {
                    assert(false);
                }
                assert(a2[p - 1].0 == c);
                assert(scan_has_col(a2, c));
            }
        }
        assert forall|p: int, q: int|
            0 <= p < a2.len() && 0 <= q < b2.len() && (#[trigger] a2[p]).0 == (
            #[trigger] b2[q]).0 implies a2[p].1 == b2[q].1 by {
            assert(a2[p] == a[p + 1] && b2[q] == b[q + 1]);
        }
        lemma_sorted_cols_unique(a2, b2);
        assert forall|t: int| 0 <= t < a.len() implies a[t] == b[t] by {
            if t == 0 {
                assert(a[0].0 =~= b[0].0);
                assert(a[0] =~= b[0]);
            } else {
                assert(a2[t - 1] == b2[t - 1]);
                assert(a[t] == a2[t - 1] && b[t] == b2[t - 1]);
            }
        }
        assert(a =~= b);
    }
}

/// A row's exact scan is unique: its shape pins it completely.
proof fn lemma_scan_row_exact_unique(
    a: Seq<(Seq<u8>, Seq<(u64, Seq<u8>)>)>,
    b: Seq<(Seq<u8>, Seq<(u64, Seq<u8>)>)>,
    cf: CfModel,
    row: Seq<u8>,
    n: int,
)
    requires
        scan_row_exact(a, cf, row, n),
        scan_row_exact(b, cf, row, n),
    ensures
        a == b,
{
    assert forall|c: Seq<u8>| #[trigger] scan_has_col(a, c) <==> scan_has_col(b, c) by {
        if scan_has_col(a, c) {
            let p = choose|p: int| 0 <= p < a.len() && (#[trigger] a[p]).0 == c;
            assert(col_in_cf_row(cf, row, c) && cf_get_versions(cf, row, c, n).len() > 0);
        }
        if scan_has_col(b, c) {
            let p = choose|p: int| 0 <= p < b.len() && (#[trigger] b[p]).0 == c;
            assert(col_in_cf_row(cf, row, c) && cf_get_versions(cf, row, c, n).len() > 0);
        }
    }
    assert forall|p: int, q: int|
        0 <= p < a.len() && 0 <= q < b.len() && (#[trigger] a[p]).0 == (#[trigger] b[q]).0
        implies a[p].1 == b[q].1 by {
        assert(a[p].1 == cf_get_versions(cf, row, a[p].0, n));
        assert(b[q].1 == cf_get_versions(cf, row, b[q].0, n));
    }
    lemma_sorted_cols_unique(a, b);
}

/// Every returned row lies in range and carries the filter set applied
/// to that row's exact scan, which left something.
pub open spec fn scan_range_sound(
    rs: Seq<(RowKey, Vec<(Column, Vec<(Timestamp, Vec<u8>)>)>)>,
    cf: CfModel,
    lo: Seq<u8>,
    hi: Seq<u8>,
    fs: crate::filter::FilterSet,
) -> bool {
    forall|p: int|
        0 <= p < rs.len() ==> row_in_cf_range(cf, lo, hi, (#[trigger] rs[p]).0@) && (exists|
            scan: Seq<(Seq<u8>, Seq<(u64, Seq<u8>)>)>,
        |
            #[trigger] scan_row_exact(scan, cf, rs[p].0@, fset_cap(fs))
                && crate::aggregation::columns_model(rs[p].1@) == apply_fset(scan, fs)
                && apply_fset(scan, fs).len() > 0)
}

impl ColumnFamily {
    /// Scan one row and apply a filter set to it.
    pub fn scan_row_with_filter(&self, row: &[u8], filter_set: &crate::filter::FilterSet) -> (r:
        Vec<(Column, Vec<(Timestamp, Vec<u8>)>)>)
        requires
            self.wf(),
        ensures
            exists|scan: Seq<(Seq<u8>, Seq<(u64, Seq<u8>)>)>|
                #[trigger] scan_row_exact(scan, self@, row@, fset_cap(*filter_set))
                    && crate::aggregation::columns_model(r@) == apply_fset(scan, *filter_set),
    {
        let max = match filter_set.max_versions {
            Some(m) => m,
            None => usize::MAX,
        };
        let scan = self.scan_row_versions(row, max);
        let ghost scan_m = crate::aggregation::columns_model(scan@);
        let r = apply_fset_exec(scan, filter_set);
        proof {
            assert(scan_row_exact(scan_m, self@, row@, fset_cap(*filter_set)));
        }
        r
    }

    /// Scan the rows in `[lo, hi]` and apply a filter set to each; rows
    /// left with nothing are dropped.
    pub fn scan_with_filter(
        &self,
        start_row: &[u8],
        end_row: &[u8],
        filter_set: &crate::filter::FilterSet,
    ) -> (r: Vec<(RowKey, Vec<(Column, Vec<(Timestamp, Vec<u8>)>)>)>)
        requires
            self.wf(),
        ensures
            scan_range_sound(r@, self@, start_row@, end_row@, *filter_set),
            forall|p: int, q: int|
                0 <= p < q < r@.len() ==> crate::bytes::lex_lt(
                    (#[trigger] r@[p]).0@,
                    (#[trigger] r@[q]).0@,
                ),
            forall|rk: Seq<u8>, scan: Seq<(Seq<u8>, Seq<(u64, Seq<u8>)>)>|
                row_in_cf_range(self@, start_row@, end_row@, rk) && #[trigger] scan_row_exact(
                    scan,
                    self@,
                    rk,
                    fset_cap(*filter_set),
                ) && apply_fset(scan, *filter_set).len() > 0 ==> exists|p: int|
                    0 <= p < r@.len() && (#[trigger] r@[p]).0@ == rk,
    {
        let rows = self.get_row_keys_in_range(start_row, end_row);
        let ghost rm = crate::memstore::rows_model(rows@);
        let n = rows.len();
        let mut out: Vec<(RowKey, Vec<(Column, Vec<(Timestamp, Vec<u8>)>)>)> = Vec::new();
        let mut i: usize = 0;
        while i < n
            invariant
                0 <= i <= n,
                self.wf(),
                n == rows@.len(),
                rm == crate::memstore::rows_model(rows@),
                rm.len() == n,
                cf_row_list_exact(rm, self@, start_row@, end_row@),
                scan_range_sound(out@, self@, start_row@, end_row@, *filter_set),
                forall|j: int, scan: Seq<(Seq<u8>, Seq<(u64, Seq<u8>)>)>|
                    0 <= j < i && #[trigger] scan_row_exact(
                        scan,
                        self@,
                        rm[j],
                        fset_cap(*filter_set),
                    ) && apply_fset(scan, *filter_set).len() > 0 ==> exists|p: int|
                        0 <= p < out@.len() && (#[trigger] out@[p]).0@ == rm[j],
                forall|p: int|
                    0 <= p < out@.len() ==> exists|j: int|
                        0 <= j < i && (#[trigger] out@[p]).0@ == #[trigger] rm[j],
                forall|p: int, q: int|
                    0 <= p < q < out@.len() ==> crate::bytes::lex_lt(
                        (#[trigger] out@[p]).0@,
                        (#[trigger] out@[q]).0@,
                    ),
            decreases n - i,
        {
            let ghost o0 = out@;
            let row_result = self.scan_row_with_filter(rows[i].as_slice(), filter_set);
            let ghost the_scan = choose|scan: Seq<(Seq<u8>, Seq<(u64, Seq<u8>)>)>|
                #[trigger] scan_row_exact(scan, self@, rows@[i as int]@, fset_cap(*filter_set))
                    && crate::aggregation::columns_model(row_result@) == apply_fset(
                    scan,
                    *filter_set,
                );
            proof {
                assert(rm[i as int] == rows@[i as int]@);
                assert(rm.contains(rm[i as int]));
            }
            if row_result.len() > 0 {
                let cl = crate::types::clone_bytes(&rows[i]);
                out.push((cl, row_result));
                proof {
                    assert(out@ =~= o0.push(out@[out@.len() - 1]));
                    assert(out@[out@.len() - 1].0@ == rm[i as int]);
                    assert(crate::aggregation::columns_model(out@[out@.len() - 1].1@)
                        == apply_fset(the_scan, *filter_set));
                    assert(apply_fset(the_scan, *filter_set).len() > 0) by {
                        assert(crate::aggregation::columns_model(out@[out@.len() - 1].1@).len()
                            > 0);
                    }
                    assert(scan_row_exact(
                        the_scan,
                        self@,
                        out@[out@.len() - 1].0@,
                        fset_cap(*filter_set),
                    ));
                    assert forall|p: int| 0 <= p < out@.len() implies row_in_cf_range(
                        self@,
                        start_row@,
                        end_row@,
                        (#[trigger] out@[p]).0@,
                    ) && (exists|scan: Seq<(Seq<u8>, Seq<(u64, Seq<u8>)>)>|
                        #[trigger] scan_row_exact(
                            scan,
                            self@,
                            out@[p].0@,
                            fset_cap(*filter_set),
                        ) && crate::aggregation::columns_model(out@[p].1@) == apply_fset(
                            scan,
                            *filter_set,
                        ) && apply_fset(scan, *filter_set).len() > 0) by {
                        if p < o0.len() {
                            assert(out@[p] == o0[p]);
                            assert(scan_range_sound(
                                o0,
                                self@,
                                start_row@,
                                end_row@,
                                *filter_set,
                            ));
                        } else {
                            assert(out@[p].0@ == rm[i as int]);
                            assert(row_in_cf_range(self@, start_row@, end_row@, rm[i as int]));
                        }
                    }
                    assert(scan_range_sound(out@, self@, start_row@, end_row@, *filter_set));
                    assert forall|p: int, q: int| 0 <= p < q < out@.len() implies
                        crate::bytes::lex_lt((#[trigger] out@[p]).0@, (#[trigger] out@[q]).0@) by {
                        if q == out@.len() - 1 {
                            let jp = choose|j: int|
                                0 <= j < i && (#[trigger] o0[p]).0@ == #[trigger] rm[j];
                            assert(out@[p] == o0[p]);
                            assert(crate::bytes::lex_lt(rm[jp], rm[i as int]));
                        } else {
                            assert(out@[p] == o0[p] && out@[q] == o0[q]);
                        }
                    }
                    assert forall|j: int, scan: Seq<(Seq<u8>, Seq<(u64, Seq<u8>)>)>|
                        0 <= j < i + 1 && #[trigger] scan_row_exact(
                            scan,
                            self@,
                            rm[j],
                            fset_cap(*filter_set),
                        ) && apply_fset(scan, *filter_set).len() > 0 implies exists|p: int|
                        0 <= p < out@.len() && (#[trigger] out@[p]).0@ == rm[j] by {
                        if j < i {
                            let p = choose|p: int|
                                0 <= p < o0.len() && (#[trigger] o0[p]).0@ == rm[j];
                            assert(out@[p].0@ == rm[j]);
                        } else {
                            assert(out@[out@.len() - 1].0@ == rm[j]);
                        }
                    }
                }
            } else {
                proof {
                    // An empty per-row result settles every exact scan of
                    // this row: the scan is unique, and it filtered away.
                    assert forall|j: int, scan: Seq<(Seq<u8>, Seq<(u64, Seq<u8>)>)>|
                        0 <= j < i + 1 && #[trigger] scan_row_exact(
                            scan,
                            self@,
                            rm[j],
                            fset_cap(*filter_set),
                        ) && apply_fset(scan, *filter_set).len() > 0 implies exists|p: int|
                        0 <= p < out@.len() && (#[trigger] out@[p]).0@ == rm[j] by {
                        if j == i {
                            lemma_scan_row_exact_unique(
                                scan,
                                the_scan,
                                self@,
                                rm[i as int],
                                fset_cap(*filter_set),
                            );
                            assert(apply_fset(the_scan, *filter_set).len() > 0);
                            assert(crate::aggregation::columns_model(row_result@).len() > 0);
                            assert(false);
                        }
                    }
                }
            }
            i = i + 1;
        }
        proof {
            assert forall|rk: Seq<u8>, scan: Seq<(Seq<u8>, Seq<(u64, Seq<u8>)>)>|
                row_in_cf_range(self@, start_row@, end_row@, rk) && #[trigger] scan_row_exact(
                    scan,
                    self@,
                    rk,
                    fset_cap(*filter_set),
                ) && apply_fset(scan, *filter_set).len() > 0 implies exists|p: int|
                0 <= p < out@.len() && (#[trigger] out@[p]).0@ == rk by {
                assert(rm.contains(rk));
                let j = choose|j: int| 0 <= j < rm.len() && rm[j] == rk;
            }
        }
        out
    }
}

/// What an aggregation over a possibly filtered row scan yields.
pub open spec fn aggregate_outcome(
    r: Seq<(Seq<u8>, crate::aggregation::AggResultModel)>,
    cf: CfModel,
    row: Seq<u8>,
    filter_set: Option<&crate::filter::FilterSet>,
    aggs: Seq<crate::aggregation::AggModel>,
) -> bool {
    match filter_set {
        None => exists|scan: Seq<(Seq<u8>, Seq<(u64, Seq<u8>)>)>|
            #[trigger] scan_row_exact(scan, cf, row, usize::MAX as int) && r
                == crate::aggregation::apply_spec(aggs, scan),
        Some(fs) => exists|scan: Seq<(Seq<u8>, Seq<(u64, Seq<u8>)>)>|
            #[trigger] scan_row_exact(scan, cf, row, fset_cap(*fs)) && r
                == crate::aggregation::apply_spec(aggs, apply_fset(scan, *fs)),
    }
}

/// Every returned row lies in range and carries its aggregation
/// outcome, which was not empty.
pub open spec fn aggregate_range_sound(
    rs: Seq<(RowKey, Vec<(Column, crate::aggregation::AggregationResult)>)>,
    cf: CfModel,
    lo: Seq<u8>,
    hi: Seq<u8>,
    filter_set: Option<&crate::filter::FilterSet>,
    aggs: Seq<crate::aggregation::AggModel>,
) -> bool {
    forall|p: int|
        0 <= p < rs.len() ==> row_in_cf_range(cf, lo, hi, (#[trigger] rs[p]).0@)
            && aggregate_outcome(
            crate::aggregation::results_model(rs[p].1@),
            cf,
            rs[p].0@,
            filter_set,
            aggs,
        ) && rs[p].1@.len() > 0
}

/// A row's aggregation result is never empty when anything was asked:
/// each aggregation yields its entry, or the whole application is the
/// single error entry.
proof fn lemma_aggregate_nonempty(
    res: Seq<(Seq<u8>, crate::aggregation::AggResultModel)>,
    cf: CfModel,
    row: Seq<u8>,
    filter_set: Option<&crate::filter::FilterSet>,
    aggs: Seq<crate::aggregation::AggModel>,
)
    requires
        aggregate_outcome(res, cf, row, filter_set, aggs),
        aggs.len() > 0,
    ensures
        res.len() > 0,
{
    match filter_set {
        None => {
            let scan = choose|scan: Seq<(Seq<u8>, Seq<(u64, Seq<u8>)>)>|
                #[trigger] scan_row_exact(scan, cf, row, usize::MAX as int) && res
                    == crate::aggregation::apply_spec(aggs, scan);
            crate::aggregation::lemma_apply_spec_len(aggs, scan);
        },
        Some(fs) => {
            let scan = choose|scan: Seq<(Seq<u8>, Seq<(u64, Seq<u8>)>)>|
                #[trigger] scan_row_exact(scan, cf, row, fset_cap(*fs)) && res
                    == crate::aggregation::apply_spec(aggs, apply_fset(scan, *fs));
            crate::aggregation::lemma_apply_spec_len(aggs, apply_fset(scan, *fs));
        },
    }
}

impl ColumnFamily {
    /// Run aggregations against one row's scan, filtered when a set is
    /// given.
    pub fn aggregate(
        &self,
        row: &[u8],
        filter_set: Option<&crate::filter::FilterSet>,
        aggregation_set: &crate::aggregation::AggregationSet,
    ) -> (r: Vec<(Column, crate::aggregation::AggregationResult)>)
        requires
            self.wf(),
        ensures
            aggregate_outcome(
                crate::aggregation::results_model(r@),
                self@,
                row@,
                filter_set,
                crate::aggregation::aggs_model(aggregation_set.aggregations@),
            ),
    {
        let data = match filter_set {
            Some(fs) => self.scan_row_with_filter(row, fs),
            None => self.scan_row_versions(row, usize::MAX),
        };
        aggregation_set.apply(&data)
    }

    /// Run aggregations against every row in `[lo, hi]`; rows whose
    /// aggregation yields nothing are dropped.
    #[verifier::rlimit(60)]
    #[verifier::spinoff_prover]
    pub fn aggregate_range(
        &self,
        start_row: &[u8],
        end_row: &[u8],
        filter_set: Option<&crate::filter::FilterSet>,
        aggregation_set: &crate::aggregation::AggregationSet,
    ) -> (r: Vec<(RowKey, Vec<(Column, crate::aggregation::AggregationResult)>)>)
        requires
            self.wf(),
        ensures
            aggregate_range_sound(
                r@,
                self@,
                start_row@,
                end_row@,
                filter_set,
                crate::aggregation::aggs_model(aggregation_set.aggregations@),
            ),
            forall|p: int, q: int|
                0 <= p < q < r@.len() ==> crate::bytes::lex_lt(
                    (#[trigger] r@[p]).0@,
                    (#[trigger] r@[q]).0@,
                ),
            aggregation_set.aggregations@.len() > 0 ==> forall|rk: Seq<u8>|
                #[trigger] row_in_cf_range(self@, start_row@, end_row@, rk) ==> exists|p: int|
                    0 <= p < r@.len() && (#[trigger] r@[p]).0@ == rk,
    {
        let ghost aggs = crate::aggregation::aggs_model(aggregation_set.aggregations@);
        let rows = self.get_row_keys_in_range(start_row, end_row);
        let ghost rm = crate::memstore::rows_model(rows@);
        let n = rows.len();
        let mut out: Vec<(RowKey, Vec<(Column, crate::aggregation::AggregationResult)>)> =
            Vec::new();
        let mut i: usize = 0;
        while i < n
            invariant
                0 <= i <= n,
                self.wf(),
                n == rows@.len(),
                rm == crate::memstore::rows_model(rows@),
                rm.len() == n,
                aggs == crate::aggregation::aggs_model(aggregation_set.aggregations@),
                cf_row_list_exact(rm, self@, start_row@, end_row@),
                aggregate_range_sound(out@, self@, start_row@, end_row@, filter_set, aggs),
                aggs.len() > 0 ==> forall|j: int|
                    0 <= j < i ==> exists|p: int|
                        0 <= p < out@.len() && (#[trigger] out@[p]).0@ == #[trigger] rm[j],
                forall|p: int|
                    0 <= p < out@.len() ==> exists|j: int|
                        0 <= j < i && (#[trigger] out@[p]).0@ == #[trigger] rm[j],
                forall|p: int, q: int|
                    0 <= p < q < out@.len() ==> crate::bytes::lex_lt(
                        (#[trigger] out@[p]).0@,
                        (#[trigger] out@[q]).0@,
                    ),
            decreases n - i,
        {
            let ghost o0 = out@;
            let row_result = self.aggregate(rows[i].as_slice(), filter_set, aggregation_set);
            proof {
                assert(rm[i as int] == rows@[i as int]@);
                assert(rm.contains(rm[i as int]));
                // When anything was asked, every row aggregates to
                // something: an entry per aggregation, or the error.
                if aggs.len() > 0 {
                    lemma_aggregate_nonempty(
                        crate::aggregation::results_model(row_result@),
                        self@,
                        rows@[i as int]@,
                        filter_set,
                        aggs,
                    );
                    assert(row_result@.len() > 0);
                }
            }
            if row_result.len() > 0 {
                let cl = crate::types::clone_bytes(&rows[i]);
                out.push((cl, row_result));
                proof {
                    assert(out@ =~= o0.push(out@[out@.len() - 1]));
                    assert(out@[out@.len() - 1].0@ == rm[i as int]);
                    assert forall|p: int| 0 <= p < out@.len() implies row_in_cf_range(
                        self@,
                        start_row@,
                        end_row@,
                        (#[trigger] out@[p]).0@,
                    ) && aggregate_outcome(
                        crate::aggregation::results_model(out@[p].1@),
                        self@,
                        out@[p].0@,
                        filter_set,
                        aggs,
                    ) && out@[p].1@.len() > 0 by {
                        if p < o0.len() {
                            assert(out@[p] == o0[p]);
                            assert(aggregate_range_sound(
                                o0,
                                self@,
                                start_row@,
                                end_row@,
                                filter_set,
                                aggs,
                            ));
                        } else {
                            assert(out@[p].0@ == rm[i as int]);
                            assert(row_in_cf_range(self@, start_row@, end_row@, rm[i as int]));
                        }
                    }
                    assert(aggregate_range_sound(
                        out@,
                        self@,
                        start_row@,
                        end_row@,
                        filter_set,
                        aggs,
                    ));
                    assert forall|p: int, q: int| 0 <= p < q < out@.len() implies
                        crate::bytes::lex_lt((#[trigger] out@[p]).0@, (#[trigger] out@[q]).0@) by {
                        if q == out@.len() - 1 {
                            let jp = choose|j: int|
                                0 <= j < i && (#[trigger] o0[p]).0@ == #[trigger] rm[j];
                            assert(out@[p] == o0[p]);
                            assert(crate::bytes::lex_lt(rm[jp], rm[i as int]));
                        } else {
                            assert(out@[p] == o0[p] && out@[q] == o0[q]);
                        }
                    }
                    assert forall|p: int| 0 <= p < out@.len() implies exists|j: int|
                        0 <= j < i + 1 && (#[trigger] out@[p]).0@ == #[trigger] rm[j] by {
                        if p < o0.len() {
                            assert(out@[p] == o0[p]);
                        } else {
                            assert(out@[p].0@ == rm[i as int]);
                        }
                    }
                    if aggs.len() > 0 {
                        assert forall|j: int| 0 <= j < i + 1 implies exists|p: int|
                            0 <= p < out@.len() && (#[trigger] out@[p]).0@ == #[trigger] rm[j] by {
                            if j < i {
                                let p = choose|p: int|
                                    0 <= p < o0.len() && (#[trigger] o0[p]).0@ == rm[j];
                                assert(out@[p].0@ == rm[j]);
                            } else {
                                assert(out@[out@.len() - 1].0@ == rm[j]);
                            }
                        }
                    }
                }
            }
            i = i + 1;
        }
        proof {
            if aggs.len() > 0 {
                assert forall|rk: Seq<u8>|
                    #[trigger] row_in_cf_range(self@, start_row@, end_row@, rk) implies exists|
                    p: int,
                |
                    0 <= p < out@.len() && (#[trigger] out@[p]).0@ == rk by {
                    assert(rm.contains(rk));
                    let j = choose|j: int| 0 <= j < rm.len() && rm[j] == rk;
                }
            }
        }
        out
    }
}

/// Why a table operation was refused.
#[derive(Debug, Clone, Copy, PartialEq, Eq, Structural)]
pub enum TableError {
    /// A column family of that name already exists.
    AlreadyExists,
}

/// A named set of column families.
pub struct Table {
    column_families: Vec<(String, ColumnFamily)>,
}

/// Model of a table: its column families by name, in creation order.
pub open spec fn tbl_model(v: Seq<(String, ColumnFamily)>) -> Seq<(Seq<char>, CfModel)> {
    v.map_values(|p: (String, ColumnFamily)| (p.0@, p.1@))
}

impl View for Table {
    type V = Seq<(Seq<char>, CfModel)>;

    closed spec fn view(&self) -> Seq<(Seq<char>, CfModel)> {
        tbl_model(self.column_families@)
    }
}

/// The table holds a column family of this name.
pub open spec fn has_cf(t: Seq<(Seq<char>, CfModel)>, name: Seq<char>) -> bool {
    exists|i: int| 0 <= i < t.len() && (#[trigger] t[i]).0 == name
}

impl Table {
    /// Every held family is well formed and no name repeats.
    pub open spec fn wf(&self) -> bool {
        &&& forall|i: int| 0 <= i < self@.len() ==> cf_wf((#[trigger] self@[i]).1)
        &&& forall|i: int, j: int|
            0 <= i < j < self@.len() ==> (#[trigger] self@[i]).0 != (#[trigger] self@[j]).0
    }

    /// An empty table.
    pub fn new() -> (r: Table)
        ensures
            r.wf(),
            r@ == Seq::<(Seq<char>, CfModel)>::empty(),
    {
        let r = Table { column_families: Vec::new() };
        proof {
            assert(r@ =~= Seq::<(Seq<char>, CfModel)>::empty());
        }
        r
    }

    /// Create an empty column family under the name; refused when the
    /// name is taken.
    pub fn create_cf(&mut self, cf_name: &str) -> (r: Result<(), TableError>)
        requires
            old(self).wf(),
        ensures
            final(self).wf(),
            match r {
                Ok(_) => {
                    &&& !has_cf(old(self)@, cf_name@)
                    &&& final(self)@.len() == old(self)@.len() + 1
                    &&& final(self)@.take(old(self)@.len() as int) == old(self)@
                    &&& final(self)@.last().0 == cf_name@
                    &&& final(self)@.last().1.mem == Seq::<EntryModel>::empty()
                    &&& final(self)@.last().1.ssts == Seq::<SstModel>::empty()
                },
                Err(e) => {
                    &&& e == TableError::AlreadyExists
                    &&& has_cf(old(self)@, cf_name@)
                    &&& final(self)@ == old(self)@
                },
            },
    {
        let ghost t0 = self@;
        if self.find_cf(cf_name).is_some() {
            return Err(TableError::AlreadyExists);
        }
        let name = cf_name.to_owned();
        let fresh = ColumnFamily::new();
        let ghost fm = fresh@;
        proof {
            assert(cf_wf(fm));
        }
        self.column_families.push((name, fresh));
        proof {
            assert(self@.len() == t0.len() + 1);
            assert forall|i: int| 0 <= i < self@.len() implies cf_wf(
                (#[trigger] self@[i]).1,
            ) by {
                if i < t0.len() {
                    assert(self@[i] == t0[i]);
                } else {
                    assert(self@[i].1 == fm);
                }
            }
            assert forall|k: int| 0 <= k < t0.len() implies #[trigger] self@.take(
                t0.len() as int,
            )[k] == t0[k] by {
                assert(self@[k] == t0[k]);
            }
            assert(self@.take(t0.len() as int) =~= t0);
            assert forall|i: int, j: int| 0 <= i < j < self@.len() implies (
            #[trigger] self@[i]).0 != (#[trigger] self@[j]).0 by {
                if j == self@.len() - 1 {
                    assert(self@[j].0 == cf_name@);
                    assert(self@[i] == t0[i]);
                    if self@[i].0 == cf_name@ {
                        assert(t0[i].0 == cf_name@);
                        assert(has_cf(t0, cf_name@));
                    }
                } else {
                    assert(self@[i] == t0[i]);
                    assert(self@[j] == t0[j]);
                }
            }
        }
        Ok(())
    }

    /// The position of the family of this name, if any.
    fn find_cf(&self, cf_name: &str) -> (r: Option<usize>)
        ensures
            match r {
                Some(i) => 0 <= i < self@.len() && self@[i as int].0 == cf_name@,
                None => !has_cf(self@, cf_name@),
            },
    {
        let n = self.column_families.len();
        let wanted = cf_name.to_owned();
        let mut i: usize = 0;
        while i < n
            invariant
                0 <= i <= n,
                n == self.column_families@.len(),
                self@.len() == n,
                wanted@ == cf_name@,
                forall|j: int| 0 <= j < i ==> (#[trigger] self@[j]).0 != cf_name@,
            decreases n - i,
        {
            proof {
                assert(self@[i as int].0 == self.column_families@[i as int].0@);
            }
            if self.column_families[i].0.eq(&wanted) {
                return Some(i);
            }
            i = i + 1;
        }
        None
    }

    /// Borrow the column family of this name, if any.
    pub fn cf(&self, cf_name: &str) -> (r: Option<&ColumnFamily>)
        ensures
            match r {
                Some(c) => exists|i: int|
                    0 <= i < self@.len() && (#[trigger] self@[i]).0 == cf_name@ && c@
                        == self@[i].1,
                None => !has_cf(self@, cf_name@),
            },
    {
        let found = self.find_cf(cf_name);
        match found {
            Some(i) => {
                proof {
                    assert(self@[i as int].1 == self.column_families@[i as int].1@);
                }
                Some(&self.column_families[i].1)
            },
            None => None,
        }
    }

    /// Borrow the column family of this name mutably, if any: what the
    /// borrower leaves in it is what the table then holds under the
    /// name.
    pub fn cf_mut(&mut self, cf_name: &str) -> (r: Option<&mut ColumnFamily>)
        requires
            old(self).wf(),
        ensures
            match r {
                Some(c) => exists|i: int|
                    0 <= i < old(self)@.len() && (#[trigger] old(self)@[i]).0 == cf_name@
                        && c@ == old(self)@[i].1 && final(self)@ == old(self)@.update(
                        i,
                        (old(self)@[i].0, final(c)@),
                    ),
                None => !has_cf(old(self)@, cf_name@) && final(self)@ == old(self)@,
            },
    {
        let found = self.find_cf(cf_name);
        match found {
            Some(i) => Some(&mut self.column_families[i].1),
            None => None,
        }
    }

    /// Add a recovered column family under the name; refused when the
    /// name is taken.
    pub fn add_cf(&mut self, cf_name: &str, cf: ColumnFamily) -> (r: Result<(), TableError>)
        requires
            old(self).wf(),
            cf.wf(),
        ensures
            final(self).wf(),
            match r {
                Ok(_) => {
                    &&& !has_cf(old(self)@, cf_name@)
                    &&& final(self)@.len() == old(self)@.len() + 1
                    &&& final(self)@.take(old(self)@.len() as int) == old(self)@
                    &&& final(self)@.last().0 == cf_name@
                    &&& final(self)@.last().1 == cf@
                },
                Err(e) => {
                    &&& e == TableError::AlreadyExists
                    &&& has_cf(old(self)@, cf_name@)
                    &&& final(self)@ == old(self)@
                },
            },
    {
        let ghost t0 = self@;
        if self.find_cf(cf_name).is_some() {
            return Err(TableError::AlreadyExists);
        }
        let name = cf_name.to_owned();
        let ghost fm = cf@;
        self.column_families.push((name, cf));
        proof {
            assert(self@.len() == t0.len() + 1);
            assert forall|i: int| 0 <= i < self@.len() implies cf_wf(
                (#[trigger] self@[i]).1,
            ) by {
                if i < t0.len() {
                    assert(self@[i] == t0[i]);
                } else {
                    assert(self@[i].1 == fm);
                }
            }
            assert forall|k: int| 0 <= k < t0.len() implies #[trigger] self@.take(
                t0.len() as int,
            )[k] == t0[k] by {
                assert(self@[k] == t0[k]);
            }
            assert(self@.take(t0.len() as int) =~= t0);
            assert forall|i: int, j: int| 0 <= i < j < self@.len() implies (
            #[trigger] self@[i]).0 != (#[trigger] self@[j]).0 by {
                if j == self@.len() - 1 {
                    assert(self@[j].0 == cf_name@);
                    assert(self@[i] == t0[i]);
                    if self@[i].0 == cf_name@ {
                        assert(t0[i].0 == cf_name@);
                        assert(has_cf(t0, cf_name@));
                    }
                } else {
                    assert(self@[i] == t0[i]);
                    assert(self@[j] == t0[j]);
                }
            }
        }
        Ok(())
    }
}

} // verus!
