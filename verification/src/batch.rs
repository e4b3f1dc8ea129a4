//! Batched writes: a recorded list of operations executed together.
//!
//! A batch holds puts and deletes in order; executing it against a column
//! family performs them one after another, each at its own fresh
//! timestamp, handing back the file bytes of any runs that forced
//! flushes produced along the way.

use vstd::prelude::*;

use crate::api::{put_outcome, ts_fresh, CfModel, ColumnFamily};
use crate::types::{CellModel, Column, RowKey};

verus! {

/// One recorded operation.
#[derive(Debug, Clone)]
pub enum BatchOperation {
    /// Write a value.
    Put(RowKey, Column, Vec<u8>),
    /// Write a deletion marker that never expires.
    Delete(RowKey, Column),
    /// Write a deletion marker with an optional time-to-live.
    DeleteWithTTL(RowKey, Column, Option<u64>),
}

/// Model of one recorded operation.
pub enum BatchOpModel {
    Put(Seq<u8>, Seq<u8>, Seq<u8>),
    Delete(Seq<u8>, Seq<u8>),
    DeleteWithTTL(Seq<u8>, Seq<u8>, Option<u64>),
}

impl View for BatchOperation {
    type V = BatchOpModel;

    open spec fn view(&self) -> BatchOpModel {
        match self {
            BatchOperation::Put(r, c, v) => BatchOpModel::Put(r@, c@, v@),
            BatchOperation::Delete(r, c) => BatchOpModel::Delete(r@, c@),
            BatchOperation::DeleteWithTTL(r, c, t) => BatchOpModel::DeleteWithTTL(r@, c@, *t),
        }
    }
}

/// The row an operation addresses.
pub open spec fn op_row(op: BatchOpModel) -> Seq<u8> {
    match op {
        BatchOpModel::Put(r, _, _) => r,
        BatchOpModel::Delete(r, _) => r,
        BatchOpModel::DeleteWithTTL(r, _, _) => r,
    }
}

/// The column an operation addresses.
pub open spec fn op_column(op: BatchOpModel) -> Seq<u8> {
    match op {
        BatchOpModel::Put(_, c, _) => c,
        BatchOpModel::Delete(_, c) => c,
        BatchOpModel::DeleteWithTTL(_, c, _) => c,
    }
}

/// The cell an operation writes.
pub open spec fn op_cell(op: BatchOpModel) -> CellModel {
    match op {
        BatchOpModel::Put(_, _, v) => CellModel::Put(v),
        BatchOpModel::Delete(_, _) => CellModel::Delete(None),
        BatchOpModel::DeleteWithTTL(_, _, t) => CellModel::Delete(t),
    }
}

/// Model of a list of operations.
pub open spec fn ops_model(v: Seq<BatchOperation>) -> Seq<BatchOpModel> {
    v.map_values(|op: BatchOperation| op@)
}

/// A recorded list of operations.
#[derive(Debug, Clone)]
pub struct Batch {
    operations: Vec<BatchOperation>,
}

impl View for Batch {
    type V = Seq<BatchOpModel>;

    closed spec fn view(&self) -> Seq<BatchOpModel> {
        ops_model(self.operations@)
    }
}

impl Batch {
    /// An empty batch.
    pub fn new() -> (r: Batch)
        ensures
            r@ == Seq::<BatchOpModel>::empty(),
    {
        let r = Batch { operations: Vec::new() };
        proof {
            assert(r@ =~= Seq::<BatchOpModel>::empty());
        }
        r
    }

    /// Record a put.
    pub fn put(&mut self, row: RowKey, column: Column, value: Vec<u8>)
        ensures
            final(self)@ == old(self)@.push(BatchOpModel::Put(row@, column@, value@)),
    {
        let ghost b0 = self@;
        self.operations.push(BatchOperation::Put(row, column, value));
        proof {
            assert(self@ =~= b0.push(self.operations@.last()@));
        }
    }

    /// Record a delete without expiry.
    pub fn delete(&mut self, row: RowKey, column: Column)
        ensures
            final(self)@ == old(self)@.push(BatchOpModel::Delete(row@, column@)),
    {
        let ghost b0 = self@;
        self.operations.push(BatchOperation::Delete(row, column));
        proof {
            assert(self@ =~= b0.push(self.operations@.last()@));
        }
    }

    /// Record a delete with an optional time-to-live.
    pub fn delete_with_ttl(&mut self, row: RowKey, column: Column, ttl_ms: Option<u64>)
        ensures
            final(self)@ == old(self)@.push(BatchOpModel::DeleteWithTTL(row@, column@, ttl_ms)),
    {
        let ghost b0 = self@;
        self.operations.push(BatchOperation::DeleteWithTTL(row, column, ttl_ms));
        proof {
            assert(self@ =~= b0.push(self.operations@.last()@));
        }
    }

    /// Number of recorded operations.
    pub fn len(&self) -> (r: usize)
        ensures
            r == self@.len(),
    {
        self.operations.len()
    }

    /// Whether nothing is recorded.
    pub fn is_empty(&self) -> (r: bool)
        ensures
            r == (self@.len() == 0),
    {
        self.operations.len() == 0
    }

    /// Forget every recorded operation.
    pub fn clear(&mut self)
        ensures
            final(self)@ == Seq::<BatchOpModel>::empty(),
    {
        self.operations.clear();
        proof {
            assert(self@ =~= Seq::<BatchOpModel>::empty());
        }
    }
}

/// The batch's operations were applied in order, each at its own fresh
/// timestamp, flushing whenever the map ran over; `arts` are exactly the
/// numbered file bytes those flushes produced, in order.
pub open spec fn batch_applied(
    pre: CfModel,
    post: CfModel,
    ops: Seq<BatchOpModel>,
    arts: Seq<(u64, Vec<u8>)>,
) -> bool
    decreases ops.len(),
{
    if ops.len() == 0 {
        post == pre && arts.len() == 0
    } else {
        exists|mid: CfModel, ts: u64, fr: Option<(u64, Vec<u8>)>|
            ts_fresh(pre.last_ts, ts) && #[trigger] put_outcome(
                pre,
                mid,
                fr,
                op_row(ops[0]),
                op_column(ops[0]),
                op_cell(ops[0]),
                ts,
            ) && (match fr {
                Some(p) => arts.len() > 0 && arts[0] == p && batch_applied(
                    mid,
                    post,
                    ops.drop_first(),
                    arts.drop_first(),
                ),
                None => batch_applied(mid, post, ops.drop_first(), arts),
            })
    }
}

/// Execute recorded operations against a column family.
pub trait SyncBatchExt {
    /// The implementor is in a shape fit to take writes.
    spec fn batch_ready(&self) -> bool;

    /// The column-family state the implementor carries.
    spec fn family_model(&self) -> CfModel;

    /// Perform every operation in order, each at its own fresh
    /// timestamp; the numbered file bytes of runs born of forced
    /// flushes come back in order for the caller to persist.
    fn execute_batch(&mut self, batch: &Batch) -> (r: Vec<(u64, Vec<u8>)>)
        requires
            old(self).batch_ready(),
        ensures
            final(self).batch_ready(),
            batch_applied(old(self).family_model(), final(self).family_model(), batch@, r@),
    ;
}

impl SyncBatchExt for ColumnFamily {
    open spec fn batch_ready(&self) -> bool {
        self.wf()
    }

    open spec fn family_model(&self) -> CfModel {
        self@
    }

    fn execute_batch(&mut self, batch: &Batch) -> (r: Vec<(u64, Vec<u8>)>) {
        self.apply_batch(batch)
    }
}

impl ColumnFamily {
    /// Perform every recorded operation in order; the numbered file
    /// bytes of runs born of forced flushes come back in order.
    pub fn apply_batch(&mut self, batch: &Batch) -> (r: Vec<(u64, Vec<u8>)>)
        requires
            old(self).wf(),
        ensures
            final(self).wf(),
            batch_applied(old(self)@, final(self)@, batch@, r@),
    {
        let ghost pre = self@;
        let ghost ops = batch@;
        let n = batch.len();
        let mut flushed: Vec<(u64, Vec<u8>)> = Vec::new();
        let mut i: usize = 0;
        proof {
            assert(ops.skip(0) =~= ops);
        }
        while i < n
            invariant
                0 <= i <= n,
                n == batch@.len(),
                ops == batch@,
                self.wf(),
                forall|post: CfModel, tail: Seq<(u64, Vec<u8>)>|
                    #[trigger] batch_applied(self@, post, ops.skip(i as int), tail)
                        ==> batch_applied(pre, post, ops, flushed@ + tail),
            decreases n - i,
        {
            let ghost mid0 = self@;
            let ghost flushed0 = flushed@;
            let op = batch.op_at(i);
            let fr = match op {
                BatchOperation::Put(row, column, value) => self.put(row, column, value),
                BatchOperation::Delete(row, column) => self.delete(row, column),
                BatchOperation::DeleteWithTTL(row, column, ttl) => self.delete_with_ttl(
                    row,
                    column,
                    ttl,
                ),
            };
            match fr {
                Some(p) => {
                    let ghost pv = p;
                    flushed.push(p);
                    proof {
                        assert(flushed@ =~= flushed0.push(pv));
                        assert(ops.skip(i as int)[0] == ops[i as int]);
                        assert(ops.skip(i as int).drop_first() =~= ops.skip(i + 1));
                        assert forall|post: CfModel, tail: Seq<(u64, Vec<u8>)>|
                            #[trigger] batch_applied(self@, post, ops.skip(i + 1), tail) implies
                            batch_applied(pre, post, ops, flushed@ + tail) by {
                            let ts = choose|ts: u64|
                                ts_fresh(mid0.last_ts, ts) && #[trigger] put_outcome(
                                    mid0,
                                    self@,
                                    Some(pv),
                                    op_row(ops[i as int]),
                                    op_column(ops[i as int]),
                                    op_cell(ops[i as int]),
                                    ts,
                                );
                            assert((seq![pv] + tail)[0] == pv);
                            assert((seq![pv] + tail).drop_first() =~= tail);
                            assert(batch_applied(mid0, post, ops.skip(i as int), seq![pv] + tail));
                            assert(flushed0 + (seq![pv] + tail) =~= flushed@ + tail);
                        }
                    }
                },
                None => {
                    proof {
                        assert(ops.skip(i as int)[0] == ops[i as int]);
                        assert(ops.skip(i as int).drop_first() =~= ops.skip(i + 1));
                        assert forall|post: CfModel, tail: Seq<(u64, Vec<u8>)>|
                            #[trigger] batch_applied(self@, post, ops.skip(i + 1), tail) implies
                            batch_applied(pre, post, ops, flushed@ + tail) by {
                            let ts = choose|ts: u64|
                                ts_fresh(mid0.last_ts, ts) && #[trigger] put_outcome(
                                    mid0,
                                    self@,
                                    None,
                                    op_row(ops[i as int]),
                                    op_column(ops[i as int]),
                                    op_cell(ops[i as int]),
                                    ts,
                                );
                            assert(batch_applied(mid0, post, ops.skip(i as int), tail));
                        }
                    }
                },
            }
            i = i + 1;
        }
        proof {
            assert(ops.skip(n as int) =~= Seq::<BatchOpModel>::empty());
            lemma_batch_applied_refl(self@);
            assert(batch_applied(
                self@,
                self@,
                ops.skip(n as int),
                Seq::<(u64, Vec<u8>)>::empty(),
            ));
            assert(flushed@ + Seq::<(u64, Vec<u8>)>::empty() =~= flushed@);
        }
        flushed
    }
}

impl Batch {
    /// Copy the operation at `i`.
    pub fn op_at(&self, i: usize) -> (r: BatchOperation)
        requires
            i < self@.len(),
        ensures
            r@ == self@[i as int],
    {
        let op = &self.operations[i];
        match op {
            BatchOperation::Put(row, column, value) => BatchOperation::Put(
                crate::types::clone_bytes(row),
                crate::types::clone_bytes(column),
                crate::types::clone_bytes(value),
            ),
            BatchOperation::Delete(row, column) => BatchOperation::Delete(
                crate::types::clone_bytes(row),
                crate::types::clone_bytes(column),
            ),
            BatchOperation::DeleteWithTTL(row, column, ttl) => BatchOperation::DeleteWithTTL(
                crate::types::clone_bytes(row),
                crate::types::clone_bytes(column),
                *ttl,
            ),
        }
    }
}

/// Applying no operations changes nothing and yields nothing.
proof fn lemma_batch_applied_refl(cf: CfModel)
    ensures
        batch_applied(cf, cf, Seq::<BatchOpModel>::empty(), Seq::<(u64, Vec<u8>)>::empty()),
{
}

impl Default for Batch {
    /// The empty batch.
    fn default() -> (r: Batch)
        ensures
            r@ == Seq::<BatchOpModel>::empty(),
    {
        Batch::new()
    }
}

} // verus!
