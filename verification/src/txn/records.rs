//! The writes that commit or roll back one key of a transaction.
use vstd::prelude::*;
use crate::raft::router::copy_bytes;
use crate::storage::engine::{BatchOp, BatchOpView, Partition, key_fits, ops_fit, ops_view, storable_key};
use crate::storage::key::{KeyEncoder, spec_encode};
use crate::storage::mvcc::{OpType, WriteRecord, spec_write_record_bytes};

verus! {

/// Committing `key`: a commit record at `commit_ts` naming the transaction's start
/// timestamp and operation, and removal of the key's lock.
pub open spec fn spec_commit_ops(key: Seq<u8>, start_ts: u64, op: OpType, commit_ts: u64) -> Seq<BatchOpView> {
    seq![
        BatchOpView::Insert {
            partition: Partition::Write,
            key: spec_encode(key, commit_ts),
            value: spec_write_record_bytes(WriteRecord { start_ts, op }),
        },
        BatchOpView::Remove { partition: Partition::Lock, key },
    ]
}

/// Rolling back `key`: a rollback record at the start timestamp, and removal of the lock.
pub open spec fn spec_rollback_ops(key: Seq<u8>, start_ts: u64) -> Seq<BatchOpView> {
    seq![
        BatchOpView::Insert {
            partition: Partition::Write,
            key: spec_encode(key, start_ts),
            value: spec_write_record_bytes(WriteRecord { start_ts, op: OpType::Rollback }),
        },
        BatchOpView::Remove { partition: Partition::Lock, key },
    ]
}

pub fn commit_ops(key: &[u8], start_ts: u64, op: OpType, commit_ts: u64) -> (ops: Vec<BatchOp>)
    requires
        key@.len() + 8 <= usize::MAX,
    ensures
        ops_view(ops@) == spec_commit_ops(key@, start_ts, op, commit_ts),
{
    let mut ops: Vec<BatchOp> = Vec::new();
    ops.push(BatchOp::Insert {
        partition: Partition::Write,
        key: KeyEncoder::encode(key, commit_ts),
        value: WriteRecord::new(start_ts, op).to_bytes(),
    });
    ops.push(BatchOp::Remove { partition: Partition::Lock, key: vstd::slice::slice_to_vec(key) });
    assert(ops_view(ops@) =~= spec_commit_ops(key@, start_ts, op, commit_ts));
    ops
}

pub fn rollback_ops(key: &[u8], start_ts: u64) -> (ops: Vec<BatchOp>)
    requires
        key@.len() + 8 <= usize::MAX,
    ensures
        ops_view(ops@) == spec_rollback_ops(key@, start_ts),
{
    let mut ops: Vec<BatchOp> = Vec::new();
    ops.push(BatchOp::Insert {
        partition: Partition::Write,
        key: KeyEncoder::encode(key, start_ts),
        value: WriteRecord::new(start_ts, OpType::Rollback).to_bytes(),
    });
    ops.push(BatchOp::Remove { partition: Partition::Lock, key: vstd::slice::slice_to_vec(key) });
    assert(ops_view(ops@) =~= spec_rollback_ops(key@, start_ts));
    ops
}

/// The writes that commit a storable key whose versions fit are writes the store accepts.
pub proof fn lemma_commit_ops_fit(key: Seq<u8>, start_ts: u64, op: OpType, commit_ts: u64)
    requires
        storable_key(key),
        key_fits(key),
    ensures
        ops_fit(spec_commit_ops(key, start_ts, op, commit_ts)),
{
    let ops = spec_commit_ops(key, start_ts, op, commit_ts);
    assert forall|i: int| 0 <= i < ops.len() implies crate::storage::engine::op_fits(#[trigger] ops[i]) by {}
}

/// The writes that roll back a storable key whose versions fit are writes the store accepts.
pub proof fn lemma_rollback_ops_fit(key: Seq<u8>, start_ts: u64)
    requires
        storable_key(key),
        key_fits(key),
    ensures
        ops_fit(spec_rollback_ops(key, start_ts)),
{
    let ops = spec_rollback_ops(key, start_ts);
    assert forall|i: int| 0 <= i < ops.len() implies crate::storage::engine::op_fits(#[trigger] ops[i]) by {}
}

} // verus!
