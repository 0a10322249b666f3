//! Properties that span the prewrite, commit, rollback, resolution and read paths.
use vstd::prelude::*;
use crate::storage::engine::{BatchOpView, Partition};
use crate::storage::key::{lemma_decode_encode, spec_encode};
use crate::storage::lock::{LockView, lemma_lock_roundtrip, spec_lock_bytes, spec_lock_from_bytes, LockDecodeFailure};
use crate::storage::mvcc::{OpType, WriteRecord, lemma_write_record_roundtrip, spec_write_record_bytes};
use crate::storage::reader::{MvccError, ReadDecision, lock_blocks_read, spec_read_step};
use crate::txn::coordinator::{
    ConflictStep, LockCheckView, MutationView, mutation_key, mutation_op, spec_conflict_step, spec_lock_check,
    spec_prewrite_ops, spec_rollback_key_ops,
};
use crate::txn::lock_resolver::{
    StatusStep, TxnStatus, spec_lock_expired, spec_primary_lock_status, spec_resolve_plan, spec_status_step,
};
use crate::txn::records::{spec_commit_ops, spec_rollback_ops};

verus! {

/// A read sees what a committed put wrote: prewriting `value` under `key` at
/// `start_ts`, then committing with the prewritten lock at `commit_ts`, leaves a
/// commit record that a read at any `read_ts >= commit_ts` follows to exactly the
/// data key under which the prewrite stored `value`.
pub proof fn lemma_read_sees_committed_put(
    key: Seq<u8>,
    value: Seq<u8>,
    primary: Seq<u8>,
    start_ts: u64,
    ttl: u64,
    commit_ts: u64,
    read_ts: u64,
)
    requires
        primary.len() < 0x1_0000_0000,
        commit_ts <= read_ts,
    ensures
        ({
            let pre = spec_prewrite_ops(MutationView::Put { key, value }, primary, start_ts, ttl);
            let lock_bytes = spec_lock_bytes(LockView { primary_key: primary, start_ts, ttl, op: OpType::Put });
            let com = spec_commit_ops(key, start_ts, OpType::Put, commit_ts);
            &&& pre == seq![
                BatchOpView::Insert { partition: Partition::Default, key: spec_encode(key, start_ts), value },
                BatchOpView::Insert { partition: Partition::Lock, key, value: lock_bytes },
            ]
            &&& spec_lock_from_bytes(lock_bytes) == Ok::<LockView, LockDecodeFailure>(
                LockView { primary_key: primary, start_ts, ttl, op: OpType::Put },
            )
            &&& com[0] matches BatchOpView::Insert { partition: Partition::Write, key: wk, value: wv }
                && spec_read_step(key, read_ts, wk, wv) == ReadDecision::Fetch(spec_encode(key, start_ts))
        }),
{
    lemma_lock_roundtrip(LockView { primary_key: primary, start_ts, ttl, op: OpType::Put });
    lemma_decode_encode(key, commit_ts);
    lemma_write_record_roundtrip(WriteRecord { start_ts, op: OpType::Put });
}

/// A read sees a committed delete as the key having no value.
pub proof fn lemma_read_sees_committed_delete(key: Seq<u8>, start_ts: u64, commit_ts: u64, read_ts: u64)
    requires
        commit_ts <= read_ts,
    ensures
        ({
            let com = spec_commit_ops(key, start_ts, OpType::Delete, commit_ts);
            com[0] matches BatchOpView::Insert { partition: Partition::Write, key: wk, value: wv }
                && spec_read_step(key, read_ts, wk, wv) == ReadDecision::Deleted
        }),
{
    lemma_decode_encode(key, commit_ts);
    lemma_write_record_roundtrip(WriteRecord { start_ts, op: OpType::Delete });
}

/// Snapshot isolation: a version committed after the read timestamp is invisible.
pub proof fn lemma_later_commit_invisible(key: Seq<u8>, start_ts: u64, op: OpType, commit_ts: u64, read_ts: u64)
    requires
        commit_ts > read_ts,
    ensures
        ({
            let com = spec_commit_ops(key, start_ts, op, commit_ts);
            com[0] matches BatchOpView::Insert { partition: Partition::Write, key: wk, value: wv }
                && spec_read_step(key, read_ts, wk, wv) == ReadDecision::Skip
        }),
{
    lemma_decode_encode(key, commit_ts);
    lemma_write_record_roundtrip(WriteRecord { start_ts, op });
}

/// A rollback record is never read as a value, tells a status check that the
/// transaction rolled back, and stops the same transaction from prewriting the
/// key again.
pub proof fn lemma_rollback_record_is_permanent(key: Seq<u8>, start_ts: u64, read_ts: u64)
    ensures
        ({
            let rb = spec_rollback_ops(key, start_ts);
            rb[0] matches BatchOpView::Insert { partition: Partition::Write, key: wk, value: wv } && {
                &&& spec_read_step(key, read_ts, wk, wv) == ReadDecision::Skip
                &&& spec_status_step(key, start_ts, wk, wv) == StatusStep::Found(TxnStatus::RolledBack)
                &&& spec_conflict_step(key, start_ts, wk, wv) == ConflictStep::RolledBack
            }
        }),
        spec_rollback_key_ops(key, start_ts, true).last() == spec_rollback_ops(key, start_ts)[0],
        spec_rollback_key_ops(key, start_ts, false).last() == spec_rollback_ops(key, start_ts)[0],
{
    lemma_decode_encode(key, start_ts);
    lemma_write_record_roundtrip(WriteRecord { start_ts, op: OpType::Rollback });
}

/// A committed primary key reports the commit timestamp to status checks.
pub proof fn lemma_commit_record_reports_commit(primary: Seq<u8>, start_ts: u64, op: OpType, commit_ts: u64)
    requires
        op != OpType::Rollback,
    ensures
        ({
            let com = spec_commit_ops(primary, start_ts, op, commit_ts);
            com[0] matches BatchOpView::Insert { partition: Partition::Write, key: wk, value: wv }
                && spec_status_step(primary, start_ts, wk, wv) == StatusStep::Found(
                TxnStatus::Committed { commit_ts },
            )
        }),
{
    lemma_decode_encode(primary, commit_ts);
    lemma_write_record_roundtrip(WriteRecord { start_ts, op });
}

/// Write-write conflicts: a prewrite at `start_ts` conflicts with any commit of
/// the key by another transaction at or after `start_ts`, and passes over
/// commits before it.
pub proof fn lemma_prewrite_conflicts_with_newer_commit(
    key: Seq<u8>,
    other_start: u64,
    op: OpType,
    commit_ts: u64,
    start_ts: u64,
)
    requires
        other_start != start_ts || op != OpType::Rollback,
    ensures
        ({
            let com = spec_commit_ops(key, other_start, op, commit_ts);
            com[0] matches BatchOpView::Insert { partition: Partition::Write, key: wk, value: wv }
                && spec_conflict_step(key, start_ts, wk, wv) == if commit_ts >= start_ts {
                ConflictStep::Conflict
            } else {
                ConflictStep::Continue
            }
        }),
{
    lemma_decode_encode(key, commit_ts);
    lemma_write_record_roundtrip(WriteRecord { start_ts: other_start, op });
}

/// A lock blocks exactly the reads at or after its start timestamp, and
/// reports its primary key and start timestamp to them.
pub proof fn lemma_lock_blocks_later_reads(primary: Seq<u8>, start_ts: u64, ttl: u64, op: OpType, read_ts: u64, r: Result<(), MvccError>)
    requires
        op != OpType::Rollback,
        primary.len() < 0x1_0000_0000,
    ensures
        lock_blocks_read(Some(spec_lock_bytes(LockView { primary_key: primary, start_ts, ttl, op })), read_ts, r)
            == if start_ts <= read_ts {
            r matches Err(MvccError::KeyIsLocked { primary_key, lock_ts }) && primary_key@ == primary
                && lock_ts == start_ts
        } else {
            r is Ok
        },
{
    lemma_lock_roundtrip(LockView { primary_key: primary, start_ts, ttl, op });
}

/// The lock a prewrite stores under the mutated key is the transaction's own
/// lock to commit, rollback and heartbeat (carrying the mutation's operation,
/// which commit records), and another transaction's lock to every other start
/// timestamp.  As a primary lock it reports the transaction as running until its
/// TTL runs out, and as rolled back after.
pub proof fn lemma_prewrite_lock_is_owned(
    m: MutationView,
    primary: Seq<u8>,
    start_ts: u64,
    ttl: u64,
    other_ts: u64,
    now_ms: u64,
)
    requires
        primary.len() < 0x1_0000_0000,
        other_ts != start_ts,
    ensures
        ({
            let lock = LockView { primary_key: primary, start_ts, ttl, op: mutation_op(m) };
            let ops = spec_prewrite_ops(m, primary, start_ts, ttl);
            ops.last() matches BatchOpView::Insert { partition: Partition::Lock, key: lk, value: lv } && {
                &&& lk == mutation_key(m)
                &&& spec_lock_check(Some(lv), start_ts) == LockCheckView::Own(lock)
                &&& spec_lock_check(Some(lv), other_ts) == LockCheckView::Other(lock)
                &&& spec_primary_lock_status(lk, start_ts, Some(lv), now_ms) == if spec_lock_expired(
                    start_ts,
                    ttl,
                    now_ms,
                ) {
                    (TxnStatus::RolledBack, Some(spec_rollback_ops(lk, start_ts)))
                } else {
                    (TxnStatus::Locked { ttl }, None)
                }
            }
        }),
{
    lemma_lock_roundtrip(LockView { primary_key: primary, start_ts, ttl, op: mutation_op(m) });
}

/// Rolling a secondary lock forward writes the same records as committing it
/// with the primary's commit timestamp, so reads then see the prewritten value.
pub proof fn lemma_roll_forward_is_commit(key: Seq<u8>, lock: LockView, commit_ts: u64, now_ms: u64)
    ensures
        spec_resolve_plan(key, lock, TxnStatus::Committed { commit_ts }, now_ms) == Some(
            spec_commit_ops(key, lock.start_ts, lock.op, commit_ts),
        ),
        spec_resolve_plan(key, lock, TxnStatus::RolledBack, now_ms) == Some(spec_rollback_ops(key, lock.start_ts)),
{
}

} // verus!
