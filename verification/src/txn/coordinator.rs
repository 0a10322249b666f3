//! Percolator two-phase commit over the MVCC storage engine.
use vstd::prelude::*;
use crate::codec::{bytes_eq, seq_le, seq_lt};
use crate::raft::router::copy_bytes;
use crate::storage::engine::{
    BatchOp, BatchOpView, Partition, ReadReceipt, SeekReceipt, StorageEngine, StorageError, WriteReceipt, all_committed, entries_view, handed, key_fits, seeks_follow, op_fits, ops_fit, ops_view,
    storable_key,
    storable_value,
};
use crate::storage::key::{KeyEncoder, spec_decode, spec_encode};
use crate::storage::lock::{Lock, LockDecodeFailure, LockView, spec_lock_bytes, spec_lock_from_bytes};
use crate::storage::mvcc::{OpType, WriteRecord, spec_write_record_from_bytes, spec_write_record_bytes};
use crate::storage::reader::{MvccError, MvccReader, ReadTrace, opt_view, read_outcome};
use crate::storage::scan::{in_range, key_in_range, keys_view};
use crate::txn::hlc::{HybridLogicalClock, Timestamp, spec_ts_value};
use crate::txn::lock_resolver::{
    LockResolver, LockResolverError, ResolveTrace, StatusTrace, TxnStatus, resolve_outcome, status_check_outcome,
    status_error,
};
use crate::txn::records::{commit_ops, lemma_commit_ops_fit, spec_commit_ops};

verus! {

#[derive(Debug)]
pub enum TxnError {
    Storage(StorageError),
    Fjall(fjall::Error),
    Mvcc(MvccError),
    LockResolver(LockResolverError),
    WriteConflict(Vec<u8>, u64),
    KeyLocked(Vec<u8>),
    TxnClosed,
    TransactionRolledBack,
}

#[derive(Debug, Clone)]
pub enum Mutation {
    Put { key: Vec<u8>, value: Vec<u8> },
    Delete { key: Vec<u8> },
}

pub enum MutationView {
    Put { key: Seq<u8>, value: Seq<u8> },
    Delete { key: Seq<u8> },
}

impl View for Mutation {
    type V = MutationView;

    open spec fn view(&self) -> MutationView {
        match self {
            Mutation::Put { key, value } => MutationView::Put { key: key@, value: value@ },
            Mutation::Delete { key } => MutationView::Delete { key: key@ },
        }
    }
}

pub open spec fn mutation_key(m: MutationView) -> Seq<u8> {
    match m {
        MutationView::Put { key, .. } => key,
        MutationView::Delete { key } => key,
    }
}

pub open spec fn mutation_op(m: MutationView) -> OpType {
    match m {
        MutationView::Put { .. } => OpType::Put,
        MutationView::Delete { .. } => OpType::Delete,
    }
}

impl Mutation {
    pub fn key(&self) -> (k: &[u8])
        ensures
            k@ == mutation_key(self@),
    {
        match self {
            Mutation::Put { key, .. } => key.as_slice(),
            Mutation::Delete { key } => key.as_slice(),
        }
    }

    pub fn op_type(&self) -> (op: OpType)
        ensures
            op == mutation_op(self@),
    {
        match self {
            Mutation::Put { .. } => OpType::Put,
            Mutation::Delete { .. } => OpType::Delete,
        }
    }
}

/// What one write-partition entry means to a prewrite of `key` at `start_ts`.
#[derive(Debug, PartialEq, Eq, Structural)]
pub enum ConflictStep {
    Corrupted,
    /// The entry belongs to another user key: no more records of this key.
    PastKey,
    /// An older commit: look further.
    Continue,
    /// This transaction was already rolled back on this key.
    RolledBack,
    /// Another transaction committed this key at or after `start_ts`.
    Conflict,
}

pub open spec fn spec_conflict_step(key: Seq<u8>, start_ts: u64, enc_key: Seq<u8>, write_bytes: Seq<u8>) -> ConflictStep {
    match spec_decode(enc_key) {
        None => ConflictStep::Corrupted,
        Some((k, commit_ts)) => if k != key {
            ConflictStep::PastKey
        } else if (spec_write_record_from_bytes(write_bytes) matches Some(r) && r.start_ts == start_ts
            && r.op == OpType::Rollback) {
            ConflictStep::RolledBack
        } else if commit_ts >= start_ts {
            ConflictStep::Conflict
        } else {
            ConflictStep::Continue
        },
    }
}

/// A failure that comes from the keyspace: a failed read or a failed write.
pub open spec fn keyspace_error(e: TxnError) -> bool {
    ||| e is Fjall
    ||| e matches TxnError::Storage(StorageError::Fjall(_))
}

/// The failures of a snapshot read: what the reader reports (a keyspace
/// error, corruption, or a lock that could not be resolved away), or a key
/// whose lock could not be resolved.
pub open spec fn read_error(e: TxnError) -> bool {
    ||| e matches TxnError::Mvcc(m) && !(m is Engine)
    ||| e is KeyLocked
}

/// What one write-partition entry means to a prewrite (see `spec_conflict_step`).
pub open spec fn entry_conflict(key: Seq<u8>, start_ts: u64, e: (Seq<u8>, Seq<u8>)) -> ConflictStep {
    spec_conflict_step(key, start_ts, e.0, e.1)
}

/// What the prewrite of one mutation read and wrote: the write-partition
/// entries of its key it visited, newest first; the key's lock, once read; when
/// that lock was another transaction's, the result and trace of resolving it
/// and the lock read again after (`None` when that read failed); the
/// batches it handed to the keyspace; and the engine's receipts of its seeks,
/// its point reads and its batches.
pub type PrewriteTrace = (
    Seq<(Seq<u8>, Seq<u8>)>,
    Option<Option<Seq<u8>>>,
    Option<(Result<(), LockResolverError>, ResolveTrace, Option<Option<Seq<u8>>>)>,
    Seq<Seq<BatchOpView>>,
    (Seq<SeekReceipt>, Seq<ReadReceipt>, Seq<WriteReceipt>),
);

/// The engine's receipts of the prewrite of `key` agree with what it says it
/// read and wrote: the records came from seeks that walk the write partition
/// from the key's newest possible version (`seeks_follow`), each lock read
/// from the lock partition under `key`, and each batch was handed as written.
pub open spec fn prewrite_receipted(key: Seq<u8>, t: PrewriteTrace) -> bool {
    let (es, lock_read, res, writes, (sks, rrs, wrs)) = t;
    let reread = match res {
        Some((_, _, Some(lb2))) => Some(lb2),
        _ => None::<Option<Seq<u8>>>,
    };
    &&& seeks_follow(Partition::Write, spec_encode(key, u64::MAX), es, sks)
    &&& rrs.len() == (if lock_read is Some { 1int } else { 0int }) + (if reread is Some { 1int } else { 0int })
    &&& forall|i: int| 0 <= i < rrs.len() ==> (#[trigger] rrs[i]).partition() == Partition::Lock && rrs[i].key() == key
    &&& lock_read matches Some(lb) ==> rrs[0].found() == lb
    &&& reread matches Some(lb2) ==> rrs[1].found() == lb2
    &&& handed(wrs, writes)
}

/// A prewrite of a key may go ahead: no record of it is a commit at or after
/// `start_ts` or this transaction's rollback, and its lock is absent or this
/// transaction's own, or was another's and is gone after resolution.
pub open spec fn prewrite_clear(key: Seq<u8>, start_ts: u64, t: PrewriteTrace) -> bool {
    let (es, lock_read, res, _, _) = t;
    &&& forall|i: int| 0 <= i < es.len() - 1 ==> #[trigger] entry_conflict(key, start_ts, es[i]) is Continue
    &&& (es.len() == 0 || entry_conflict(key, start_ts, es.last()) is Continue || entry_conflict(
        key,
        start_ts,
        es.last(),
    ) is PastKey)
    &&& lock_read matches Some(lb) && match spec_lock_check(lb, start_ts) {
        LockCheckView::Free | LockCheckView::Own(_) => res is None,
        LockCheckView::Other(_) => res matches Some((rr, _, Some(lb2))) && rr is Ok && (spec_lock_check(
            lb2,
            start_ts,
        ) is Free || spec_lock_check(lb2, start_ts) is Own),
        LockCheckView::Corrupted => false,
    }
}

/// The prewrite of mutation `m` gave `r` having read and written `t`: the
/// key's records are visited newest first while they are older commits; a
/// commit at or after `start_ts` is a write conflict, this transaction's
/// rollback record means it was rolled back, an undecodable one is corruption,
/// in each case with nothing written.  Then the key's lock is read: an
/// undecodable one is corruption, another transaction's is resolved, and when
/// that fails or the lock is still another's the key is locked, again with
/// nothing written.  A prewrite that may go ahead writes exactly
/// `spec_prewrite_ops` (its value and a lock naming `primary`), and only such
/// a prewrite succeeds.
pub open spec fn prewrite_key_outcome(
    m: MutationView,
    primary: Seq<u8>,
    start_ts: u64,
    ttl: u64,
    r: Result<(), TxnError>,
    t: PrewriteTrace,
) -> bool {
    let key = mutation_key(m);
    let (es, lock_read, res, writes, (_, _, wrs)) = t;
    &&& prewrite_receipted(key, t)
    &&& (r is Ok ==> all_committed(wrs))
    &&& forall|i: int| 0 <= i < es.len() - 1 ==> #[trigger] entry_conflict(key, start_ts, es[i]) is Continue
    &&& (prewrite_clear(key, start_ts, t) ==> writes == seq![spec_prewrite_ops(m, primary, start_ts, ttl)])
    &&& (!prewrite_clear(key, start_ts, t) ==> writes.len() == 0 && r is Err)
    &&& (r is Err && prewrite_clear(key, start_ts, t) ==> r matches Err(TxnError::Storage(StorageError::Fjall(_))))
    &&& (es.len() > 0 ==> match entry_conflict(key, start_ts, es.last()) {
        ConflictStep::Conflict => lock_read is None && (r matches Err(TxnError::WriteConflict(k, ts)) && k@ == key
            && ts == start_ts),
        ConflictStep::RolledBack => lock_read is None && r matches Err(TxnError::TransactionRolledBack),
        ConflictStep::Corrupted => lock_read is None && r matches Err(TxnError::Mvcc(MvccError::CorruptedState)),
        _ => true,
    })
    &&& (lock_read matches Some(lb) ==> match spec_lock_check(lb, start_ts) {
        LockCheckView::Corrupted => r matches Err(TxnError::Mvcc(MvccError::CorruptedState)),
        LockCheckView::Other(l) => match res {
            None => false,
            Some((rr, rt, reread)) => {
                &&& resolve_outcome(key, l, rr, rt)
                &&& rr is Err ==> reread is None && (r matches Err(TxnError::KeyLocked(k)) && k@ == key)
                &&& rr is Ok ==> match reread {
                    Some(lb2) => match spec_lock_check(lb2, start_ts) {
                        LockCheckView::Other(_) => r matches Err(TxnError::KeyLocked(k)) && k@ == key,
                        LockCheckView::Corrupted => r matches Err(TxnError::Mvcc(MvccError::CorruptedState)),
                        _ => true,
                    },
                    None => r matches Err(TxnError::Fjall(_)),
                }
            },
        },
        _ => res is None,
    })
}

/// What a coordinator read read: the first snapshot read's result and trace,
/// and, when a lock blocked it, the lock stored on the key (`None` when that
/// read failed), whether the lock was resolved, the second read's result and
/// trace, and the engine's receipt of the lock read.
pub type GetTrace = (
    Result<Option<Vec<u8>>, MvccError>,
    ReadTrace,
    Option<(
        Option<Option<Seq<u8>>>,
        Option<(Result<(), LockResolverError>, ResolveTrace)>,
        Option<(Result<Option<Vec<u8>>, MvccError>, ReadTrace)>,
        Seq<ReadReceipt>,
    )>,
);

/// A coordinator read of `user_key` at `read_ts` gave `r` having read `t`: a
/// snapshot read (`read_outcome`) decides, unless a lock blocked it.  Then the
/// lock stored on the key is read again (`None` when that read failed) and
/// resolved (`resolve_outcome`, by the lock itself: its operation and TTL);
/// when resolution fails the key stays locked, and otherwise (or when the lock
/// has gone) a second snapshot read decides.
pub open spec fn get_outcome(user_key: Seq<u8>, read_ts: u64, r: Result<Option<Vec<u8>>, TxnError>, t: GetTrace) -> bool {
    &&& read_outcome(user_key, read_ts, t.0, t.1)
    &&& !(t.0 matches Err(MvccError::KeyIsLocked { .. })) ==> t.2 is None && same_read(r, t.0)
    &&& t.0 matches Err(MvccError::KeyIsLocked { .. }) ==> t.2 is Some
    &&& t.2 matches Some((lock_read, _, _, rrs)) ==> lock_receipts(
        rrs,
        if lock_read is Some { seq![user_key] } else { Seq::empty() },
        match lock_read {
            Some(lb) => seq![lb],
            None => Seq::empty(),
        },
    )
    &&& t.2 matches Some((lock_read, resolution, second, _)) ==> match lock_read {
        None => r matches Err(TxnError::Mvcc(MvccError::Fjall(_))) && resolution is None && second is None,
        Some(None) => resolution is None && (second matches Some((r2, t2)) && read_outcome(
            user_key,
            read_ts,
            r2,
            t2,
        ) && same_read(r, r2)),
        Some(Some(b)) => match spec_lock_from_bytes(b) {
            Err(_) => r matches Err(TxnError::Mvcc(MvccError::CorruptedState)) && resolution is None && second is None,
            Ok(l) => match resolution {
                None => false,
                Some((rr, rt)) => {
                    &&& resolve_outcome(user_key, l, rr, rt)
                    &&& (rr is Err ==> second is None && r matches Err(TxnError::KeyLocked(_)))
                    &&& rr is Ok ==> (second matches Some((r2, t2)) && read_outcome(user_key, read_ts, r2, t2)
                        && same_read(r, r2))
                },
            },
        },
    }
    &&& r matches Err(TxnError::KeyLocked(k)) ==> k@ == user_key
    &&& r matches Err(e) ==> read_error(e)
}

/// The key-value pairs of the reads that found a value, in order.
pub open spec fn spec_found(gets: Seq<(Seq<u8>, Result<Option<Vec<u8>>, TxnError>, GetTrace)>) -> Seq<(Seq<u8>, Seq<u8>)>
    decreases gets.len(),
{
    if gets.len() == 0 {
        Seq::empty()
    } else {
        let prev = spec_found(gets.drop_last());
        match gets.last().1 {
            Ok(Some(v)) => prev.push((gets.last().0, v@)),
            _ => prev,
        }
    }
}

/// The coordinator's read result `r` carries the reader's result `m`: the same
/// value, or the reader's error.
pub open spec fn same_read(r: Result<Option<Vec<u8>>, TxnError>, m: Result<Option<Vec<u8>>, MvccError>) -> bool {
    match m {
        Ok(v) => r == Ok::<Option<Vec<u8>>, TxnError>(v),
        Err(e) => r == Err::<Option<Vec<u8>>, TxnError>(TxnError::Mvcc(e)),
    }
}

/// What the lock stored on a key means to the transaction at a given start timestamp.
#[derive(Debug)]
pub enum LockCheck {
    /// No lock is stored.
    Free,
    /// The transaction's own lock.
    Own(Lock),
    /// Another transaction's lock.
    Other(Lock),
    /// The stored bytes are not a lock.
    Corrupted,
}

pub enum LockCheckView {
    Free,
    Own(LockView),
    Other(LockView),
    Corrupted,
}

impl View for LockCheck {
    type V = LockCheckView;

    open spec fn view(&self) -> LockCheckView {
        match self {
            LockCheck::Free => LockCheckView::Free,
            LockCheck::Own(l) => LockCheckView::Own(l@),
            LockCheck::Other(l) => LockCheckView::Other(l@),
            LockCheck::Corrupted => LockCheckView::Corrupted,
        }
    }
}

pub open spec fn spec_lock_check(lock_bytes: Option<Seq<u8>>, start_ts: u64) -> LockCheckView {
    match lock_bytes {
        None => LockCheckView::Free,
        Some(b) => match spec_lock_from_bytes(b) {
            Err(_) => LockCheckView::Corrupted,
            Ok(l) => if l.start_ts == start_ts {
                LockCheckView::Own(l)
            } else {
                LockCheckView::Other(l)
            },
        },
    }
}

/// The writes of a prewrite: the value (for a put) under the key at the start
/// timestamp, and a lock naming the primary key.
pub open spec fn spec_prewrite_ops(m: MutationView, primary: Seq<u8>, start_ts: u64, ttl: u64) -> Seq<BatchOpView> {
    let key = mutation_key(m);
    let lock = BatchOpView::Insert {
        partition: Partition::Lock,
        key,
        value: spec_lock_bytes(LockView { primary_key: primary, start_ts, ttl, op: mutation_op(m) }),
    };
    match m {
        MutationView::Put { key, value } => seq![
            BatchOpView::Insert { partition: Partition::Default, key: spec_encode(key, start_ts), value },
            lock,
        ],
        MutationView::Delete { .. } => seq![lock],
    }
}

/// The writes of rolling back `key` for the transaction at `start_ts`: the lock
/// goes when it belongs to that transaction, and a rollback record is written.
pub open spec fn spec_rollback_key_ops(key: Seq<u8>, start_ts: u64, owns_lock: bool) -> Seq<BatchOpView> {
    (if owns_lock {
        seq![BatchOpView::Remove { partition: Partition::Lock, key }]
    } else {
        Seq::empty()
    }) + seq![
        BatchOpView::Insert {
            partition: Partition::Write,
            key: spec_encode(key, start_ts),
            value: spec_write_record_bytes(WriteRecord { start_ts, op: OpType::Rollback }),
        },
    ]
}

/// Every key's versioned forms are keys the store accepts.
pub open spec fn keys_fit(keys: Seq<Vec<u8>>) -> bool {
    forall|i: int| 0 <= i < keys.len() ==> key_fits(#[trigger] keys[i]@)
}

/// A mutation the store can take: its key is storable, so are its versioned
/// forms, and so is the value of a put.
pub open spec fn mutation_fits(m: MutationView) -> bool {
    &&& storable_key(mutation_key(m))
    &&& key_fits(mutation_key(m))
    &&& (m matches MutationView::Put { value, .. } ==> storable_value(value))
}

pub open spec fn mutations_fit(ms: Seq<Mutation>) -> bool {
    forall|i: int| 0 <= i < ms.len() ==> mutation_fits(#[trigger] ms[i]@)
}

/// The writes of a prewrite of a mutation that fits, with a primary key whose
/// lock is a storable value, are writes the store accepts.
pub proof fn lemma_prewrite_ops_fit(m: MutationView, primary: Seq<u8>, start_ts: u64, ttl: u64)
    requires
        mutation_fits(m),
        primary.len() + 21 < 0x1_0000_0000,
    ensures
        ops_fit(spec_prewrite_ops(m, primary, start_ts, ttl)),
{
    let ops = spec_prewrite_ops(m, primary, start_ts, ttl);
    assert forall|i: int| 0 <= i < ops.len() implies op_fits(#[trigger] ops[i]) by {}
}

/// The writes of rolling back a key whose versioned forms fit, and which holds
/// a lock when the lock is removed, are writes the store accepts.
pub proof fn lemma_rollback_key_ops_fit(key: Seq<u8>, start_ts: u64, owns_lock: bool)
    requires
        key_fits(key),
        owns_lock ==> storable_key(key),
    ensures
        ops_fit(spec_rollback_key_ops(key, start_ts, owns_lock)),
{
    let ops = spec_rollback_key_ops(key, start_ts, owns_lock);
    assert forall|i: int| 0 <= i < ops.len() implies op_fits(#[trigger] ops[i]) by {}
}

/// The lock a heartbeat writes back: the transaction's lock with its TTL
/// extended to `new_ttl`, never shortened.
pub open spec fn spec_heartbeat_lock(l: LockView, new_ttl: u64) -> LockView {
    LockView {
        primary_key: l.primary_key,
        start_ts: l.start_ts,
        ttl: if new_ttl > l.ttl { new_ttl } else { l.ttl },
        op: l.op,
    }
}

/// What committing `key` writes, given the lock read from it: the commit
/// records when the lock is the transaction's own, nothing otherwise.
pub open spec fn spec_commit_key(key: Seq<u8>, lock: Option<Seq<u8>>, start_ts: u64, commit_ts: u64) -> Seq<Seq<BatchOpView>> {
    match spec_lock_check(lock, start_ts) {
        LockCheckView::Own(l) => seq![spec_commit_ops(key, start_ts, l.op, commit_ts)],
        _ => Seq::empty(),
    }
}

/// The batches a commit hands to the keyspace, given the locks it read from
/// the first `reads.len()` of `keys`, in order.
pub open spec fn spec_commit_writes(
    keys: Seq<Seq<u8>>,
    reads: Seq<Option<Seq<u8>>>,
    start_ts: u64,
    commit_ts: u64,
) -> Seq<Seq<BatchOpView>>
    decreases reads.len(),
{
    if reads.len() == 0 {
        Seq::empty()
    } else {
        spec_commit_writes(keys, reads.drop_last(), start_ts, commit_ts) + spec_commit_key(
            keys[reads.len() - 1],
            reads.last(),
            start_ts,
            commit_ts,
        )
    }
}

/// The batches a rollback hands to the keyspace, given the locks it read from
/// the first `reads.len()` of `keys`, in order: for each key a rollback record,
/// and the removal of the lock when it is the transaction's own.
pub open spec fn spec_rollback_writes(keys: Seq<Seq<u8>>, reads: Seq<Option<Seq<u8>>>, start_ts: u64) -> Seq<Seq<BatchOpView>>
    decreases reads.len(),
{
    if reads.len() == 0 {
        Seq::empty()
    } else {
        spec_rollback_writes(keys, reads.drop_last(), start_ts).push(
            spec_rollback_key_ops(
                keys[reads.len() - 1],
                start_ts,
                spec_lock_check(reads.last(), start_ts) is Own,
            ),
        )
    }
}

/// The lock stored for a key (`None`: no lock) is one taken by the
/// transaction that started at `start_ts`, and that lock is `l`.
pub open spec fn lock_of_txn(lock: Option<Seq<u8>>, start_ts: u64, l: LockView) -> bool {
    lock matches Some(b) && spec_lock_from_bytes(b) == Ok::<LockView, LockDecodeFailure>(l) && l.start_ts == start_ts
}

/// The commit record of `key` at `commit_ts` for the transaction that started
/// at `start_ts`, with operation `op`.
pub open spec fn commit_record(key: Seq<u8>, start_ts: u64, op: OpType, commit_ts: u64) -> BatchOpView {
    BatchOpView::Insert {
        partition: Partition::Write,
        key: spec_encode(key, commit_ts),
        value: spec_write_record_bytes(WriteRecord { start_ts, op }),
    }
}

/// `batch` commits `key`: it writes the commit record of the transaction at
/// `start_ts` with operation `op` at `commit_ts`, then removes the key's lock,
/// and nothing else.
pub open spec fn commits_key(batch: Seq<BatchOpView>, key: Seq<u8>, start_ts: u64, op: OpType, commit_ts: u64) -> bool {
    &&& batch.len() == 2
    &&& batch[0] == commit_record(key, start_ts, op, commit_ts)
    &&& batch[1] == BatchOpView::Remove { partition: Partition::Lock, key }
}

/// `batch` commits one of `keys` whose lock, as read into `reads`, is the
/// transaction's own, under that lock's operation.
pub open spec fn commits_own_key(
    batch: Seq<BatchOpView>,
    keys: Seq<Seq<u8>>,
    reads: Seq<Option<Seq<u8>>>,
    start_ts: u64,
    commit_ts: u64,
) -> bool {
    exists|i: int, l: LockView|
        0 <= i < reads.len() && #[trigger] lock_of_txn(reads[i], start_ts, l) && commits_key(
            batch,
            keys[i],
            start_ts,
            l.op,
            commit_ts,
        )
}

/// Some batch of `writes` holds `op`.
pub open spec fn writes_hold(writes: Seq<Seq<BatchOpView>>, op: BatchOpView) -> bool {
    exists|j: int, k: int| 0 <= j < writes.len() && 0 <= k < writes[j].len() && #[trigger] writes[j][k] == op
}

/// A commit writes, for every key whose lock it found to be the transaction's
/// own (the primary and the secondaries alike), a commit record at
/// `commit_ts` that carries the operation of that lock, and removes that lock.
pub proof fn lemma_commit_records_lock_op(
    keys: Seq<Seq<u8>>,
    reads: Seq<Option<Seq<u8>>>,
    start_ts: u64,
    commit_ts: u64,
    i: int,
    l: LockView,
)
    requires
        0 <= i < reads.len(),
        lock_of_txn(reads[i], start_ts, l),
    ensures
        writes_hold(spec_commit_writes(keys, reads, start_ts, commit_ts), commit_record(keys[i], start_ts, l.op, commit_ts)),
        writes_hold(
            spec_commit_writes(keys, reads, start_ts, commit_ts),
            BatchOpView::Remove { partition: Partition::Lock, key: keys[i] },
        ),
    decreases reads.len(),
{
    let w = spec_commit_writes(keys, reads, start_ts, commit_ts);
    let prev = spec_commit_writes(keys, reads.drop_last(), start_ts, commit_ts);
    if i == reads.len() - 1 {
        assert(spec_lock_check(reads.last(), start_ts) == LockCheckView::Own(l));
        let j = prev.len() as int;
        assert(w[j] == spec_commit_ops(keys[i], start_ts, l.op, commit_ts));
        assert(w[j][0] == commit_record(keys[i], start_ts, l.op, commit_ts));
        assert(w[j][1] == BatchOpView::Remove { partition: Partition::Lock, key: keys[i] });
    } else {
        assert(reads.drop_last()[i] == reads[i]);
        lemma_commit_records_lock_op(keys, reads.drop_last(), start_ts, commit_ts, i, l);
        let (j, k) = choose|j: int, k: int|
            0 <= j < prev.len() && 0 <= k < prev[j].len() && #[trigger] prev[j][k] == commit_record(
                keys[i],
                start_ts,
                l.op,
                commit_ts,
            );
        assert(w[j] == prev[j]);
        assert(w[j][k] == commit_record(keys[i], start_ts, l.op, commit_ts));
        let (j2, k2) = choose|j: int, k: int|
            0 <= j < prev.len() && 0 <= k < prev[j].len() && #[trigger] prev[j][k] == BatchOpView::Remove {
                partition: Partition::Lock,
                key: keys[i],
            };
        assert(w[j2] == prev[j2]);
        assert(w[j2][k2] == BatchOpView::Remove { partition: Partition::Lock, key: keys[i] });
    }
}

/// A commit writes nothing for a key whose lock is not the transaction's own:
/// every batch it writes is the commit of some key it found locked by the
/// transaction, under the operation of that lock.
pub proof fn lemma_commit_writes_only_own_locks(
    keys: Seq<Seq<u8>>,
    reads: Seq<Option<Seq<u8>>>,
    start_ts: u64,
    commit_ts: u64,
    j: int,
)
    requires
        0 <= j < spec_commit_writes(keys, reads, start_ts, commit_ts).len(),
    ensures
        exists|i: int, l: LockView|
            0 <= i < reads.len() && #[trigger] lock_of_txn(reads[i], start_ts, l) && commits_key(
                spec_commit_writes(keys, reads, start_ts, commit_ts)[j],
                keys[i],
                start_ts,
                l.op,
                commit_ts,
            ),
    decreases reads.len(),
{
    let w = spec_commit_writes(keys, reads, start_ts, commit_ts);
    let prev = spec_commit_writes(keys, reads.drop_last(), start_ts, commit_ts);
    let n = reads.len() - 1;
    if j < prev.len() {
        lemma_commit_writes_only_own_locks(keys, reads.drop_last(), start_ts, commit_ts, j);
        let (i, l) = choose|i: int, l: LockView|
            0 <= i < reads.drop_last().len() && #[trigger] lock_of_txn(reads.drop_last()[i], start_ts, l) && commits_key(
                prev[j],
                keys[i],
                start_ts,
                l.op,
                commit_ts,
            );
        assert(w[j] == prev[j]);
        assert(reads.drop_last()[i] == reads[i]);
        assert(lock_of_txn(reads[i], start_ts, l));
    } else {
        let l = spec_lock_check(reads.last(), start_ts)->Own_0;
        assert(spec_lock_check(reads.last(), start_ts) is Own);
        assert(lock_of_txn(reads[n], start_ts, l));
        assert(w[j] == spec_commit_ops(keys[n], start_ts, l.op, commit_ts));
        assert(commits_key(w[j], keys[n], start_ts, l.op, commit_ts));
    }
}

/// Every batch a commit writes commits one of its keys whose lock it found to
/// be the transaction's own, under that lock's operation.
pub proof fn lemma_commit_batches_commit_own_keys(
    keys: Seq<Seq<u8>>,
    reads: Seq<Option<Seq<u8>>>,
    start_ts: u64,
    commit_ts: u64,
)
    ensures
        forall|j: int|
            0 <= j < spec_commit_writes(keys, reads, start_ts, commit_ts).len() ==> commits_own_key(
                #[trigger] spec_commit_writes(keys, reads, start_ts, commit_ts)[j],
                keys,
                reads,
                start_ts,
                commit_ts,
            ),
{
    let w = spec_commit_writes(keys, reads, start_ts, commit_ts);
    assert forall|j: int| 0 <= j < w.len() implies commits_own_key(#[trigger] w[j], keys, reads, start_ts, commit_ts) by {
        lemma_commit_writes_only_own_locks(keys, reads, start_ts, commit_ts, j);
    }
}

/// Rolling back writes, for the `i`-th key, a rollback record at `start_ts`,
/// and removes the key's lock exactly when that lock was taken by the
/// transaction at `start_ts`: another transaction's lock is left in place.
pub proof fn lemma_rollback_removes_only_own_lock(
    keys: Seq<Seq<u8>>,
    reads: Seq<Option<Seq<u8>>>,
    start_ts: u64,
    i: int,
)
    requires
        0 <= i < reads.len(),
    ensures
        spec_rollback_writes(keys, reads, start_ts).len() == reads.len(),
        spec_rollback_writes(keys, reads, start_ts)[i].contains(
            BatchOpView::Insert {
                partition: Partition::Write,
                key: spec_encode(keys[i], start_ts),
                value: spec_write_record_bytes(WriteRecord { start_ts, op: OpType::Rollback }),
            },
        ),
        spec_rollback_writes(keys, reads, start_ts)[i].contains(
            BatchOpView::Remove { partition: Partition::Lock, key: keys[i] },
        ) <==> exists|l: LockView| lock_of_txn(reads[i], start_ts, l),
    decreases reads.len(),
{
    let w = spec_rollback_writes(keys, reads, start_ts);
    lemma_rollback_writes_len(keys, reads, start_ts);
    let rm = BatchOpView::Remove { partition: Partition::Lock, key: keys[i] };
    let rec = BatchOpView::Insert {
        partition: Partition::Write,
        key: spec_encode(keys[i], start_ts),
        value: spec_write_record_bytes(WriteRecord { start_ts, op: OpType::Rollback }),
    };
    if i == reads.len() - 1 {
        let own = spec_lock_check(reads.last(), start_ts) is Own;
        assert(w[i] == spec_rollback_key_ops(keys[i], start_ts, own));
        if own {
            let l = spec_lock_check(reads.last(), start_ts)->Own_0;
            assert(lock_of_txn(reads[i], start_ts, l));
            assert(w[i][0] == rm);
            assert(w[i][1] == rec);
        } else {
            assert(w[i] =~= seq![rec]);
            assert(w[i][0] == rec);
            assert(!w[i].contains(rm)) by {
                if w[i].contains(rm) {
                    let k = choose|k: int| 0 <= k < w[i].len() && w[i][k] == rm;
                    assert(w[i][k] == rec);
                }
            }
            assert(!exists|l: LockView| lock_of_txn(reads[i], start_ts, l)) by {
                if exists|l: LockView| lock_of_txn(reads[i], start_ts, l) {
                    let l = choose|l: LockView| lock_of_txn(reads[i], start_ts, l);
                    assert(spec_lock_check(reads[i], start_ts) == LockCheckView::Own(l));
                }
            }
        }
    } else {
        lemma_rollback_removes_only_own_lock(keys, reads.drop_last(), start_ts, i);
        lemma_rollback_writes_len(keys, reads.drop_last(), start_ts);
        assert(w[i] == spec_rollback_writes(keys, reads.drop_last(), start_ts)[i]);
        assert(reads.drop_last()[i] == reads[i]);
    }
}

proof fn lemma_rollback_writes_len(keys: Seq<Seq<u8>>, reads: Seq<Option<Seq<u8>>>, start_ts: u64)
    ensures
        spec_rollback_writes(keys, reads, start_ts).len() == reads.len(),
    decreases reads.len(),
{
    if reads.len() > 0 {
        lemma_rollback_writes_len(keys, reads.drop_last(), start_ts);
    }
}

/// Encoded keys, each at or before `bound`, that decode to the given user keys.
pub open spec fn versions_up_to(encs: Seq<Seq<u8>>, keys: Seq<Seq<u8>>, bound: Seq<u8>) -> bool {
    &&& encs.len() == keys.len()
    &&& forall|i: int|
        0 <= i < encs.len() ==> spec_decode(#[trigger] encs[i]) is Some && spec_decode(encs[i]).unwrap().0 == keys[i]
            && seq_le(encs[i], bound)
}

/// Where a scan from `start_key` at `read_ts` begins in the write partition:
/// at the version of `start_key` at `read_ts`, or at the partition's start
/// when `start_key` is empty.
pub open spec fn scan_start(start_key: Seq<u8>, read_ts: u64) -> Seq<u8> {
    if start_key.len() == 0 {
        Seq::empty()
    } else {
        spec_encode(start_key, read_ts)
    }
}

/// The entry's key does not decode to a user key before `end` (which, when
/// empty, bounds nothing).
pub open spec fn past_end(e: (Seq<u8>, Seq<u8>), end: Seq<u8>) -> bool {
    spec_decode(e.0) matches Some((k, _)) && !(end.len() == 0 || seq_lt(k, end))
}

/// The user keys a scan of `[start, end)` reads, given the write-partition
/// entries it visited in order: the user key of each entry in the range that
/// differs from the key read just before.
pub open spec fn requested_keys(es: Seq<(Seq<u8>, Seq<u8>)>, start: Seq<u8>, end: Seq<u8>) -> Seq<Seq<u8>>
    decreases es.len(),
{
    if es.len() == 0 {
        Seq::empty()
    } else {
        let prev = requested_keys(es.drop_last(), start, end);
        match spec_decode(es.last().0) {
            None => prev,
            Some((k, _)) => if !in_range(k, start, end) || (prev.len() > 0 && prev.last() == k) {
                prev
            } else {
                prev.push(k)
            },
        }
    }
}

/// No key of `keys` is a proper prefix of another.
pub open spec fn no_prefix_pairs(keys: Seq<Seq<u8>>) -> bool {
    forall|i: int, j: int|
        0 <= i < keys.len() && 0 <= j < keys.len() && keys[i] != keys[j] ==> !(#[trigger] keys[i]).is_prefix_of(
            #[trigger] keys[j],
        )
}

/// No two keys of `keys` are equal.
pub open spec fn pairwise_distinct(keys: Seq<Seq<u8>>) -> bool {
    forall|i: int, j: int| 0 <= i < j < keys.len() ==> #[trigger] keys[i] != #[trigger] keys[j]
}

/// No two neighbours in `keys` are equal.
pub open spec fn adjacent_distinct(keys: Seq<Seq<u8>>) -> bool {
    forall|i: int| 0 <= i < keys.len() - 1 ==> #[trigger] keys[i] != keys[i + 1]
}

/// A scan reads each user key it meets once for the whole run of its
/// versions: the keys it reads, in the order it meets their entries, never
/// repeat a key twice in a row, however many versions a key has.
pub proof fn lemma_requested_keys_adjacent_distinct(es: Seq<(Seq<u8>, Seq<u8>)>, start: Seq<u8>, end: Seq<u8>)
    ensures
        adjacent_distinct(requested_keys(es, start, end)),
    decreases es.len(),
{
    if es.len() > 0 {
        lemma_requested_keys_adjacent_distinct(es.drop_last(), start, end);
        let prev = requested_keys(es.drop_last(), start, end);
        let cur = requested_keys(es, start, end);
        assert forall|i: int| 0 <= i < cur.len() - 1 implies #[trigger] cur[i] != cur[i + 1] by {
            if cur.len() > prev.len() {
                if i + 1 < prev.len() {
                    assert(cur[i] == prev[i] && cur[i + 1] == prev[i + 1]);
                } else {
                    assert(cur[i] == prev.last());
                }
            } else {
                assert(cur[i] == prev[i] && cur[i + 1] == prev[i + 1]);
            }
        }
    }
}

/// Keys that are met in stored order without repeating a key twice in a row,
/// and of which no key is a proper prefix of another, are pairwise distinct:
/// the versions of a key are stored together.
pub proof fn lemma_ordered_keys_distinct(keys: Seq<Seq<u8>>)
    requires
        prefix_free_ordered(keys),
        adjacent_distinct(keys),
        no_prefix_pairs(keys),
    ensures
        pairwise_distinct(keys),
{
    assert forall|i: int, j: int| 0 <= i < j < keys.len() implies #[trigger] keys[i] != #[trigger] keys[j] by {
        if keys[i] == keys[j] {
            assert(keys[i] != keys[i + 1]);
            assert(j != i + 1);
            let m = keys[i + 1];
            assert(!keys[i].is_prefix_of(m) && !m.is_prefix_of(keys[i]));
            assert(seq_lt(keys[i], keys[i + 1]));
            assert(!keys[i + 1].is_prefix_of(keys[j]) && !keys[j].is_prefix_of(keys[i + 1]));
            assert(seq_lt(keys[i + 1], keys[j]));
            crate::codec::lemma_seq_lt_transitive(keys[i], m, keys[j]);
            crate::codec::lemma_seq_lt_irreflexive(keys[i]);
        }
    }
}

/// The pairs a scan returns are those of its reads that found a value, in
/// order: each pair's key is the key of one of the reads, and reads of
/// distinct keys give pairs of distinct keys.
pub proof fn lemma_found_keys_distinct(gets: Seq<(Seq<u8>, Result<Option<Vec<u8>>, TxnError>, GetTrace)>)
    ensures
        forall|x: int|
            0 <= x < spec_found(gets).len() ==> exists|j: int|
                0 <= j < gets.len() && (#[trigger] spec_found(gets)[x]).0 == gets[j].0,
        pairwise_distinct(gets.map_values(|g: (Seq<u8>, Result<Option<Vec<u8>>, TxnError>, GetTrace)| g.0)) ==> pairwise_distinct(
            spec_found(gets).map_values(|e: (Seq<u8>, Seq<u8>)| e.0),
        ),
    decreases gets.len(),
{
    if gets.len() > 0 {
        let prev_g = gets.drop_last();
        lemma_found_keys_distinct(prev_g);
        let prev = spec_found(prev_g);
        let cur = spec_found(gets);
        assert forall|x: int| 0 <= x < cur.len() implies exists|j: int|
            0 <= j < gets.len() && (#[trigger] cur[x]).0 == gets[j].0 by {
            if x < prev.len() {
                assert(cur[x] == prev[x]);
                let j = choose|j: int| 0 <= j < prev_g.len() && (#[trigger] prev[x]).0 == prev_g[j].0;
                assert(gets[j] == prev_g[j]);
            } else {
                assert(cur[x].0 == gets[gets.len() - 1].0);
            }
        }
        if pairwise_distinct(gets.map_values(|g: (Seq<u8>, Result<Option<Vec<u8>>, TxnError>, GetTrace)| g.0)) {
            let gk = gets.map_values(|g: (Seq<u8>, Result<Option<Vec<u8>>, TxnError>, GetTrace)| g.0);
            let pk = prev_g.map_values(|g: (Seq<u8>, Result<Option<Vec<u8>>, TxnError>, GetTrace)| g.0);
            assert forall|a: int, b: int| 0 <= a < b < pk.len() implies #[trigger] pk[a] != #[trigger] pk[b] by {
                assert(pk[a] == gk[a] && pk[b] == gk[b]);
            }
            let ck = cur.map_values(|e: (Seq<u8>, Seq<u8>)| e.0);
            let pck = prev.map_values(|e: (Seq<u8>, Seq<u8>)| e.0);
            assert forall|a: int, b: int| 0 <= a < b < ck.len() implies #[trigger] ck[a] != #[trigger] ck[b] by {
                if b < prev.len() {
                    assert(ck[a] == pck[a] && ck[b] == pck[b]);
                } else {
                    assert(cur[a] == prev[a]);
                    let j = choose|j: int| 0 <= j < prev_g.len() && (#[trigger] prev[a]).0 == prev_g[j].0;
                    assert(gk[j] == prev_g[j].0);
                    assert(ck[b] == gk[gets.len() - 1]);
                    assert(ck[a] == gk[j]);
                }
            }
        }
    }
}

/// User keys of which any two that are not prefixes of one another come in
/// increasing order.
pub open spec fn prefix_free_ordered(keys: Seq<Seq<u8>>) -> bool {
    forall|i: int, j: int|
        0 <= i < j < keys.len() && !keys[i].is_prefix_of(keys[j]) && !keys[j].is_prefix_of(keys[i]) ==> seq_lt(
            #[trigger] keys[i],
            #[trigger] keys[j],
        )
}

proof fn lemma_versions_advance(encs: Seq<Seq<u8>>, keys: Seq<Seq<u8>>, cur: Seq<u8>, e: Seq<u8>)
    requires
        versions_up_to(encs, keys, cur),
        seq_le(cur, e),
    ensures
        versions_up_to(encs, keys, e),
        seq_lt(cur, e) ==> forall|i: int| 0 <= i < encs.len() ==> seq_lt(#[trigger] encs[i], e),
{
    assert forall|i: int| 0 <= i < encs.len() implies seq_le(#[trigger] encs[i], e) by {
        if encs[i] != cur && cur != e {
            crate::codec::lemma_seq_lt_transitive(encs[i], cur, e);
        }
    }
    if seq_lt(cur, e) {
        assert forall|i: int| 0 <= i < encs.len() implies seq_lt(#[trigger] encs[i], e) by {
            if encs[i] != cur {
                crate::codec::lemma_seq_lt_transitive(encs[i], cur, e);
            }
        }
    }
}

proof fn lemma_versions_push(encs: Seq<Seq<u8>>, keys: Seq<Seq<u8>>, e: Seq<u8>, k: Seq<u8>)
    requires
        versions_up_to(encs, keys, e),
        forall|i: int| 0 <= i < encs.len() ==> seq_lt(#[trigger] encs[i], e),
        prefix_free_ordered(keys),
        spec_decode(e) is Some,
        spec_decode(e).unwrap().0 == k,
    ensures
        versions_up_to(encs.push(e), keys.push(k), e),
        prefix_free_ordered(keys.push(k)),
{
    crate::storage::key::lemma_encode_decode(e);
    crate::codec::lemma_seq_lt_irreflexive(e);
    let ks = keys.push(k);
    let es = encs.push(e);
    assert forall|i: int| 0 <= i < es.len() implies spec_decode(#[trigger] es[i]) is Some && spec_decode(es[i]).unwrap().0
        == ks[i] && seq_le(es[i], e) by {
        if i < encs.len() {
            assert(es[i] == encs[i]);
        }
    }
    assert forall|i: int, j: int|
        0 <= i < j < ks.len() && !ks[i].is_prefix_of(ks[j]) && !ks[j].is_prefix_of(ks[i]) implies seq_lt(
            #[trigger] ks[i],
            #[trigger] ks[j],
        ) by {
        if j < keys.len() {
            assert(ks[i] == keys[i] && ks[j] == keys[j]);
        } else {
            assert(ks[j] == k && ks[i] == keys[i]);
            crate::storage::key::lemma_encode_decode(encs[i]);
            crate::storage::key::lemma_encode_prefix_free_order(
                keys[i],
                k,
                spec_decode(encs[i]).unwrap().1,
                spec_decode(e).unwrap().1,
            );
        }
    }
}

/// The receipts of the lock reads of the first `reads.len()` of `keys`: each
/// read the lock partition at that key and found what `reads` says.
pub open spec fn lock_receipts(rrs: Seq<ReadReceipt>, keys: Seq<Seq<u8>>, reads: Seq<Option<Seq<u8>>>) -> bool {
    &&& rrs.len() == reads.len()
    &&& forall|i: int|
        0 <= i < rrs.len() ==> (#[trigger] rrs[i]).partition() == Partition::Lock && rrs[i].key() == keys[i]
            && rrs[i].found() == reads[i]
}

pub struct TransactionCoordinator {
    engine: StorageEngine,
    hlc: HybridLogicalClock,
    resolver: LockResolver,
}

impl TransactionCoordinator {
    pub fn new(engine: StorageEngine, hlc: HybridLogicalClock) -> (c: Self)
        ensures
            c.clock() == hlc@,
    {
        let resolver = LockResolver::new(engine.clone());
        Self { engine, hlc, resolver }
    }

    /// The state of the coordinator's clock.
    pub closed spec fn clock(&self) -> Timestamp {
        self.hlc@
    }

    /// A start timestamp for a new transaction.
    pub fn begin(&mut self) -> (ts: u64)
        requires
            old(self).clock().logical < u32::MAX,
        ensures
            ts == spec_ts_value(final(self).clock().physical, final(self).clock().logical),
    {
        self.hlc.now()
    }

    /// A timestamp from the coordinator's clock (for commits and reads).
    pub fn now(&mut self) -> (ts: u64)
        requires
            old(self).clock().logical < u32::MAX,
        ensures
            ts == spec_ts_value(final(self).clock().physical, final(self).clock().logical),
    {
        self.hlc.now()
    }

    pub fn conflict_step(key: &[u8], start_ts: u64, enc_key: &[u8], write_bytes: &[u8]) -> (s: ConflictStep)
        ensures
            s == spec_conflict_step(key@, start_ts, enc_key@, write_bytes@),
    {
        match KeyEncoder::decode(enc_key) {
            Err(_) => ConflictStep::Corrupted,
            Ok((k, commit_ts)) => {
                if !bytes_eq(k, key) {
                    ConflictStep::PastKey
                } else {
                    let rolled_back = match WriteRecord::from_bytes(write_bytes) {
                        Some(rec) => rec.start_ts == start_ts && rec.op == OpType::Rollback,
                        None => false,
                    };
                    if rolled_back {
                        ConflictStep::RolledBack
                    } else if commit_ts >= start_ts {
                        ConflictStep::Conflict
                    } else {
                        ConflictStep::Continue
                    }
                }
            },
        }
    }

    /// Classifies the lock read from a key (`None` when there is none) for the
    /// transaction at `start_ts`.
    pub fn lock_check(lock_bytes: Option<Vec<u8>>, start_ts: u64) -> (c: LockCheck)
        ensures
            c@ == spec_lock_check(opt_view(lock_bytes), start_ts),
            c matches LockCheck::Own(l) ==> l.primary_key@.len() + 21 <= usize::MAX,
            c matches LockCheck::Other(l) ==> l.primary_key@.len() + 21 <= usize::MAX,
    {
        match lock_bytes {
            None => LockCheck::Free,
            Some(bytes) => {
                let len = bytes.len();
                assert(bytes@.len() == len);
                match Lock::from_bytes(bytes.as_slice()) {
                    Err(_) => LockCheck::Corrupted,
                    Ok(l) => {
                        if l.start_ts == start_ts {
                            LockCheck::Own(l)
                        } else {
                            LockCheck::Other(l)
                        }
                    },
                }
            },
        }
    }

    pub fn prewrite_ops(mutation: &Mutation, primary_key: &[u8], start_ts: u64, lock_ttl: u64) -> (ops: Vec<BatchOp>)
        requires
            mutation_key(mutation@).len() + 8 <= usize::MAX,
            primary_key@.len() + 21 < 0x1_0000_0000,
        ensures
            ops_view(ops@) == spec_prewrite_ops(mutation@, primary_key@, start_ts, lock_ttl),
    {
        let mut ops: Vec<BatchOp> = Vec::new();
        if let Mutation::Put { key, value } = mutation {
            let data_key = KeyEncoder::encode(key.as_slice(), start_ts);
            ops.push(BatchOp::Insert { partition: Partition::Default, key: data_key, value: copy_bytes(value) });
        }
        let lock = Lock::new(vstd::slice::slice_to_vec(primary_key), start_ts, lock_ttl, mutation.op_type());
        let key = mutation.key();
        ops.push(BatchOp::Insert { partition: Partition::Lock, key: vstd::slice::slice_to_vec(key), value: lock.to_bytes() });
        assert(ops_view(ops@) =~= spec_prewrite_ops(mutation@, primary_key@, start_ts, lock_ttl));
        ops
    }

    pub fn rollback_key_ops(key: &[u8], start_ts: u64, owns_lock: bool) -> (ops: Vec<BatchOp>)
        requires
            key@.len() + 8 <= usize::MAX,
        ensures
            ops_view(ops@) == spec_rollback_key_ops(key@, start_ts, owns_lock),
    {
        let mut ops: Vec<BatchOp> = Vec::new();
        if owns_lock {
            ops.push(BatchOp::Remove { partition: Partition::Lock, key: vstd::slice::slice_to_vec(key) });
        }
        ops.push(BatchOp::Insert {
            partition: Partition::Write,
            key: KeyEncoder::encode(key, start_ts),
            value: WriteRecord::new(start_ts, OpType::Rollback).to_bytes(),
        });
        assert(ops_view(ops@) =~= spec_rollback_key_ops(key@, start_ts, owns_lock));
        ops
    }

    /// Queries transaction status for a primary key at `start_ts`.  Beside the
    /// result comes the lock resolver's own result and what it read and wrote.
    pub fn check_txn_status(&self, primary_key: &[u8], start_ts: u64) -> ((r, trace): (
        Result<TxnStatus, TxnError>,
        Ghost<(Result<TxnStatus, LockResolverError>, StatusTrace)>,
    ))
        requires
            key_fits(primary_key@),
        ensures
            status_check_outcome(primary_key@, start_ts, trace@.0, trace@.1),
            match trace@.0 {
                Ok(s) => r == Ok::<TxnStatus, TxnError>(s),
                Err(e) => r == Err::<TxnStatus, TxnError>(TxnError::LockResolver(e)),
            },
            r matches Err(e) ==> e matches TxnError::LockResolver(le) && status_error(le),
    {
        let (res, t) = self.resolver.check_txn_status(primary_key, start_ts);
        let ghost g = res;
        match res {
            Ok(s) => (Ok(s), Ghost((g, t@))),
            Err(e) => (Err(TxnError::LockResolver(e)), Ghost((g, t@))),
        }
    }

    /// Extends the TTL of the primary lock of the transaction at `start_ts` to
    /// `new_ttl` (a TTL is never shortened), returning the TTL the lock now has.
    /// Beside the result comes what it read from the lock partition (`None`
    /// when the read failed), the batches it handed to the keyspace, and the
    /// engine's receipts of the read and of the batches.
    pub fn heartbeat(&self, primary_key: &[u8], start_ts: u64, new_ttl: u64) -> ((r, trace): (
        Result<u64, TxnError>,
        Ghost<(Option<Option<Seq<u8>>>, Seq<Seq<BatchOpView>>, Seq<ReadReceipt>, Seq<WriteReceipt>)>,
    ))
        requires
            primary_key@.len() <= 65535,
        ensures
            match trace@.0 {
                None => r matches Err(TxnError::Fjall(_)) && trace@.1.len() == 0,
                Some(read) => match spec_lock_check(read, start_ts) {
                    LockCheckView::Own(l) => {
                        &&& trace@.1 == seq![
                            seq![
                                BatchOpView::Insert {
                                    partition: Partition::Lock,
                                    key: primary_key@,
                                    value: spec_lock_bytes(spec_heartbeat_lock(l, new_ttl)),
                                },
                            ],
                        ]
                        &&& r matches Ok(ttl) ==> ttl == spec_heartbeat_lock(l, new_ttl).ttl
                        &&& r is Err ==> r matches Err(TxnError::Storage(StorageError::Fjall(_)))
                    },
                    LockCheckView::Corrupted => r matches Err(TxnError::Mvcc(MvccError::CorruptedState))
                        && trace@.1.len() == 0,
                    _ => r matches Err(TxnError::TransactionRolledBack) && trace@.1.len() == 0,
                },
            },
            lock_receipts(trace@.2, if trace@.0 is Some { seq![primary_key@] } else { Seq::empty() }, match trace@.0 {
                Some(read) => seq![read],
                None => Seq::empty(),
            }),
            handed(trace@.3, trace@.1),
            r is Ok ==> all_committed(trace@.3),
    {
        let (got, rc) = self.engine.get_traced(Partition::Lock, primary_key);
        let lock_bytes = match got {
            Ok(l) => l,
            Err(e) => {
                return (Err(TxnError::Fjall(e)), Ghost((None, Seq::empty(), Seq::empty(), Seq::empty())));
            },
        };
        let ghost read = opt_view(lock_bytes);
        let ghost rrs = seq![rc@];
        match Self::lock_check(lock_bytes, start_ts) {
            LockCheck::Own(lock) => {
                let mut lock = lock;
                if new_ttl > lock.ttl {
                    lock.ttl = new_ttl;
                }
                let mut ops: Vec<BatchOp> = Vec::new();
                ops.push(BatchOp::Insert {
                    partition: Partition::Lock,
                    key: vstd::slice::slice_to_vec(primary_key),
                    value: lock.to_bytes(),
                });
                let ghost writes = seq![ops_view(ops@)];
                assert(ops_view(ops@) =~= seq![
                    BatchOpView::Insert {
                        partition: Partition::Lock,
                        key: primary_key@,
                        value: spec_lock_bytes(lock@),
                    },
                ]);
                let (applied, wc) = self.engine.apply_traced(ops);
                let ghost wrs = seq![wc@];
                match applied {
                    Ok(()) => {},
                    Err(e) => {
                        return (Err(TxnError::Storage(e)), Ghost((Some(read), writes, rrs, wrs)));
                    },
                }
                (Ok(lock.ttl), Ghost((Some(read), writes, rrs, wrs)))
            },
            LockCheck::Corrupted => (
                Err(TxnError::Mvcc(MvccError::CorruptedState)),
                Ghost((Some(read), Seq::empty(), rrs, Seq::empty())),
            ),
            LockCheck::Free | LockCheck::Other(_) => (
                Err(TxnError::TransactionRolledBack),
                Ghost((Some(read), Seq::empty(), rrs, Seq::empty())),
            ),
        }
    }

    /// Reads the value of `user_key` at `read_ts`.  A lock that blocks the read
    /// is resolved once, by the lock stored on the key, and the key read again.
    /// Beside the result comes the first read's result and trace, and, when it
    /// was blocked, whether the lock was resolved and the second read.
    pub fn get(&self, user_key: &[u8], read_ts: u64) -> ((r, trace): (
        Result<Option<Vec<u8>>, TxnError>,
        Ghost<GetTrace>,
    ))
        requires
            key_fits(user_key@),
        ensures
            get_outcome(user_key@, read_ts, r, trace@),
    {
        let reader = MvccReader::new(&self.engine);
        let (first, t1) = reader.get(user_key, read_ts);
        let ghost g1 = first;
        match first {
            Ok(val) => (Ok(val), Ghost((g1, t1@, None))),
            Err(MvccError::KeyIsLocked { primary_key, lock_ts }) => {
                let (got, rc) = self.engine.get_traced(Partition::Lock, user_key);
                let stored = match got {
                    Ok(l) => l,
                    Err(e) => {
                        return (
                            Err(TxnError::Mvcc(MvccError::Fjall(e))),
                            Ghost((g1, t1@, Some((None, None, None, Seq::empty())))),
                        );
                    },
                };
                let ghost lb = opt_view(stored);
                let ghost rrs = seq![rc@];
                let ghost mut resolution: Option<(Result<(), LockResolverError>, ResolveTrace)> = None;
                if let Some(bytes) = stored {
                    let lock = match Lock::from_bytes(bytes.as_slice()) {
                        Ok(l) => l,
                        Err(_) => {
                            return (
                                Err(TxnError::Mvcc(MvccError::CorruptedState)),
                                Ghost((g1, t1@, Some((Some(lb), None, None, rrs)))),
                            );
                        },
                    };
                    let (resolved, rt) = self.resolver.resolve_lock(user_key, &lock);
                    let ghost rr = resolved;
                    proof {
                        resolution = Some((rr, rt@));
                    }
                    if resolved.is_err() {
                        return (
                            Err(TxnError::KeyLocked(vstd::slice::slice_to_vec(user_key))),
                            Ghost((g1, t1@, Some((Some(lb), resolution, None, rrs)))),
                        );
                    }
                }
                let (second, t2) = reader.get(user_key, read_ts);
                let ghost g2 = second;
                match second {
                    Ok(val) => (Ok(val), Ghost((g1, t1@, Some((Some(lb), resolution, Some((g2, t2@)), rrs))))),
                    Err(e) => (Err(TxnError::Mvcc(e)), Ghost((g1, t1@, Some((Some(lb), resolution, Some((g2, t2@)), rrs))))),
                }
            },
            Err(e) => (Err(TxnError::Mvcc(e)), Ghost((g1, t1@, None))),
        }
    }

    /// Scans the keys in `[start_key, end_key)` visible at `read_ts`, at most
    /// `limit` of them (no limit when it is 0), in the order their commit
    /// records are stored.  Beside the result come the reads it made, one per
    /// user key met in the range (see `get_outcome`), whose pairs that found a
    /// value are those returned; the write-partition entries it visited, which
    /// name exactly those keys (`requested_keys`); and the engine's receipts of
    /// the seeks that found the entries, from the first version of `start_key`
    /// at `read_ts` on (from the partition's start when `start_key` is empty).
    pub fn scan(&self, start_key: &[u8], end_key: &[u8], limit: u32, read_ts: u64) -> ((r, trace): (
        Result<Vec<(Vec<u8>, Vec<u8>)>, TxnError>,
        Ghost<(Seq<(Seq<u8>, Result<Option<Vec<u8>>, TxnError>, GetTrace)>, Seq<(Seq<u8>, Seq<u8>)>, Seq<SeekReceipt>)>,
    ))
        requires
            key_fits(start_key@),
        ensures
            forall|i: int|
                0 <= i < trace@.0.len() ==> in_range(#[trigger] trace@.0[i].0, start_key@, end_key@) && get_outcome(
                    trace@.0[i].0,
                    read_ts,
                    trace@.0[i].1,
                    trace@.0[i].2,
                ),
            r matches Ok(kvs) ==> entries_view(kvs@) == spec_found(trace@.0),
            trace@.0.map_values(|g: (Seq<u8>, Result<Option<Vec<u8>>, TxnError>, GetTrace)| g.0) == requested_keys(trace@.1, start_key@, end_key@),
            seeks_follow(Partition::Write, scan_start(start_key@, read_ts), trace@.1, trace@.2),
            r matches Ok(kvs) && (limit == 0 || kvs@.len() < limit) ==> trace@.2.len() == trace@.1.len() + 1 || (
            trace@.1.len() > 0 && past_end(trace@.1.last(), end_key@)) || trace@.1.len() == u64::MAX,
            prefix_free_ordered(trace@.0.map_values(|g: (Seq<u8>, Result<Option<Vec<u8>>, TxnError>, GetTrace)| g.0)),
            r matches Ok(kvs) ==> (limit > 0 ==> kvs@.len() <= limit) && forall|i: int|
                0 <= i < kvs@.len() ==> in_range(#[trigger] kvs@[i].0@, start_key@, end_key@),
            r matches Err(e) ==> e is Fjall || e matches TxnError::Mvcc(MvccError::CorruptedState) || (read_error(e)
                && (e matches TxnError::KeyLocked(k) ==> in_range(k@, start_key@, end_key@))),
            adjacent_distinct(trace@.0.map_values(|g: (Seq<u8>, Result<Option<Vec<u8>>, TxnError>, GetTrace)| g.0)),
            no_prefix_pairs(trace@.0.map_values(|g: (Seq<u8>, Result<Option<Vec<u8>>, TxnError>, GetTrace)| g.0)) ==> pairwise_distinct(
                trace@.0.map_values(|g: (Seq<u8>, Result<Option<Vec<u8>>, TxnError>, GetTrace)| g.0),
            ),
            r matches Ok(kvs) ==> (no_prefix_pairs(trace@.0.map_values(|g: (Seq<u8>, Result<Option<Vec<u8>>, TxnError>, GetTrace)| g.0)) ==> forall|x: int, y: int|
                0 <= x < y < kvs@.len() ==> #[trigger] kvs@[x].0@ != #[trigger] kvs@[y].0@),
    {
        let (r, trace) = self.scan_entries(start_key, end_key, limit, read_ts);
        proof {
            let ks = trace@.0.map_values(|g: (Seq<u8>, Result<Option<Vec<u8>>, TxnError>, GetTrace)| g.0);
            lemma_requested_keys_adjacent_distinct(trace@.1, start_key@, end_key@);
            if no_prefix_pairs(ks) {
                lemma_ordered_keys_distinct(ks);
                lemma_found_keys_distinct(trace@.0);
                if r is Ok {
                    let kvs = r->Ok_0;
                    let fk = spec_found(trace@.0).map_values(|e: (Seq<u8>, Seq<u8>)| e.0);
                    assert forall|x: int, y: int| 0 <= x < y < kvs@.len() implies #[trigger] kvs@[x].0@
                        != #[trigger] kvs@[y].0@ by {
                        assert(entries_view(kvs@)[x] == (kvs@[x].0@, kvs@[x].1@));
                        assert(entries_view(kvs@)[y] == (kvs@[y].0@, kvs@[y].1@));
                        assert(fk[x] == kvs@[x].0@ && fk[y] == kvs@[y].0@);
                    }
                }
            }
        }
        (r, trace)
    }

    /// The steps of `scan`: walks the write partition from the start bound,
    /// reading each user key in the range once per run of its versions.
    fn scan_entries(&self, start_key: &[u8], end_key: &[u8], limit: u32, read_ts: u64) -> ((r, trace): (
        Result<Vec<(Vec<u8>, Vec<u8>)>, TxnError>,
        Ghost<(Seq<(Seq<u8>, Result<Option<Vec<u8>>, TxnError>, GetTrace)>, Seq<(Seq<u8>, Seq<u8>)>, Seq<SeekReceipt>)>,
    ))
        requires
            key_fits(start_key@),
        ensures
            forall|i: int|
                0 <= i < trace@.0.len() ==> in_range(#[trigger] trace@.0[i].0, start_key@, end_key@) && get_outcome(
                    trace@.0[i].0,
                    read_ts,
                    trace@.0[i].1,
                    trace@.0[i].2,
                ),
            r matches Ok(kvs) ==> entries_view(kvs@) == spec_found(trace@.0),
            trace@.0.map_values(|g: (Seq<u8>, Result<Option<Vec<u8>>, TxnError>, GetTrace)| g.0) == requested_keys(trace@.1, start_key@, end_key@),
            seeks_follow(Partition::Write, scan_start(start_key@, read_ts), trace@.1, trace@.2),
            r matches Ok(kvs) && (limit == 0 || kvs@.len() < limit) ==> trace@.2.len() == trace@.1.len() + 1 || (
            trace@.1.len() > 0 && past_end(trace@.1.last(), end_key@)) || trace@.1.len() == u64::MAX,
            prefix_free_ordered(trace@.0.map_values(|g: (Seq<u8>, Result<Option<Vec<u8>>, TxnError>, GetTrace)| g.0)),
            r matches Ok(kvs) ==> (limit > 0 ==> kvs@.len() <= limit) && forall|i: int|
                0 <= i < kvs@.len() ==> in_range(#[trigger] kvs@[i].0@, start_key@, end_key@),
            r matches Err(e) ==> e is Fjall || e matches TxnError::Mvcc(MvccError::CorruptedState) || (read_error(e)
                && (e matches TxnError::KeyLocked(k) ==> in_range(k@, start_key@, end_key@))),
    {
        let mut after = false;
        let mut cursor: Vec<u8> = if start_key.len() == 0 {
            Vec::new()
        } else {
            KeyEncoder::encode(start_key, read_ts)
        };
        let ghost start = scan_start(start_key@, read_ts);
        let mut results: Vec<(Vec<u8>, Vec<u8>)> = Vec::new();
        let ghost mut gets: Seq<(Seq<u8>, Result<Option<Vec<u8>>, TxnError>, GetTrace)> = Seq::empty();
        let ghost mut encs: Seq<Seq<u8>> = Seq::empty();
        let ghost mut es: Seq<(Seq<u8>, Seq<u8>)> = Seq::empty();
        let ghost mut sks: Seq<SeekReceipt> = Seq::empty();
        let mut last_seen: Option<Vec<u8>> = None;
        let mut steps: u64 = 0;
        while steps < u64::MAX
            invariant_except_break
                sks.len() == es.len(),
                after == (es.len() > 0),
                cursor@ == (if es.len() == 0 { start } else { es.last().0 }),
                es.len() == steps,
            invariant
                cursor@.len() <= 65535,
                start == scan_start(start_key@, read_ts),
                !after ==> gets.len() == 0,
                versions_up_to(encs, gets.map_values(|g: (Seq<u8>, Result<Option<Vec<u8>>, TxnError>, GetTrace)| g.0), cursor@),
                prefix_free_ordered(gets.map_values(|g: (Seq<u8>, Result<Option<Vec<u8>>, TxnError>, GetTrace)| g.0)),
                gets.map_values(|g: (Seq<u8>, Result<Option<Vec<u8>>, TxnError>, GetTrace)| g.0) == requested_keys(es, start_key@, end_key@),
                seeks_follow(Partition::Write, start, es, sks),
                match last_seen {
                    Some(k) => gets.len() > 0 && gets.last().0 == k@,
                    None => gets.len() == 0,
                },
                limit > 0 ==> results@.len() < limit,
                entries_view(results@) == spec_found(gets),
                forall|i: int|
                    0 <= i < gets.len() ==> in_range(#[trigger] gets[i].0, start_key@, end_key@) && get_outcome(
                        gets[i].0,
                        read_ts,
                        gets[i].1,
                        gets[i].2,
                    ),
                forall|i: int|
                    0 <= i < results@.len() ==> in_range(#[trigger] results@[i].0@, start_key@, end_key@),
            ensures
                gets.map_values(|g: (Seq<u8>, Result<Option<Vec<u8>>, TxnError>, GetTrace)| g.0) == requested_keys(es, start_key@, end_key@),
                seeks_follow(Partition::Write, start, es, sks),
                sks.len() == es.len() + 1 || (es.len() > 0 && past_end(es.last(), end_key@)) || es.len() == u64::MAX,
                limit > 0 ==> results@.len() < limit,
                entries_view(results@) == spec_found(gets),
                prefix_free_ordered(gets.map_values(|g: (Seq<u8>, Result<Option<Vec<u8>>, TxnError>, GetTrace)| g.0)),
                forall|i: int|
                    0 <= i < gets.len() ==> in_range(#[trigger] gets[i].0, start_key@, end_key@) && get_outcome(
                        gets[i].0,
                        read_ts,
                        gets[i].1,
                        gets[i].2,
                    ),
                forall|i: int|
                    0 <= i < results@.len() ==> in_range(#[trigger] results@[i].0@, start_key@, end_key@),
            decreases u64::MAX - steps,
        {
            let ghost cur = cursor@;
            let ghost prev_es = es;
            let ghost ks0 = gets.map_values(|g: (Seq<u8>, Result<Option<Vec<u8>>, TxnError>, GetTrace)| g.0);
            let (found, sk) = self.engine.seek_traced(Partition::Write, cursor.as_slice(), after);
            let (enc_key, write_bytes) = match found {
                Err(e) => {
                    return (Err(TxnError::Fjall(e)), Ghost((gets, es, sks)));
                },
                Ok(None) => {
                    proof {
                        sks = sks.push(sk@);
                    }
                    break;
                },
                Ok(Some(entry)) => entry,
            };
            proof {
                es = es.push((enc_key@, write_bytes@));
                sks = sks.push(sk@);
                assert(es.drop_last() =~= prev_es);
            }
            let user_key = match KeyEncoder::decode(enc_key.as_slice()) {
                Ok((k, _)) => k,
                Err(_) => {
                    assert(requested_keys(es, start_key@, end_key@) == requested_keys(prev_es, start_key@, end_key@));
                    return (Err(TxnError::Mvcc(MvccError::CorruptedState)), Ghost((gets, es, sks)));
                },
            };
            proof {
                let ks = gets.map_values(|g: (Seq<u8>, Result<Option<Vec<u8>>, TxnError>, GetTrace)| g.0);
                if gets.len() > 0 {
                    lemma_versions_advance(encs, ks, cur, enc_key@);
                } else {
                    assert(versions_up_to(encs, ks, enc_key@));
                }
            }
            let ek_len = enc_key.len();
            if ek_len == usize::MAX {
                break;
            }
            let next = copy_bytes(&enc_key);
            if !(start_key.len() == 0 || !crate::codec::bytes_lt(user_key, start_key)) {
                assert(requested_keys(es, start_key@, end_key@) == requested_keys(prev_es, start_key@, end_key@));
                cursor = next;
                after = true;
                steps = steps + 1;
                continue;
            }
            if !(end_key.len() == 0 || crate::codec::bytes_lt(user_key, end_key)) {
                assert(requested_keys(es, start_key@, end_key@) == requested_keys(prev_es, start_key@, end_key@));
                assert(past_end(es.last(), end_key@));
                break;
            }
            let repeated = match &last_seen {
                Some(k) => bytes_eq(k.as_slice(), user_key),
                None => false,
            };
            if !repeated {
                last_seen = Some(vstd::slice::slice_to_vec(user_key));
                let (got, gt) = self.get(user_key, read_ts);
                let ghost g = got;
                let ghost prev_gets = gets;
                proof {
                    let e = enc_key@;
                    let ks = gets.map_values(|g: (Seq<u8>, Result<Option<Vec<u8>>, TxnError>, GetTrace)| g.0);
                    lemma_versions_push(encs, ks, e, user_key@);
                    assert(ks.push(user_key@) =~= gets.push((user_key@, g, gt@)).map_values(|g: (Seq<u8>, Result<Option<Vec<u8>>, TxnError>, GetTrace)| g.0));
                    assert(requested_keys(es, start_key@, end_key@) == ks.push(user_key@));
                    gets = gets.push((user_key@, g, gt@));
                    encs = encs.push(e);
                    assert(gets.drop_last() =~= prev_gets);
                    assert(gets[gets.len() - 1].0 == user_key@);
                }
                let found = match got {
                    Ok(v) => v,
                    Err(e) => {
                        return (Err(e), Ghost((gets, es, sks)));
                    },
                };
                if let Some(value) = found {
                    let ghost before = results@;
                    results.push((vstd::slice::slice_to_vec(user_key), value));
                    assert(entries_view(results@) =~= entries_view(before).push((user_key@, value@)));
                    if limit > 0 && results.len() >= limit as usize {
                        return (Ok(results), Ghost((gets, es, sks)));
                    }
                }
            } else {
                assert(requested_keys(es, start_key@, end_key@) == requested_keys(prev_es, start_key@, end_key@));
            }
            cursor = next;
            after = true;
            steps = steps + 1;
        }
        (Ok(results), Ghost((gets, es, sks)))
    }

    /// Prewrites one mutation (see `prewrite_key_outcome`); beside the result
    /// comes what it read and wrote.
    fn prewrite_one(&self, mutation: &Mutation, primary_key: &[u8], start_ts: u64, lock_ttl: u64) -> ((r, trace): (
        Result<(), TxnError>,
        Ghost<PrewriteTrace>,
    ))
        requires
            mutation_fits(mutation@),
            primary_key@.len() + 21 < 0x1_0000_0000,
        ensures
            prewrite_key_outcome(mutation@, primary_key@, start_ts, lock_ttl, r, trace@),
            r matches Err(TxnError::KeyLocked(k)) ==> k@ == mutation_key(mutation@),
            r matches Err(TxnError::WriteConflict(k, ts)) ==> k@ == mutation_key(mutation@) && ts == start_ts,
            r matches Err(e) ==> keyspace_error(e) || e matches TxnError::Mvcc(MvccError::CorruptedState)
                || e is TransactionRolledBack || e is WriteConflict || e is KeyLocked,
    {
        let key = mutation.key();
        let ghost kv = key@;
        let ghost start = spec_encode(kv, u64::MAX);
        let ghost mut es: Seq<(Seq<u8>, Seq<u8>)> = Seq::empty();
        let ghost mut sks: Seq<SeekReceipt> = Seq::empty();
        let ghost mut rrs: Seq<ReadReceipt> = Seq::empty();
        let ghost mut wrs: Seq<WriteReceipt> = Seq::empty();
        let mut after = false;
        let mut cursor = KeyEncoder::encode(key, u64::MAX);
        let mut steps: u64 = 0;
        while steps < u64::MAX
            invariant_except_break
                forall|i: int| 0 <= i < es.len() ==> #[trigger] entry_conflict(kv, start_ts, es[i]) is Continue,
                sks.len() == es.len(),
                after == (es.len() > 0),
                cursor@ == (if es.len() == 0 { start } else { es.last().0 }),
            invariant
                cursor@.len() <= 65535,
                key@.len() + 9 <= usize::MAX,
                kv == key@,
                kv == mutation_key(mutation@),
                start == spec_encode(kv, u64::MAX),
                seeks_follow(Partition::Write, start, es, sks),
                rrs.len() == 0,
                wrs.len() == 0,
            ensures
                forall|i: int| 0 <= i < es.len() - 1 ==> #[trigger] entry_conflict(kv, start_ts, es[i]) is Continue,
                es.len() > 0 ==> entry_conflict(kv, start_ts, es.last()) is Continue || entry_conflict(
                    kv,
                    start_ts,
                    es.last(),
                ) is PastKey,
            decreases u64::MAX - steps,
        {
            let (found, sk) = self.engine.seek_traced(Partition::Write, cursor.as_slice(), after);
            let (enc_key, write_bytes) = match found {
                Err(e) => {
                    return (Err(TxnError::Fjall(e)), Ghost((es, None, None, Seq::empty(), (sks, rrs, wrs))));
                },
                Ok(None) => {
                    proof {
                        sks = sks.push(sk@);
                    }
                    break;
                },
                Ok(Some(entry)) => entry,
            };
            proof {
                es = es.push((enc_key@, write_bytes@));
                sks = sks.push(sk@);
            }
            match Self::conflict_step(key, start_ts, enc_key.as_slice(), write_bytes.as_slice()) {
                ConflictStep::Corrupted => {
                    return (
                        Err(TxnError::Mvcc(MvccError::CorruptedState)),
                        Ghost((es, None, None, Seq::empty(), (sks, rrs, wrs))),
                    );
                },
                ConflictStep::PastKey => {
                    break;
                },
                ConflictStep::RolledBack => {
                    return (Err(TxnError::TransactionRolledBack), Ghost((es, None, None, Seq::empty(), (sks, rrs, wrs))));
                },
                ConflictStep::Conflict => {
                    return (
                        Err(TxnError::WriteConflict(vstd::slice::slice_to_vec(key), start_ts)),
                        Ghost((es, None, None, Seq::empty(), (sks, rrs, wrs))),
                    );
                },
                ConflictStep::Continue => {
                    assert(enc_key@.len() == key@.len() + 8);
                    cursor = enc_key;
                    after = true;
                },
            }
            steps = steps + 1;
        }
        let (got, rc) = self.engine.get_traced(Partition::Lock, key);
        let existing = match got {
            Ok(l) => l,
            Err(e) => {
                return (Err(TxnError::Fjall(e)), Ghost((es, None, None, Seq::empty(), (sks, rrs, wrs))));
            },
        };
        let ghost lb = opt_view(existing);
        proof {
            rrs = rrs.push(rc@);
        }
        let ghost mut res: Option<(Result<(), LockResolverError>, ResolveTrace, Option<Option<Seq<u8>>>)> = None;
        match Self::lock_check(existing, start_ts) {
            LockCheck::Free | LockCheck::Own(_) => {},
            LockCheck::Corrupted => {
                return (
                    Err(TxnError::Mvcc(MvccError::CorruptedState)),
                    Ghost((es, Some(lb), None, Seq::empty(), (sks, rrs, wrs))),
                );
            },
            LockCheck::Other(lock) => {
                let (resolved, rt) = self.resolver.resolve_lock(key, &lock);
                let ghost rr = resolved;
                if resolved.is_err() {
                    return (
                        Err(TxnError::KeyLocked(vstd::slice::slice_to_vec(key))),
                        Ghost((es, Some(lb), Some((rr, rt@, None)), Seq::empty(), (sks, rrs, wrs))),
                    );
                }
                let (got2, rc2) = self.engine.get_traced(Partition::Lock, key);
                let still = match got2 {
                    Ok(l) => l,
                    Err(e) => {
                        return (
                            Err(TxnError::Fjall(e)),
                            Ghost((es, Some(lb), Some((rr, rt@, None)), Seq::empty(), (sks, rrs, wrs))),
                        );
                    },
                };
                let ghost lb2 = opt_view(still);
                proof {
                    res = Some((rr, rt@, Some(lb2)));
                    rrs = rrs.push(rc2@);
                }
                match Self::lock_check(still, start_ts) {
                    LockCheck::Free | LockCheck::Own(_) => {},
                    LockCheck::Corrupted => {
                        return (
                            Err(TxnError::Mvcc(MvccError::CorruptedState)),
                            Ghost((es, Some(lb), res, Seq::empty(), (sks, rrs, wrs))),
                        );
                    },
                    LockCheck::Other(_) => {
                        return (
                            Err(TxnError::KeyLocked(vstd::slice::slice_to_vec(key))),
                            Ghost((es, Some(lb), res, Seq::empty(), (sks, rrs, wrs))),
                        );
                    },
                }
            },
        }
        let ops = Self::prewrite_ops(mutation, primary_key, start_ts, lock_ttl);
        let ghost writes = seq![ops_view(ops@)];
        proof {
            lemma_prewrite_ops_fit(mutation@, primary_key@, start_ts, lock_ttl);
        }
        let (applied, wc) = self.engine.apply_traced(ops);
        proof {
            wrs = wrs.push(wc@);
        }
        match applied {
            Ok(()) => (Ok(()), Ghost((es, Some(lb), res, writes, (sks, rrs, wrs)))),
            Err(e) => (Err(TxnError::Storage(e)), Ghost((es, Some(lb), res, writes, (sks, rrs, wrs)))),
        }
    }

    /// Phase one: locks every mutated key for the transaction at `start_ts`,
    /// writing the values of puts, after checking for newer commits and for
    /// locks of other transactions (which it tries to resolve).  The first
    /// mutation acts as the primary: every lock names its key (the primary key
    /// the caller passes is not consulted).  Beside the result comes, mutation
    /// by mutation in
    /// order, what it read and wrote (see `prewrite_key_outcome`); it stops at
    /// the first mutation that fails.
    pub fn prewrite(&self, start_ts: u64, mutations: &[Mutation], _primary_key: &[u8], lock_ttl: u64) -> ((r, trace): (
        Result<(), TxnError>,
        Ghost<Seq<PrewriteTrace>>,
    ))
        requires
            mutations_fit(mutations@),
        ensures
            trace@.len() <= mutations@.len(),
            forall|i: int|
                0 <= i < trace@.len() - 1 ==> prewrite_key_outcome(
                    mutations@[i]@,
                    mutation_key(mutations@[0]@),
                    start_ts,
                    lock_ttl,
                    Ok(()),
                    #[trigger] trace@[i],
                ),
            trace@.len() > 0 ==> prewrite_key_outcome(
                mutations@[trace@.len() - 1]@,
                mutation_key(mutations@[0]@),
                start_ts,
                lock_ttl,
                r,
                trace@.last(),
            ),
            r is Ok ==> trace@.len() == mutations@.len(),
            r is Err ==> trace@.len() > 0,
            mutations@.len() == 0 ==> r is Ok,
            r matches Err(TxnError::WriteConflict(k, ts)) ==> ts == start_ts && exists|i: int|
                0 <= i < mutations@.len() && mutation_key(mutations@[i]@) == k@,
            r matches Err(TxnError::KeyLocked(k)) ==> exists|i: int|
                0 <= i < mutations@.len() && mutation_key(mutations@[i]@) == k@,
            r matches Err(e) ==> keyspace_error(e) || e matches TxnError::Mvcc(MvccError::CorruptedState)
                || e is TransactionRolledBack || e is WriteConflict || e is KeyLocked,
    {
        let ghost mut traces: Seq<PrewriteTrace> = Seq::empty();
        if mutations.len() == 0 {
            return (Ok(()), Ghost(traces));
        }
        let primary = mutations[0].key();
        assert(mutation_fits(mutations@[0]@));
        let mut idx: usize = 0;
        while idx < mutations.len()
            invariant
                mutations_fit(mutations@),
                mutations@.len() > 0,
                primary@ == mutation_key(mutations@[0]@),
                idx <= mutations@.len(),
                traces.len() == idx,
                forall|i: int|
                    0 <= i < traces.len() ==> prewrite_key_outcome(
                        mutations@[i]@,
                        mutation_key(mutations@[0]@),
                        start_ts,
                        lock_ttl,
                        Ok(()),
                        #[trigger] traces[i],
                    ),
            decreases mutations@.len() - idx,
        {
            let (res, t) = self.prewrite_one(&mutations[idx], primary, start_ts, lock_ttl);
            proof {
                traces = traces.push(t@);
            }
            match res {
                Ok(()) => {},
                Err(e) => {
                    proof {
                        if e is KeyLocked {
                            let k = e->KeyLocked_0;
                            assert(0 <= idx < mutations@.len() && mutation_key(mutations@[idx as int]@) == k@);
                        }
                        if e is WriteConflict {
                            let k = e->WriteConflict_0;
                            assert(0 <= idx < mutations@.len() && mutation_key(mutations@[idx as int]@) == k@);
                        }
                    }
                    return (Err(e), Ghost(traces));
                },
            }
            idx = idx + 1;
        }
        (Ok(()), Ghost(traces))
    }

    /// Phase two: commits the primary key (the first of `keys`) at `commit_ts`,
    /// then every secondary key still locked by the transaction.  Beside the
    /// result comes what it read from the lock partition, key by key, and the
    /// batches it handed to the keyspace.
    pub fn commit(&self, start_ts: u64, commit_ts: u64, keys: &[Vec<u8>]) -> ((r, trace): (
        Result<(), TxnError>,
        Ghost<(Seq<Option<Seq<u8>>>, Seq<Seq<BatchOpView>>, Seq<ReadReceipt>, Seq<WriteReceipt>)>,
    ))
        requires
            keys_fit(keys@),
        ensures
            trace@.0.len() <= keys@.len(),
            trace@.1 == spec_commit_writes(keys_view(keys@), trace@.0, start_ts, commit_ts),
            lock_receipts(trace@.2, keys_view(keys@), trace@.0),
            handed(trace@.3, trace@.1),
            r is Ok ==> all_committed(trace@.3),
            keys@.len() == 0 ==> r is Ok,
            r is Ok ==> trace@.0.len() == keys@.len(),
            r is Ok && keys@.len() > 0 ==> spec_lock_check(trace@.0[0], start_ts) is Own,
            trace@.0.len() > 0 ==> match spec_lock_check(trace@.0[0], start_ts) {
                LockCheckView::Own(_) => true,
                LockCheckView::Corrupted => trace@.0.len() == 1 && r matches Err(
                    TxnError::Mvcc(MvccError::CorruptedState),
                ),
                _ => trace@.0.len() == 1 && r matches Err(TxnError::TransactionRolledBack),
            },
            r matches Err(e) ==> keyspace_error(e) || e matches TxnError::Mvcc(MvccError::CorruptedState)
                || e is TransactionRolledBack,
            trace@.0.len() > 0 && spec_lock_check(trace@.0[0], start_ts) is Own ==> (r is Ok || (r matches Err(e)
                && keyspace_error(e))),
            r matches Err(TxnError::TransactionRolledBack) ==> trace@.0.len() == 1 && (spec_lock_check(
                trace@.0[0],
                start_ts,
            ) is Free || spec_lock_check(trace@.0[0], start_ts) is Other),
            r matches Err(TxnError::Mvcc(_)) ==> trace@.0.len() == 1 && spec_lock_check(trace@.0[0], start_ts) is Corrupted,
            forall|i: int, l: LockView|
                0 <= i < trace@.0.len() && #[trigger] lock_of_txn(trace@.0[i], start_ts, l) ==> writes_hold(
                    trace@.1,
                    commit_record(keys@[i]@, start_ts, l.op, commit_ts),
                ) && writes_hold(trace@.1, BatchOpView::Remove { partition: Partition::Lock, key: keys@[i]@ }),
            forall|j: int|
                0 <= j < trace@.1.len() ==> commits_own_key(
                    #[trigger] trace@.1[j],
                    keys_view(keys@),
                    trace@.0,
                    start_ts,
                    commit_ts,
                ),
    {
        let (r, trace) = self.commit_keys(start_ts, commit_ts, keys);
        proof {
            let kv = keys_view(keys@);
            assert forall|i: int, l: LockView|
                0 <= i < trace@.0.len() && #[trigger] lock_of_txn(trace@.0[i], start_ts, l) implies writes_hold(
                    trace@.1,
                    commit_record(keys@[i]@, start_ts, l.op, commit_ts),
                ) && writes_hold(trace@.1, BatchOpView::Remove { partition: Partition::Lock, key: keys@[i]@ }) by {
                assert(kv[i] == keys@[i]@);
                lemma_commit_records_lock_op(kv, trace@.0, start_ts, commit_ts, i, l);
            }
            lemma_commit_batches_commit_own_keys(kv, trace@.0, start_ts, commit_ts);
        }
        (r, trace)
    }

    /// The steps of `commit`: reads each key's lock and commits it when it is
    /// the transaction's own, the primary first.
    fn commit_keys(&self, start_ts: u64, commit_ts: u64, keys: &[Vec<u8>]) -> ((r, trace): (
        Result<(), TxnError>,
        Ghost<(Seq<Option<Seq<u8>>>, Seq<Seq<BatchOpView>>, Seq<ReadReceipt>, Seq<WriteReceipt>)>,
    ))
        requires
            keys_fit(keys@),
        ensures
            trace@.0.len() <= keys@.len(),
            trace@.1 == spec_commit_writes(keys_view(keys@), trace@.0, start_ts, commit_ts),
            lock_receipts(trace@.2, keys_view(keys@), trace@.0),
            handed(trace@.3, trace@.1),
            r is Ok ==> all_committed(trace@.3),
            keys@.len() == 0 ==> r is Ok,
            r is Ok ==> trace@.0.len() == keys@.len(),
            r is Ok && keys@.len() > 0 ==> spec_lock_check(trace@.0[0], start_ts) is Own,
            trace@.0.len() > 0 ==> match spec_lock_check(trace@.0[0], start_ts) {
                LockCheckView::Own(_) => true,
                LockCheckView::Corrupted => trace@.0.len() == 1 && r matches Err(
                    TxnError::Mvcc(MvccError::CorruptedState),
                ),
                _ => trace@.0.len() == 1 && r matches Err(TxnError::TransactionRolledBack),
            },
            r matches Err(e) ==> keyspace_error(e) || e matches TxnError::Mvcc(MvccError::CorruptedState)
                || e is TransactionRolledBack,
            trace@.0.len() > 0 && spec_lock_check(trace@.0[0], start_ts) is Own ==> (r is Ok || (r matches Err(e)
                && keyspace_error(e))),
            r matches Err(TxnError::TransactionRolledBack) ==> trace@.0.len() == 1 && (spec_lock_check(
                trace@.0[0],
                start_ts,
            ) is Free || spec_lock_check(trace@.0[0], start_ts) is Other),
            r matches Err(TxnError::Mvcc(_)) ==> trace@.0.len() == 1 && spec_lock_check(trace@.0[0], start_ts) is Corrupted,
    {
        let ghost kv = keys_view(keys@);
        let ghost mut reads: Seq<Option<Seq<u8>>> = Seq::empty();
        let ghost mut writes: Seq<Seq<BatchOpView>> = Seq::empty();
        let ghost mut rrs: Seq<ReadReceipt> = Seq::empty();
        let ghost mut wrs: Seq<WriteReceipt> = Seq::empty();
        if keys.len() == 0 {
            return (Ok(()), Ghost((reads, writes, rrs, wrs)));
        }
        let primary_key = keys[0].as_slice();
        assert(key_fits(keys@[0]@));
        let (got, rc) = self.engine.get_traced(Partition::Lock, primary_key);
        let lock_bytes = match got {
            Ok(l) => l,
            Err(e) => {
                return (Err(TxnError::Fjall(e)), Ghost((reads, writes, rrs, wrs)));
            },
        };
        let ghost lb = opt_view(lock_bytes);
        proof {
            rrs = rrs.push(rc@);
        }
        proof {
            assert(spec_commit_writes(kv, reads, start_ts, commit_ts) =~= Seq::<Seq<BatchOpView>>::empty());
            assert(reads.push(lb).drop_last() =~= reads);
            reads = reads.push(lb);
            assert(reads.last() == lb);
            assert(kv[0] == primary_key@);
        }
        match Self::lock_check(lock_bytes, start_ts) {
            LockCheck::Own(lock) => {
                let ops = commit_ops(primary_key, start_ts, lock.op, commit_ts);
                proof {
                    lemma_commit_ops_fit(primary_key@, start_ts, lock.op, commit_ts);
                    writes = writes.push(ops_view(ops@));
                    assert(writes =~= spec_commit_writes(kv, reads, start_ts, commit_ts));
                }
                let (applied, wc) = self.engine.apply_traced(ops);
                proof {
                    wrs = wrs.push(wc@);
                }
                match applied {
                    Ok(()) => {},
                    Err(e) => {
                        return (Err(TxnError::Storage(e)), Ghost((reads, writes, rrs, wrs)));
                    },
                }
            },
            LockCheck::Corrupted => {
                assert(writes =~= spec_commit_writes(kv, reads, start_ts, commit_ts));
                return (Err(TxnError::Mvcc(MvccError::CorruptedState)), Ghost((reads, writes, rrs, wrs)));
            },
            LockCheck::Free | LockCheck::Other(_) => {
                assert(writes =~= spec_commit_writes(kv, reads, start_ts, commit_ts));
                return (Err(TxnError::TransactionRolledBack), Ghost((reads, writes, rrs, wrs)));
            },
        }
        let mut i: usize = 1;
        while i < keys.len()
            invariant
                keys_fit(keys@),
                kv == keys_view(keys@),
                1 <= i <= keys@.len(),
                reads.len() == i,
                lock_receipts(rrs, kv, reads),
                handed(wrs, writes),
                all_committed(wrs),
                spec_lock_check(reads[0], start_ts) is Own,
                writes == spec_commit_writes(kv, reads, start_ts, commit_ts),
            decreases keys@.len() - i,
        {
            let key = keys[i].as_slice();
            assert(key_fits(keys@[i as int]@));
            assert(kv[i as int] == key@);
            let (got, rc) = self.engine.get_traced(Partition::Lock, key);
            let lock_bytes = match got {
                Ok(l) => l,
                Err(e) => {
                    return (Err(TxnError::Fjall(e)), Ghost((reads, writes, rrs, wrs)));
                },
            };
            let ghost lb = opt_view(lock_bytes);
            proof {
                rrs = rrs.push(rc@);
            }
            let ghost prev_reads = reads;
            proof {
                assert(reads.push(lb).drop_last() =~= reads);
                reads = reads.push(lb);
                assert(reads[0] == prev_reads[0]);
            }
            if let LockCheck::Own(lock) = Self::lock_check(lock_bytes, start_ts) {
                let ops = commit_ops(key, start_ts, lock.op, commit_ts);
                proof {
                    lemma_commit_ops_fit(key@, start_ts, lock.op, commit_ts);
                    writes = writes.push(ops_view(ops@));
                    assert(writes =~= spec_commit_writes(kv, reads, start_ts, commit_ts));
                }
                let (applied, wc) = self.engine.apply_traced(ops);
                proof {
                    wrs = wrs.push(wc@);
                }
                match applied {
                    Ok(()) => {},
                    Err(e) => {
                        return (Err(TxnError::Storage(e)), Ghost((reads, writes, rrs, wrs)));
                    },
                }
            } else {
                assert(writes =~= spec_commit_writes(kv, reads, start_ts, commit_ts));
            }
            i = i + 1;
        }
        (Ok(()), Ghost((reads, writes, rrs, wrs)))
    }

    /// Rolls back the transaction at `start_ts` on every key of `keys`.  Beside
    /// the result comes what it read from the lock partition, key by key, and
    /// the batches it handed to the keyspace.
    pub fn rollback(&self, start_ts: u64, keys: &[Vec<u8>]) -> ((r, trace): (
        Result<(), TxnError>,
        Ghost<(Seq<Option<Seq<u8>>>, Seq<Seq<BatchOpView>>, Seq<ReadReceipt>, Seq<WriteReceipt>)>,
    ))
        requires
            keys_fit(keys@),
        ensures
            trace@.0.len() <= keys@.len(),
            trace@.1 == spec_rollback_writes(keys_view(keys@), trace@.0, start_ts),
            lock_receipts(trace@.2, keys_view(keys@), trace@.0),
            handed(trace@.3, trace@.1),
            r is Ok ==> all_committed(trace@.3),
            trace@.1.len() == trace@.0.len(),
            r is Ok ==> trace@.0.len() == keys@.len(),
            r matches Err(e) ==> keyspace_error(e),
            forall|i: int|
                0 <= i < trace@.0.len() ==> (#[trigger] trace@.1[i]).contains(
                    BatchOpView::Insert {
                        partition: Partition::Write,
                        key: spec_encode(keys@[i]@, start_ts),
                        value: spec_write_record_bytes(WriteRecord { start_ts, op: OpType::Rollback }),
                    },
                ) && (trace@.1[i].contains(BatchOpView::Remove { partition: Partition::Lock, key: keys@[i]@ })
                    <==> exists|l: LockView| lock_of_txn(trace@.0[i], start_ts, l)),
    {
        let (r, trace) = self.rollback_keys(start_ts, keys);
        proof {
            let kv = keys_view(keys@);
            assert forall|i: int| 0 <= i < trace@.0.len() implies (#[trigger] trace@.1[i]).contains(
                BatchOpView::Insert {
                    partition: Partition::Write,
                    key: spec_encode(keys@[i]@, start_ts),
                    value: spec_write_record_bytes(WriteRecord { start_ts, op: OpType::Rollback }),
                },
            ) && (trace@.1[i].contains(BatchOpView::Remove { partition: Partition::Lock, key: keys@[i]@ })
                <==> exists|l: LockView| lock_of_txn(trace@.0[i], start_ts, l)) by {
                assert(kv[i] == keys@[i]@);
                lemma_rollback_removes_only_own_lock(kv, trace@.0, start_ts, i);
            }
        }
        (r, trace)
    }

    /// The steps of `rollback`: for each key in turn, reads its lock and
    /// writes the rollback record, removing the lock when it is the
    /// transaction's own.
    fn rollback_keys(&self, start_ts: u64, keys: &[Vec<u8>]) -> ((r, trace): (
        Result<(), TxnError>,
        Ghost<(Seq<Option<Seq<u8>>>, Seq<Seq<BatchOpView>>, Seq<ReadReceipt>, Seq<WriteReceipt>)>,
    ))
        requires
            keys_fit(keys@),
        ensures
            trace@.0.len() <= keys@.len(),
            trace@.1 == spec_rollback_writes(keys_view(keys@), trace@.0, start_ts),
            lock_receipts(trace@.2, keys_view(keys@), trace@.0),
            handed(trace@.3, trace@.1),
            r is Ok ==> all_committed(trace@.3),
            trace@.1.len() == trace@.0.len(),
            r is Ok ==> trace@.0.len() == keys@.len(),
            r matches Err(e) ==> keyspace_error(e),
    {
        let ghost kv = keys_view(keys@);
        let ghost mut reads: Seq<Option<Seq<u8>>> = Seq::empty();
        let ghost mut writes: Seq<Seq<BatchOpView>> = Seq::empty();
        let ghost mut rrs: Seq<ReadReceipt> = Seq::empty();
        let ghost mut wrs: Seq<WriteReceipt> = Seq::empty();
        let mut i: usize = 0;
        while i < keys.len()
            invariant
                keys_fit(keys@),
                kv == keys_view(keys@),
                i <= keys@.len(),
                reads.len() == i,
                lock_receipts(rrs, kv, reads),
                handed(wrs, writes),
                all_committed(wrs),
                writes.len() == i,
                writes == spec_rollback_writes(kv, reads, start_ts),
            decreases keys@.len() - i,
        {
            let key = keys[i].as_slice();
            assert(key_fits(keys@[i as int]@));
            assert(kv[i as int] == key@);
            let (got, rc) = self.engine.get_traced(Partition::Lock, key);
            let lock_bytes = match got {
                Ok(l) => l,
                Err(e) => {
                    return (Err(TxnError::Fjall(e)), Ghost((reads, writes, rrs, wrs)));
                },
            };
            let ghost lb = opt_view(lock_bytes);
            proof {
                rrs = rrs.push(rc@);
            }
            proof {
                assert(reads.push(lb).drop_last() =~= reads);
                reads = reads.push(lb);
            }
            let owns_lock = match Self::lock_check(lock_bytes, start_ts) {
                LockCheck::Own(_) => true,
                _ => false,
            };
            let ops = Self::rollback_key_ops(key, start_ts, owns_lock);
            proof {
                lemma_rollback_key_ops_fit(key@, start_ts, owns_lock);
                writes = writes.push(ops_view(ops@));
            }
            let (applied, wc) = self.engine.apply_traced(ops);
            proof {
                wrs = wrs.push(wc@);
            }
            match applied {
                Ok(()) => {},
                Err(e) => {
                    return (Err(TxnError::Storage(e)), Ghost((reads, writes, rrs, wrs)));
                },
            }
            i = i + 1;
        }
        (Ok(()), Ghost((reads, writes, rrs, wrs)))
    }
}

} // verus!
