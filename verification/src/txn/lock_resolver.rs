//! Percolator lock resolution: finding out what became of the transaction that
//! owns a lock, and rolling its locks forward or back accordingly.
use vstd::prelude::*;
use crate::codec::bytes_eq;
use crate::storage::engine::{
    BatchOp, BatchOpView, Partition, ReadReceipt, SeekReceipt, StorageEngine, StorageError, WriteReceipt, all_committed, handed,
    key_fits, seeks_follow, ops_view, storable_key,
};
use crate::storage::key::{KeyEncoder, spec_decode, spec_encode};
use crate::storage::lock::{Lock, LockView, spec_lock_from_bytes};
use crate::storage::mvcc::{OpType, WriteRecord, spec_write_record_from_bytes};
use crate::storage::reader::{MvccError, opt_view};
use crate::txn::clock::physical_now_ms;
use crate::txn::records::{
    commit_ops, lemma_commit_ops_fit, lemma_rollback_ops_fit, rollback_ops, spec_commit_ops, spec_rollback_ops,
};

verus! {

#[derive(Debug)]
pub enum LockResolverError {
    Storage(StorageError),
    Fjall(fjall::Error),
    Mvcc(MvccError),
    LockActiveNotExpired,
}

#[derive(Debug, Clone, PartialEq, Eq, Structural)]
pub enum TxnStatus {
    Committed { commit_ts: u64 },
    RolledBack,
    Locked { ttl: u64 },
}

/// What one write-partition entry says about the transaction that started at
/// `start_ts` with primary key `primary`.
#[derive(Debug, PartialEq, Eq, Structural)]
pub enum StatusStep {
    Corrupted,
    PastKey,
    Skip,
    Found(TxnStatus),
}

/// A record of the primary key with the transaction's start timestamp tells
/// its fate: committed (at the record's timestamp) or rolled back.
pub open spec fn spec_status_step(primary: Seq<u8>, start_ts: u64, enc_key: Seq<u8>, write_bytes: Seq<u8>) -> StatusStep {
    match spec_decode(enc_key) {
        None => StatusStep::Corrupted,
        Some((k, commit_ts)) => if k != primary {
            StatusStep::PastKey
        } else {
            match spec_write_record_from_bytes(write_bytes) {
                Some(r) => if r.start_ts == start_ts {
                    match r.op {
                        OpType::Rollback => StatusStep::Found(TxnStatus::RolledBack),
                        _ => StatusStep::Found(TxnStatus::Committed { commit_ts }),
                    }
                } else {
                    StatusStep::Skip
                },
                None => StatusStep::Skip,
            }
        },
    }
}

/// A lock taken at `start_ts` (whose top 48 bits are its wall-clock milliseconds)
/// with time-to-live `ttl` milliseconds has expired at wall-clock `now_ms`.
pub open spec fn spec_lock_expired(start_ts: u64, ttl: u64, now_ms: u64) -> bool {
    now_ms > start_ts / 0x10000 + ttl
}

/// What resolving a lock on `key` writes, given its transaction's status:
/// roll forward to the commit timestamp, roll back, or nothing (the lock is
/// live and unexpired).
pub open spec fn spec_resolve_plan(key: Seq<u8>, lock: LockView, status: TxnStatus, now_ms: u64) -> Option<Seq<BatchOpView>> {
    match status {
        TxnStatus::Committed { commit_ts } => Some(spec_commit_ops(key, lock.start_ts, lock.op, commit_ts)),
        TxnStatus::RolledBack => Some(spec_rollback_ops(key, lock.start_ts)),
        TxnStatus::Locked { .. } => if spec_lock_expired(lock.start_ts, lock.ttl, now_ms) {
            Some(spec_rollback_ops(key, lock.start_ts))
        } else {
            None
        },
    }
}

/// What the lock stored on a primary key (when no commit or rollback record
/// was found) says of the transaction at `start_ts`, at wall-clock `now_ms`,
/// and the writes that go with it: the transaction's own lock means it is
/// still running, unless its TTL has run out, in which case it is rolled back;
/// anything else means it never got its lock or lost it, and is rolled back.
pub open spec fn spec_primary_lock_status(
    primary: Seq<u8>,
    start_ts: u64,
    lock_bytes: Option<Seq<u8>>,
    now_ms: u64,
) -> (TxnStatus, Option<Seq<BatchOpView>>) {
    match lock_bytes {
        Some(b) => match spec_lock_from_bytes(b) {
            Ok(l) => if l.start_ts == start_ts {
                if spec_lock_expired(start_ts, l.ttl, now_ms) {
                    (TxnStatus::RolledBack, Some(spec_rollback_ops(primary, start_ts)))
                } else {
                    (TxnStatus::Locked { ttl: l.ttl }, None)
                }
            } else {
                (TxnStatus::RolledBack, None)
            },
            Err(_) => (TxnStatus::RolledBack, None),
        },
        None => (TxnStatus::RolledBack, None),
    }
}

/// The failures of a status check: a keyspace error, a record or key that does
/// not decode, or a failed write of a rollback.
pub open spec fn status_error(e: LockResolverError) -> bool {
    ||| e is Fjall
    ||| e matches LockResolverError::Mvcc(MvccError::CorruptedState)
    ||| e matches LockResolverError::Storage(StorageError::Fjall(_))
}

/// What one write-partition entry says to a status check (see `spec_status_step`).
pub open spec fn entry_step(primary: Seq<u8>, start_ts: u64, e: (Seq<u8>, Seq<u8>)) -> StatusStep {
    spec_status_step(primary, start_ts, e.0, e.1)
}

/// What a status check read and wrote: the write-partition entries it visited
/// in order, the primary's lock when it went on to read it (`None` when it did
/// not, or the read failed), the wall-clock milliseconds it judged the lock's
/// TTL by, the batches it handed to the keyspace, and the engine's receipts of
/// its seeks, its point read and its batches.
pub type StatusTrace = (
    Seq<(Seq<u8>, Seq<u8>)>,
    Option<Option<Seq<u8>>>,
    u64,
    Seq<Seq<BatchOpView>>,
    (Seq<SeekReceipt>, Seq<ReadReceipt>, Seq<WriteReceipt>),
);

/// The engine's receipts of a status check agree with what it says it read
/// and wrote: the records came from seeks that walk the write partition from
/// the primary's newest possible version, the lock from the lock partition
/// under the primary key, and each batch was handed as written.
pub open spec fn status_receipted(primary: Seq<u8>, t: StatusTrace) -> bool {
    let (es, lock_read, _, writes, (sks, rrs, wrs)) = t;
    &&& seeks_follow(Partition::Write, spec_encode(primary, u64::MAX), es, sks)
    &&& rrs.len() == (if lock_read is Some { 1int } else { 0int })
    &&& lock_read matches Some(lb) ==> rrs[0].partition() == Partition::Lock && rrs[0].key() == primary
        && rrs[0].found() == lb
    &&& handed(wrs, writes)
}

/// A status check of the transaction at `start_ts` with primary key `primary`
/// gave `r` having read and written `t`: it visits the primary's records newest
/// first, skipping those of other transactions; a commit or rollback record of
/// the transaction decides the status, and a record that does not decode is
/// corruption.  When the records are exhausted it reads the primary's lock and
/// decides as `spec_primary_lock_status`, writing the rollback it calls for.
pub open spec fn status_check_outcome(
    primary: Seq<u8>,
    start_ts: u64,
    r: Result<TxnStatus, LockResolverError>,
    t: StatusTrace,
) -> bool {
    let (es, lock_read, now_ms, writes, (_, _, wrs)) = t;
    &&& status_receipted(primary, t)
    &&& (r is Ok ==> all_committed(wrs))
    &&& forall|i: int| 0 <= i < es.len() - 1 ==> #[trigger] entry_step(primary, start_ts, es[i]) == StatusStep::Skip
    &&& match lock_read {
        None => {
            &&& writes.len() == 0
            &&& (es.len() > 0 ==> (entry_step(primary, start_ts, es.last()) matches StatusStep::Found(st)
                ==> r == Ok::<TxnStatus, LockResolverError>(st)))
            &&& (es.len() > 0 && entry_step(primary, start_ts, es.last()) is Corrupted ==> r matches Err(
                LockResolverError::Mvcc(MvccError::CorruptedState),
            ))
            &&& (r is Ok ==> es.len() > 0 && entry_step(primary, start_ts, es.last()) is Found)
            &&& (r is Err ==> status_error(r->Err_0))
        },
        Some(lb) => {
            let (status, ops) = spec_primary_lock_status(primary, start_ts, lb, now_ms);
            &&& (es.len() > 0 ==> entry_step(primary, start_ts, es.last()) is Skip || entry_step(
                primary,
                start_ts,
                es.last(),
            ) is PastKey)
            &&& writes == match ops {
                Some(o) => seq![o],
                None => Seq::<Seq<BatchOpView>>::empty(),
            }
            &&& (r is Ok ==> r == Ok::<TxnStatus, LockResolverError>(status))
            &&& (r is Err ==> ops is Some && r matches Err(LockResolverError::Storage(StorageError::Fjall(_))))
        },
    }
}

/// What resolving a lock did: the status check's result and trace (`None`
/// when the lock's primary key cannot have versions in the store), the
/// wall-clock milliseconds it judged the lock by, the batches it handed to
/// the keyspace, and the engine's receipts of those batches.
pub type ResolveTrace = (
    Option<(Result<TxnStatus, LockResolverError>, StatusTrace)>,
    u64,
    Seq<Seq<BatchOpView>>,
    Seq<WriteReceipt>,
);

/// Resolving `lock` on `key` gave `r` having done `t`: the status of the lock's
/// transaction is checked at its primary key, and the lock is rolled forward or
/// back as `spec_resolve_plan` says; a live unexpired lock stays and is
/// reported as such.
pub open spec fn resolve_outcome(key: Seq<u8>, lock: LockView, r: Result<(), LockResolverError>, t: ResolveTrace) -> bool {
    &&& handed(t.3, t.2)
    &&& (r is Ok ==> all_committed(t.3))
    &&& match t.0 {
        None => {
            &&& !key_fits(lock.primary_key)
            &&& r matches Err(LockResolverError::Mvcc(MvccError::CorruptedState))
            &&& t.2.len() == 0
        },
        Some((check, st)) => {
            &&& key_fits(lock.primary_key)
            &&& status_check_outcome(lock.primary_key, lock.start_ts, check, st)
            &&& match check {
                Err(e) => r == Err::<(), LockResolverError>(e) && t.2.len() == 0,
                Ok(status) => match spec_resolve_plan(key, lock, status, t.1) {
                    Some(ops) => t.2 == seq![ops] && (r is Err ==> r matches Err(
                        LockResolverError::Storage(StorageError::Fjall(_)),
                    )),
                    None => r matches Err(LockResolverError::LockActiveNotExpired) && t.2.len() == 0,
                },
            }
        },
    }
    &&& (r matches Err(e) ==> status_error(e) || e is LockActiveNotExpired)
}

pub fn lock_expired(start_ts: u64, ttl: u64, now_ms: u64) -> (b: bool)
    ensures
        b == spec_lock_expired(start_ts, ttl, now_ms),
{
    let start_phys = start_ts >> 16u64;
    assert(start_phys == start_ts / 0x10000) by (bit_vector)
        requires
            start_phys == start_ts >> 16u64,
    ;
    now_ms > start_phys && now_ms - start_phys > ttl
}

#[derive(Clone)]
pub struct LockResolver {
    engine: StorageEngine,
}

impl LockResolver {
    /// The engine the resolver reads and writes.
    pub closed spec fn engine(&self) -> StorageEngine {
        self.engine
    }

    pub fn new(engine: StorageEngine) -> (r: Self)
        ensures
            r.engine() == engine,
    {
        Self { engine }
    }

    pub fn status_step(primary: &[u8], start_ts: u64, enc_key: &[u8], write_bytes: &[u8]) -> (s: StatusStep)
        ensures
            s == spec_status_step(primary@, start_ts, enc_key@, write_bytes@),
    {
        match KeyEncoder::decode(enc_key) {
            Err(_) => StatusStep::Corrupted,
            Ok((k, commit_ts)) => {
                if !bytes_eq(k, primary) {
                    StatusStep::PastKey
                } else {
                    match WriteRecord::from_bytes(write_bytes) {
                        Some(record) => {
                            if record.start_ts == start_ts {
                                match record.op {
                                    OpType::Rollback => StatusStep::Found(TxnStatus::RolledBack),
                                    _ => StatusStep::Found(TxnStatus::Committed { commit_ts }),
                                }
                            } else {
                                StatusStep::Skip
                            }
                        },
                        None => StatusStep::Skip,
                    }
                }
            },
        }
    }

    pub fn resolve_plan(key: &[u8], lock: &Lock, status: &TxnStatus, now_ms: u64) -> (r: Option<Vec<BatchOp>>)
        requires
            key@.len() + 8 <= usize::MAX,
        ensures
            match (r, spec_resolve_plan(key@, lock@, *status, now_ms)) {
                (Some(ops), Some(s)) => ops_view(ops@) == s,
                (None, None) => true,
                _ => false,
            },
    {
        match status {
            TxnStatus::Committed { commit_ts } => Some(commit_ops(key, lock.start_ts, lock.op, *commit_ts)),
            TxnStatus::RolledBack => Some(rollback_ops(key, lock.start_ts)),
            TxnStatus::Locked { .. } => {
                if lock_expired(lock.start_ts, lock.ttl, now_ms) {
                    Some(rollback_ops(key, lock.start_ts))
                } else {
                    None
                }
            },
        }
    }

    pub fn primary_lock_status(
        primary_key: &[u8],
        start_ts: u64,
        lock_bytes: Option<Vec<u8>>,
        now_ms: u64,
    ) -> (r: (TxnStatus, Option<Vec<BatchOp>>))
        requires
            primary_key@.len() + 8 <= usize::MAX,
        ensures
            r.0 == spec_primary_lock_status(primary_key@, start_ts, opt_view(lock_bytes), now_ms).0,
            match (r.1, spec_primary_lock_status(primary_key@, start_ts, opt_view(lock_bytes), now_ms).1) {
                (Some(ops), Some(s)) => ops_view(ops@) == s,
                (None, None) => true,
                _ => false,
            },
    {
        if let Some(bytes) = lock_bytes {
            if let Ok(lock) = Lock::from_bytes(bytes.as_slice()) {
                if lock.start_ts == start_ts {
                    if lock_expired(start_ts, lock.ttl, now_ms) {
                        return (TxnStatus::RolledBack, Some(rollback_ops(primary_key, start_ts)));
                    }
                    return (TxnStatus::Locked { ttl: lock.ttl }, None);
                }
            }
        }
        (TxnStatus::RolledBack, None)
    }

    /// Queries the status of the transaction with primary key `primary_key` that
    /// started at `start_ts`; an expired primary lock is rolled back on the way.
    /// Beside the result comes what it read and wrote (see `status_check_outcome`).
    pub fn check_txn_status(&self, primary_key: &[u8], start_ts: u64) -> ((r, trace): (
        Result<TxnStatus, LockResolverError>,
        Ghost<StatusTrace>,
    ))
        requires
            key_fits(primary_key@),
        ensures
            status_check_outcome(primary_key@, start_ts, r, trace@),
    {
        let ghost mut es: Seq<(Seq<u8>, Seq<u8>)> = Seq::empty();
        let ghost start = spec_encode(primary_key@, u64::MAX);
        let ghost mut sks: Seq<SeekReceipt> = Seq::empty();
        let ghost none_read: Seq<ReadReceipt> = Seq::empty();
        let ghost none_written: Seq<WriteReceipt> = Seq::empty();
        let mut after = false;
        let mut cursor = KeyEncoder::encode(primary_key, u64::MAX);
        let mut steps: u64 = 0;
        while steps < u64::MAX
            invariant_except_break
                forall|i: int| 0 <= i < es.len() ==> #[trigger] entry_step(primary_key@, start_ts, es[i]) == StatusStep::Skip,
                sks.len() == es.len(),
                after == (es.len() > 0),
                cursor@ == (if es.len() == 0 { start } else { es.last().0 }),
            invariant
                cursor@.len() <= 65535,
                key_fits(primary_key@),
                start == spec_encode(primary_key@, u64::MAX),
                seeks_follow(Partition::Write, start, es, sks),
                none_read.len() == 0,
                none_written.len() == 0,
            ensures
                forall|i: int| 0 <= i < es.len() - 1 ==> #[trigger] entry_step(primary_key@, start_ts, es[i]) == StatusStep::Skip,
                es.len() > 0 ==> entry_step(primary_key@, start_ts, es.last()) is Skip || entry_step(primary_key@, start_ts, es.last()) is PastKey,
            decreases u64::MAX - steps,
        {
            let (found, sk) = self.engine.seek_traced(Partition::Write, cursor.as_slice(), after);
            let (enc_key, write_bytes) = match found {
                Err(e) => {
                    return (
                        Err(LockResolverError::Fjall(e)),
                        Ghost((es, None, 0, Seq::empty(), (sks, none_read, none_written))),
                    );
                },
                Ok(None) => {
                    proof {
                        sks = sks.push(sk@);
                    }
                    break;
                },
                Ok(Some(entry)) => entry,
            };
            proof {
                es = es.push((enc_key@, write_bytes@));
                sks = sks.push(sk@);
            }
            match Self::status_step(primary_key, start_ts, enc_key.as_slice(), write_bytes.as_slice()) {
                StatusStep::Corrupted => {
                    return (
                        Err(LockResolverError::Mvcc(MvccError::CorruptedState)),
                        Ghost((es, None, 0, Seq::empty(), (sks, none_read, none_written))),
                    );
                },
                StatusStep::PastKey => {
                    break;
                },
                StatusStep::Found(status) => {
                    return (Ok(status), Ghost((es, None, 0, Seq::empty(), (sks, none_read, none_written))));
                },
                StatusStep::Skip => {
                    assert(enc_key@.len() == primary_key@.len() + 8);
                    cursor = enc_key;
                    after = true;
                },
            }
            steps = steps + 1;
        }
        let (got, rc) = self.engine.get_traced(Partition::Lock, primary_key);
        let lock_bytes = match got {
            Ok(l) => l,
            Err(e) => {
                return (
                    Err(LockResolverError::Fjall(e)),
                    Ghost((es, None, 0, Seq::empty(), (sks, none_read, none_written))),
                );
            },
        };
        let ghost lb = opt_view(lock_bytes);
        let ghost rrs = seq![rc@];
        let now_ms = match lock_bytes {
            Some(_) => physical_now_ms(),
            None => 0,
        };
        let (status, ops) = Self::primary_lock_status(primary_key, start_ts, lock_bytes, now_ms);
        if let Some(ops) = ops {
            let ghost writes = seq![ops_view(ops@)];
            proof {
                lemma_rollback_ops_fit(primary_key@, start_ts);
            }
            let (applied, wc) = self.engine.apply_traced(ops);
            let ghost wrs = seq![wc@];
            match applied {
                Ok(()) => {},
                Err(e) => {
                    return (Err(LockResolverError::Storage(e)), Ghost((es, Some(lb), now_ms, writes, (sks, rrs, wrs))));
                },
            }
            return (Ok(status), Ghost((es, Some(lb), now_ms, writes, (sks, rrs, wrs))));
        }
        (Ok(status), Ghost((es, Some(lb), now_ms, Seq::empty(), (sks, rrs, none_written))))
    }

    /// Resolves the lock `lock` held on `key` by rolling it forward (committing)
    /// or back, according to the status of its transaction.  A lock whose
    /// primary key is too long to have versions in the store is corrupt.
    /// Beside the result comes what the status check returned and its trace,
    /// the wall-clock reading used, and the batches handed to the keyspace.
    pub fn resolve_lock(&self, key: &[u8], lock: &Lock) -> ((r, trace): (
        Result<(), LockResolverError>,
        Ghost<ResolveTrace>,
    ))
        requires
            storable_key(key@),
            key_fits(key@),
        ensures
            resolve_outcome(key@, lock@, r, trace@),
            r matches Err(e) ==> status_error(e) || e is LockActiveNotExpired,
    {
        if lock.primary_key.len() > 65527 {
            return (Err(LockResolverError::Mvcc(MvccError::CorruptedState)), Ghost((None, 0, Seq::empty(), Seq::empty())));
        }
        let (check, t) = self.check_txn_status(lock.primary_key.as_slice(), lock.start_ts);
        let ghost gcheck = check;
        let status = match check {
            Ok(s) => s,
            Err(e) => {
                return (Err(e), Ghost((Some((gcheck, t@)), 0, Seq::empty(), Seq::empty())));
            },
        };
        let now_ms = match status {
            TxnStatus::Locked { .. } => physical_now_ms(),
            _ => 0,
        };
        match Self::resolve_plan(key, lock, &status, now_ms) {
            Some(ops) => {
                let ghost writes = seq![ops_view(ops@)];
                proof {
                    match status {
                        TxnStatus::Committed { commit_ts } => lemma_commit_ops_fit(key@, lock.start_ts, lock.op, commit_ts),
                        _ => lemma_rollback_ops_fit(key@, lock.start_ts),
                    }
                }
                let (applied, wc) = self.engine.apply_traced(ops);
                let ghost wrs = seq![wc@];
                match applied {
                    Ok(()) => (Ok(()), Ghost((Some((gcheck, t@)), now_ms, writes, wrs))),
                    Err(e) => (Err(LockResolverError::Storage(e)), Ghost((Some((gcheck, t@)), now_ms, writes, wrs))),
                }
            },
            None => (
                Err(LockResolverError::LockActiveNotExpired),
                Ghost((Some((gcheck, t@)), now_ms, Seq::empty(), Seq::empty())),
            ),
        }
    }
}

} // verus!
