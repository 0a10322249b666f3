//! Snapshot reads: the newest committed version of a key at a read timestamp.
use vstd::prelude::*;
use crate::codec::bytes_eq;
use crate::storage::engine::{
    Partition, ReadReceipt, SeekReceipt, StorageEngine, StorageError, key_fits, seeks_follow, storable_key,
};
use crate::storage::key::{KeyEncoder, spec_decode, spec_encode};
use crate::storage::lock::{Lock, LockView, spec_lock_from_bytes};
use crate::storage::mvcc::{OpType, WriteRecord, spec_write_record_from_bytes};

verus! {

#[derive(Debug)]
pub enum MvccError {
    Engine(StorageError),
    Fjall(fjall::Error),
    KeyIsLocked { primary_key: Vec<u8>, lock_ts: u64 },
    CorruptedState,
}

/// What one write-partition entry means to a read of `user_key` at `read_ts`.
pub enum ReadDecision {
    /// The entry's key or record does not decode.
    Corrupted,
    /// The entry belongs to another user key: the versions of this key are over.
    PastKey,
    /// The entry is not visible (committed later, or a rollback); look further.
    Skip,
    /// The visible version is a deletion.
    Deleted,
    /// The visible version is a put whose value is stored under this data key.
    Fetch(Seq<u8>),
}

pub enum ReadStep {
    Corrupted,
    PastKey,
    Skip,
    Deleted,
    Fetch(Vec<u8>),
}

impl View for ReadStep {
    type V = ReadDecision;

    open spec fn view(&self) -> ReadDecision {
        match self {
            ReadStep::Corrupted => ReadDecision::Corrupted,
            ReadStep::PastKey => ReadDecision::PastKey,
            ReadStep::Skip => ReadDecision::Skip,
            ReadStep::Deleted => ReadDecision::Deleted,
            ReadStep::Fetch(k) => ReadDecision::Fetch(k@),
        }
    }
}

/// Visibility rule: a version of `user_key` committed at or before `read_ts`
/// is visible; a put points at the value written at its start timestamp.
pub open spec fn spec_read_step(user_key: Seq<u8>, read_ts: u64, enc_key: Seq<u8>, write_bytes: Seq<u8>) -> ReadDecision {
    match spec_decode(enc_key) {
        None => ReadDecision::Corrupted,
        Some((k, commit_ts)) => if k != user_key {
            ReadDecision::PastKey
        } else if commit_ts > read_ts {
            ReadDecision::Skip
        } else {
            match spec_write_record_from_bytes(write_bytes) {
                None => ReadDecision::Corrupted,
                Some(r) => match r.op {
                    OpType::Put => ReadDecision::Fetch(spec_encode(user_key, r.start_ts)),
                    OpType::Delete => ReadDecision::Deleted,
                    OpType::Rollback => ReadDecision::Skip,
                },
            }
        },
    }
}

/// Whether the lock stored for a key (if any) blocks a read at `read_ts`:
/// a lock that does not decode is corruption, and a lock taken at or before
/// `read_ts` reports its primary key and start timestamp.
pub open spec fn lock_blocks_read(lock: Option<Seq<u8>>, read_ts: u64, r: Result<(), MvccError>) -> bool {
    match lock {
        None => r is Ok,
        Some(b) => match spec_lock_from_bytes(b) {
            Err(_) => r matches Err(MvccError::CorruptedState),
            Ok(l) => if l.start_ts <= read_ts {
                r matches Err(MvccError::KeyIsLocked { primary_key, lock_ts }) && primary_key@ == l.primary_key && lock_ts == l.start_ts
            } else {
                r is Ok
            },
        },
    }
}

/// What one write-partition entry means to a read (see `spec_read_step`).
pub open spec fn entry_read_step(user_key: Seq<u8>, read_ts: u64, e: (Seq<u8>, Seq<u8>)) -> ReadDecision {
    spec_read_step(user_key, read_ts, e.0, e.1)
}

/// Whether the lock stored for a key lets a read at `read_ts` go on.
pub open spec fn lock_lets_read(lock: Option<Seq<u8>>, read_ts: u64) -> bool {
    match lock {
        None => true,
        Some(b) => spec_lock_from_bytes(b) matches Ok(l) && l.start_ts > read_ts,
    }
}

/// What a snapshot read read: the key's lock (`None` when that read failed),
/// the write-partition entries it visited in order, the value it fetched
/// from the default partition (`None` when it fetched none, or the fetch
/// failed), and the engine's receipts of its point reads and of its seeks.
pub type ReadTrace = (
    Option<Option<Seq<u8>>>,
    Seq<(Seq<u8>, Seq<u8>)>,
    Option<Option<Seq<u8>>>,
    Seq<ReadReceipt>,
    Seq<SeekReceipt>,
);

/// The engine's receipts of a read agree with what the read says it read:
/// the lock came from the lock partition under `user_key`, the entries from
/// seeks that walk the write partition from the key's version at `read_ts`
/// (`seeks_follow`), and the value from the
/// default partition under the data key that the last entry names.
pub open spec fn read_receipted(user_key: Seq<u8>, read_ts: u64, t: ReadTrace) -> bool {
    let (lock_read, es, fetched, rrs, sks) = t;
    &&& rrs.len() == (if lock_read is Some { 1int } else { 0int }) + (if fetched is Some { 1int } else { 0int })
    &&& lock_read matches Some(lb) ==> rrs[0].partition() == Partition::Lock && rrs[0].key() == user_key
        && rrs[0].found() == lb
    &&& lock_read is None ==> sks.len() == 0
    &&& seeks_follow(Partition::Write, spec_encode(user_key, read_ts), es, sks)
    &&& fetched matches Some(f) ==> es.len() > 0 && rrs[1].partition() == Partition::Default
        && entry_read_step(user_key, read_ts, es.last()) == ReadDecision::Fetch(rrs[1].key()) && rrs[1].found() == f
}

/// A read of `user_key` at `read_ts` gave `r` having read `t`.  A lock taken
/// at or before `read_ts` blocks it (`lock_blocks_read`).  Otherwise it visits
/// the key's commit records newest first from `read_ts` on, skipping later
/// commits and rollbacks: the first visible record decides.  A put yields the
/// value stored at its start timestamp (corruption if there is none), a delete
/// or the end of the key's records yields no value.
pub open spec fn read_outcome(
    user_key: Seq<u8>,
    read_ts: u64,
    r: Result<Option<Vec<u8>>, MvccError>,
    t: ReadTrace,
) -> bool {
    let (lock_read, es, fetched, _, _) = t;
    &&& read_receipted(user_key, read_ts, t)
    &&& match lock_read {
        None => r matches Err(MvccError::Fjall(_)) && es.len() == 0 && fetched is None,
        Some(lb) => if !lock_lets_read(lb, read_ts) {
            &&& es.len() == 0
            &&& fetched is None
            &&& match r {
                Ok(_) => false,
                Err(e) => lock_blocks_read(lb, read_ts, Err(e)),
            }
        } else {
            &&& forall|i: int| 0 <= i < es.len() - 1 ==> #[trigger] entry_read_step(user_key, read_ts, es[i]) == ReadDecision::Skip
            &&& (es.len() == 0 || entry_read_step(user_key, read_ts, es.last()) is Skip) ==> fetched is None && (
            r matches Ok(None) || r matches Err(MvccError::Fjall(_)))
            &&& es.len() > 0 ==> match entry_read_step(user_key, read_ts, es.last()) {
                ReadDecision::Corrupted => r matches Err(MvccError::CorruptedState) && fetched is None,
                ReadDecision::PastKey => r matches Ok(None) && fetched is None,
                ReadDecision::Deleted => r matches Ok(None) && fetched is None,
                ReadDecision::Fetch(_) => match fetched {
                    None => r matches Err(MvccError::Fjall(_)),
                    Some(None) => r matches Err(MvccError::CorruptedState),
                    Some(Some(v)) => r matches Ok(Some(x)) && x@ == v,
                },
                ReadDecision::Skip => true,
            }
        },
    }
}

pub open spec fn opt_view(o: Option<Vec<u8>>) -> Option<Seq<u8>> {
    match o {
        Some(v) => Some(v@),
        None => None,
    }
}

pub struct MvccReader<'a> {
    engine: &'a StorageEngine,
}

impl<'a> MvccReader<'a> {
    /// The engine the reader reads from.
    pub closed spec fn engine(&self) -> StorageEngine {
        *self.engine
    }

    pub fn new(engine: &'a StorageEngine) -> (r: Self)
        ensures
            r.engine() == *engine,
    {
        Self { engine }
    }

    /// Decides what the lock stored for a key means to a read at `read_ts`.
    pub fn check_lock(lock_bytes: &Option<Vec<u8>>, read_ts: u64) -> (r: Result<(), MvccError>)
        ensures
            lock_blocks_read(opt_view(*lock_bytes), read_ts, r),
            r matches Err(MvccError::KeyIsLocked { primary_key, lock_ts }) ==> primary_key@.len() + 21 <= usize::MAX,
    {
        match lock_bytes {
            None => Ok(()),
            Some(bytes) => {
                let len = bytes.len();
                assert(bytes@.len() == len);
                match Lock::from_bytes(bytes.as_slice()) {
                    Err(_) => Err(MvccError::CorruptedState),
                    Ok(lock) => {
                        if lock.start_ts <= read_ts {
                            Err(MvccError::KeyIsLocked { primary_key: lock.primary_key, lock_ts: lock.start_ts })
                        } else {
                            Ok(())
                        }
                    },
                }
            },
        }
    }

    /// Decides what one write-partition entry means to a read of `user_key` at `read_ts`.
    pub fn read_step(user_key: &[u8], read_ts: u64, enc_key: &[u8], write_bytes: &[u8]) -> (r: ReadStep)
        requires
            user_key@.len() + 8 <= usize::MAX,
        ensures
            r@ == spec_read_step(user_key@, read_ts, enc_key@, write_bytes@),
    {
        match KeyEncoder::decode(enc_key) {
            Err(_) => ReadStep::Corrupted,
            Ok((k, commit_ts)) => {
                if !bytes_eq(k, user_key) {
                    ReadStep::PastKey
                } else if commit_ts > read_ts {
                    ReadStep::Skip
                } else {
                    match WriteRecord::from_bytes(write_bytes) {
                        None => ReadStep::Corrupted,
                        Some(record) => match record.op {
                            OpType::Put => ReadStep::Fetch(KeyEncoder::encode(user_key, record.start_ts)),
                            OpType::Delete => ReadStep::Deleted,
                            OpType::Rollback => ReadStep::Skip,
                        },
                    }
                }
            },
        }
    }

    /// Reads the value of `user_key` at `read_ts`.  Fails if the key is locked by
    /// a transaction that started at or before `read_ts`.  Beside the result
    /// comes what it read (see `read_outcome`).
    pub fn get(&self, user_key: &[u8], read_ts: u64) -> ((r, trace): (
        Result<Option<Vec<u8>>, MvccError>,
        Ghost<ReadTrace>,
    ))
        requires
            user_key@.len() + 9 <= usize::MAX,
            key_fits(user_key@),
        ensures
            read_outcome(user_key@, read_ts, r, trace@),
            r matches Err(MvccError::KeyIsLocked { primary_key, lock_ts }) ==> lock_ts <= read_ts
                && primary_key@.len() + 21 <= usize::MAX && storable_key(user_key@),
            !(r matches Err(MvccError::Engine(_))),
    {
        let ghost mut es: Seq<(Seq<u8>, Seq<u8>)> = Seq::empty();
        let ghost mut rrs: Seq<ReadReceipt> = Seq::empty();
        let ghost mut sks: Seq<SeekReceipt> = Seq::empty();
        let (got, rc) = self.engine.get_traced(Partition::Lock, user_key);
        let lock = match got {
            Ok(l) => l,
            Err(e) => {
                return (Err(MvccError::Fjall(e)), Ghost((None, es, None, rrs, sks)));
            },
        };
        let ghost lb = opt_view(lock);
        proof {
            rrs = rrs.push(rc@);
        }
        match Self::check_lock(&lock, read_ts) {
            Ok(()) => {},
            Err(e) => {
                return (Err(e), Ghost((Some(lb), es, None, rrs, sks)));
            },
        }
        assert(lock_lets_read(lb, read_ts));
        let mut after = false;
        let mut cursor = KeyEncoder::encode(user_key, read_ts);
        let mut steps: u64 = 0;
        while steps < u64::MAX
            invariant
                cursor@.len() <= 65535,
                user_key@.len() + 9 <= usize::MAX,
                lock_lets_read(lb, read_ts),
                forall|i: int| 0 <= i < es.len() ==> #[trigger] entry_read_step(user_key@, read_ts, es[i]) == ReadDecision::Skip,
                rrs.len() == 1,
                rrs[0].partition() == Partition::Lock && rrs[0].key() == user_key@ && rrs[0].found() == lb,
                sks.len() == es.len(),
                after == (es.len() > 0),
                cursor@ == (if es.len() == 0 { spec_encode(user_key@, read_ts) } else { es.last().0 }),
                seeks_follow(Partition::Write, spec_encode(user_key@, read_ts), es, sks),
            decreases u64::MAX - steps,
        {
            let (found, sk) = self.engine.seek_traced(Partition::Write, cursor.as_slice(), after);
            let (enc_key, write_bytes) = match found {
                Err(e) => {
                    return (Err(MvccError::Fjall(e)), Ghost((Some(lb), es, None, rrs, sks)));
                },
                Ok(None) => {
                    proof {
                        sks = sks.push(sk@);
                    }
                    return (Ok(None), Ghost((Some(lb), es, None, rrs, sks)));
                },
                Ok(Some(entry)) => entry,
            };
            proof {
                es = es.push((enc_key@, write_bytes@));
                sks = sks.push(sk@);
            }
            match Self::read_step(user_key, read_ts, enc_key.as_slice(), write_bytes.as_slice()) {
                ReadStep::Corrupted => {
                    return (Err(MvccError::CorruptedState), Ghost((Some(lb), es, None, rrs, sks)));
                },
                ReadStep::PastKey => {
                    return (Ok(None), Ghost((Some(lb), es, None, rrs, sks)));
                },
                ReadStep::Deleted => {
                    return (Ok(None), Ghost((Some(lb), es, None, rrs, sks)));
                },
                ReadStep::Skip => {
                    assert(enc_key@.len() == user_key@.len() + 8);
                    cursor = enc_key;
                    after = true;
                },
                ReadStep::Fetch(data_key) => {
                    let (fetched, fc) = self.engine.get_traced(Partition::Default, data_key.as_slice());
                    return match fetched {
                        Err(e) => (Err(MvccError::Fjall(e)), Ghost((Some(lb), es, None, rrs, sks))),
                        Ok(None) => (Err(MvccError::CorruptedState), Ghost((Some(lb), es, Some(None), rrs.push(fc@), sks))),
                        Ok(Some(value)) => {
                            let ghost v = value@;
                            (Ok(Some(value)), Ghost((Some(lb), es, Some(Some(v)), rrs.push(fc@), sks)))
                        },
                    };
                },
            }
            steps = steps + 1;
        }
        (Ok(None), Ghost((Some(lb), es, None, rrs, sks)))
    }
}

} // verus!
