//! The decisions the node's services and the client make around their calls.
use vstd::prelude::*;
use crate::raft::router::copy_bytes;
use crate::txn::coordinator::{Mutation, MutationView};
use crate::txn::lock_resolver::TxnStatus;

verus! {

/// Split a region once it holds this many keys.
pub const SPLIT_KEY_COUNT: u64 = 10000u64;

/// Split a region once it holds this many bytes (64 MiB).
pub const SPLIT_TOTAL_BYTES: u64 = 67108864u64;

/// The timestamp a read runs at: the requested version, or the clock's
/// current time when the request leaves the version at 0.
pub fn read_timestamp(version: u64, now: u64) -> (ts: u64)
    ensures
        ts == if version == 0 { now } else { version },
{
    if version == 0 {
        now
    } else {
        version
    }
}

/// Whether a region with these statistics should be split.
pub fn split_recommended(key_count: u64, total_bytes: u64) -> (b: bool)
    ensures
        b == (key_count >= SPLIT_KEY_COUNT || total_bytes >= SPLIT_TOTAL_BYTES),
{
    key_count >= SPLIT_KEY_COUNT || total_bytes >= SPLIT_TOTAL_BYTES
}

/// The split key to use: the requested one, or else the median when there is one.
pub fn choose_split_key(requested: Vec<u8>, median: Option<Vec<u8>>) -> (k: Option<Vec<u8>>)
    ensures
        requested@.len() > 0 ==> (k matches Some(s) && s@ == requested@),
        requested@.len() == 0 ==> match median {
            Some(m) => k matches Some(s) && s@ == m@,
            None => k is None,
        },
{
    if requested.len() > 0 {
        Some(requested)
    } else {
        median
    }
}

/// A mutation as carried on the wire: op 1 is a delete, any other op a put.
pub fn mutation_from_wire(op: i32, key: Vec<u8>, value: Vec<u8>) -> (m: Mutation)
    ensures
        op == 1 ==> m@ == (MutationView::Delete { key: key@ }),
        op != 1 ==> m@ == (MutationView::Put { key: key@, value: value@ }),
{
    if op == 1 {
        Mutation::Delete { key }
    } else {
        Mutation::Put { key, value }
    }
}

/// The wire form (op, key, value) of a client mutation: a value makes a put
/// (op 0), no value a delete (op 1, empty value).
pub fn mutation_to_wire(key: Vec<u8>, value: Option<Vec<u8>>) -> (w: (i32, Vec<u8>, Vec<u8>))
    ensures
        w.1@ == key@,
        match value {
            Some(v) => w.0 == 0 && w.2@ == v@,
            None => w.0 == 1 && w.2@.len() == 0,
        },
{
    match value {
        Some(val) => (0, key, val),
        None => (1, key, Vec::new()),
    }
}

/// The fields (lock TTL, commit timestamp, rolled back) reporting a transaction status.
pub fn status_fields(status: &TxnStatus) -> (f: (u64, u64, bool))
    ensures
        f == match *status {
            TxnStatus::Locked { ttl } => (ttl, 0u64, false),
            TxnStatus::Committed { commit_ts } => (0u64, commit_ts, false),
            TxnStatus::RolledBack => (0u64, 0u64, true),
        },
{
    match status {
        TxnStatus::Locked { ttl } => (*ttl, 0, false),
        TxnStatus::Committed { commit_ts } => (0, *commit_ts, false),
        TxnStatus::RolledBack => (0, 0, true),
    }
}

} // verus!
