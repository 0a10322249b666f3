//! Percolator locks stored in the lock partition.
use vstd::prelude::*;
use crate::codec::{
    push_u32_be, push_u64_be, read_u32_be, read_u64_be, u32_be, u32_from_be, u64_be, u64_from_be,
    lemma_u32_be_roundtrip, lemma_u64_be_roundtrip,
};
use crate::storage::mvcc::{OpType, spec_op_byte};

verus! {

#[derive(Debug)]
pub enum LockError {
    DecodeError(String),
}

#[derive(Debug, Clone, PartialEq, Eq)]
pub struct Lock {
    pub primary_key: Vec<u8>,
    pub start_ts: u64,
    pub ttl: u64,
    pub op: OpType,
}

/// The plain content of a lock.
pub struct LockView {
    pub primary_key: Seq<u8>,
    pub start_ts: u64,
    pub ttl: u64,
    pub op: OpType,
}

impl View for Lock {
    type V = LockView;

    open spec fn view(&self) -> LockView {
        LockView {
            primary_key: self.primary_key@,
            start_ts: self.start_ts,
            ttl: self.ttl,
            op: self.op,
        }
    }
}

/// Stored form of a lock: op byte, start timestamp, TTL, primary key length
/// (as a 32-bit big-endian number, truncated) and the primary key.
pub open spec fn spec_lock_bytes(l: LockView) -> Seq<u8> {
    seq![spec_op_byte(l.op)] + u64_be(l.start_ts) + u64_be(l.ttl) + u32_be(
        (l.primary_key.len() % 0x1_0000_0000) as u32,
    ) + l.primary_key
}

/// Why a byte string is not a stored lock.
pub enum LockDecodeFailure {
    TooShort,
    BadOp,
    Truncated,
}

/// What a stored lock decodes to.  Bytes after the primary key are ignored.
pub open spec fn spec_lock_from_bytes(b: Seq<u8>) -> Result<LockView, LockDecodeFailure> {
    if b.len() < 21 {
        Err(LockDecodeFailure::TooShort)
    } else if b[0] != 0 && b[0] != 1 {
        Err(LockDecodeFailure::BadOp)
    } else {
        let plen = u32_from_be(b.subrange(17, 21)) as int;
        if b.len() < 21 + plen {
            Err(LockDecodeFailure::Truncated)
        } else {
            Ok(
                LockView {
                    primary_key: b.subrange(21, 21 + plen),
                    start_ts: u64_from_be(b.subrange(1, 9)),
                    ttl: u64_from_be(b.subrange(9, 17)),
                    op: if b[0] == 0 {
                        OpType::Put
                    } else {
                        OpType::Delete
                    },
                },
            )
        }
    }
}

/// The message carried by the error for each decode failure.
pub open spec fn spec_lock_error_message(f: LockDecodeFailure) -> Seq<char> {
    match f {
        LockDecodeFailure::TooShort => "Payload too short"@,
        LockDecodeFailure::BadOp => "Invalid OpType byte"@,
        LockDecodeFailure::Truncated => "Truncated primary key bytes"@,
    }
}

impl Lock {
    pub fn new(primary_key: Vec<u8>, start_ts: u64, ttl: u64, op: OpType) -> (l: Self)
        ensures
            l@ == (LockView { primary_key: primary_key@, start_ts, ttl, op }),
    {
        Self { primary_key, start_ts, ttl, op }
    }

    pub fn to_bytes(&self) -> (b: Vec<u8>)
        requires
            self.primary_key@.len() + 21 <= usize::MAX,
        ensures
            b@ == spec_lock_bytes(self@),
    {
        let mut buf: Vec<u8> = Vec::with_capacity(1 + 8 + 8 + 4 + self.primary_key.len());
        buf.push(self.op.to_byte());
        push_u64_be(&mut buf, self.start_ts);
        push_u64_be(&mut buf, self.ttl);
        let len: u64 = self.primary_key.len() as u64;
        let len32: u32 = #[verifier::truncate] (len as u32);
        assert(len32 == len % 0x1_0000_0000) by (bit_vector)
            requires
                len32 == #[verifier::truncate] (len as u32),
        ;
        push_u32_be(&mut buf, len32);
        let ghost before = buf@;
        buf.extend_from_slice(self.primary_key.as_slice());
        assert(buf@ =~= before + self.primary_key@);
        assert(buf@ =~= spec_lock_bytes(self@));
        buf
    }

    pub fn from_bytes(bytes: &[u8]) -> (r: Result<Self, LockError>)
        ensures
            match (r, spec_lock_from_bytes(bytes@)) {
                (Ok(l), Ok(v)) => l@ == v,
                (Err(LockError::DecodeError(msg)), Err(f)) => msg@ == spec_lock_error_message(f),
                _ => false,
            },
    {
        if bytes.len() < 21 {
            return Err(LockError::DecodeError("Payload too short".to_owned()));
        }
        let op = if bytes[0] == 0 {
            OpType::Put
        } else if bytes[0] == 1 {
            OpType::Delete
        } else {
            return Err(LockError::DecodeError("Invalid OpType byte".to_owned()));
        };
        let start_ts = read_u64_be(bytes, 1);
        let ttl = read_u64_be(bytes, 9);
        let primary_len = read_u32_be(bytes, 17) as usize;
        if bytes.len() - 21 < primary_len {
            return Err(LockError::DecodeError("Truncated primary key bytes".to_owned()));
        }
        let primary_key = vstd::slice::slice_to_vec(
            vstd::slice::slice_subrange(bytes, 21, 21 + primary_len),
        );
        Ok(Self { primary_key, start_ts, ttl, op })
    }
}

/// A lock whose op is Put or Delete and whose primary key is shorter than
/// 2^32 bytes reads back as itself from its stored form.
pub proof fn lemma_lock_roundtrip(l: LockView)
    requires
        l.op != OpType::Rollback,
        l.primary_key.len() < 0x1_0000_0000,
    ensures
        spec_lock_from_bytes(spec_lock_bytes(l)) == Ok::<LockView, LockDecodeFailure>(l),
{
    let b = spec_lock_bytes(l);
    let plen = l.primary_key.len() as int;
    lemma_u64_be_roundtrip(l.start_ts);
    lemma_u64_be_roundtrip(l.ttl);
    lemma_u32_be_roundtrip(plen as u32);
    assert((l.primary_key.len() % 0x1_0000_0000) as u32 == plen as u32);
    assert(b.subrange(1, 9) =~= u64_be(l.start_ts));
    assert(b.subrange(9, 17) =~= u64_be(l.ttl));
    assert(b.subrange(17, 21) =~= u32_be(plen as u32));
    assert(b.subrange(21, 21 + plen) =~= l.primary_key);
}

} // verus!
