//! Commit records stored in the write partition.
use vstd::prelude::*;
use crate::codec::{push_u64_be, read_u64_be, u64_be, u64_from_be, lemma_u64_be_roundtrip};

verus! {

/// What a transaction did to a key.
#[derive(Debug, Clone, Copy, PartialEq, Eq, Structural)]
pub enum OpType {
    Put,
    Delete,
    Rollback,
}

/// The byte that stands for each operation in stored records.
pub open spec fn spec_op_byte(op: OpType) -> u8 {
    match op {
        OpType::Put => 0,
        OpType::Delete => 1,
        OpType::Rollback => 2,
    }
}

impl OpType {
    /// The byte that stands for this operation in stored records.
    pub fn to_byte(&self) -> (b: u8)
        ensures
            b == spec_op_byte(*self),
    {
        match self {
            OpType::Put => 0,
            OpType::Delete => 1,
            OpType::Rollback => 2,
        }
    }
}

/// A commit (or rollback) record: the start timestamp of the transaction
/// that wrote the version and what it did.
#[derive(Debug, Clone, Copy, PartialEq, Eq, Structural)]
pub struct WriteRecord {
    pub start_ts: u64,
    pub op: OpType,
}

/// Stored form of a write record: the op byte, then the start timestamp big-endian.
pub open spec fn spec_write_record_bytes(r: WriteRecord) -> Seq<u8> {
    seq![spec_op_byte(r.op)] + u64_be(r.start_ts)
}

/// What a stored write record decodes to, if anything.
pub open spec fn spec_write_record_from_bytes(b: Seq<u8>) -> Option<WriteRecord> {
    if b.len() < 9 {
        None
    } else {
        let ts = u64_from_be(b.subrange(1, 9));
        if b[0] == 0 {
            Some(WriteRecord { start_ts: ts, op: OpType::Put })
        } else if b[0] == 1 {
            Some(WriteRecord { start_ts: ts, op: OpType::Delete })
        } else if b[0] == 2 {
            Some(WriteRecord { start_ts: ts, op: OpType::Rollback })
        } else {
            None
        }
    }
}

impl WriteRecord {
    pub fn new(start_ts: u64, op: OpType) -> (r: Self)
        ensures
            r == (WriteRecord { start_ts, op }),
    {
        Self { start_ts, op }
    }

    pub fn to_bytes(&self) -> (b: Vec<u8>)
        ensures
            b@ == spec_write_record_bytes(*self),
    {
        let mut buf: Vec<u8> = Vec::with_capacity(9);
        buf.push(self.op.to_byte());
        push_u64_be(&mut buf, self.start_ts);
        assert(buf@ =~= spec_write_record_bytes(*self));
        buf
    }

    pub fn from_bytes(bytes: &[u8]) -> (r: Option<Self>)
        ensures
            r == spec_write_record_from_bytes(bytes@),
    {
        if bytes.len() < 9 {
            return None;
        }
        let op = if bytes[0] == 0 {
            OpType::Put
        } else if bytes[0] == 1 {
            OpType::Delete
        } else if bytes[0] == 2 {
            OpType::Rollback
        } else {
            return None;
        };
        let start_ts = read_u64_be(bytes, 1);
        Some(Self { start_ts, op })
    }
}

/// Every record reads back as itself from its stored form.
pub proof fn lemma_write_record_roundtrip(r: WriteRecord)
    ensures
        spec_write_record_from_bytes(spec_write_record_bytes(r)) == Some(r),
{
    let b = spec_write_record_bytes(r);
    lemma_u64_be_roundtrip(r.start_ts);
    assert(b.subrange(1, 9) =~= u64_be(r.start_ts));
}

} // verus!
