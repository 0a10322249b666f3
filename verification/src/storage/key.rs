//! MVCC key encoding: a user key followed by the bit-inverted timestamp.
use vstd::prelude::*;
use crate::codec::{
    push_u64_be, read_u64_be, seq_lt, u64_be, u64_from_be, lemma_seq_lt_common_prefix,
    lemma_u64_be_order, lemma_u64_be_roundtrip, lemma_u64_from_be_roundtrip,
};

verus! {

#[derive(Debug, PartialEq, Eq, Structural)]
pub enum KeyError {
    TooShort,
}

pub struct KeyEncoder;

/// The encoded form of `user_key` at timestamp `ts`: the key, then the big-endian
/// bytes of the inverted timestamp `u64::MAX - ts`.
pub open spec fn spec_encode(user_key: Seq<u8>, ts: u64) -> Seq<u8> {
    user_key + u64_be((u64::MAX - ts) as u64)
}

/// The user key and timestamp an encoded key stands for; `None` when it is
/// shorter than the eight timestamp bytes.
pub open spec fn spec_decode(encoded: Seq<u8>) -> Option<(Seq<u8>, u64)> {
    if encoded.len() < 8 {
        None
    } else {
        let n = encoded.len() - 8;
        Some(
            (
                encoded.subrange(0, n),
                (u64::MAX - u64_from_be(encoded.subrange(n, encoded.len() as int))) as u64,
            ),
        )
    }
}

impl KeyEncoder {
    /// Encodes a user key and timestamp into a lexicographically ordered byte vector.
    /// The timestamp is bit-wise inverted so higher timestamps sort before lower ones.
    pub fn encode(user_key: &[u8], ts: u64) -> (encoded: Vec<u8>)
        requires
            user_key@.len() + 8 <= usize::MAX,
        ensures
            encoded@ == spec_encode(user_key@, ts),
    {
        let mut encoded: Vec<u8> = Vec::with_capacity(user_key.len() + 8);
        encoded.extend_from_slice(user_key);
        assert(encoded@ =~= user_key@);
        let inverted = !ts;
        assert(inverted == u64::MAX - ts) by (bit_vector)
            requires
                inverted == !ts,
        ;
        push_u64_be(&mut encoded, inverted);
        encoded
    }

    /// Decodes an encoded key back into the user key and the timestamp.
    pub fn decode(encoded: &[u8]) -> (r: Result<(&[u8], u64), KeyError>)
        ensures
            match r {
                Ok((k, ts)) => spec_decode(encoded@) == Some((k@, ts)),
                Err(e) => e == KeyError::TooShort && spec_decode(encoded@) is None,
            },
    {
        if encoded.len() < 8 {
            return Err(KeyError::TooShort);
        }
        let split_idx = encoded.len() - 8;
        let user_key = vstd::slice::slice_subrange(encoded, 0, split_idx);
        let inverted_ts = read_u64_be(encoded, split_idx);
        let ts = !inverted_ts;
        assert(ts == u64::MAX - inverted_ts) by (bit_vector)
            requires
                ts == !inverted_ts,
        ;
        Ok((user_key, ts))
    }
}

/// Decoding an encoded key gives back the user key and the timestamp.
pub proof fn lemma_decode_encode(user_key: Seq<u8>, ts: u64)
    ensures
        spec_decode(spec_encode(user_key, ts)) == Some((user_key, ts)),
{
    let e = spec_encode(user_key, ts);
    lemma_u64_be_roundtrip((u64::MAX - ts) as u64);
    assert(e.subrange(0, user_key.len() as int) =~= user_key);
    assert(e.subrange(user_key.len() as int, e.len() as int) =~= u64_be((u64::MAX - ts) as u64));
}

/// Encoding the decoded parts of a well-formed key gives back the key.
pub proof fn lemma_encode_decode(encoded: Seq<u8>)
    requires
        encoded.len() >= 8,
    ensures
        spec_encode(spec_decode(encoded).unwrap().0, spec_decode(encoded).unwrap().1) == encoded,
{
    let n = encoded.len() - 8;
    let tail = encoded.subrange(n, encoded.len() as int);
    lemma_u64_from_be_roundtrip(tail);
    assert(encoded.subrange(0, n) + tail =~= encoded);
}

/// Encoding is injective: distinct (key, timestamp) pairs never share an encoding.
pub proof fn lemma_encode_injective(k1: Seq<u8>, t1: u64, k2: Seq<u8>, t2: u64)
    requires
        spec_encode(k1, t1) == spec_encode(k2, t2),
    ensures
        k1 == k2,
        t1 == t2,
{
    lemma_decode_encode(k1, t1);
    lemma_decode_encode(k2, t2);
}

/// For one user key, a newer timestamp sorts strictly before an older one.
pub proof fn lemma_encode_newer_sorts_first(user_key: Seq<u8>, t1: u64, t2: u64)
    ensures
        seq_lt(spec_encode(user_key, t1), spec_encode(user_key, t2)) == (t1 > t2),
{
    lemma_seq_lt_common_prefix(
        user_key,
        u64_be((u64::MAX - t1) as u64),
        u64_be((u64::MAX - t2) as u64),
    );
    lemma_u64_be_order((u64::MAX - t1) as u64, (u64::MAX - t2) as u64);
}

/// The versions of two user keys neither of which is a prefix of the other
/// never interleave: they are ordered as the keys are, whatever the timestamps.
pub proof fn lemma_encode_prefix_free_order(a: Seq<u8>, b: Seq<u8>, t1: u64, t2: u64)
    requires
        !a.is_prefix_of(b),
        !b.is_prefix_of(a),
    ensures
        seq_lt(spec_encode(a, t1), spec_encode(b, t2)) == seq_lt(a, b),
{
    crate::codec::lemma_seq_lt_no_prefix(a, b, u64_be((u64::MAX - t1) as u64), u64_be((u64::MAX - t2) as u64));
}

} // verus!
