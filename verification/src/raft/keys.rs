//! Keys under which a region's raft state is persisted in the default partition:
//! `r_hs_{region}`, `r_cs_{region}` and `r_entry_{region}_{index:020}`.
use vstd::prelude::*;
use crate::codec::{seq_lt, lemma_seq_lt_common_prefix};

verus! {

/// ASCII digit for `d`.
pub open spec fn digit(d: nat) -> u8 {
    (48 + d % 10) as u8
}

/// Decimal digits of `n`, without leading zeros ("0" for zero).
pub open spec fn decimal(n: nat) -> Seq<u8>
    decreases n,
{
    if n < 10 {
        seq![digit(n)]
    } else {
        decimal(n / 10).push(digit(n % 10))
    }
}

/// The last `width` decimal digits of `n`, zero-padded on the left.
pub open spec fn padded_decimal(n: nat, width: nat) -> Seq<u8>
    decreases width,
{
    if width == 0 {
        Seq::empty()
    } else {
        padded_decimal(n / 10, (width - 1) as nat).push(digit(n % 10))
    }
}

/// "r_hs_" followed by the decimal region id.
pub open spec fn spec_hs_key(region_id: u64) -> Seq<u8> {
    seq![114u8, 95u8, 104u8, 115u8, 95u8] + decimal(region_id as nat)
}

/// "r_cs_" followed by the decimal region id.
pub open spec fn spec_cs_key(region_id: u64) -> Seq<u8> {
    seq![114u8, 95u8, 99u8, 115u8, 95u8] + decimal(region_id as nat)
}

/// "r_entry_", the decimal region id, then "_".
pub open spec fn spec_entry_prefix(region_id: u64) -> Seq<u8> {
    seq![114u8, 95u8, 101u8, 110u8, 116u8, 114u8, 121u8, 95u8] + decimal(region_id as nat) + seq![
        95u8,
    ]
}

/// The entry prefix followed by the index as twenty zero-padded decimal digits.
pub open spec fn spec_entry_key(region_id: u64, idx: u64) -> Seq<u8> {
    spec_entry_prefix(region_id) + padded_decimal(idx as nat, 20)
}

fn push_decimal(buf: &mut Vec<u8>, n: u64)
    ensures
        final(buf)@ == old(buf)@ + decimal(n as nat),
    decreases n,
{
    if n >= 10 {
        push_decimal(buf, n / 10);
    }
    buf.push(48u8 + (n % 10) as u8);
    assert(buf@ =~= old(buf)@ + decimal(n as nat));
}

fn push_padded_decimal(buf: &mut Vec<u8>, n: u64, width: u64)
    ensures
        final(buf)@ == old(buf)@ + padded_decimal(n as nat, width as nat),
    decreases width,
{
    if width > 0 {
        push_padded_decimal(buf, n / 10, width - 1);
        buf.push(48u8 + (n % 10) as u8);
        assert(buf@ =~= old(buf)@ + padded_decimal(n as nat, width as nat));
    } else {
        assert(buf@ =~= old(buf)@ + padded_decimal(n as nat, width as nat));
    }
}

fn push_bytes(buf: &mut Vec<u8>, bytes: &[u8])
    ensures
        final(buf)@ == old(buf)@ + bytes@,
{
    let mut i: usize = 0;
    while i < bytes.len()
        invariant
            i <= bytes@.len(),
            buf@ == old(buf)@ + bytes@.subrange(0, i as int),
        decreases bytes@.len() - i,
    {
        buf.push(bytes[i]);
        assert(bytes@.subrange(0, i + 1) =~= bytes@.subrange(0, i as int).push(bytes@[i as int]));
        i = i + 1;
    }
    assert(bytes@.subrange(0, bytes@.len() as int) =~= bytes@);
}

pub fn hs_key(region_id: u64) -> (k: Vec<u8>)
    ensures
        k@ == spec_hs_key(region_id),
{
    let mut k: Vec<u8> = Vec::new();
    k.push(114u8);
    k.push(95u8);
    k.push(104u8);
    k.push(115u8);
    k.push(95u8);
    let ghost head = k@;
    assert(head =~= seq![114u8, 95u8, 104u8, 115u8, 95u8]);
    push_decimal(&mut k, region_id);
    k
}

pub fn cs_key(region_id: u64) -> (k: Vec<u8>)
    ensures
        k@ == spec_cs_key(region_id),
{
    let mut k: Vec<u8> = Vec::new();
    k.push(114u8);
    k.push(95u8);
    k.push(99u8);
    k.push(115u8);
    k.push(95u8);
    let ghost head = k@;
    assert(head =~= seq![114u8, 95u8, 99u8, 115u8, 95u8]);
    push_decimal(&mut k, region_id);
    k
}

pub fn entry_prefix(region_id: u64) -> (k: Vec<u8>)
    ensures
        k@ == spec_entry_prefix(region_id),
{
    let mut k: Vec<u8> = Vec::new();
    k.push(114u8);
    k.push(95u8);
    k.push(101u8);
    k.push(110u8);
    k.push(116u8);
    k.push(114u8);
    k.push(121u8);
    k.push(95u8);
    let ghost head = k@;
    assert(head =~= seq![114u8, 95u8, 101u8, 110u8, 116u8, 114u8, 121u8, 95u8]);
    push_decimal(&mut k, region_id);
    k.push(95u8);
    assert(k@ =~= spec_entry_prefix(region_id));
    k
}

pub fn entry_key(region_id: u64, idx: u64) -> (k: Vec<u8>)
    ensures
        k@ == spec_entry_key(region_id, idx),
{
    let mut k = entry_prefix(region_id);
    push_padded_decimal(&mut k, idx, 20);
    k
}

/// Whether `key` starts with `prefix`.
pub fn starts_with(key: &[u8], prefix: &[u8]) -> (b: bool)
    ensures
        b == (prefix@.len() <= key@.len() && key@.subrange(0, prefix@.len() as int) == prefix@),
{
    if prefix.len() > key.len() {
        return false;
    }
    let mut i: usize = 0;
    while i < prefix.len()
        invariant
            prefix@.len() <= key@.len(),
            i <= prefix@.len(),
            forall|j: int| 0 <= j < i ==> key@[j] == prefix@[j],
        decreases prefix@.len() - i,
    {
        if key[i] != prefix[i] {
            assert(key@.subrange(0, prefix@.len() as int)[i as int] != prefix@[i as int]);
            return false;
        }
        i = i + 1;
    }
    assert(key@.subrange(0, prefix@.len() as int) =~= prefix@);
    true
}

proof fn lemma_push_lt(a: Seq<u8>, b: Seq<u8>, x: u8, y: u8)
    requires
        a.len() == b.len(),
    ensures
        seq_lt(a.push(x), b.push(y)) == (seq_lt(a, b) || (a == b && x < y)),
    decreases a.len(),
{
    if a.len() == 0 {
        assert(a =~= b);
        assert(a.push(x).drop_first().len() == 0);
        assert(b.push(y).drop_first().len() == 0);
        assert(!seq_lt(a.push(x).drop_first(), b.push(y).drop_first()));
        assert(a.push(x)[0] == x);
        assert(b.push(y)[0] == y);
    } else {
        assert(a.push(x).drop_first() =~= a.drop_first().push(x));
        assert(b.push(y).drop_first() =~= b.drop_first().push(y));
        lemma_push_lt(a.drop_first(), b.drop_first(), x, y);
        if a[0] == b[0] && a.drop_first() == b.drop_first() {
            assert forall|i: int| 0 <= i < a.len() implies a[i] == b[i] by {
                if i > 0 {
                    assert(a[i] == a.drop_first()[i - 1]);
                    assert(b[i] == b.drop_first()[i - 1]);
                }
            }
            assert(a =~= b);
        }
        assert(a.push(x)[0] == a[0]);
        assert(b.push(y)[0] == b[0]);
        if a == b {
            assert(a.drop_first() == b.drop_first());
        }
    }
}

proof fn lemma_pow10_positive(w: nat)
    ensures
        pow10(w) > 0,
    decreases w,
{
    if w > 0 {
        lemma_pow10_positive((w - 1) as nat);
    }
}

proof fn lemma_padded_len(n: nat, width: nat)
    ensures
        padded_decimal(n, width).len() == width,
    decreases width,
{
    if width > 0 {
        lemma_padded_len(n / 10, (width - 1) as nat);
    }
}

/// Ten to the power `w`.
pub open spec fn pow10(w: nat) -> nat
    decreases w,
{
    if w == 0 {
        1
    } else {
        10 * pow10((w - 1) as nat)
    }
}

/// Zero-padded decimals of one width order like the numbers they stand for,
/// as long as both numbers have at most that many digits.
pub proof fn lemma_padded_decimal_order(a: nat, b: nat, width: nat, bound: nat)
    requires
        bound == pow10(width),
        a < bound,
        b < bound,
    ensures
        seq_lt(padded_decimal(a, width), padded_decimal(b, width)) == (a < b),
        (padded_decimal(a, width) == padded_decimal(b, width)) == (a == b),
    decreases width,
{
    if width == 0 {
    } else {
        let w1 = (width - 1) as nat;
        let sub = pow10(w1);
        lemma_pow10_positive(w1);
        assert(a / 10 < sub && b / 10 < sub) by (nonlinear_arith)
            requires
                a < 10 * sub,
                b < 10 * sub,
                sub > 0,
        ;
        lemma_padded_decimal_order(a / 10, b / 10, w1, sub);
        lemma_padded_len(a / 10, w1);
        lemma_padded_len(b / 10, w1);
        lemma_push_lt(padded_decimal(a / 10, w1), padded_decimal(b / 10, w1), digit(a % 10), digit(b % 10));
        assert((a < b) == (a / 10 < b / 10 || (a / 10 == b / 10 && a % 10 < b % 10))) by (nonlinear_arith);
        assert((a == b) == (a / 10 == b / 10 && a % 10 == b % 10)) by (nonlinear_arith);
        let pa = padded_decimal(a, width);
        let pb = padded_decimal(b, width);
        if pa == pb {
            assert(pa[pa.len() - 1] == pb[pb.len() - 1]);
            assert(pa.drop_last() =~= padded_decimal(a / 10, w1));
            assert(pb.drop_last() =~= padded_decimal(b / 10, w1));
        }
    }
}

/// For one region, entry keys sort in the order of their indexes.
pub proof fn lemma_entry_keys_ordered(region_id: u64, i: u64, j: u64)
    ensures
        seq_lt(spec_entry_key(region_id, i), spec_entry_key(region_id, j)) == (i < j),
{
    reveal_with_fuel(pow10, 21);
    let bound = pow10(20);
    assert(bound == 100000000000000000000nat);
    lemma_padded_decimal_order(i as nat, j as nat, 20, bound);
    lemma_seq_lt_common_prefix(
        spec_entry_prefix(region_id),
        padded_decimal(i as nat, 20),
        padded_decimal(j as nat, 20),
    );
}

/// Every entry key of a region starts with that region's entry prefix.
pub proof fn lemma_entry_key_has_prefix(region_id: u64, idx: u64)
    ensures
        ({
            let k = spec_entry_key(region_id, idx);
            let p = spec_entry_prefix(region_id);
            p.len() <= k.len() && k.subrange(0, p.len() as int) == p
        }),
{
    let k = spec_entry_key(region_id, idx);
    let p = spec_entry_prefix(region_id);
    assert(k.subrange(0, p.len() as int) =~= p);
}

} // verus!
