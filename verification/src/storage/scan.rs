//! Whole-partition computations over the write partition: garbage collection
//! of old versions, the distinct user keys in a range, and range statistics.
use vstd::prelude::*;
use crate::codec::{bytes_eq, bytes_lt, seq_lt, seq_le, lemma_seq_lt_irreflexive, lemma_seq_lt_total, lemma_seq_lt_transitive};
use crate::raft::router::copy_bytes;
use crate::storage::engine::{
    BatchOp, BatchOpView, Partition, SeekReceipt, StorageEngine, StorageError, WriteReceipt, all_committed, entries_view, handed,
    op_fits, ops_fit, ops_view, seeks_follow, storable_key,
};
use crate::storage::key::{KeyEncoder, spec_decode, spec_encode};
use crate::storage::mvcc::{OpType, WriteRecord, spec_write_record_from_bytes};

verus! {

/// Whether an encoded key decodes.
pub open spec fn decodes(e: (Seq<u8>, Seq<u8>)) -> bool {
    spec_decode(e.0) is Some
}

/// The user key of a decodable entry.
pub open spec fn dec_key(e: (Seq<u8>, Seq<u8>)) -> Seq<u8> {
    spec_decode(e.0).unwrap().0
}

/// The timestamp of a decodable entry.
pub open spec fn dec_ts(e: (Seq<u8>, Seq<u8>)) -> u64 {
    spec_decode(e.0).unwrap().1
}

/// `key` lies in `[start, end)`; an empty bound is no bound.
pub open spec fn in_range(key: Seq<u8>, start: Seq<u8>, end: Seq<u8>) -> bool {
    (start.len() == 0 || !seq_lt(key, start)) && (end.len() == 0 || seq_lt(key, end))
}

pub fn key_in_range(key: &[u8], start: &[u8], end: &[u8]) -> (b: bool)
    ensures
        b == in_range(key@, start@, end@),
{
    (start.len() == 0 || !bytes_lt(key, start)) && (end.len() == 0 || bytes_lt(key, end))
}

/// The user key of the last decodable entry before position `i`.
pub open spec fn last_key(es: Seq<(Seq<u8>, Seq<u8>)>, i: int) -> Option<Seq<u8>>
    decreases i,
{
    if i <= 0 {
        None
    } else if decodes(es[i - 1]) {
        Some(dec_key(es[i - 1]))
    } else {
        last_key(es, i - 1)
    }
}

/// The entry's record is a commit (a put or a delete), not a rollback.
pub open spec fn is_commit(e: (Seq<u8>, Seq<u8>)) -> bool {
    spec_write_record_from_bytes(e.1) matches Some(r) && r.op != OpType::Rollback
}

/// Before position `i`, in the run of `key`'s versions that reaches `i` (no
/// other decodable key in between), some committed version is older than
/// `safe_point`.
pub open spec fn run_has_below(es: Seq<(Seq<u8>, Seq<u8>)>, i: int, key: Seq<u8>, safe_point: u64) -> bool {
    exists|j: int|
        #![trigger es[j]]
        0 <= j < i && decodes(es[j]) && dec_key(es[j]) == key && dec_ts(es[j]) < safe_point && is_commit(es[j])
            && forall|m: int| j < m < i && decodes(es[m]) ==> dec_key(es[m]) == key
}

/// Garbage collection removes the entry at `i`: it is older than the safe point
/// and a newer committed version of the same key, also older than the safe
/// point, precedes it in its run.  So of the versions below the safe point the
/// newest committed one stays (and any rollback records newer than it).
pub open spec fn gc_removes(es: Seq<(Seq<u8>, Seq<u8>)>, i: int, safe_point: u64) -> bool {
    decodes(es[i]) && dec_ts(es[i]) < safe_point && run_has_below(es, i, dec_key(es[i]), safe_point)
}

/// The writes that remove one collected entry: the commit record, and the value
/// it points to when the record decodes.
pub open spec fn gc_entry_ops(e: (Seq<u8>, Seq<u8>)) -> Seq<BatchOpView> {
    seq![BatchOpView::Remove { partition: Partition::Write, key: e.0 }] + match spec_write_record_from_bytes(e.1) {
        Some(r) => seq![BatchOpView::Remove { partition: Partition::Default, key: spec_encode(dec_key(e), r.start_ts) }],
        None => Seq::<BatchOpView>::empty(),
    }
}

/// The writes that collect the removable entries among the first `n`.
pub open spec fn gc_ops(es: Seq<(Seq<u8>, Seq<u8>)>, n: int, safe_point: u64) -> Seq<BatchOpView>
    decreases n,
{
    if n <= 0 {
        Seq::empty()
    } else if gc_removes(es, n - 1, safe_point) {
        gc_ops(es, n - 1, safe_point) + gc_entry_ops(es[n - 1])
    } else {
        gc_ops(es, n - 1, safe_point)
    }
}

/// How many of the first `n` entries are removable.
pub open spec fn gc_count(es: Seq<(Seq<u8>, Seq<u8>)>, n: int, safe_point: u64) -> nat
    decreases n,
{
    if n <= 0 {
        0
    } else if gc_removes(es, n - 1, safe_point) {
        gc_count(es, n - 1, safe_point) + 1
    } else {
        gc_count(es, n - 1, safe_point)
    }
}

proof fn lemma_run_implies_last(es: Seq<(Seq<u8>, Seq<u8>)>, i: int, key: Seq<u8>, sp: u64)
    requires
        0 <= i <= es.len(),
        run_has_below(es, i, key, sp),
    ensures
        last_key(es, i) == Some(key),
    decreases i,
{
    let j = choose|j: int|
        #![trigger es[j]]
        0 <= j < i && decodes(es[j]) && dec_key(es[j]) == key && dec_ts(es[j]) < sp && is_commit(es[j])
            && forall|m: int| j < m < i && decodes(es[m]) ==> dec_key(es[m]) == key;
    if i - 1 == j {
    } else if decodes(es[i - 1]) {
    } else {
        assert(run_has_below(es, i - 1, key, sp)) by {
            assert(0 <= j < i - 1 && decodes(es[j]) && dec_key(es[j]) == key && dec_ts(es[j]) < sp && is_commit(es[j]));
        }
        lemma_run_implies_last(es, i - 1, key, sp);
    }
}

proof fn lemma_run_step(es: Seq<(Seq<u8>, Seq<u8>)>, i: int, key: Seq<u8>, sp: u64)
    requires
        0 <= i < es.len(),
    ensures
        !decodes(es[i]) ==> run_has_below(es, i + 1, key, sp) == run_has_below(es, i, key, sp),
        decodes(es[i]) && dec_key(es[i]) == key ==> run_has_below(es, i + 1, key, sp) == (
        run_has_below(es, i, key, sp) || (dec_ts(es[i]) < sp && is_commit(es[i]))),
        decodes(es[i]) && dec_key(es[i]) != key ==> !run_has_below(es, i + 1, key, sp),
{
    if run_has_below(es, i + 1, key, sp) {
        let j = choose|j: int|
            #![trigger es[j]]
            0 <= j < i + 1 && decodes(es[j]) && dec_key(es[j]) == key && dec_ts(es[j]) < sp && is_commit(es[j])
                && forall|m: int| j < m < i + 1 && decodes(es[m]) ==> dec_key(es[m]) == key;
        if j < i {
            assert(0 <= j < i && decodes(es[j]) && dec_key(es[j]) == key && dec_ts(es[j]) < sp && is_commit(es[j]));
            assert(run_has_below(es, i, key, sp));
        }
    }
    if run_has_below(es, i, key, sp) && (!decodes(es[i]) || dec_key(es[i]) == key) {
        let j = choose|j: int|
            #![trigger es[j]]
            0 <= j < i && decodes(es[j]) && dec_key(es[j]) == key && dec_ts(es[j]) < sp && is_commit(es[j])
                && forall|m: int| j < m < i && decodes(es[m]) ==> dec_key(es[m]) == key;
        assert(0 <= j < i + 1 && decodes(es[j]) && dec_key(es[j]) == key && dec_ts(es[j]) < sp && is_commit(es[j]));
        assert(run_has_below(es, i + 1, key, sp));
    }
    if decodes(es[i]) && dec_key(es[i]) == key && dec_ts(es[i]) < sp && is_commit(es[i]) {
        assert(0 <= i < i + 1 && decodes(es[i]) && dec_key(es[i]) == key && dec_ts(es[i]) < sp && is_commit(es[i]));
        assert(run_has_below(es, i + 1, key, sp));
    }
}

/// Collecting entries whose keys are storable writes only what the store accepts.
proof fn lemma_gc_ops_fit(es: Seq<(Seq<u8>, Seq<u8>)>, n: int, sp: u64)
    requires
        0 <= n <= es.len(),
        forall|i: int| 0 <= i < es.len() ==> storable_key(#[trigger] es[i].0),
    ensures
        ops_fit(gc_ops(es, n, sp)),
    decreases n,
{
    if n > 0 {
        lemma_gc_ops_fit(es, n - 1, sp);
        if gc_removes(es, n - 1, sp) {
            let e = es[n - 1];
            assert(storable_key(e.0));
            let a = gc_ops(es, n - 1, sp);
            let b = gc_entry_ops(e);
            assert(dec_key(e).len() + 8 == e.0.len());
            assert forall|i: int| 0 <= i < b.len() implies op_fits(#[trigger] b[i]) by {
                if i == 1 {
                    let r = spec_write_record_from_bytes(e.1).unwrap();
                    assert(spec_encode(dec_key(e), r.start_ts).len() == e.0.len());
                }
            }
            assert forall|i: int| 0 <= i < (a + b).len() implies op_fits(#[trigger] (a + b)[i]) by {
                if i < a.len() {
                    assert((a + b)[i] == a[i]);
                } else {
                    assert((a + b)[i] == b[i - a.len()]);
                }
            }
        }
    }
}

/// A committed version of `key` below the safe point at `j`, from which the
/// run of `key`'s versions reaches `i` with no other key in between.
pub open spec fn shadows(es: Seq<(Seq<u8>, Seq<u8>)>, j: int, i: int, key: Seq<u8>, sp: u64) -> bool {
    &&& 0 <= j < i
    &&& decodes(es[j])
    &&& dec_key(es[j]) == key
    &&& dec_ts(es[j]) < sp
    &&& is_commit(es[j])
    &&& forall|m: int| j < m < i && decodes(es[m]) ==> dec_key(es[m]) == key
}

proof fn lemma_kept_shadow(es: Seq<(Seq<u8>, Seq<u8>)>, j: int, i: int, key: Seq<u8>, sp: u64)
    requires
        i <= es.len(),
        shadows(es, j, i, key, sp),
    ensures
        exists|k: int| #[trigger] shadows(es, k, i, key, sp) && !gc_removes(es, k, sp),
    decreases j,
{
    if gc_removes(es, j, sp) {
        let k = choose|k: int|
            #![trigger es[k]]
            0 <= k < j && decodes(es[k]) && dec_key(es[k]) == key && dec_ts(es[k]) < sp && is_commit(es[k])
                && forall|m: int| k < m < j && decodes(es[m]) ==> dec_key(es[m]) == key;
        assert(shadows(es, k, i, key, sp));
        lemma_kept_shadow(es, k, i, key, sp);
    } else {
        assert(shadows(es, j, i, key, sp) && !gc_removes(es, j, sp));
    }
}

/// Garbage collection leaves what reads at or after the safe point see: it
/// never collects a version at or after the safe point, and every version it
/// collects has, newer than it in the run of its key's versions, a committed
/// version below the safe point that it keeps, which such a read meets first.
pub proof fn lemma_gc_keeps_what_later_reads_see(es: Seq<(Seq<u8>, Seq<u8>)>, sp: u64, i: int)
    requires
        0 <= i < es.len(),
    ensures
        decodes(es[i]) && dec_ts(es[i]) >= sp ==> !gc_removes(es, i, sp),
        gc_removes(es, i, sp) ==> exists|k: int| #[trigger] shadows(es, k, i, dec_key(es[i]), sp) && !gc_removes(es, k, sp),
{
    if gc_removes(es, i, sp) {
        let key = dec_key(es[i]);
        let j = choose|j: int|
            #![trigger es[j]]
            0 <= j < i && decodes(es[j]) && dec_key(es[j]) == key && dec_ts(es[j]) < sp && is_commit(es[j])
                && forall|m: int| j < m < i && decodes(es[m]) ==> dec_key(es[m]) == key;
        assert(shadows(es, j, i, key, sp));
        lemma_kept_shadow(es, j, i, key, sp);
    }
}

/// The writes that garbage-collect the given write-partition entries at
/// `safe_point`, and how many commit records they remove.
pub fn gc_plan(entries: &Vec<(Vec<u8>, Vec<u8>)>, safe_point: u64) -> (r: (Vec<BatchOp>, usize))
    ensures
        ops_view(r.0@) == gc_ops(entries_view(entries@), entries@.len() as int, safe_point),
        r.1 == gc_count(entries_view(entries@), entries@.len() as int, safe_point),
{
    let ghost es = entries_view(entries@);
    let mut ops: Vec<BatchOp> = Vec::new();
    let mut count: usize = 0;
    let mut last: Option<Vec<u8>> = None;
    let mut seen: bool = false;
    let mut i: usize = 0;
    while i < entries.len()
        invariant
            es == entries_view(entries@),
            i <= entries@.len(),
            count <= i,
            ops_view(ops@) == gc_ops(es, i as int, safe_point),
            count == gc_count(es, i as int, safe_point),
            match last {
                Some(k) => last_key(es, i as int) == Some(k@) && seen == run_has_below(es, i as int, k@, safe_point),
                None => last_key(es, i as int) is None && !seen,
            },
        decreases entries@.len() - i,
    {
        let enc_key = &entries[i].0;
        let write_bytes = &entries[i].1;
        assert(es[i as int] == (enc_key@, write_bytes@));
        match KeyEncoder::decode(enc_key.as_slice()) {
            Err(_) => {
                proof {
                    let ghost lk = last;
                    if let Some(k) = lk {
                        lemma_run_step(es, i as int, k@, safe_point);
                    }
                    assert(!gc_removes(es, i as int, safe_point));
                    assert(ops_view(ops@) == gc_ops(es, i + 1, safe_point));
                }
            },
            Ok((user_key, commit_ts)) => {
                let same = match &last {
                    Some(k) => bytes_eq(k.as_slice(), user_key),
                    None => false,
                };
                if !same {
                    proof {
                        if run_has_below(es, i as int, user_key@, safe_point) {
                            lemma_run_implies_last(es, i as int, user_key@, safe_point);
                        }
                    }
                    last = Some(vstd::slice::slice_to_vec(user_key));
                    seen = false;
                }
                proof {
                    lemma_run_step(es, i as int, user_key@, safe_point);
                }
                let ghost removes = gc_removes(es, i as int, safe_point);
                assert(removes == (commit_ts < safe_point && seen));
                if commit_ts < safe_point {
                    if !seen {
                        let committed = match WriteRecord::from_bytes(write_bytes.as_slice()) {
                            Some(record) => record.op != OpType::Rollback,
                            None => false,
                        };
                        if committed {
                            seen = true;
                        }
                    } else {
                        let ghost before = ops@;
                        ops.push(BatchOp::Remove { partition: Partition::Write, key: copy_bytes(enc_key) });
                        match WriteRecord::from_bytes(write_bytes.as_slice()) {
                            Some(record) => {
                                let ek_len = enc_key.len();
                                assert(user_key@.len() + 8 == ek_len);
                                let data_key = KeyEncoder::encode(user_key, record.start_ts);
                                ops.push(BatchOp::Remove { partition: Partition::Default, key: data_key });
                            },
                            None => {},
                        }
                        assert(ops_view(ops@) =~= ops_view(before) + gc_entry_ops(es[i as int]));
                        count = count + 1;
                    }
                }
                assert(ops_view(ops@) == gc_ops(es, i + 1, safe_point));
            },
        }
        i = i + 1;
    }
    (ops, count)
}

/// Strictly increasing in byte order.
pub open spec fn strictly_sorted(s: Seq<Seq<u8>>) -> bool {
    forall|i: int, j: int| 0 <= i < j < s.len() ==> seq_lt(s[i], s[j])
}

/// The plain content of a list of keys.
pub open spec fn keys_view(v: Seq<Vec<u8>>) -> Seq<Seq<u8>> {
    v.map_values(|k: Vec<u8>| k@)
}

/// Adds `key` to a strictly sorted list of keys unless it is already there.
pub fn insert_sorted(v: &mut Vec<Vec<u8>>, key: Vec<u8>)
    requires
        strictly_sorted(keys_view(old(v)@)),
    ensures
        strictly_sorted(keys_view(final(v)@)),
        forall|x: Seq<u8>| keys_view(final(v)@).contains(x) == (keys_view(old(v)@).contains(x) || x == key@),
{
    let ghost s = keys_view(v@);
    let mut i: usize = v.len();
    while i > 0 && bytes_lt(key.as_slice(), v[i - 1].as_slice())
        invariant
            i <= v@.len(),
            s == keys_view(v@),
            v@ == old(v)@,
            forall|j: int| i <= j < s.len() ==> seq_lt(key@, s[j]),
        decreases i,
    {
        i = i - 1;
    }
    if i > 0 && bytes_eq(v[i - 1].as_slice(), key.as_slice()) {
        assert(s[i - 1] == key@);
        assert forall|x: Seq<u8>| s.contains(x) == (s.contains(x) || x == key@) by {
            if x == key@ {
                assert(s[i - 1] == x);
            }
        }
        return ;
    }
    proof {
        if i > 0 {
            lemma_seq_lt_total(key@, s[i - 1]);
        }
    }
    let ghost kv = key@;
    v.insert(i, key);
    let ghost t = keys_view(v@);
    assert(t =~= s.insert(i as int, kv));
    assert forall|a: int, b: int| 0 <= a < b < t.len() implies seq_lt(t[a], t[b]) by {
        if b < i {
            assert(t[a] == s[a] && t[b] == s[b]);
        } else if b == i {
            assert(t[a] == s[a]);
            if a < i - 1 {
                lemma_seq_lt_transitive(s[a], s[i - 1], kv);
            }
        } else if a < i {
            assert(t[a] == s[a] && t[b] == s[b - 1]);
            assert(seq_lt(s[a], kv)) by {
                if a < i - 1 {
                    lemma_seq_lt_transitive(s[a], s[i - 1], kv);
                }
            }
            lemma_seq_lt_transitive(s[a], kv, s[b - 1]);
        } else if a == i {
            assert(t[b] == s[b - 1]);
        } else {
            assert(t[a] == s[a - 1] && t[b] == s[b - 1]);
        }
    }
    assert forall|x: Seq<u8>| t.contains(x) == (s.contains(x) || x == kv) by {
        if t.contains(x) {
            let j = choose|j: int| 0 <= j < t.len() && t[j] == x;
            if j < i {
                assert(s[j] == x);
            } else if j > i {
                assert(s[j - 1] == x);
            }
        }
        if s.contains(x) {
            let j = choose|j: int| 0 <= j < s.len() && s[j] == x;
            if j < i {
                assert(t[j] == x);
            } else {
                assert(t[j + 1] == x);
            }
        }
        if x == kv {
            assert(t[i as int] == x);
        }
    }
}

/// A user key of some decodable entry lying in `[start, end)`.
pub open spec fn is_range_key(es: Seq<(Seq<u8>, Seq<u8>)>, n: int, start: Seq<u8>, end: Seq<u8>, k: Seq<u8>) -> bool {
    exists|i: int| #![trigger es[i]] 0 <= i < n && decodes(es[i]) && dec_key(es[i]) == k && in_range(k, start, end)
}

/// The distinct user keys in `[start, end)` of the given write-partition
/// entries, in increasing byte order.
pub fn keys_in_range(entries: &Vec<(Vec<u8>, Vec<u8>)>, start_key: &[u8], end_key: &[u8]) -> (keys: Vec<Vec<u8>>)
    ensures
        strictly_sorted(keys_view(keys@)),
        forall|k: Seq<u8>| keys_view(keys@).contains(k) == is_range_key(entries_view(entries@), entries@.len() as int, start_key@, end_key@, k),
{
    let ghost es = entries_view(entries@);
    let mut keys: Vec<Vec<u8>> = Vec::new();
    let mut i: usize = 0;
    while i < entries.len()
        invariant
            es == entries_view(entries@),
            i <= entries@.len(),
            strictly_sorted(keys_view(keys@)),
            forall|k: Seq<u8>| keys_view(keys@).contains(k) == is_range_key(es, i as int, start_key@, end_key@, k),
        decreases entries@.len() - i,
    {
        assert(es[i as int] == (entries@[i as int].0@, entries@[i as int].1@));
        match KeyEncoder::decode(entries[i].0.as_slice()) {
            Err(_) => {
                assert forall|k: Seq<u8>| is_range_key(es, i + 1, start_key@, end_key@, k) == is_range_key(es, i as int, start_key@, end_key@, k) by {
                    if is_range_key(es, i + 1, start_key@, end_key@, k) {
                        let j = choose|j: int| #![trigger es[j]] 0 <= j < i + 1 && decodes(es[j]) && dec_key(es[j]) == k && in_range(k, start_key@, end_key@);
                        assert(j != i);
                    }
                }
            },
            Ok((user_key, _)) => {
                let inside = key_in_range(user_key, start_key, end_key);
                let ghost before = keys_view(keys@);
                if inside {
                    insert_sorted(&mut keys, vstd::slice::slice_to_vec(user_key));
                }
                assert forall|k: Seq<u8>| keys_view(keys@).contains(k) == is_range_key(es, i + 1, start_key@, end_key@, k) by {
                    if is_range_key(es, i + 1, start_key@, end_key@, k) {
                        let j = choose|j: int| #![trigger es[j]] 0 <= j < i + 1 && decodes(es[j]) && dec_key(es[j]) == k && in_range(k, start_key@, end_key@);
                        if j < i {
                            assert(is_range_key(es, i as int, start_key@, end_key@, k));
                        }
                    }
                    if is_range_key(es, i as int, start_key@, end_key@, k) {
                        let j = choose|j: int| #![trigger es[j]] 0 <= j < i as int && decodes(es[j]) && dec_key(es[j]) == k && in_range(k, start_key@, end_key@);
                        assert(0 <= j < i + 1 && decodes(es[j]) && dec_key(es[j]) == k && in_range(k, start_key@, end_key@));
                    }
                    if inside && k == user_key@ {
                        assert(0 <= i < i + 1 && decodes(es[i as int]) && dec_key(es[i as int]) == k && in_range(k, start_key@, end_key@));
                    }
                }
            },
        }
        i = i + 1;
    }
    keys
}

/// Key count and byte total accumulated over the first `n` entries: each
/// decodable entry in range adds its key and value lengths to the total, and
/// adds one key unless its user key is that of the previous such entry.
pub open spec fn stats_fold(es: Seq<(Seq<u8>, Seq<u8>)>, n: int, start: Seq<u8>, end: Seq<u8>) -> (nat, nat, Option<Seq<u8>>)
    decreases n,
{
    if n <= 0 {
        (0, 0, None)
    } else {
        let prev = stats_fold(es, n - 1, start, end);
        let e = es[n - 1];
        if !decodes(e) || !in_range(dec_key(e), start, end) {
            prev
        } else {
            (
                if prev.2 == Some(dec_key(e)) { prev.0 } else { prev.0 + 1 },
                prev.1 + e.0.len() + e.1.len(),
                Some(dec_key(e)),
            )
        }
    }
}

proof fn lemma_stats_count_bound(es: Seq<(Seq<u8>, Seq<u8>)>, n: int, start: Seq<u8>, end: Seq<u8>)
    requires
        0 <= n,
    ensures
        stats_fold(es, n, start, end).0 <= n,
    decreases n,
{
    if n > 0 {
        lemma_stats_count_bound(es, n - 1, start, end);
    }
}

/// `a + b`, or `u64::MAX` when that does not fit.
pub fn saturating_add_u64(a: u64, b: u64) -> (r: u64)
    ensures
        r == if a + b > u64::MAX { u64::MAX as int } else { a + b },
{
    if a > u64::MAX - b {
        u64::MAX
    } else {
        a + b
    }
}

/// Number of distinct consecutive user keys in `[start, end)` and the total byte
/// size (keys and values, capped at `u64::MAX`) of their entries.
pub fn region_stats(entries: &Vec<(Vec<u8>, Vec<u8>)>, start_key: &[u8], end_key: &[u8]) -> (r: (u64, u64))
    ensures
        r.0 == stats_fold(entries_view(entries@), entries@.len() as int, start_key@, end_key@).0,
        r.1 == if stats_fold(entries_view(entries@), entries@.len() as int, start_key@, end_key@).1 > u64::MAX {
            u64::MAX as int
        } else {
            stats_fold(entries_view(entries@), entries@.len() as int, start_key@, end_key@).1 as int
        },
{
    let ghost es = entries_view(entries@);
    let mut key_count: u64 = 0;
    let mut total_bytes: u64 = 0;
    let mut last_seen: Option<Vec<u8>> = None;
    let mut i: usize = 0;
    while i < entries.len()
        invariant
            es == entries_view(entries@),
            i <= entries@.len(),
            key_count == stats_fold(es, i as int, start_key@, end_key@).0,
            total_bytes == if stats_fold(es, i as int, start_key@, end_key@).1 > u64::MAX {
                u64::MAX as int
            } else {
                stats_fold(es, i as int, start_key@, end_key@).1 as int
            },
            match last_seen {
                Some(k) => stats_fold(es, i as int, start_key@, end_key@).2 == Some(k@),
                None => stats_fold(es, i as int, start_key@, end_key@).2 is None,
            },
        decreases entries@.len() - i,
    {
        let enc_key = &entries[i].0;
        let val = &entries[i].1;
        assert(es[i as int] == (enc_key@, val@));
        proof {
            lemma_stats_count_bound(es, i as int, start_key@, end_key@);
        }
        match KeyEncoder::decode(enc_key.as_slice()) {
            Err(_) => {},
            Ok((user_key, _)) => {
                if key_in_range(user_key, start_key, end_key) {
                    let same = match &last_seen {
                        Some(k) => bytes_eq(k.as_slice(), user_key),
                        None => false,
                    };
                    if !same {
                        last_seen = Some(vstd::slice::slice_to_vec(user_key));
                        key_count = key_count + 1;
                    }
                    let t1 = saturating_add_u64(total_bytes, enc_key.len() as u64);
                    total_bytes = saturating_add_u64(t1, val.len() as u64);
                }
            },
        }
        i = i + 1;
    }
    (key_count, total_bytes)
}

/// The key in the middle of the list (index `len / 2`), when it has at least two keys.
pub fn median_key(keys: &Vec<Vec<u8>>) -> (r: Option<Vec<u8>>)
    ensures
        keys@.len() < 2 ==> r is None,
        keys@.len() >= 2 ==> (r matches Some(k) && k@ == keys@[(keys@.len() / 2) as int]@),
{
    if keys.len() < 2 {
        None
    } else {
        let mid = keys.len() / 2;
        Some(copy_bytes(&keys[mid]))
    }
}

/// Entries in strictly increasing order of key.
pub open spec fn entries_sorted(es: Seq<(Seq<u8>, Seq<u8>)>) -> bool {
    forall|i: int, j: int| 0 <= i < j < es.len() ==> seq_lt(es[i].0, es[j].0)
}

impl StorageEngine {
    /// Removes write records (and the values they point to) older than
    /// `safe_point_ts`, keeping for each key the newest committed version below it.
    /// Returns how many write records were removed.  Beside the result come
    /// the write-partition entries it read (when the read succeeded), the
    /// batches it handed to the keyspace (those of `gc_plan` over the entries),
    /// and the engine's receipts of the seeks that found the entries (they walk
    /// the write partition from its start) and of the batches.
    pub fn gc_keys_older_than(&self, safe_point_ts: u64) -> ((r, trace): (
        Result<usize, StorageError>,
        Ghost<(Seq<(Seq<u8>, Seq<u8>)>, Seq<Seq<BatchOpView>>, Seq<SeekReceipt>, Seq<WriteReceipt>)>,
    ))
        ensures
            r is Err ==> r matches Err(StorageError::Fjall(_)),
            entries_sorted(trace@.0),
            seeks_follow(Partition::Write, Seq::empty(), trace@.0, trace@.2),
            handed(trace@.3, trace@.1),
            r is Ok ==> all_committed(trace@.3),
            trace@.1.len() > 0 ==> trace@.1 == seq![gc_ops(trace@.0, trace@.0.len() as int, safe_point_ts)]
                && gc_count(trace@.0, trace@.0.len() as int, safe_point_ts) > 0,
            r matches Ok(n) ==> n == gc_count(trace@.0, trace@.0.len() as int, safe_point_ts) && trace@.1 == if n
                > 0 {
                seq![gc_ops(trace@.0, trace@.0.len() as int, safe_point_ts)]
            } else {
                Seq::<Seq<BatchOpView>>::empty()
            },
    {
        let (scanned, sks) = self.scan_all_traced(Partition::Write);
        let entries = match scanned {
            Ok(es) => es,
            Err(e) => {
                return (Err(e), Ghost((Seq::empty(), Seq::empty(), Seq::empty(), Seq::empty())));
            },
        };
        let ghost es = entries_view(entries@);
        let (ops, gc_count) = gc_plan(&entries, safe_point_ts);
        proof {
            assert forall|i: int| 0 <= i < es.len() implies storable_key(#[trigger] es[i].0) by {
                assert(es[i].0 == entries@[i].0@);
            }
            assert forall|i: int, j: int| 0 <= i < j < es.len() implies seq_lt(es[i].0, es[j].0) by {
                assert(es[i].0 == entries@[i].0@);
                assert(es[j].0 == entries@[j].0@);
            }
            lemma_gc_ops_fit(es, es.len() as int, safe_point_ts);
        }
        if gc_count > 0 {
            let ghost writes = seq![ops_view(ops@)];
            let (applied, wc) = self.apply_traced(ops);
            let ghost wrs = seq![wc@];
            match applied {
                Ok(()) => {},
                Err(e) => {
                    return (Err(e), Ghost((es, writes, sks@, wrs)));
                },
            }
            return (Ok(gc_count), Ghost((es, writes, sks@, wrs)));
        }
        (Ok(gc_count), Ghost((es, Seq::empty(), sks@, Seq::empty())))
    }

    /// The distinct user keys in `[start_key, end_key)`, in increasing order.
    /// Beside the result come the write-partition entries it read (the keys
    /// are exactly the user keys of those entries that lie in the range) and
    /// the receipts of the seeks that found them, from the partition's start.
    pub fn get_keys_in_range(&self, start_key: &[u8], end_key: &[u8]) -> ((r, trace): (
        Result<Vec<Vec<u8>>, StorageError>,
        Ghost<(Seq<(Seq<u8>, Seq<u8>)>, Seq<SeekReceipt>)>,
    ))
        ensures
            seeks_follow(Partition::Write, Seq::empty(), trace@.0, trace@.1),
            r matches Ok(keys) ==> strictly_sorted(keys_view(keys@)) && forall|i: int|
                0 <= i < keys@.len() ==> in_range(#[trigger] keys@[i]@, start_key@, end_key@),
            r matches Ok(keys) ==> entries_sorted(trace@.0) && forall|k: Seq<u8>|
                keys_view(keys@).contains(k) == is_range_key(trace@.0, trace@.0.len() as int, start_key@, end_key@, k),
            r is Err ==> r matches Err(StorageError::Fjall(_)),
    {
        let (scanned, sks) = self.scan_all_traced(Partition::Write);
        let entries = match scanned {
            Ok(es) => es,
            Err(e) => {
                return (Err(e), Ghost((Seq::empty(), Seq::empty())));
            },
        };
        let ghost es = entries_view(entries@);
        let keys = keys_in_range(&entries, start_key, end_key);
        proof {
            assert forall|i: int| 0 <= i < keys@.len() implies in_range(#[trigger] keys@[i]@, start_key@, end_key@) by {
                assert(keys_view(keys@)[i] == keys@[i]@);
                assert(keys_view(keys@).contains(keys@[i]@));
            }
            assert forall|i: int, j: int| 0 <= i < j < es.len() implies seq_lt(es[i].0, es[j].0) by {
                assert(es[i].0 == entries@[i].0@);
                assert(es[j].0 == entries@[j].0@);
            }
        }
        (Ok(keys), Ghost((es, sks@)))
    }

    /// Key count and total byte size (saturating) of the entries in
    /// `[start_key, end_key)`.  Beside the result come the write-partition
    /// entries it read and the receipts of the seeks that found them, from the
    /// partition's start.
    pub fn calculate_region_stats(&self, start_key: &[u8], end_key: &[u8]) -> ((r, trace): (
        Result<(u64, u64), StorageError>,
        Ghost<(Seq<(Seq<u8>, Seq<u8>)>, Seq<SeekReceipt>)>,
    ))
        ensures
            r is Err ==> r matches Err(StorageError::Fjall(_)),
            seeks_follow(Partition::Write, Seq::empty(), trace@.0, trace@.1),
            r matches Ok(st) ==> entries_sorted(trace@.0) && st.0 == stats_fold(
                trace@.0,
                trace@.0.len() as int,
                start_key@,
                end_key@,
            ).0 && st.1 == if stats_fold(trace@.0, trace@.0.len() as int, start_key@, end_key@).1 > u64::MAX {
                u64::MAX as int
            } else {
                stats_fold(trace@.0, trace@.0.len() as int, start_key@, end_key@).1 as int
            },
    {
        let (scanned, sks) = self.scan_all_traced(Partition::Write);
        let entries = match scanned {
            Ok(es) => es,
            Err(e) => {
                return (Err(e), Ghost((Seq::empty(), Seq::empty())));
            },
        };
        let ghost es = entries_view(entries@);
        proof {
            assert forall|i: int, j: int| 0 <= i < j < es.len() implies seq_lt(es[i].0, es[j].0) by {
                assert(es[i].0 == entries@[i].0@);
                assert(es[j].0 == entries@[j].0@);
            }
        }
        (Ok(region_stats(&entries, start_key, end_key)), Ghost((es, sks@)))
    }

    /// The median key of `[start_key, end_key)`, when the range holds at least
    /// two keys.  Beside the result come the keys of the range, in order, as
    /// `get_keys_in_range` found them: the median is the one at half their count.
    pub fn find_median_key(&self, start_key: &[u8], end_key: &[u8]) -> ((r, trace): (
        Result<Option<Vec<u8>>, StorageError>,
        Ghost<(Seq<(Seq<u8>, Seq<u8>)>, Seq<Seq<u8>>)>,
    ))
        ensures
            r matches Ok(Some(k)) ==> in_range(k@, start_key@, end_key@),
            r is Err ==> r matches Err(StorageError::Fjall(_)),
            r is Ok ==> {
                let (es, ks) = trace@;
                &&& entries_sorted(es)
                &&& strictly_sorted(ks)
                &&& forall|k: Seq<u8>| ks.contains(k) == is_range_key(es, es.len() as int, start_key@, end_key@, k)
                &&& (ks.len() < 2 ==> r matches Ok(None))
                &&& ks.len() >= 2 ==> (r matches Ok(Some(m)) && m@ == ks[(ks.len() / 2) as int])
            },
    {
        let (found, t) = self.get_keys_in_range(start_key, end_key);
        let keys = match found {
            Ok(ks) => ks,
            Err(e) => {
                return (Err(e), Ghost((Seq::empty(), Seq::empty())));
            },
        };
        let ghost ks = keys_view(keys@);
        let m = median_key(&keys);
        proof {
            if keys@.len() >= 2 {
                assert(ks[(ks.len() / 2) as int] == keys@[(keys@.len() / 2) as int]@);
                assert(ks.contains(ks[(ks.len() / 2) as int]));
            }
        }
        (Ok(m), Ghost((t@.0, ks)))
    }
}

} // verus!
