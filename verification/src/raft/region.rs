//! Key-range regions, their splitting, and routing by end key.
use vstd::prelude::*;
use crate::codec::{
    bytes_lt, bytes_eq, seq_lt, seq_le, lemma_seq_lt_irreflexive, lemma_seq_lt_total,
    lemma_seq_lt_transitive, lemma_seq_lt_asymmetric,
};
use crate::raft::router::copy_bytes;

verus! {

/// Split threshold used when none is given: 64 MiB.
pub const DEFAULT_SPLIT_SIZE_BYTES: u64 = 67108864u64;

#[derive(Debug, Clone)]
pub struct Region {
    pub id: u64,
    pub start_key: Vec<u8>,
    pub end_key: Vec<u8>,
    pub leader_addr: String,
    pub size_bytes: u64,
}

pub struct RegionView {
    pub id: u64,
    pub start_key: Seq<u8>,
    pub end_key: Seq<u8>,
    pub leader_addr: Seq<char>,
    pub size_bytes: u64,
}

impl View for Region {
    type V = RegionView;

    open spec fn view(&self) -> RegionView {
        RegionView {
            id: self.id,
            start_key: self.start_key@,
            end_key: self.end_key@,
            leader_addr: self.leader_addr@,
            size_bytes: self.size_bytes,
        }
    }
}

/// `key` lies in `[start_key, end_key)`; an empty bound is no bound.
pub open spec fn region_contains(r: RegionView, key: Seq<u8>) -> bool {
    (r.start_key.len() == 0 || seq_le(r.start_key, key)) && (r.end_key.len() == 0 || seq_lt(
        key,
        r.end_key,
    ))
}

impl Region {
    pub fn contains_key(&self, key: &[u8]) -> (b: bool)
        ensures
            b == region_contains(self@, key@),
    {
        (self.start_key.len() == 0 || bytes_eq(self.start_key.as_slice(), key) || bytes_lt(
            self.start_key.as_slice(),
            key,
        )) && (self.end_key.len() == 0 || bytes_lt(key, self.end_key.as_slice()))
    }

    /// A copy of this region.
    pub fn duplicate(&self) -> (r: Self)
        ensures
            r@ == self@,
    {
        Region {
            id: self.id,
            start_key: copy_bytes(&self.start_key),
            end_key: copy_bytes(&self.end_key),
            leader_addr: self.leader_addr.clone(),
            size_bytes: self.size_bytes,
        }
    }
}

pub struct RegionSplitter {
    split_threshold_bytes: u64,
}

impl View for RegionSplitter {
    type V = u64;

    /// The size at which a region is split.
    closed spec fn view(&self) -> u64 {
        self.split_threshold_bytes
    }
}

impl Default for RegionSplitter {
    fn default() -> (s: Self)
        ensures
            s@ == DEFAULT_SPLIT_SIZE_BYTES,
    {
        Self { split_threshold_bytes: DEFAULT_SPLIT_SIZE_BYTES }
    }
}

impl RegionSplitter {
    pub fn new(threshold_bytes: u64) -> (s: Self)
        ensures
            s@ == threshold_bytes,
    {
        Self { split_threshold_bytes: threshold_bytes }
    }

    pub fn should_split(&self, region: &Region) -> (b: bool)
        ensures
            b == (region.size_bytes >= self@),
    {
        region.size_bytes >= self.split_threshold_bytes
    }

    /// Splits `region` at `split_key`: the left part keeps the id and the range up
    /// to the split key, the right part takes `new_region_id` and the rest; each
    /// gets half the size (rounded down) and the same leader.
    pub fn split_region(&self, region: &Region, split_key: Vec<u8>, new_region_id: u64) -> (r: (
        Region,
        Region,
    ))
        ensures
            r.0@ == (RegionView {
                id: region.id,
                start_key: region.start_key@,
                end_key: split_key@,
                leader_addr: region.leader_addr@,
                size_bytes: region.size_bytes / 2,
            }),
            r.1@ == (RegionView {
                id: new_region_id,
                start_key: split_key@,
                end_key: region.end_key@,
                leader_addr: region.leader_addr@,
                size_bytes: region.size_bytes / 2,
            }),
    {
        let half_size = region.size_bytes / 2;
        let left_region = Region {
            id: region.id,
            start_key: copy_bytes(&region.start_key),
            end_key: copy_bytes(&split_key),
            leader_addr: region.leader_addr.clone(),
            size_bytes: half_size,
        };
        let right_region = Region {
            id: new_region_id,
            start_key: split_key,
            end_key: copy_bytes(&region.end_key),
            leader_addr: region.leader_addr.clone(),
            size_bytes: half_size,
        };
        (left_region, right_region)
    }
}

/// The two halves of a split, as `split_region` builds them.
pub open spec fn spec_split(r: RegionView, split_key: Seq<u8>, new_id: u64) -> (RegionView, RegionView) {
    (
        RegionView {
            id: r.id,
            start_key: r.start_key,
            end_key: split_key,
            leader_addr: r.leader_addr,
            size_bytes: r.size_bytes / 2,
        },
        RegionView {
            id: new_id,
            start_key: split_key,
            end_key: r.end_key,
            leader_addr: r.leader_addr,
            size_bytes: r.size_bytes / 2,
        },
    )
}

/// Splitting at a non-empty key inside the range partitions the range: every key
/// of the region lies in exactly one half, and no other key lies in either.
pub proof fn lemma_split_partitions_range(r: RegionView, split_key: Seq<u8>, new_id: u64, key: Seq<u8>)
    requires
        split_key.len() > 0,
        r.start_key.len() == 0 || seq_le(r.start_key, split_key),
        r.end_key.len() == 0 || seq_le(split_key, r.end_key),
    ensures
        ({
            let (left, right) = spec_split(r, split_key, new_id);
            &&& region_contains(left, key) || region_contains(right, key) <==> region_contains(
                r,
                key,
            )
            &&& !(region_contains(left, key) && region_contains(right, key))
        }),
{
    let (left, right) = spec_split(r, split_key, new_id);
    lemma_seq_lt_total(key, split_key);
    lemma_seq_lt_asymmetric(key, split_key);
    lemma_seq_lt_irreflexive(key);
    if r.start_key.len() > 0 {
        lemma_seq_lt_total(key, r.start_key);
        if seq_lt(key, r.start_key) && r.start_key != split_key {
            lemma_seq_lt_transitive(key, r.start_key, split_key);
        }
    }
    if r.end_key.len() > 0 {
        if seq_lt(key, split_key) && split_key != r.end_key {
            lemma_seq_lt_transitive(key, split_key, r.end_key);
        }
        if !seq_lt(key, split_key) && key != split_key && seq_lt(key, r.end_key) {
            lemma_seq_lt_transitive(split_key, key, r.end_key);
        }
    }
}

/// End keys strictly increase along the sequence.
pub open spec fn sorted_by_end(s: Seq<RegionView>) -> bool {
    forall|i: int, j: int| 0 <= i < j < s.len() ==> seq_lt(s[i].end_key, s[j].end_key)
}

/// `new` is `old` with `r` in place of the entry with the same end key, or
/// added if there is none, still in increasing order of end key.
pub open spec fn end_replaced(old: Seq<RegionView>, new: Seq<RegionView>, r: RegionView) -> bool {
    &&& sorted_by_end(new)
    &&& exists|i: int| 0 <= i < new.len() && new[i] == r
    &&& forall|i: int|
        0 <= i < old.len() && old[i].end_key != r.end_key ==> exists|j: int|
            0 <= j < new.len() && new[j] == old[i]
    &&& forall|j: int|
        0 <= j < new.len() ==> new[j] == r || exists|i: int|
            0 <= i < old.len() && old[i] == new[j] && old[i].end_key != r.end_key
}

proof fn lemma_end_update(s: Seq<RegionView>, i: int, r: RegionView)
    requires
        sorted_by_end(s),
        0 <= i < s.len(),
        s[i].end_key == r.end_key,
    ensures
        end_replaced(s, s.update(i, r), r),
{
    let t = s.update(i, r);
    assert forall|a: int, b: int| 0 <= a < b < t.len() implies seq_lt(t[a].end_key, t[b].end_key) by {
        assert(t[a].end_key == s[a].end_key);
        assert(t[b].end_key == s[b].end_key);
    }
    assert(t[i] == r);
    assert forall|a: int| 0 <= a < s.len() && s[a].end_key != r.end_key implies exists|j: int|
        0 <= j < t.len() && t[j] == s[a] by {
        assert(t[a] == s[a]);
    }
    assert forall|j: int| 0 <= j < t.len() implies t[j] == r || exists|a: int|
        0 <= a < s.len() && s[a] == t[j] && s[a].end_key != r.end_key by {
        if j != i {
            assert(s[j] == t[j]);
            lemma_seq_lt_irreflexive(s[j].end_key);
            if j < i {
                assert(seq_lt(s[j].end_key, s[i].end_key));
            } else {
                assert(seq_lt(s[i].end_key, s[j].end_key));
            }
        }
    }
}

proof fn lemma_end_insert(s: Seq<RegionView>, i: int, r: RegionView)
    requires
        sorted_by_end(s),
        0 <= i < s.len(),
        forall|j: int| 0 <= j < i ==> seq_lt(s[j].end_key, r.end_key),
        seq_lt(r.end_key, s[i].end_key),
    ensures
        end_replaced(s, s.insert(i, r), r),
{
    let t = s.insert(i, r);
    assert forall|a: int, b: int| 0 <= a < b < t.len() implies seq_lt(t[a].end_key, t[b].end_key) by {
        if b < i {
            assert(t[a] == s[a]);
            assert(t[b] == s[b]);
        } else if b == i {
            assert(t[a] == s[a]);
        } else if a < i {
            assert(t[a] == s[a]);
            assert(t[b] == s[b - 1]);
        } else if a == i {
            assert(t[b] == s[b - 1]);
            if b - 1 > i {
                lemma_seq_lt_transitive(r.end_key, s[i].end_key, s[b - 1].end_key);
            }
        } else {
            assert(t[a] == s[a - 1]);
            assert(t[b] == s[b - 1]);
        }
    }
    assert(t[i] == r);
    assert forall|a: int| 0 <= a < s.len() && s[a].end_key != r.end_key implies exists|j: int|
        0 <= j < t.len() && t[j] == s[a] by {
        if a < i {
            assert(t[a] == s[a]);
        } else {
            assert(t[a + 1] == s[a]);
        }
    }
    assert forall|j: int| 0 <= j < t.len() implies t[j] == r || exists|a: int|
        0 <= a < s.len() && s[a] == t[j] && s[a].end_key != r.end_key by {
        lemma_seq_lt_irreflexive(r.end_key);
        if j < i {
            assert(t[j] == s[j]);
        } else if j > i {
            assert(t[j] == s[j - 1]);
            if j - 1 > i {
                lemma_seq_lt_transitive(r.end_key, s[i].end_key, s[j - 1].end_key);
            }
        }
    }
}

proof fn lemma_end_push(s: Seq<RegionView>, r: RegionView)
    requires
        sorted_by_end(s),
        forall|j: int| 0 <= j < s.len() ==> seq_lt(s[j].end_key, r.end_key),
    ensures
        end_replaced(s, s.push(r), r),
{
    let t = s.push(r);
    let n = s.len() as int;
    assert(t[n] == r);
    assert forall|a: int, b: int| 0 <= a < b < t.len() implies seq_lt(t[a].end_key, t[b].end_key) by {
        assert(t[a] == s[a]);
    }
    assert forall|a: int| 0 <= a < s.len() && s[a].end_key != r.end_key implies exists|j: int|
        0 <= j < t.len() && t[j] == s[a] by {
        assert(t[a] == s[a]);
    }
    assert forall|j: int| 0 <= j < t.len() implies t[j] == r || exists|a: int|
        0 <= a < s.len() && s[a] == t[j] && s[a].end_key != r.end_key by {
        if j < n {
            assert(t[j] == s[j]);
            lemma_seq_lt_irreflexive(r.end_key);
        }
    }
}

pub struct RegionRouter {
    regions: Vec<Region>,
}

impl RegionRouter {
    #[verifier::type_invariant]
    spec fn sorted(self) -> bool {
        sorted_by_end(self.regions@.map_values(|r: Region| r@))
    }
}

impl View for RegionRouter {
    type V = Seq<RegionView>;

    closed spec fn view(&self) -> Seq<RegionView> {
        self.regions@.map_values(|r: Region| r@)
    }
}

impl RegionRouter {
    pub fn new() -> (r: Self)
        ensures
            r@ == Seq::<RegionView>::empty(),
    {
        let r = RegionRouter { regions: Vec::new() };
        assert(r@ =~= Seq::<RegionView>::empty());
        r
    }

    /// Adds `region`, replacing the region with the same end key if there is one.
    pub fn insert_region(&mut self, region: Region)
        ensures
            end_replaced(old(self)@, final(self)@, region@),
    {
        proof {
            use_type_invariant(&*self);
        }
        let ghost old_view = self@;
        let mut regions: Vec<Region> = Vec::new();
        std::mem::swap(&mut regions, &mut self.regions);
        assert(regions@.map_values(|r: Region| r@) == old_view);
        let n = regions.len();
        let mut i: usize = 0;
        while i < n
            invariant
                n == regions@.len(),
                regions@.map_values(|r: Region| r@) == old_view,
                old_view == old(self)@,
                sorted_by_end(old_view),
                i <= n,
                forall|j: int| 0 <= j < i ==> seq_lt(old_view[j].end_key, region@.end_key),
            decreases n - i,
        {
            let k = regions[i].end_key.as_slice();
            if bytes_eq(k, region.end_key.as_slice()) {
                let ghost rv = region@;
                regions.set(i, region);
                proof {
                    assert(regions@.map_values(|r: Region| r@) =~= old_view.update(i as int, rv));
                    lemma_end_update(old_view, i as int, rv);
                }
                self.regions = regions;
                return ;
            }
            if bytes_lt(region.end_key.as_slice(), k) {
                let ghost rv = region@;
                regions.insert(i, region);
                proof {
                    assert(regions@.map_values(|r: Region| r@) =~= old_view.insert(i as int, rv));
                    lemma_end_insert(old_view, i as int, rv);
                }
                self.regions = regions;
                return ;
            }
            proof {
                lemma_seq_lt_total(region@.end_key, old_view[i as int].end_key);
            }
            i = i + 1;
        }
        let ghost rv = region@;
        regions.push(region);
        proof {
            assert(regions@.map_values(|r: Region| r@) =~= old_view.push(rv));
            lemma_end_push(old_view, rv);
        }
        self.regions = regions;
    }

    /// The first region, in increasing order of end key, whose range holds `key`.
    pub fn route(&self, key: &[u8]) -> (r: Option<Region>)
        ensures
            match r {
                Some(region) => {
                    &&& exists|i: int| 0 <= i < self@.len() && self@[i] == region@
                    &&& region_contains(region@, key@)
                    &&& forall|i: int|
                        0 <= i < self@.len() && seq_lt(self@[i].end_key, region@.end_key)
                            ==> !region_contains(self@[i], key@)
                },
                None => forall|i: int| 0 <= i < self@.len() ==> !region_contains(self@[i], key@),
            },
    {
        proof {
            use_type_invariant(self);
        }
        let ghost v = self@;
        let mut i: usize = 0;
        while i < self.regions.len()
            invariant
                i <= self.regions@.len(),
                v == self.regions@.map_values(|r: Region| r@),
                sorted_by_end(v),
                forall|j: int| 0 <= j < i ==> !region_contains(v[j], key@),
            decreases self.regions@.len() - i,
        {
            let region = &self.regions[i];
            if region.contains_key(key) {
                let found = region.duplicate();
                proof {
                    assert(v[i as int] == found@);
                    assert(0 <= i < self@.len() && self@[i as int] == found@);
                    assert forall|j: int|
                        0 <= j < v.len() && seq_lt(v[j].end_key, found@.end_key) implies !region_contains(
                        v[j],
                        key@,
                    ) by {
                        if j > i {
                            assert(seq_lt(v[i as int].end_key, v[j].end_key));
                            lemma_seq_lt_asymmetric(v[j].end_key, v[i as int].end_key);
                        }
                        if j == i {
                            lemma_seq_lt_irreflexive(v[j].end_key);
                        }
                    }
                }
                return Some(found);
            }
            i = i + 1;
        }
        None
    }
}

impl Default for RegionRouter {
    fn default() -> (r: Self)
        ensures
            r@ == Seq::<RegionView>::empty(),
    {
        RegionRouter::new()
    }
}

} // verus!
