//! Routing of keys to regions, with regions indexed by their start key.
use vstd::prelude::*;
use crate::codec::{
    bytes_lt, bytes_eq, seq_lt, seq_le, lemma_seq_lt_irreflexive, lemma_seq_lt_total,
    lemma_seq_lt_transitive, lemma_seq_lt_asymmetric,
};

verus! {

#[derive(Debug)]
pub enum RouterError {
    RegionNotFound(Vec<u8>),
}

#[derive(Debug, Clone, PartialEq, Eq)]
pub struct Region {
    pub id: u64,
    pub start_key: Vec<u8>,
    pub end_key: Vec<u8>,
    pub peers: Vec<u64>,
}

pub struct RegionView {
    pub id: u64,
    pub start_key: Seq<u8>,
    pub end_key: Seq<u8>,
    pub peers: Seq<u64>,
}

impl View for Region {
    type V = RegionView;

    open spec fn view(&self) -> RegionView {
        RegionView {
            id: self.id,
            start_key: self.start_key@,
            end_key: self.end_key@,
            peers: self.peers@,
        }
    }
}

/// `key` lies in `[start_key, end_key)`, an empty end key standing for no upper bound.
pub open spec fn covers(r: RegionView, key: Seq<u8>) -> bool {
    seq_le(r.start_key, key) && (r.end_key.len() == 0 || seq_lt(key, r.end_key))
}

/// Start keys strictly increase along the sequence.
pub open spec fn sorted_by_start(s: Seq<RegionView>) -> bool {
    forall|i: int, j: int| 0 <= i < j < s.len() ==> seq_lt(s[i].start_key, s[j].start_key)
}

pub fn copy_bytes(v: &Vec<u8>) -> (r: Vec<u8>)
    ensures
        r@ == v@,
{
    let r = v.clone();
    assert(r@ =~= v@);
    r
}

pub fn copy_peers(v: &Vec<u64>) -> (r: Vec<u64>)
    ensures
        r@ == v@,
{
    let r = v.clone();
    assert(r@ =~= v@);
    r
}

impl Region {
    /// A region with the given id, key range and peers.
    pub fn new(id: u64, start_key: Vec<u8>, end_key: Vec<u8>, peers: Vec<u64>) -> (r: Self)
        ensures
            r@ == (RegionView { id, start_key: start_key@, end_key: end_key@, peers: peers@ }),
    {
        Region { id, start_key, end_key, peers }
    }

    /// A copy of this region.
    pub fn duplicate(&self) -> (r: Self)
        ensures
            r@ == self@,
    {
        Region {
            id: self.id,
            start_key: copy_bytes(&self.start_key),
            end_key: copy_bytes(&self.end_key),
            peers: copy_peers(&self.peers),
        }
    }

    /// Whether `key` lies in this region's range.
    pub fn covers_key(&self, key: &[u8]) -> (b: bool)
        ensures
            b == covers(self@, key@),
    {
        let after_start = bytes_eq(self.start_key.as_slice(), key) || bytes_lt(
            self.start_key.as_slice(),
            key,
        );
        after_start && (self.end_key.len() == 0 || bytes_lt(key, self.end_key.as_slice()))
    }
}

/// `new` is `old` with `r` in place of the entry with the same start key, or
/// added if there is none, still in increasing order of start key.
pub open spec fn start_replaced(old: Seq<RegionView>, new: Seq<RegionView>, r: RegionView) -> bool {
    &&& sorted_by_start(new)
    &&& exists|i: int| 0 <= i < new.len() && new[i] == r
    &&& forall|i: int|
        0 <= i < old.len() && old[i].start_key != r.start_key ==> exists|j: int|
            0 <= j < new.len() && new[j] == old[i]
    &&& forall|j: int|
        0 <= j < new.len() ==> new[j] == r || exists|i: int|
            0 <= i < old.len() && old[i] == new[j] && old[i].start_key != r.start_key
}

proof fn lemma_start_update(s: Seq<RegionView>, i: int, r: RegionView)
    requires
        sorted_by_start(s),
        0 <= i < s.len(),
        s[i].start_key == r.start_key,
    ensures
        start_replaced(s, s.update(i, r), r),
{
    let t = s.update(i, r);
    assert forall|a: int, b: int| 0 <= a < b < t.len() implies seq_lt(t[a].start_key, t[b].start_key) by {
        assert(t[a].start_key == s[a].start_key);
        assert(t[b].start_key == s[b].start_key);
    }
    assert(t[i] == r);
    assert forall|a: int| 0 <= a < s.len() && s[a].start_key != r.start_key implies exists|j: int|
        0 <= j < t.len() && t[j] == s[a] by {
        assert(t[a] == s[a]);
    }
    assert forall|j: int| 0 <= j < t.len() implies t[j] == r || exists|a: int|
        0 <= a < s.len() && s[a] == t[j] && s[a].start_key != r.start_key by {
        if j != i {
            assert(s[j] == t[j]);
            lemma_seq_lt_irreflexive(s[j].start_key);
            if j < i {
                assert(seq_lt(s[j].start_key, s[i].start_key));
            } else {
                assert(seq_lt(s[i].start_key, s[j].start_key));
            }
        }
    }
}

proof fn lemma_start_insert(s: Seq<RegionView>, i: int, r: RegionView)
    requires
        sorted_by_start(s),
        0 <= i < s.len(),
        forall|j: int| 0 <= j < i ==> seq_lt(s[j].start_key, r.start_key),
        seq_lt(r.start_key, s[i].start_key),
    ensures
        start_replaced(s, s.insert(i, r), r),
{
    let t = s.insert(i, r);
    assert forall|a: int, b: int| 0 <= a < b < t.len() implies seq_lt(t[a].start_key, t[b].start_key) by {
        if b < i {
            assert(t[a] == s[a]);
            assert(t[b] == s[b]);
        } else if b == i {
            assert(t[a] == s[a]);
        } else if a < i {
            assert(t[a] == s[a]);
            assert(t[b] == s[b - 1]);
        } else if a == i {
            assert(t[b] == s[b - 1]);
            if b - 1 > i {
                lemma_seq_lt_transitive(r.start_key, s[i].start_key, s[b - 1].start_key);
            }
        } else {
            assert(t[a] == s[a - 1]);
            assert(t[b] == s[b - 1]);
        }
    }
    assert(t[i] == r);
    assert forall|a: int| 0 <= a < s.len() && s[a].start_key != r.start_key implies exists|j: int|
        0 <= j < t.len() && t[j] == s[a] by {
        if a < i {
            assert(t[a] == s[a]);
        } else {
            assert(t[a + 1] == s[a]);
        }
    }
    assert forall|j: int| 0 <= j < t.len() implies t[j] == r || exists|a: int|
        0 <= a < s.len() && s[a] == t[j] && s[a].start_key != r.start_key by {
        lemma_seq_lt_irreflexive(r.start_key);
        if j < i {
            assert(t[j] == s[j]);
        } else if j > i {
            assert(t[j] == s[j - 1]);
            if j - 1 > i {
                lemma_seq_lt_transitive(r.start_key, s[i].start_key, s[j - 1].start_key);
            }
        }
    }
}

proof fn lemma_start_push(s: Seq<RegionView>, r: RegionView)
    requires
        sorted_by_start(s),
        forall|j: int| 0 <= j < s.len() ==> seq_lt(s[j].start_key, r.start_key),
    ensures
        start_replaced(s, s.push(r), r),
{
    let t = s.push(r);
    let n = s.len() as int;
    assert(t[n] == r);
    assert forall|a: int, b: int| 0 <= a < b < t.len() implies seq_lt(t[a].start_key, t[b].start_key) by {
        assert(t[a] == s[a]);
    }
    assert forall|a: int| 0 <= a < s.len() && s[a].start_key != r.start_key implies exists|j: int|
        0 <= j < t.len() && t[j] == s[a] by {
        assert(t[a] == s[a]);
    }
    assert forall|j: int| 0 <= j < t.len() implies t[j] == r || exists|a: int|
        0 <= a < s.len() && s[a] == t[j] && s[a].start_key != r.start_key by {
        if j < n {
            assert(t[j] == s[j]);
            lemma_seq_lt_irreflexive(r.start_key);
        }
    }
}

pub struct RegionRouter {
    regions: Vec<Region>,
}

impl RegionRouter {
    #[verifier::type_invariant]
    spec fn sorted(self) -> bool {
        sorted_by_start(self.regions@.map_values(|r: Region| r@))
    }
}

impl View for RegionRouter {
    type V = Seq<RegionView>;

    closed spec fn view(&self) -> Seq<RegionView> {
        self.regions@.map_values(|r: Region| r@)
    }
}

impl RegionRouter {
    pub fn new() -> (r: Self)
        ensures
            r@ == Seq::<RegionView>::empty(),
    {
        let r = RegionRouter { regions: Vec::new() };
        assert(r@ =~= Seq::<RegionView>::empty());
        r
    }

    /// Every region the router holds, in increasing order of start key.
    pub fn regions(&self) -> (v: Vec<Region>)
        ensures
            v@.map_values(|r: Region| r@) == self@,
            sorted_by_start(self@),
    {
        proof {
            use_type_invariant(self);
        }
        let mut out: Vec<Region> = Vec::new();
        let mut i: usize = 0;
        while i < self.regions.len()
            invariant
                i <= self.regions@.len(),
                out@.len() == i,
                forall|j: int| 0 <= j < i ==> out@[j]@ == self.regions@[j]@,
            decreases self.regions@.len() - i,
        {
            out.push(self.regions[i].duplicate());
            i = i + 1;
        }
        assert(out@.map_values(|r: Region| r@) =~= self@);
        out
    }

    /// Adds `region`, replacing the region with the same start key if there is one.
    pub fn insert_region(&mut self, region: Region)
        ensures
            start_replaced(old(self)@, final(self)@, region@),
    {
        proof {
            use_type_invariant(&*self);
        }
        let ghost old_view = self@;
        let mut regions: Vec<Region> = Vec::new();
        std::mem::swap(&mut regions, &mut self.regions);
        assert(regions@.map_values(|r: Region| r@) == old_view);
        let n = regions.len();
        let mut i: usize = 0;
        while i < n
            invariant
                n == regions@.len(),
                regions@.map_values(|r: Region| r@) == old_view,
                old_view == old(self)@,
                sorted_by_start(old_view),
                i <= n,
                forall|j: int| 0 <= j < i ==> seq_lt(old_view[j].start_key, region@.start_key),
            decreases n - i,
        {
            let k = regions[i].start_key.as_slice();
            if bytes_eq(k, region.start_key.as_slice()) {
                let ghost rv = region@;
                regions.set(i, region);
                proof {
                    assert(regions@.map_values(|r: Region| r@) =~= old_view.update(i as int, rv));
                    lemma_start_update(old_view, i as int, rv);
                }
                self.regions = regions;
                return ;
            }
            if bytes_lt(region.start_key.as_slice(), k) {
                let ghost rv = region@;
                regions.insert(i, region);
                proof {
                    assert(regions@.map_values(|r: Region| r@) =~= old_view.insert(i as int, rv));
                    lemma_start_insert(old_view, i as int, rv);
                }
                self.regions = regions;
                return ;
            }
            proof {
                lemma_seq_lt_total(region@.start_key, old_view[i as int].start_key);
            }
            i = i + 1;
        }
        let ghost rv = region@;
        regions.push(region);
        proof {
            assert(regions@.map_values(|r: Region| r@) =~= old_view.push(rv));
            lemma_start_push(old_view, rv);
        }
        self.regions = regions;
    }

    /// Finds the region covering `key`: of all regions whose range holds it, the one
    /// with the greatest start key.
    pub fn route_key(&self, key: &[u8]) -> (r: Result<Region, RouterError>)
        ensures
            match r {
                Ok(region) => {
                    &&& exists|i: int| 0 <= i < self@.len() && self@[i] == region@
                    &&& covers(region@, key@)
                    &&& forall|i: int|
                        0 <= i < self@.len() && covers(self@[i], key@) ==> seq_le(
                            self@[i].start_key,
                            region@.start_key,
                        )
                },
                Err(RouterError::RegionNotFound(k)) => {
                    &&& k@ == key@
                    &&& forall|i: int| 0 <= i < self@.len() ==> !covers(self@[i], key@)
                },
            },
    {
        proof {
            use_type_invariant(self);
        }
        let ghost v = self@;
        let mut i: usize = self.regions.len();
        while i > 0
            invariant
                i <= self.regions@.len(),
                v == self.regions@.map_values(|r: Region| r@),
                sorted_by_start(v),
                forall|j: int| i <= j < v.len() ==> !covers(v[j], key@),
            decreases i,
        {
            let region = &self.regions[i - 1];
            if region.covers_key(key) {
                let found = region.duplicate();
                proof {
                    assert(v[i - 1] == found@);
                    assert(0 <= i - 1 < self@.len() && self@[i - 1] == found@);
                    assert forall|j: int|
                        0 <= j < v.len() && covers(v[j], key@) implies seq_le(
                        v[j].start_key,
                        found@.start_key,
                    ) by {
                        if j < i - 1 {
                            assert(seq_lt(v[j].start_key, v[i - 1].start_key));
                        }
                    }
                }
                return Ok(found);
            }
            i = i - 1;
        }
        Err(RouterError::RegionNotFound(vstd::slice::slice_to_vec(key)))
    }
}

impl Default for RegionRouter {
    fn default() -> (r: Self)
        ensures
            r@ == Seq::<RegionView>::empty(),
    {
        RegionRouter::new()
    }
}

} // verus!
