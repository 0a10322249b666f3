//! Hybrid logical clock: a physical millisecond part and a logical counter,
//! packed into one `u64` as `physical << 16 | logical`.
use vstd::prelude::*;
use crate::txn::clock::physical_now_ms;

verus! {

#[derive(Debug, Clone, Copy, PartialEq, Eq, PartialOrd, Ord, Structural)]
pub struct Timestamp {
    pub physical: u64,
    pub logical: u32,
}

/// The packed form: the low 48 bits of the physical part above the low 16 bits
/// of the logical counter.
pub open spec fn spec_ts_value(physical: u64, logical: u32) -> u64 {
    ((physical % 0x1_0000_0000_0000) * 0x10000 + (logical % 0x10000)) as u64
}

/// A timestamp whose parts survive packing unchanged.
pub open spec fn ts_in_range(t: Timestamp) -> bool {
    t.physical < 0x1_0000_0000_0000 && t.logical < 0x10000
}

/// Lexicographic order on (physical, logical).
pub open spec fn ts_before(a: Timestamp, b: Timestamp) -> bool {
    a.physical < b.physical || (a.physical == b.physical && a.logical < b.logical)
}

impl Timestamp {
    pub fn encode(&self) -> (v: u64)
        ensures
            v == spec_ts_value(self.physical, self.logical),
    {
        let p = self.physical;
        let l = self.logical as u64;
        let v = (p << 16u64) | (l & 0xFFFFu64);
        assert(v == ((p % 0x1_0000_0000_0000) * 0x10000 + (l % 0x10000)) as u64) by (bit_vector)
            requires
                v == (p << 16u64) | (l & 0xFFFFu64),
        ;
        v
    }

    pub fn decode(ts: u64) -> (t: Self)
        ensures
            t.physical == ts / 0x10000,
            t.logical == ts % 0x10000,
    {
        let physical = ts >> 16u64;
        let low = ts & 0xFFFFu64;
        assert(physical == ts / 0x10000 && low == ts % 0x10000) by (bit_vector)
            requires
                physical == ts >> 16u64,
                low == ts & 0xFFFFu64,
        ;
        Self { physical, logical: low as u32 }
    }
}

/// Unpacking a packed timestamp gives back its parts when they are in range.
pub proof fn lemma_ts_decode_encode(t: Timestamp)
    requires
        ts_in_range(t),
    ensures
        spec_ts_value(t.physical, t.logical) / 0x10000 == t.physical,
        spec_ts_value(t.physical, t.logical) % 0x10000 == t.logical,
{
}

/// Packing the parts of any value gives back the value.
pub proof fn lemma_ts_encode_decode(ts: u64)
    ensures
        spec_ts_value((ts / 0x10000) as u64, (ts % 0x10000) as u32) == ts,
{
}

/// For timestamps in range, packing preserves their order.
pub proof fn lemma_ts_order(a: Timestamp, b: Timestamp)
    requires
        ts_in_range(a),
        ts_in_range(b),
    ensures
        ts_before(a, b) == (spec_ts_value(a.physical, a.logical) < spec_ts_value(
            b.physical,
            b.logical,
        )),
{
}

pub struct HybridLogicalClock {
    latest_physical: u64,
    logical: u32,
}

impl View for HybridLogicalClock {
    type V = Timestamp;

    closed spec fn view(&self) -> Timestamp {
        Timestamp { physical: self.latest_physical, logical: self.logical }
    }
}

/// The clock after issuing a timestamp when the wall clock reads `physical_now`.
pub open spec fn spec_tick(s: Timestamp, physical_now: u64) -> Timestamp {
    if physical_now > s.physical {
        Timestamp { physical: physical_now, logical: 0 }
    } else {
        Timestamp { physical: s.physical, logical: (s.logical + 1) as u32 }
    }
}

/// The clock after observing `remote_ts` when the wall clock reads `physical_now`.
pub open spec fn spec_observe(s: Timestamp, remote_ts: u64, physical_now: u64) -> Timestamp {
    let rp = (remote_ts / 0x10000) as u64;
    let rl = (remote_ts % 0x10000) as u32;
    let m1 = if physical_now >= s.physical {
        physical_now
    } else {
        s.physical
    };
    let m = if m1 >= rp {
        m1
    } else {
        rp
    };
    let l = if m == s.physical && m == rp {
        ((if s.logical >= rl {
            s.logical
        } else {
            rl
        }) + 1) as u32
    } else if m == s.physical {
        (s.logical + 1) as u32
    } else if m == rp {
        (rl + 1) as u32
    } else {
        0u32
    };
    Timestamp { physical: m, logical: l }
}

impl HybridLogicalClock {
    /// A clock set to the current wall-clock millisecond with a zero counter.
    pub fn new() -> (c: Self)
        ensures
            c@.logical == 0,
    {
        Self { latest_physical: physical_now_ms(), logical: 0 }
    }

    /// A clock in the given state.
    pub fn from_parts(latest_physical: u64, logical: u32) -> (c: Self)
        ensures
            c@ == (Timestamp { physical: latest_physical, logical }),
    {
        Self { latest_physical, logical }
    }

    /// The current state of the clock.
    pub fn state(&self) -> (t: Timestamp)
        ensures
            t == self@,
    {
        Timestamp { physical: self.latest_physical, logical: self.logical }
    }

    /// Generates a strictly increasing monotonic timestamp.
    pub fn now(&mut self) -> (ts: u64)
        requires
            old(self)@.logical < u32::MAX,
        ensures
            ts == spec_ts_value(final(self)@.physical, final(self)@.logical),
            final(self)@.physical >= old(self)@.physical,
            exists|p: u64| final(self)@ == spec_tick(old(self)@, p),
    {
        let physical_now = physical_now_ms();
        self.now_at(physical_now)
    }

    /// Issues a timestamp given the wall-clock reading `physical_now`.
    pub fn now_at(&mut self, physical_now: u64) -> (ts: u64)
        requires
            old(self)@.logical < u32::MAX,
        ensures
            final(self)@ == spec_tick(old(self)@, physical_now),
            ts == spec_ts_value(final(self)@.physical, final(self)@.logical),
    {
        if physical_now > self.latest_physical {
            self.latest_physical = physical_now;
            self.logical = 0;
        } else {
            self.logical = self.logical + 1;
        }
        Timestamp { physical: self.latest_physical, logical: self.logical }.encode()
    }

    /// Updates the clock upon receiving a message stamped `remote_ts` from a remote node.
    pub fn update(&mut self, remote_ts: u64)
        requires
            old(self)@.logical < u32::MAX,
        ensures
            final(self)@.physical >= old(self)@.physical,
            final(self)@.physical >= remote_ts / 0x10000,
            exists|p: u64| final(self)@ == spec_observe(old(self)@, remote_ts, p),
    {
        let physical_now = physical_now_ms();
        self.update_at(remote_ts, physical_now)
    }

    /// Updates the clock for `remote_ts` given the wall-clock reading `physical_now`.
    pub fn update_at(&mut self, remote_ts: u64, physical_now: u64)
        requires
            old(self)@.logical < u32::MAX,
        ensures
            final(self)@ == spec_observe(old(self)@, remote_ts, physical_now),
    {
        let remote = Timestamp::decode(remote_ts);
        let mut max_physical = if physical_now >= self.latest_physical {
            physical_now
        } else {
            self.latest_physical
        };
        if remote.physical > max_physical {
            max_physical = remote.physical;
        }
        if max_physical == self.latest_physical && max_physical == remote.physical {
            let base = if self.logical >= remote.logical {
                self.logical
            } else {
                remote.logical
            };
            self.logical = base + 1;
        } else if max_physical == self.latest_physical {
            self.logical = self.logical + 1;
        } else if max_physical == remote.physical {
            self.logical = remote.logical + 1;
        } else {
            self.logical = 0;
        }
        self.latest_physical = max_physical;
    }
}

/// Successive timestamps of one clock strictly increase, as long as the
/// counter has room (below 0xFFFF) and the physical parts fit in 48 bits.
pub proof fn lemma_tick_strictly_increasing(s: Timestamp, physical_now: u64)
    requires
        s.logical < 0xFFFF,
        s.physical < 0x1_0000_0000_0000,
        physical_now < 0x1_0000_0000_0000,
    ensures
        spec_ts_value(s.physical, s.logical) < spec_ts_value(
            spec_tick(s, physical_now).physical,
            spec_tick(s, physical_now).logical,
        ),
        ts_before(s, spec_tick(s, physical_now)),
{
    let n = spec_tick(s, physical_now);
    lemma_ts_order(s, n);
}

/// Observing a remote timestamp never moves the clock back and leaves it
/// strictly after the remote timestamp, as long as both counters have room.
pub proof fn lemma_observe_passes_remote(s: Timestamp, remote_ts: u64, physical_now: u64)
    requires
        s.logical < 0xFFFF,
        s.physical < 0x1_0000_0000_0000,
        physical_now < 0x1_0000_0000_0000,
        remote_ts % 0x10000 < 0xFFFF,
    ensures
        ts_in_range(spec_observe(s, remote_ts, physical_now)),
        spec_ts_value(s.physical, s.logical) < spec_ts_value(
            spec_observe(s, remote_ts, physical_now).physical,
            spec_observe(s, remote_ts, physical_now).logical,
        ),
        remote_ts < spec_ts_value(
            spec_observe(s, remote_ts, physical_now).physical,
            spec_observe(s, remote_ts, physical_now).logical,
        ),
{
    let n = spec_observe(s, remote_ts, physical_now);
    let r = Timestamp { physical: (remote_ts / 0x10000) as u64, logical: (remote_ts % 0x10000) as u32 };
    assert(r.physical < 0x1_0000_0000_0000);
    lemma_ts_order(s, n);
    lemma_ts_order(r, n);
    lemma_ts_encode_decode(remote_ts);
}

} // verus!
