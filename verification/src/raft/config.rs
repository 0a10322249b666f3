//! Raft node settings.
use vstd::prelude::*;

verus! {

/// `std::time::Duration::from_millis`: the span of `ms` milliseconds.  Nothing
/// about the value is stated here.
#[verifier::external_body]
fn duration_from_millis(ms: u64) -> std::time::Duration {
    std::time::Duration::from_millis(ms)
}

/// `Clone::clone` of `std::time::Duration`, a `Copy` type: the clone equals the value it copies.
pub assume_specification[ <std::time::Duration as Clone>::clone ](d: &std::time::Duration) -> (r: std::time::Duration)
    ensures
        r == *d,
;

#[derive(Debug, Clone)]
pub struct RaftConfig {
    pub node_id: u64,
    pub heartbeat_tick: usize,
    pub election_tick: usize,
    pub tick_interval: std::time::Duration,
    pub max_size_per_msg: u64,
    pub max_inflight_msgs: usize,
}

impl Default for RaftConfig {
    /// Node 1, heartbeat every 2 ticks, election after 10, ticks of 100 ms,
    /// messages up to 1 MiB and 256 in flight.
    fn default() -> (c: Self)
        ensures
            c.node_id == 1,
            c.heartbeat_tick == 2,
            c.election_tick == 10,
            c.max_size_per_msg == 1024 * 1024,
            c.max_inflight_msgs == 256,
    {
        Self {
            node_id: 1,
            heartbeat_tick: 2,
            election_tick: 10,
            tick_interval: duration_from_millis(100),
            max_size_per_msg: 1024 * 1024,
            max_inflight_msgs: 256,
        }
    }
}

} // verus!
