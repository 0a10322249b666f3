//! Commands replicated through a region's raft log.
use vstd::prelude::*;

verus! {

#[derive(Debug, Clone)]
pub enum RaftCmd {
    SplitCmd { region_id: u64, split_key: Vec<u8>, new_region_id: u64 },
    TxnCmd { payload: Vec<u8> },
}

} // verus!
