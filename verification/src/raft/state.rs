//! The persisted raft state of a region: its hard state, its configuration and
//! its log entries, stored as protobuf messages and restored from their bytes.
use vstd::prelude::*;
use protobuf::Message;
use crate::raft::log::{LogEntry, LogEntryView, RaftLog, dummy_entry};

verus! {

/// The fields of a raft hard state.
#[derive(Debug, Clone, Copy, PartialEq, Eq, Structural)]
pub struct HardStateFields {
    pub term: u64,
    pub vote: u64,
    pub commit: u64,
}

/// The fields of a raft configuration state.
#[derive(Debug, Clone)]
pub struct ConfStateFields {
    pub voters: Vec<u64>,
    pub learners: Vec<u64>,
    pub voters_outgoing: Vec<u64>,
    pub learners_next: Vec<u64>,
    pub auto_leave: bool,
}

pub struct ConfStateView {
    pub voters: Seq<u64>,
    pub learners: Seq<u64>,
    pub voters_outgoing: Seq<u64>,
    pub learners_next: Seq<u64>,
    pub auto_leave: bool,
}

impl View for ConfStateFields {
    type V = ConfStateView;

    open spec fn view(&self) -> ConfStateView {
        ConfStateView {
            voters: self.voters@,
            learners: self.learners@,
            voters_outgoing: self.voters_outgoing@,
            learners_next: self.learners_next@,
            auto_leave: self.auto_leave,
        }
    }
}

/// The hard state of a region that has stored none.
pub open spec fn empty_hard_state() -> HardStateFields {
    HardStateFields { term: 0, vote: 0, commit: 0 }
}

/// The configuration of a region that has stored none.
pub open spec fn empty_conf_state() -> ConfStateView {
    ConfStateView {
        voters: Seq::empty(),
        learners: Seq::empty(),
        voters_outgoing: Seq::empty(),
        learners_next: Seq::empty(),
        auto_leave: false,
    }
}

/// What the protobuf bytes `b` decode to as a raft `Entry`, if they decode.
pub uninterp spec fn spec_parse_entry(b: Seq<u8>) -> Option<LogEntryView>;

/// What the protobuf bytes `b` decode to as a raft `HardState`, if they decode.
pub uninterp spec fn spec_parse_hard_state(b: Seq<u8>) -> Option<HardStateFields>;

/// What the protobuf bytes `b` decode to as a raft `ConfState`, if they decode.
pub uninterp spec fn spec_parse_conf_state(b: Seq<u8>) -> Option<ConfStateView>;

pub open spec fn opt_entry_view(e: Option<LogEntry>) -> Option<LogEntryView> {
    match e {
        Some(x) => Some(x@),
        None => None,
    }
}

pub open spec fn opt_conf_view(c: Option<ConfStateFields>) -> Option<ConfStateView> {
    match c {
        Some(x) => Some(x@),
        None => None,
    }
}

/// `protobuf::Message::parse_from_bytes` for `raft::eraftpb::Entry`: the entry
/// the bytes encode, its fields copied out (the entry type as its protobuf
/// number); `None` when they do not decode.  The result depends on the bytes
/// alone and is named, not spelled out.
#[verifier::external_body]
fn parse_entry(b: &[u8]) -> (r: Option<LogEntry>)
    ensures
        opt_entry_view(r) == spec_parse_entry(b@),
{
    match raft::eraftpb::Entry::parse_from_bytes(b) {
        Ok(e) => Some(LogEntry {
            index: e.get_index(),
            term: e.get_term(),
            entry_type: protobuf::ProtobufEnum::value(&e.get_entry_type()),
            data: e.get_data().to_vec(),
            context: e.get_context().to_vec(),
        }),
        Err(_) => None,
    }
}

/// `protobuf::Message::parse_from_bytes` for `raft::eraftpb::HardState`: its
/// term, vote and commit index; `None` when the bytes do not decode.
#[verifier::external_body]
fn parse_hard_state(b: &[u8]) -> (r: Option<HardStateFields>)
    ensures
        r == spec_parse_hard_state(b@),
{
    match raft::eraftpb::HardState::parse_from_bytes(b) {
        Ok(h) => Some(HardStateFields { term: h.get_term(), vote: h.get_vote(), commit: h.get_commit() }),
        Err(_) => None,
    }
}

/// `protobuf::Message::parse_from_bytes` for `raft::eraftpb::ConfState`: its
/// voter and learner lists and auto-leave flag; `None` when the bytes do not
/// decode.
#[verifier::external_body]
fn parse_conf_state(b: &[u8]) -> (r: Option<ConfStateFields>)
    ensures
        opt_conf_view(r) == spec_parse_conf_state(b@),
{
    match raft::eraftpb::ConfState::parse_from_bytes(b) {
        Ok(c) => Some(ConfStateFields {
            voters: c.get_voters().to_vec(),
            learners: c.get_learners().to_vec(),
            voters_outgoing: c.get_voters_outgoing().to_vec(),
            learners_next: c.get_learners_next().to_vec(),
            auto_leave: c.get_auto_leave(),
        }),
        Err(_) => None,
    }
}

/// The entries that the stored values decode to, in order; values that do not
/// decode are passed over.
pub open spec fn spec_parsed_entries(vals: Seq<Seq<u8>>) -> Seq<LogEntryView>
    decreases vals.len(),
{
    if vals.len() == 0 {
        Seq::empty()
    } else {
        let prev = spec_parsed_entries(vals.drop_last());
        match spec_parse_entry(vals.last()) {
            Some(e) => prev.push(e),
            None => prev,
        }
    }
}

/// The values of stored entries.
pub open spec fn stored_values(stored: Seq<(Vec<u8>, Vec<u8>)>) -> Seq<Seq<u8>> {
    stored.map_values(|e: (Vec<u8>, Vec<u8>)| e.1@)
}

/// Restores a region's raft state from what it stored: the hard state and the
/// configuration decode from their bytes (missing or undecodable ones give the
/// empty state), and the log holds the stored entries that decode, in order,
/// or just the dummy entry when there are none.
pub fn restore_raft_state(
    hs: Option<Vec<u8>>,
    cs: Option<Vec<u8>>,
    stored: &Vec<(Vec<u8>, Vec<u8>)>,
) -> (r: (HardStateFields, ConfStateFields, RaftLog))
    ensures
        r.0 == match hs {
            Some(b) => match spec_parse_hard_state(b@) {
                Some(h) => h,
                None => empty_hard_state(),
            },
            None => empty_hard_state(),
        },
        r.1@ == match cs {
            Some(b) => match spec_parse_conf_state(b@) {
                Some(c) => c,
                None => empty_conf_state(),
            },
            None => empty_conf_state(),
        },
        spec_parsed_entries(stored_values(stored@)).len() == 0 ==> r.2@ == seq![dummy_entry()],
        spec_parsed_entries(stored_values(stored@)).len() > 0 ==> r.2@ == spec_parsed_entries(
            stored_values(stored@),
        ),
{
    let hard = match hs {
        Some(b) => match parse_hard_state(b.as_slice()) {
            Some(h) => h,
            None => HardStateFields { term: 0, vote: 0, commit: 0 },
        },
        None => HardStateFields { term: 0, vote: 0, commit: 0 },
    };
    let empty_conf = ConfStateFields {
        voters: Vec::new(),
        learners: Vec::new(),
        voters_outgoing: Vec::new(),
        learners_next: Vec::new(),
        auto_leave: false,
    };
    proof {
        assert(empty_conf@ =~= empty_conf_state());
    }
    let conf = match cs {
        Some(b) => match parse_conf_state(b.as_slice()) {
            Some(c) => c,
            None => empty_conf,
        },
        None => empty_conf,
    };
    let ghost vals = stored_values(stored@);
    let mut entries: Vec<LogEntry> = Vec::new();
    let mut i: usize = 0;
    while i < stored.len()
        invariant
            i <= stored@.len(),
            vals == stored_values(stored@),
            entries@.map_values(|e: LogEntry| e@) == spec_parsed_entries(vals.take(i as int)),
        decreases stored@.len() - i,
    {
        let parsed = parse_entry(stored[i].1.as_slice());
        proof {
            assert(vals.take(i + 1).drop_last() =~= vals.take(i as int));
            assert(vals.take(i + 1).last() == stored@[i as int].1@);
        }
        if let Some(e) = parsed {
            let ghost before = entries@;
            entries.push(e);
            assert(entries@.map_values(|x: LogEntry| x@) =~= before.map_values(|x: LogEntry| x@).push(e@));
        }
        i = i + 1;
    }
    proof {
        assert(vals.take(stored@.len() as int) =~= vals);
    }
    let log = RaftLog::new(entries);
    (hard, conf, log)
}

} // verus!
