use protobuf::Message;
use kvstore::raft::config::RaftConfig;
use kvstore::raft::keys::{cs_key, entry_key, entry_prefix, hs_key, starts_with};
use kvstore::raft::log::{LogEntry, LogError, RaftLog};
use kvstore::raft::region::{Region as SizedRegion, RegionRouter as EndKeyRouter, RegionSplitter};
use kvstore::raft::router::{Region, RegionRouter, RouterError};
use kvstore::raft::state::{restore_raft_state, HardStateFields};
use kvstore::storage::engine::{Partition, StorageEngine};
use tempfile::tempdir;

#[test]
fn test_raft_storage_initialization() {
    let dir = tempdir().expect("Failed to create temp dir");
    let keyspace = fjall::Config::new(dir.path()).open().unwrap();
    let p_default = keyspace.open_partition("default", fjall::PartitionCreateOptions::default()).unwrap();
    let p_lock = keyspace.open_partition("lock", fjall::PartitionCreateOptions::default()).unwrap();
    let p_write = keyspace.open_partition("write", fjall::PartitionCreateOptions::default()).unwrap();
    let engine = StorageEngine::from_parts(keyspace, p_default, p_lock, p_write);

    let hs = engine.get(Partition::Default, &hs_key(1)).unwrap();
    let cs = engine.get(Partition::Default, &cs_key(1)).unwrap();
    let stored = engine.scan_prefix(Partition::Default, &entry_prefix(1)).unwrap();
    let (_, _, log) = restore_raft_state(hs, cs, &stored);

    assert_eq!(log.first_index(), 1, "First index should start at 1");
}

#[test]
fn test_region_range() {
    let region = Region {
        id: 1,
        start_key: b"a".to_vec(),
        end_key: b"z".to_vec(),
        peers: vec![1, 2, 3],
    };

    assert_eq!(region.id, 1);
    assert_eq!(region.peers.len(), 3);
}

fn region(id: u64, start: &[u8], end: &[u8]) -> Region {
    Region::new(id, start.to_vec(), end.to_vec(), vec![id])
}

#[test]
fn route_key_finds_covering_region() {
    let mut router = RegionRouter::new();
    router.insert_region(region(2, b"m", b""));
    router.insert_region(region(1, b"", b"m"));
    assert_eq!(router.route_key(b"a").unwrap().id, 1);
    assert_eq!(router.route_key(b"m").unwrap().id, 2);
    assert_eq!(router.route_key(b"zzz").unwrap().id, 2);
    let ids: Vec<u64> = router.regions().iter().map(|r| r.id).collect();
    assert_eq!(ids, vec![1, 2]);
}

#[test]
fn route_key_reports_missing_region() {
    let mut router = RegionRouter::new();
    router.insert_region(region(1, b"b", b"d"));
    match router.route_key(b"e") {
        Err(RouterError::RegionNotFound(k)) => assert_eq!(k, b"e".to_vec()),
        Ok(_) => panic!("no region covers e"),
    }
    assert!(router.route_key(b"a").is_err());
}

#[test]
fn insert_region_replaces_same_start_key() {
    let mut router = RegionRouter::default();
    router.insert_region(region(1, b"a", b"c"));
    router.insert_region(region(9, b"a", b"z"));
    assert_eq!(router.regions().len(), 1);
    assert_eq!(router.route_key(b"x").unwrap().id, 9);
}

#[test]
fn route_key_prefers_greatest_start_key() {
    let mut router = RegionRouter::new();
    router.insert_region(region(1, b"", b""));
    router.insert_region(region(2, b"k", b"p"));
    assert_eq!(router.route_key(b"l").unwrap().id, 2);
    assert_eq!(router.route_key(b"q").unwrap().id, 1);
}

fn sized(id: u64, start: &[u8], end: &[u8], size: u64) -> SizedRegion {
    SizedRegion { id, start_key: start.to_vec(), end_key: end.to_vec(), leader_addr: "127.0.0.1:50051".to_string(), size_bytes: size }
}

#[test]
fn region_contains_key_bounds() {
    let r = sized(1, b"b", b"d", 0);
    assert!(!r.contains_key(b"a"));
    assert!(r.contains_key(b"b"));
    assert!(r.contains_key(b"c"));
    assert!(!r.contains_key(b"d"));
    let open = sized(2, b"", b"", 0);
    assert!(open.contains_key(b""));
    assert!(open.contains_key(b"anything"));
}

#[test]
fn splitter_threshold_and_split() {
    let splitter = RegionSplitter::default();
    assert!(!splitter.should_split(&sized(1, b"", b"", 64 * 1024 * 1024 - 1)));
    assert!(splitter.should_split(&sized(1, b"", b"", 64 * 1024 * 1024)));
    let small = RegionSplitter::new(10);
    assert!(small.should_split(&sized(1, b"", b"", 10)));
    let (left, right) = small.split_region(&sized(7, b"a", b"z", 101), b"m".to_vec(), 8);
    assert_eq!((left.id, left.start_key.clone(), left.end_key.clone(), left.size_bytes), (7, b"a".to_vec(), b"m".to_vec(), 50));
    assert_eq!((right.id, right.start_key.clone(), right.end_key.clone(), right.size_bytes), (8, b"m".to_vec(), b"z".to_vec(), 50));
    assert_eq!(left.leader_addr, "127.0.0.1:50051");
    assert_eq!(right.leader_addr, "127.0.0.1:50051");
    for k in [&b"a"[..], b"l", b"m", b"y"] {
        assert!(left.contains_key(k) != right.contains_key(k));
    }
}

#[test]
fn end_key_router_routes_by_smallest_end_key() {
    let mut router = EndKeyRouter::new();
    router.insert_region(sized(1, b"", b"m", 0));
    router.insert_region(sized(2, b"m", b"", 0));
    assert_eq!(router.route(b"a").unwrap().id, 1);
    assert_eq!(router.route(b"q").unwrap().id, 2);
    let mut gap = EndKeyRouter::default();
    gap.insert_region(sized(3, b"c", b"f", 0));
    assert!(gap.route(b"z").is_none());
}

#[test]
fn raft_keys_are_formatted() {
    assert_eq!(hs_key(7), b"r_hs_7".to_vec());
    assert_eq!(cs_key(12), b"r_cs_12".to_vec());
    assert_eq!(entry_prefix(3), b"r_entry_3_".to_vec());
    assert_eq!(entry_key(3, 42), b"r_entry_3_00000000000000000042".to_vec());
    assert_eq!(entry_key(0, u64::MAX), b"r_entry_0_18446744073709551615".to_vec());
    assert_eq!(hs_key(0), b"r_hs_0".to_vec());
}

#[test]
fn entry_keys_sort_by_index_and_carry_prefix() {
    assert!(entry_key(1, 9) < entry_key(1, 10));
    assert!(entry_key(1, 99) < entry_key(1, 100));
    assert!(starts_with(&entry_key(5, 1), &entry_prefix(5)));
    assert!(!starts_with(&entry_key(51, 1), &entry_prefix(5)));
}

fn entry(index: u64, term: u64) -> LogEntry {
    LogEntry { index, term, entry_type: 0, data: vec![index as u8], context: vec![] }
}

#[test]
fn fresh_log_starts_at_one() {
    let log = RaftLog::new(vec![]);
    assert_eq!(log.first_index(), 1);
    assert_eq!(log.last_index(), 0);
    assert_eq!(log.snapshot_meta(), (0, 0));
    assert_eq!(log.term(0), Ok(0));
    assert_eq!(log.term(1), Err(LogError::Unavailable));
}

#[test]
fn log_append_truncates_conflicting_suffix() {
    let mut log = RaftLog::new(vec![]);
    log.append(&[entry(1, 1), entry(2, 1), entry(3, 1)]).unwrap();
    assert_eq!(log.last_index(), 3);
    log.append(&[entry(2, 2)]).unwrap();
    assert_eq!(log.last_index(), 2);
    assert_eq!(log.term(2), Ok(2));
    assert_eq!(log.term(1), Ok(1));
    assert_eq!(log.len(), 3);
    log.append(&[]).unwrap();
    assert_eq!(log.len(), 3);
}

#[test]
fn log_entries_and_errors() {
    let mut log = RaftLog::new(vec![entry(5, 3)]);
    assert_eq!(log.first_index(), 6);
    log.append(&[entry(6, 3), entry(7, 4)]).unwrap();
    let got = log.entries(6, 8).unwrap();
    assert_eq!(got.iter().map(|e| (e.index, e.term)).collect::<Vec<_>>(), vec![(6, 3), (7, 4)]);
    assert_eq!(got[1].data, vec![7]);
    assert!(matches!(log.entries(4, 6), Err(LogError::Compacted)));
    assert!(matches!(log.entries(6, 9), Err(LogError::Unavailable)));
    assert!(log.entries(7, 7).unwrap().is_empty());
    assert_eq!(log.term(4), Err(LogError::Compacted));
    assert_eq!(log.append(&[entry(4, 1)]), Err(LogError::Compacted));
}

#[test]
fn raft_config_defaults() {
    let c = RaftConfig::default();
    assert_eq!(c.node_id, 1);
    assert_eq!(c.heartbeat_tick, 2);
    assert_eq!(c.election_tick, 10);
    assert_eq!(c.tick_interval, std::time::Duration::from_millis(100));
    assert_eq!(c.max_size_per_msg, 1024 * 1024);
    assert_eq!(c.max_inflight_msgs, 256);
    let copy = c.clone();
    assert_eq!(copy.tick_interval, c.tick_interval);
}

#[test]
fn restore_raft_state_decodes_what_was_stored() {
    let mut hs = raft::eraftpb::HardState::default();
    hs.set_term(3);
    hs.set_vote(2);
    hs.set_commit(7);
    let mut cs = raft::eraftpb::ConfState::default();
    cs.set_voters(vec![1, 2, 3]);
    let mut e1 = raft::eraftpb::Entry::default();
    e1.set_index(5);
    e1.set_term(3);
    e1.set_data(b"a".to_vec().into());
    let mut e2 = raft::eraftpb::Entry::default();
    e2.set_index(6);
    e2.set_term(3);
    let stored = vec![
        (entry_key(1, 5), e1.write_to_bytes().unwrap()),
        (b"junk".to_vec(), vec![0xff, 0xff, 0xff]),
        (entry_key(1, 6), e2.write_to_bytes().unwrap()),
    ];
    let (h, c, log) = restore_raft_state(Some(hs.write_to_bytes().unwrap()), Some(cs.write_to_bytes().unwrap()), &stored);
    assert_eq!(h, HardStateFields { term: 3, vote: 2, commit: 7 });
    assert_eq!(c.voters, vec![1, 2, 3]);
    assert_eq!(log.first_index(), 6);
    assert_eq!(log.last_index(), 6);
    assert_eq!(log.term(6), Ok(3));
    let (h0, c0, log0) = restore_raft_state(None, Some(vec![0xff]), &Vec::new());
    assert_eq!(h0, HardStateFields { term: 0, vote: 0, commit: 0 });
    assert!(c0.voters.is_empty());
    assert_eq!(log0.first_index(), 1);
}
