use kvstore::service::{choose_split_key, mutation_from_wire, mutation_to_wire, read_timestamp, split_recommended, status_fields};
use kvstore::storage::engine::{BatchOp, Partition, StorageEngine};
use kvstore::storage::key::KeyEncoder;
use kvstore::storage::lock::Lock;
use kvstore::storage::mvcc::{OpType, WriteRecord};
use kvstore::storage::reader::{MvccError, MvccReader, ReadStep};
use kvstore::storage::scan::{gc_plan, keys_in_range, median_key, region_stats};
use kvstore::txn::coordinator::{ConflictStep, LockCheck, Mutation, TransactionCoordinator, TxnError};
use kvstore::txn::hlc::{HybridLogicalClock, Timestamp};
use kvstore::txn::lock_resolver::{lock_expired, LockResolver, StatusStep, TxnStatus};
use tempfile::{tempdir, TempDir};

fn open_engine(dir: &TempDir) -> StorageEngine {
    let keyspace = fjall::Config::new(dir.path()).open().unwrap();
    let p_default = keyspace.open_partition("default", fjall::PartitionCreateOptions::default()).unwrap();
    let p_lock = keyspace.open_partition("lock", fjall::PartitionCreateOptions::default()).unwrap();
    let p_write = keyspace.open_partition("write", fjall::PartitionCreateOptions::default()).unwrap();
    StorageEngine::from_parts(keyspace, p_default, p_lock, p_write)
}

struct Harness {
    _dir: TempDir,
    engine: StorageEngine,
    coordinator: TransactionCoordinator,
}

fn harness() -> Harness {
    let dir = tempdir().unwrap();
    let engine = open_engine(&dir);
    let coordinator = TransactionCoordinator::new(engine.clone(), HybridLogicalClock::new());
    Harness { _dir: dir, engine, coordinator }
}

fn wait_ms(ms: u64) {
    let start = std::time::Instant::now();
    while start.elapsed() < std::time::Duration::from_millis(ms) {}
}

fn put(key: &[u8], value: &[u8]) -> Mutation {
    Mutation::Put { key: key.to_vec(), value: value.to_vec() }
}

#[test]
fn prewrite_commit_then_read() {
    let mut h = harness();
    let start_ts = h.coordinator.begin();
    let key = b"sim_key".to_vec();
    let val = b"sim_val".to_vec();
    h.coordinator.prewrite(start_ts, &[put(&key, &val)], &key, 3000).0.unwrap();
    let commit_ts = h.coordinator.now();
    h.coordinator.commit(start_ts, commit_ts, &[key.clone()]).0.unwrap();
    let read_ts = h.coordinator.now();
    assert_eq!(h.coordinator.get(&key, read_ts).0.unwrap(), Some(val));
    assert_eq!(h.coordinator.get(&key, start_ts).0.unwrap(), None);
    assert_eq!(h.coordinator.check_txn_status(&key, start_ts).0.unwrap(), TxnStatus::Committed { commit_ts });
}

#[test]
fn expired_lock_is_resolved_on_read() {
    let mut h = harness();
    let start_ts1 = h.coordinator.begin();
    let primary_key = b"primary_key".to_vec();
    let secondary_key = b"secondary_key".to_vec();
    let val = b"val1".to_vec();
    h.coordinator.prewrite(start_ts1, &[put(&primary_key, &val), put(&secondary_key, &val)], &primary_key, 1).0.unwrap();
    wait_ms(15);
    let start_ts2 = h.coordinator.begin();
    let res = h.coordinator.get(&secondary_key, start_ts2).0;
    assert!(res.is_ok());
    assert_eq!(res.unwrap(), None);
    assert_eq!(h.coordinator.check_txn_status(&primary_key, start_ts1).0.unwrap(), TxnStatus::RolledBack);
}

#[test]
fn mvcc_range_scan_in_key_order() {
    let mut h = harness();
    let keys = vec![b"key_3".to_vec(), b"key_1".to_vec(), b"key_5".to_vec(), b"key_2".to_vec(), b"key_4".to_vec()];
    for (i, key) in keys.into_iter().enumerate() {
        let start_ts = h.coordinator.begin();
        let val = format!("val_{}", i + 1).into_bytes();
        h.coordinator.prewrite(start_ts, &[put(&key, &val)], &key, 3000).0.unwrap();
        let commit_ts = h.coordinator.now();
        h.coordinator.commit(start_ts, commit_ts, &[key]).0.unwrap();
    }
    let read_ts = h.coordinator.now();
    let results = h.coordinator.scan(b"key_1", b"key_6", 10, read_ts).0.unwrap();
    assert_eq!(results.len(), 5);
    assert_eq!(results[0].0, b"key_1");
    assert_eq!(results[1].0, b"key_2");
    assert_eq!(results[2].0, b"key_3");
    assert_eq!(results[3].0, b"key_4");
    assert_eq!(results[4].0, b"key_5");
    assert_eq!(results[0].1, b"val_2");
    let limited = h.coordinator.scan(b"key_2", b"", 2, read_ts).0.unwrap();
    assert_eq!(limited.iter().map(|kv| kv.0.clone()).collect::<Vec<_>>(), vec![b"key_2".to_vec(), b"key_3".to_vec()]);
    let keys = h.engine.get_keys_in_range(b"key_2", b"key_4").0.unwrap();
    assert_eq!(keys, vec![b"key_2".to_vec(), b"key_3".to_vec()]);
    assert_eq!(h.engine.find_median_key(b"", b"").0.unwrap(), Some(b"key_3".to_vec()));
    let (count, bytes) = h.engine.calculate_region_stats(b"", b"").0.unwrap();
    assert_eq!(count, 5);
    assert_eq!(bytes, 5 * (13 + 9));
}

#[test]
fn gc_keeps_newest_version_below_safe_point() {
    let mut h = harness();
    let key = b"gc_key".to_vec();
    let mut commits = Vec::new();
    for v in [b"v1", b"v2", b"v3"] {
        let t = h.coordinator.begin();
        h.coordinator.prewrite(t, &[put(&key, v)], &key, 3000).0.unwrap();
        let c = h.coordinator.now();
        h.coordinator.commit(t, c, &[key.clone()]).0.unwrap();
        commits.push(c);
    }
    let gc_count = h.engine.gc_keys_older_than(commits[2]).0.unwrap();
    assert_eq!(gc_count, 1);
    assert_eq!(h.engine.gc_keys_older_than(commits[2]).0.unwrap(), 0);
    let read_ts = h.coordinator.now();
    assert_eq!(h.coordinator.get(&key, read_ts).0.unwrap(), Some(b"v3".to_vec()));
    assert_eq!(h.coordinator.get(&key, commits[1]).0.unwrap(), Some(b"v2".to_vec()));
}

#[test]
fn newer_commit_causes_write_conflict() {
    let mut h = harness();
    let key = b"k".to_vec();
    let s1 = h.coordinator.begin();
    let s2 = h.coordinator.begin();
    h.coordinator.prewrite(s2, &[put(&key, b"b")], &key, 3000).0.unwrap();
    let c2 = h.coordinator.now();
    h.coordinator.commit(s2, c2, &[key.clone()]).0.unwrap();
    match h.coordinator.prewrite(s1, &[put(&key, b"a")], &key, 3000).0 {
        Err(TxnError::WriteConflict(k, ts)) => {
            assert_eq!(k, key);
            assert_eq!(ts, s1);
        }
        other => panic!("expected a write conflict, got {:?}", other.is_ok()),
    }
}

#[test]
fn rolled_back_transaction_cannot_prewrite_again() {
    let mut h = harness();
    let key = b"rb".to_vec();
    let s = h.coordinator.begin();
    h.coordinator.prewrite(s, &[put(&key, b"x")], &key, 3000).0.unwrap();
    h.coordinator.rollback(s, &[key.clone()]).0.unwrap();
    assert!(matches!(h.coordinator.prewrite(s, &[put(&key, b"x")], &key, 3000).0, Err(TxnError::TransactionRolledBack)));
    let c = h.coordinator.now();
    assert!(matches!(h.coordinator.commit(s, c, &[key.clone()]).0, Err(TxnError::TransactionRolledBack)));
    assert_eq!(h.coordinator.check_txn_status(&key, s).0.unwrap(), TxnStatus::RolledBack);
    let read_ts = h.coordinator.now();
    assert_eq!(h.coordinator.get(&key, read_ts).0.unwrap(), None);
}

#[test]
fn live_lock_blocks_reads_and_heartbeat_extends_it() {
    let mut h = harness();
    let key = b"busy".to_vec();
    let s = h.coordinator.begin();
    h.coordinator.prewrite(s, &[put(&key, b"x")], &key, 100_000).0.unwrap();
    assert_eq!(h.coordinator.check_txn_status(&key, s).0.unwrap(), TxnStatus::Locked { ttl: 100_000 });
    assert_eq!(h.coordinator.heartbeat(&key, s, 200_000).0.unwrap(), 200_000);
    assert_eq!(h.coordinator.check_txn_status(&key, s).0.unwrap(), TxnStatus::Locked { ttl: 200_000 });
    assert!(matches!(h.coordinator.heartbeat(&key, s + 1, 5).0, Err(TxnError::TransactionRolledBack)));
    assert_eq!(h.coordinator.heartbeat(&key, s, 5).0.unwrap(), 200_000);
    assert_eq!(h.coordinator.check_txn_status(&key, s).0.unwrap(), TxnStatus::Locked { ttl: 200_000 });
    let read_ts = h.coordinator.now();
    match h.coordinator.get(&key, read_ts).0 {
        Err(TxnError::KeyLocked(k)) => assert_eq!(k, key),
        _ => panic!("expected the key to be locked"),
    }
    let reader = MvccReader::new(&h.engine);
    match reader.get(&key, read_ts).0 {
        Err(MvccError::KeyIsLocked { primary_key, lock_ts }) => {
            assert_eq!(primary_key, key);
            assert_eq!(lock_ts, s);
        }
        _ => panic!("expected the reader to report the lock"),
    }
    assert_eq!(reader.get(&key, s - 1).0.unwrap(), None);
}

#[test]
fn delete_commit_hides_value() {
    let mut h = harness();
    let key = b"d".to_vec();
    let s1 = h.coordinator.begin();
    h.coordinator.prewrite(s1, &[put(&key, b"v")], &key, 3000).0.unwrap();
    let c1 = h.coordinator.now();
    h.coordinator.commit(s1, c1, &[key.clone()]).0.unwrap();
    let s2 = h.coordinator.begin();
    h.coordinator.prewrite(s2, &[Mutation::Delete { key: key.clone() }], &key, 3000).0.unwrap();
    let c2 = h.coordinator.now();
    h.coordinator.commit(s2, c2, &[key.clone()]).0.unwrap();
    let r = h.coordinator.now();
    assert_eq!(h.coordinator.get(&key, r).0.unwrap(), None);
    assert_eq!(h.coordinator.get(&key, c1).0.unwrap(), Some(b"v".to_vec()));
}

#[test]
fn secondary_delete_is_rolled_forward_as_a_delete() {
    let mut h = harness();
    let p = b"p".to_vec();
    let s = b"s".to_vec();
    let t0 = h.coordinator.begin();
    h.coordinator.prewrite(t0, &[put(&s, b"old")], &s, 100_000).0.unwrap();
    let c0 = h.coordinator.now();
    h.coordinator.commit(t0, c0, &[s.clone()]).0.unwrap();
    let t = h.coordinator.begin();
    h.coordinator.prewrite(t, &[put(&p, b"pv"), Mutation::Delete { key: s.clone() }], &p, 100_000).0.unwrap();
    let c = h.coordinator.now();
    h.coordinator.commit(t, c, &[p.clone()]).0.unwrap();
    let r = h.coordinator.now();
    assert_eq!(h.coordinator.get(&s, r).0.unwrap(), None);
    assert_eq!(h.coordinator.get(&s, c0).0.unwrap(), Some(b"old".to_vec()));
}

#[test]
fn secondary_is_rolled_forward_after_primary_commit() {
    let mut h = harness();
    let p = b"p".to_vec();
    let s = b"s".to_vec();
    let t = h.coordinator.begin();
    h.coordinator.prewrite(t, &[put(&p, b"pv"), put(&s, b"sv")], &p, 100_000).0.unwrap();
    let c = h.coordinator.now();
    h.coordinator.commit(t, c, &[p.clone()]).0.unwrap();
    let r = h.coordinator.now();
    assert_eq!(h.coordinator.get(&s, r).0.unwrap(), Some(b"sv".to_vec()));
    let resolver = LockResolver::new(h.engine.clone());
    assert_eq!(resolver.check_txn_status(&s, t).0.unwrap(), TxnStatus::Committed { commit_ts: c });
}

#[test]
fn first_from_skips_to_the_next_stored_key() {
    let h = harness();
    h.engine.apply(vec![
        BatchOp::Insert { partition: Partition::Write, key: b"b".to_vec(), value: b"1".to_vec() },
        BatchOp::Insert { partition: Partition::Write, key: b"d".to_vec(), value: b"2".to_vec() },
    ]).unwrap();
    let (k, v) = h.engine.first_from(Partition::Write, b"a").unwrap().unwrap();
    assert_eq!((k, v), (b"b".to_vec(), b"1".to_vec()));
    let (k2, _) = h.engine.first_from(Partition::Write, b"c").unwrap().unwrap();
    assert_eq!(k2, b"d".to_vec());
    assert!(h.engine.first_from(Partition::Write, b"e").unwrap().is_none());
    assert_eq!(h.engine.get(Partition::Write, b"d").unwrap(), Some(b"2".to_vec()));
    let all = h.engine.scan_all(Partition::Write).unwrap();
    assert_eq!(all.len(), 2);
}

#[test]
fn scan_prefix_stops_at_the_first_foreign_key() {
    let h = harness();
    h.engine.apply(vec![
        BatchOp::Insert { partition: Partition::Default, key: b"r_entry_1_02".to_vec(), value: b"b".to_vec() },
        BatchOp::Insert { partition: Partition::Default, key: b"r_entry_1_01".to_vec(), value: b"a".to_vec() },
        BatchOp::Insert { partition: Partition::Default, key: b"r_entry_2_01".to_vec(), value: b"c".to_vec() },
        BatchOp::Insert { partition: Partition::Default, key: b"r_entry_0".to_vec(), value: b"z".to_vec() },
    ]).unwrap();
    let found = h.engine.scan_prefix(Partition::Default, b"r_entry_1_").unwrap();
    assert_eq!(
        found,
        vec![
            (b"r_entry_1_01".to_vec(), b"a".to_vec()),
            (b"r_entry_1_02".to_vec(), b"b".to_vec()),
        ]
    );
    assert!(h.engine.scan_prefix(Partition::Default, b"r_entry_3_").unwrap().is_empty());
    assert_eq!(h.engine.scan_prefix(Partition::Default, b"").unwrap().len(), 4);
}

#[test]
fn lock_check_classifies_stored_locks() {
    assert!(matches!(TransactionCoordinator::lock_check(None, 7), LockCheck::Free));
    let own = Lock::new(b"pk".to_vec(), 7, 30, OpType::Delete);
    match TransactionCoordinator::lock_check(Some(own.to_bytes()), 7) {
        LockCheck::Own(l) => assert_eq!(l, own),
        other => panic!("expected the transaction's own lock, got {:?}", other),
    }
    match TransactionCoordinator::lock_check(Some(own.to_bytes()), 8) {
        LockCheck::Other(l) => assert_eq!(l.start_ts, 7),
        other => panic!("expected another transaction's lock, got {:?}", other),
    }
    assert!(matches!(TransactionCoordinator::lock_check(Some(vec![9; 3]), 7), LockCheck::Corrupted));
}

#[test]
fn prewritten_lock_is_owned_by_its_transaction() {
    let start = 2000u64 << 16;
    let m = Mutation::Put { key: b"k".to_vec(), value: b"v".to_vec() };
    let ops = TransactionCoordinator::prewrite_ops(&m, b"pk", start, 40);
    assert_eq!(ops.len(), 2);
    let lock_bytes = match &ops[1] {
        BatchOp::Insert { partition: Partition::Lock, key, value } => {
            assert_eq!(key, &b"k".to_vec());
            value.clone()
        }
        other => panic!("expected the lock insert, got {:?}", other),
    };
    match TransactionCoordinator::lock_check(Some(lock_bytes.clone()), start) {
        LockCheck::Own(l) => assert_eq!(l, Lock::new(b"pk".to_vec(), start, 40, OpType::Put)),
        other => panic!("expected the transaction's own lock, got {:?}", other),
    }
    assert!(matches!(TransactionCoordinator::lock_check(Some(lock_bytes.clone()), start + 1), LockCheck::Other(_)));
    let (status, ops) = LockResolver::primary_lock_status(b"k", start, Some(lock_bytes.clone()), 2040);
    assert_eq!(status, TxnStatus::Locked { ttl: 40 });
    assert!(ops.is_none());
    let (status, ops) = LockResolver::primary_lock_status(b"k", start, Some(lock_bytes), 2041);
    assert_eq!(status, TxnStatus::RolledBack);
    assert_eq!(ops.unwrap().len(), 2);
}

#[test]
fn build_batch_holds_one_item_per_op() {
    let h = harness();
    assert!(h.engine.batch().is_empty());
    let ops = vec![
        BatchOp::Insert { partition: Partition::Default, key: b"a".to_vec(), value: b"1".to_vec() },
        BatchOp::Remove { partition: Partition::Lock, key: b"b".to_vec() },
        BatchOp::Insert { partition: Partition::Write, key: b"c".to_vec(), value: b"3".to_vec() },
    ];
    let batch = h.engine.build_batch(&ops);
    assert_eq!(batch.len(), 3);
    h.engine.commit_batch(batch).unwrap();
    assert_eq!(h.engine.get(Partition::Default, b"a").unwrap(), Some(b"1".to_vec()));
    assert_eq!(h.engine.get(Partition::Write, b"c").unwrap(), Some(b"3".to_vec()));
    assert_eq!(h.engine.get(Partition::Lock, b"b").unwrap(), None);
}

#[test]
fn longest_storable_key_is_scanned_without_panic() {
    let mut h = harness();
    let long = vec![b'z'; 65527];
    let t = h.coordinator.begin();
    h.coordinator.prewrite(t, &[put(&long, b"v")], &long, 3000).0.unwrap();
    let c = h.coordinator.now();
    h.coordinator.commit(t, c, &[long.clone()]).0.unwrap();
    let t2 = h.coordinator.begin();
    h.coordinator.prewrite(t2, &[put(b"a", b"w")], b"a", 3000).0.unwrap();
    let c2 = h.coordinator.now();
    h.coordinator.commit(t2, c2, &[b"a".to_vec()]).0.unwrap();
    let all = h.engine.scan_all(Partition::Write).unwrap();
    assert_eq!(all.len(), 2);
    assert_eq!(all[1].0.len(), 65535);
    let r = h.coordinator.now();
    assert_eq!(h.coordinator.get(&long, r).0.unwrap(), Some(b"v".to_vec()));
    let kvs = h.coordinator.scan(b"", b"", 0, r).0.unwrap();
    assert_eq!(kvs, vec![(b"a".to_vec(), b"w".to_vec()), (long.clone(), b"v".to_vec())]);
}

#[test]
fn first_mutation_is_the_primary() {
    let mut h = harness();
    let t = h.coordinator.begin();
    h.coordinator.prewrite(t, &[put(b"first", b"1"), put(b"second", b"2")], b"other", 3000).0.unwrap();
    let lock = Lock::from_bytes(&h.engine.get(Partition::Lock, b"second").unwrap().unwrap()).unwrap();
    assert_eq!(lock.primary_key, b"first".to_vec());
}

#[test]
fn read_step_decisions() {
    let k = b"k";
    let put_rec = WriteRecord::new(5, OpType::Put).to_bytes();
    match MvccReader::read_step(k, 10, &KeyEncoder::encode(k, 7), &put_rec) {
        ReadStep::Fetch(dk) => assert_eq!(dk, KeyEncoder::encode(k, 5)),
        _ => panic!("expected a fetch"),
    }
    assert!(matches!(MvccReader::read_step(k, 6, &KeyEncoder::encode(k, 7), &put_rec), ReadStep::Skip));
    assert!(matches!(MvccReader::read_step(k, 10, &KeyEncoder::encode(b"j", 7), &put_rec), ReadStep::PastKey));
    assert!(matches!(MvccReader::read_step(k, 10, b"short", &put_rec), ReadStep::Corrupted));
    assert!(matches!(MvccReader::read_step(k, 10, &KeyEncoder::encode(k, 7), &[9]), ReadStep::Corrupted));
    let del = WriteRecord::new(5, OpType::Delete).to_bytes();
    assert!(matches!(MvccReader::read_step(k, 10, &KeyEncoder::encode(k, 7), &del), ReadStep::Deleted));
    let rb = WriteRecord::new(5, OpType::Rollback).to_bytes();
    assert!(matches!(MvccReader::read_step(k, 10, &KeyEncoder::encode(k, 5), &rb), ReadStep::Skip));
}

#[test]
fn lock_checks_for_reads() {
    let lock = Lock::new(b"p".to_vec(), 10, 5, OpType::Put).to_bytes();
    assert!(MvccReader::check_lock(&None, 3).is_ok());
    assert!(MvccReader::check_lock(&Some(lock.clone()), 9).is_ok());
    match MvccReader::check_lock(&Some(lock), 10) {
        Err(MvccError::KeyIsLocked { primary_key, lock_ts }) => {
            assert_eq!(primary_key, b"p".to_vec());
            assert_eq!(lock_ts, 10);
        }
        _ => panic!("expected a lock"),
    }
    assert!(matches!(MvccReader::check_lock(&Some(vec![1, 2]), 10), Err(MvccError::CorruptedState)));
}

#[test]
fn conflict_and_status_steps() {
    let k = b"k";
    let commit = WriteRecord::new(3, OpType::Put).to_bytes();
    assert_eq!(TransactionCoordinator::conflict_step(k, 5, &KeyEncoder::encode(k, 6), &commit), ConflictStep::Conflict);
    assert_eq!(TransactionCoordinator::conflict_step(k, 5, &KeyEncoder::encode(k, 5), &commit), ConflictStep::Conflict);
    assert_eq!(TransactionCoordinator::conflict_step(k, 5, &KeyEncoder::encode(k, 4), &commit), ConflictStep::Continue);
    let rb = WriteRecord::new(5, OpType::Rollback).to_bytes();
    assert_eq!(TransactionCoordinator::conflict_step(k, 5, &KeyEncoder::encode(k, 5), &rb), ConflictStep::RolledBack);
    assert_eq!(TransactionCoordinator::conflict_step(k, 5, &KeyEncoder::encode(b"z", 5), &rb), ConflictStep::PastKey);
    assert_eq!(TransactionCoordinator::conflict_step(k, 5, b"x", &rb), ConflictStep::Corrupted);
    assert_eq!(LockResolver::status_step(k, 3, &KeyEncoder::encode(k, 8), &commit), StatusStep::Found(TxnStatus::Committed { commit_ts: 8 }));
    assert_eq!(LockResolver::status_step(k, 4, &KeyEncoder::encode(k, 8), &commit), StatusStep::Skip);
    assert_eq!(LockResolver::status_step(k, 5, &KeyEncoder::encode(k, 5), &rb), StatusStep::Found(TxnStatus::RolledBack));
    assert_eq!(LockResolver::status_step(k, 5, &KeyEncoder::encode(b"a", 5), &rb), StatusStep::PastKey);
    assert_eq!(LockResolver::status_step(k, 5, &KeyEncoder::encode(k, 5), &[7]), StatusStep::Skip);
}

#[test]
fn lock_expiry_and_resolution_plans() {
    let start = 1000u64 << 16;
    assert!(!lock_expired(start, 10, 1010));
    assert!(lock_expired(start, 10, 1011));
    assert!(!lock_expired(u64::MAX, u64::MAX, u64::MAX));
    let lock = Lock::new(b"p".to_vec(), start, 10, OpType::Delete);
    match LockResolver::resolve_plan(b"s", &lock, &TxnStatus::Committed { commit_ts: 99 }, 0).unwrap().as_slice() {
        [BatchOp::Insert { partition: Partition::Write, key, value }, BatchOp::Remove { partition: Partition::Lock, key: lk }] => {
            assert_eq!(key, &KeyEncoder::encode(b"s", 99));
            assert_eq!(value, &WriteRecord::new(start, OpType::Delete).to_bytes());
            assert_eq!(lk, &b"s".to_vec());
        }
        _ => panic!("expected a roll-forward"),
    }
    match LockResolver::resolve_plan(b"s", &lock, &TxnStatus::RolledBack, 0).unwrap().as_slice() {
        [BatchOp::Insert { key, value, .. }, BatchOp::Remove { .. }] => {
            assert_eq!(key, &KeyEncoder::encode(b"s", start));
            assert_eq!(value, &WriteRecord::new(start, OpType::Rollback).to_bytes());
        }
        _ => panic!("expected a rollback"),
    }
    assert!(LockResolver::resolve_plan(b"s", &lock, &TxnStatus::Locked { ttl: 10 }, 1005).is_none());
    assert!(LockResolver::resolve_plan(b"s", &lock, &TxnStatus::Locked { ttl: 10 }, 2000).is_some());
}

#[test]
fn primary_lock_status_decides_from_the_stored_lock() {
    let start = 1000u64 << 16;
    let own = Lock::new(b"p".to_vec(), start, 50, OpType::Put).to_bytes();
    let (status, ops) = LockResolver::primary_lock_status(b"p", start, Some(own.clone()), 1050);
    assert_eq!(status, TxnStatus::Locked { ttl: 50 });
    assert!(ops.is_none());
    let (status, ops) = LockResolver::primary_lock_status(b"p", start, Some(own.clone()), 1051);
    assert_eq!(status, TxnStatus::RolledBack);
    match ops.unwrap().as_slice() {
        [BatchOp::Insert { partition: Partition::Write, key, value }, BatchOp::Remove { partition: Partition::Lock, key: lk }] => {
            assert_eq!(key, &KeyEncoder::encode(b"p", start));
            assert_eq!(value, &WriteRecord::new(start, OpType::Rollback).to_bytes());
            assert_eq!(lk, &b"p".to_vec());
        }
        _ => panic!("expected a rollback of the primary"),
    }
    let (status, ops) = LockResolver::primary_lock_status(b"p", start + 1, Some(own), 1050);
    assert_eq!(status, TxnStatus::RolledBack);
    assert!(ops.is_none());
    let (status, ops) = LockResolver::primary_lock_status(b"p", start, None, 1050);
    assert_eq!(status, TxnStatus::RolledBack);
    assert!(ops.is_none());
    let (status, ops) = LockResolver::primary_lock_status(b"p", start, Some(vec![1, 2]), 1050);
    assert_eq!(status, TxnStatus::RolledBack);
    assert!(ops.is_none());
}

fn entry(key: &[u8], ts: u64, rec: WriteRecord) -> (Vec<u8>, Vec<u8>) {
    (KeyEncoder::encode(key, ts), rec.to_bytes())
}

#[test]
fn gc_plan_keeps_newest_committed_version_behind_a_rollback() {
    let k = b"g";
    let entries = vec![
        entry(k, 8, WriteRecord::new(7, OpType::Rollback)),
        entry(k, 5, WriteRecord::new(4, OpType::Put)),
        entry(k, 3, WriteRecord::new(2, OpType::Put)),
    ];
    let (ops, count) = gc_plan(&entries, 10);
    assert_eq!(count, 1);
    match ops.as_slice() {
        [BatchOp::Remove { partition: Partition::Write, key }, BatchOp::Remove { partition: Partition::Default, key: dk }] => {
            assert_eq!(key, &KeyEncoder::encode(k, 3));
            assert_eq!(dk, &KeyEncoder::encode(k, 2));
        }
        _ => panic!("expected the oldest put to go"),
    }
}

#[test]
fn gc_plan_removes_all_but_newest_old_version() {
    let entries = vec![
        entry(b"a", 30, WriteRecord::new(29, OpType::Put)),
        entry(b"a", 20, WriteRecord::new(19, OpType::Put)),
        entry(b"a", 10, WriteRecord::new(9, OpType::Put)),
        entry(b"a", 5, WriteRecord::new(4, OpType::Delete)),
        (b"bad".to_vec(), vec![]),
        entry(b"b", 10, WriteRecord::new(9, OpType::Put)),
    ];
    let (ops, count) = gc_plan(&entries, 25);
    assert_eq!(count, 2);
    assert_eq!(ops.len(), 4);
    match &ops[0] {
        BatchOp::Remove { partition: Partition::Write, key } => assert_eq!(key, &KeyEncoder::encode(b"a", 10)),
        _ => panic!("expected a write removal"),
    }
    match &ops[1] {
        BatchOp::Remove { partition: Partition::Default, key } => assert_eq!(key, &KeyEncoder::encode(b"a", 9)),
        _ => panic!("expected a data removal"),
    }
    let (_, none) = gc_plan(&entries, 5);
    assert_eq!(none, 0);
}

#[test]
fn range_keys_stats_and_median() {
    let entries = vec![
        entry(b"a", 2, WriteRecord::new(1, OpType::Put)),
        entry(b"a", 1, WriteRecord::new(1, OpType::Put)),
        entry(b"c", 1, WriteRecord::new(1, OpType::Put)),
        entry(b"b", 1, WriteRecord::new(1, OpType::Put)),
        (b"junk".to_vec(), vec![1]),
    ];
    assert_eq!(keys_in_range(&entries, b"", b""), vec![b"a".to_vec(), b"b".to_vec(), b"c".to_vec()]);
    assert_eq!(keys_in_range(&entries, b"b", b""), vec![b"b".to_vec(), b"c".to_vec()]);
    assert_eq!(keys_in_range(&entries, b"", b"b"), vec![b"a".to_vec()]);
    assert_eq!(region_stats(&entries, b"", b""), (3, 4 * (9 + 9)));
    assert_eq!(region_stats(&entries, b"b", b"c"), (1, 18));
    assert_eq!(median_key(&vec![b"a".to_vec()]), None);
    assert_eq!(median_key(&vec![b"a".to_vec(), b"b".to_vec(), b"c".to_vec()]), Some(b"b".to_vec()));
}

#[test]
fn timestamp_packing() {
    let t = Timestamp { physical: 5, logical: 3 };
    assert_eq!(t.encode(), (5 << 16) | 3);
    assert_eq!(Timestamp::decode((5 << 16) | 3), t);
    assert_eq!(Timestamp { physical: 1, logical: 0x1_0001 }.encode(), (1 << 16) | 1);
    assert_eq!(Timestamp::decode(u64::MAX), Timestamp { physical: u64::MAX >> 16, logical: 0xFFFF });
}

#[test]
fn hlc_ticks_and_observes() {
    let mut clock = HybridLogicalClock::from_parts(100, 0);
    assert_eq!(clock.now_at(100), (100 << 16) | 1);
    assert_eq!(clock.now_at(99), (100 << 16) | 2);
    assert_eq!(clock.now_at(150), 150 << 16);
    clock.update_at((200 << 16) | 7, 120);
    assert_eq!(clock.state(), Timestamp { physical: 200, logical: 8 });
    clock.update_at((200 << 16) | 3, 100);
    assert_eq!(clock.state(), Timestamp { physical: 200, logical: 9 });
    clock.update_at(5, 300);
    assert_eq!(clock.state(), Timestamp { physical: 300, logical: 0 });
    clock.update_at(5, 10);
    assert_eq!(clock.state(), Timestamp { physical: 300, logical: 1 });
    let mut live = HybridLogicalClock::new();
    let a = live.now();
    let b = live.now();
    assert!(b > a);
}

#[test]
fn service_decisions() {
    assert_eq!(read_timestamp(0, 77), 77);
    assert_eq!(read_timestamp(5, 77), 5);
    assert!(split_recommended(10000, 0));
    assert!(split_recommended(0, 64 * 1024 * 1024));
    assert!(!split_recommended(9999, 64 * 1024 * 1024 - 1));
    assert_eq!(choose_split_key(b"m".to_vec(), None), Some(b"m".to_vec()));
    assert_eq!(choose_split_key(vec![], Some(b"q".to_vec())), Some(b"q".to_vec()));
    assert_eq!(choose_split_key(vec![], None), None);
    assert!(matches!(mutation_from_wire(1, b"k".to_vec(), b"v".to_vec()), Mutation::Delete { .. }));
    assert!(matches!(mutation_from_wire(0, b"k".to_vec(), b"v".to_vec()), Mutation::Put { .. }));
    assert_eq!(mutation_to_wire(b"k".to_vec(), Some(b"v".to_vec())), (0, b"k".to_vec(), b"v".to_vec()));
    assert_eq!(mutation_to_wire(b"k".to_vec(), None), (1, b"k".to_vec(), vec![]));
    assert_eq!(status_fields(&TxnStatus::Locked { ttl: 9 }), (9, 0, false));
    assert_eq!(status_fields(&TxnStatus::Committed { commit_ts: 4 }), (0, 4, false));
    assert_eq!(status_fields(&TxnStatus::RolledBack), (0, 0, true));
    let m = Mutation::Put { key: b"x".to_vec(), value: vec![] };
    assert_eq!(m.key(), b"x");
    assert_eq!(m.op_type(), OpType::Put);
    assert_eq!(Mutation::Delete { key: b"y".to_vec() }.op_type(), OpType::Delete);
}

#[test]
fn scan_follows_stored_order_when_one_key_prefixes_another() {
    let mut h = harness();
    for key in [b"a".to_vec(), b"ab".to_vec()] {
        let start_ts = h.coordinator.begin();
        h.coordinator.prewrite(start_ts, &[put(&key, b"v")], &key, 3000).0.unwrap();
        let commit_ts = h.coordinator.now();
        h.coordinator.commit(start_ts, commit_ts, &[key]).0.unwrap();
    }
    let read_ts = h.coordinator.now();
    let keys: Vec<Vec<u8>> = h.coordinator.scan(b"", b"", 0, read_ts).0.unwrap().into_iter().map(|kv| kv.0).collect();
    assert_eq!(keys, vec![b"ab".to_vec(), b"a".to_vec()]);
}
