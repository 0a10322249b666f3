use kvstore::storage::config::StorageConfig;
use kvstore::storage::key::{KeyEncoder, KeyError};
use kvstore::storage::lock::{Lock, LockError};
use kvstore::storage::mvcc::{OpType, WriteRecord};

#[test]
fn test_key_encoding_decoding() {
    let user_key = b"account:1001";
    let ts = 1718000000u64;

    let encoded = KeyEncoder::encode(user_key, ts);
    let (decoded_key, decoded_ts) = KeyEncoder::decode(&encoded).unwrap();

    assert_eq!(decoded_key, user_key);
    assert_eq!(decoded_ts, ts);
}

#[test]
fn test_timestamp_sorting_order() {
    let user_key = b"account:1001";
    let k_older = KeyEncoder::encode(user_key, 100);
    let k_newer = KeyEncoder::encode(user_key, 200);

    // Newer timestamp must sort BEFORE older timestamp
    assert!(k_newer < k_older);
}

#[test]
fn encode_appends_inverted_big_endian_timestamp() {
    let encoded = KeyEncoder::encode(b"k", 1);
    assert_eq!(encoded, vec![b'k', 0xff, 0xff, 0xff, 0xff, 0xff, 0xff, 0xff, 0xfe]);
    let encoded0 = KeyEncoder::encode(b"", 0);
    assert_eq!(encoded0, vec![0xff; 8]);
}

#[test]
fn decode_rejects_short_keys() {
    assert_eq!(KeyEncoder::decode(&[1, 2, 3, 4, 5, 6, 7]), Err(KeyError::TooShort));
    let (k, ts) = KeyEncoder::decode(&[0u8; 8]).unwrap();
    assert!(k.is_empty());
    assert_eq!(ts, u64::MAX);
}

#[test]
fn encoding_orders_keys_then_newest_first() {
    let a1 = KeyEncoder::encode(b"a", 1);
    let a9 = KeyEncoder::encode(b"a", 9);
    let b1 = KeyEncoder::encode(b"b", 1);
    assert!(a9 < a1);
    assert!(a1 < b1);
    assert!(KeyEncoder::encode(b"x", u64::MAX) < KeyEncoder::encode(b"x", 0));
}

#[test]
fn write_record_bytes_and_roundtrip() {
    let r = WriteRecord::new(0x0102030405060708, OpType::Delete);
    let b = r.to_bytes();
    assert_eq!(b, vec![1, 1, 2, 3, 4, 5, 6, 7, 8]);
    assert_eq!(WriteRecord::from_bytes(&b), Some(r));
    for op in [OpType::Put, OpType::Delete, OpType::Rollback] {
        let rec = WriteRecord::new(42, op);
        assert_eq!(WriteRecord::from_bytes(&rec.to_bytes()), Some(rec));
    }
}

#[test]
fn write_record_rejects_bad_input() {
    assert_eq!(WriteRecord::from_bytes(&[0, 0, 0, 0, 0, 0, 0, 0]), None);
    assert_eq!(WriteRecord::from_bytes(&[3, 0, 0, 0, 0, 0, 0, 0, 0]), None);
    assert_eq!(WriteRecord::from_bytes(&[2, 0, 0, 0, 0, 0, 0, 0, 9, 77]), Some(WriteRecord::new(9, OpType::Rollback)));
}

#[test]
fn lock_bytes_and_roundtrip() {
    let lock = Lock::new(b"pk".to_vec(), 5, 3000, OpType::Put);
    let b = lock.to_bytes();
    let mut expected = vec![0u8];
    expected.extend_from_slice(&5u64.to_be_bytes());
    expected.extend_from_slice(&3000u64.to_be_bytes());
    expected.extend_from_slice(&2u32.to_be_bytes());
    expected.extend_from_slice(b"pk");
    assert_eq!(b, expected);
    assert_eq!(Lock::from_bytes(&b).unwrap(), lock);
    let del = Lock::new(vec![], 1, 2, OpType::Delete);
    assert_eq!(Lock::from_bytes(&del.to_bytes()).unwrap(), del);
}

fn decode_error_message(bytes: &[u8]) -> String {
    match Lock::from_bytes(bytes) {
        Err(LockError::DecodeError(msg)) => msg,
        Ok(_) => panic!("expected a decode error"),
    }
}

#[test]
fn lock_decode_errors() {
    assert_eq!(decode_error_message(&[0u8; 20]), "Payload too short");
    let mut bad_op = vec![7u8];
    bad_op.extend_from_slice(&[0u8; 20]);
    assert_eq!(decode_error_message(&bad_op), "Invalid OpType byte");
    let rollback = Lock::new(b"p".to_vec(), 1, 1, OpType::Rollback).to_bytes();
    assert_eq!(decode_error_message(&rollback), "Invalid OpType byte");
    let mut truncated = Lock::new(b"primary".to_vec(), 1, 1, OpType::Put).to_bytes();
    truncated.pop();
    assert_eq!(decode_error_message(&truncated), "Truncated primary key bytes");
}

#[test]
fn storage_config_defaults_and_options() {
    let c = StorageConfig::default();
    assert_eq!(c.max_memtable_size_bytes, 64 * 1024 * 1024);
    assert_eq!(c.flush_workers, 2);
    assert_eq!(c.compaction_workers, 4);
    assert_eq!(c.async_journal_flush_ms, Some(10));
    let o = c.keyspace_options();
    assert_eq!(o.max_write_buffer_size, 256 * 1024 * 1024);
    assert_eq!(o.max_journaling_size, 512 * 1024 * 1024);
    assert_eq!(o.fsync_ms, Some(10));
    assert_eq!(o.max_memtable_size, 64 * 1024 * 1024);
    let small = StorageConfig {
        max_memtable_size_bytes: 1024 * 1024,
        flush_workers: 1,
        compaction_workers: 3,
        async_journal_flush_ms: Some(65537),
    };
    let o2 = small.keyspace_options();
    assert_eq!(o2.max_write_buffer_size, 4 * 1024 * 1024);
    assert_eq!(o2.max_journaling_size, 24 * 1024 * 1024);
    assert_eq!(o2.fsync_ms, Some(1));
    assert_eq!(o2.flush_workers, 1);
    assert_eq!(o2.compaction_workers, 3);
    let none = StorageConfig { async_journal_flush_ms: None, ..StorageConfig::default() };
    assert_eq!(none.keyspace_options().fsync_ms, None);
}
