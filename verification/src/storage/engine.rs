//! The storage engine: a fjall keyspace with three partitions
//! (`default` for values, `lock` for locks, `write` for commit records).
use vstd::prelude::*;
use crate::codec::{seq_lt, seq_le, lemma_seq_lt_total};
use crate::raft::router::copy_bytes;

verus! {

#[verifier::external_type_specification]
#[verifier::external_body]
pub struct ExKeyspace(fjall::Keyspace);

#[verifier::external_type_specification]
#[verifier::external_body]
pub struct ExPartitionHandle(fjall::PartitionHandle);

#[verifier::external_type_specification]
#[verifier::external_body]
pub struct ExBatch(fjall::Batch);

#[verifier::external_type_specification]
#[verifier::external_body]
pub struct ExFjallError(fjall::Error);

/// `Clone::clone` of `fjall::Keyspace`: another handle to the same keyspace.
/// Nothing is stated of it.
pub assume_specification[ <fjall::Keyspace as Clone>::clone ](ks: &fjall::Keyspace) -> fjall::Keyspace;

/// `Clone::clone` of `fjall::PartitionHandle`: another handle to the same
/// partition.  Nothing is stated of it.
pub assume_specification[ <fjall::PartitionHandle as Clone>::clone ](p: &fjall::PartitionHandle) -> fjall::PartitionHandle;

/// A key the store accepts: non-empty and at most 65535 bytes.
pub open spec fn storable_key(k: Seq<u8>) -> bool {
    1 <= k.len() <= 65535
}

/// A user key whose versioned forms (the key followed by an eight-byte
/// timestamp) the store accepts.
pub open spec fn key_fits(k: Seq<u8>) -> bool {
    k.len() + 8 <= 65535
}

/// A value the store accepts: shorter than 2^32 bytes.
pub open spec fn storable_value(v: Seq<u8>) -> bool {
    v.len() < 0x1_0000_0000
}

/// `fjall::PartitionHandle::get`: the value stored under `key`, copied out.
/// What it returns depends on what is stored.  Only what every stored item
/// satisfies is stated: the store holds no key and no value beyond its limits
/// (every write goes through lsm-tree's `InternalValue`, which asserts them), so
/// a key with a value stored under it is a storable key.  A key over 65535
/// bytes makes lsm-tree's `InternalKey::new` panic.
#[verifier::external_body]
fn partition_get(p: &fjall::PartitionHandle, key: &[u8]) -> (r: Result<Option<Vec<u8>>, fjall::Error>)
    requires
        key@.len() <= 65535,
    ensures
        r matches Ok(Some(v)) ==> storable_key(key@) && storable_value(v@),
{
    match p.get(key) {
        Ok(Some(v)) => Ok(Some(v.to_vec())),
        Ok(None) => Ok(None),
        Err(e) => Err(e),
    }
}

/// `fjall::PartitionHandle::range`, first item, from `from` on: the first
/// stored entry whose key is at or after `from` in byte order, or strictly
/// after it when `exclusive`.  Which entry that is depends on what is stored;
/// all that is stated is where its key lies, and that the entry is within the
/// store's limits on keys and values.  A bound over 65535 bytes makes
/// lsm-tree's `InternalKey::new` panic.
#[verifier::external_body]
fn partition_first(p: &fjall::PartitionHandle, from: &[u8], exclusive: bool) -> (r: Result<
    Option<(Vec<u8>, Vec<u8>)>,
    fjall::Error,
>)
    requires
        from@.len() <= 65535,
    ensures
        r matches Ok(Some(e)) ==> (if exclusive {
            seq_lt(from@, e.0@)
        } else {
            seq_le(from@, e.0@)
        }) && storable_key(e.0@) && storable_value(e.1@),
{
    let lower = if exclusive {
        std::ops::Bound::Excluded(from.to_vec())
    } else {
        std::ops::Bound::Included(from.to_vec())
    };
    match p.range::<Vec<u8>, _>((lower, std::ops::Bound::Unbounded)).next() {
        Some(Ok((k, v))) => Ok(Some((k.to_vec(), v.to_vec()))),
        Some(Err(e)) => Err(e),
        None => Ok(None),
    }
}

/// The items a write batch holds, in the order they were added: the name of
/// the partition, the key, the value, and whether the item is a removal
/// (a tombstone, whose value is empty).
pub uninterp spec fn batch_items(b: fjall::Batch) -> Seq<(Seq<char>, Seq<u8>, Seq<u8>, bool)>;

/// The name a partition was opened under.
pub uninterp spec fn partition_name(p: fjall::PartitionHandle) -> Seq<char>;

/// `fjall::Keyspace::batch`: a new atomic write batch, holding no items.
#[verifier::external_body]
fn keyspace_batch(ks: &fjall::Keyspace) -> (b: fjall::Batch)
    ensures
        batch_items(b) == Seq::<(Seq<char>, Seq<u8>, Seq<u8>, bool)>::empty(),
{
    ks.batch()
}

/// `fjall::Batch::insert`: appends to the batch an item that stores `value`
/// under `key` in partition `p`.  It panics on an empty key, a key over 65535
/// bytes or a value of 2^32 bytes or more (the partition's name is valid by
/// construction: fjall opens no partition under another name).
#[verifier::external_body]
fn batch_insert(b: &mut fjall::Batch, p: &fjall::PartitionHandle, key: Vec<u8>, value: Vec<u8>)
    requires
        storable_key(key@),
        storable_value(value@),
    ensures
        batch_items(*final(b)) == batch_items(*old(b)).push((partition_name(*p), key@, value@, false)),
{
    b.insert(p, key, value)
}

/// `fjall::Batch::remove`: appends to the batch a tombstone (with an empty
/// value) for `key` in partition `p`.  It panics on an empty key or a key over
/// 65535 bytes.
#[verifier::external_body]
fn batch_remove(b: &mut fjall::Batch, p: &fjall::PartitionHandle, key: Vec<u8>)
    requires
        storable_key(key@),
    ensures
        batch_items(*final(b)) == batch_items(*old(b)).push(
            (partition_name(*p), key@, Seq::<u8>::empty(), true),
        ),
{
    b.remove(p, key)
}

/// `fjall::Batch::commit`: writes the batch atomically.  Whether it succeeds
/// depends on the disk, so nothing is stated of it.
#[verifier::external_body]
fn batch_commit(b: fjall::Batch) -> Result<(), fjall::Error> {
    b.commit()
}

pub const PARTITION_DEFAULT: &'static str = "default";

pub const PARTITION_LOCK: &'static str = "lock";

pub const PARTITION_WRITE: &'static str = "write";

#[derive(Debug)]
pub enum StorageError {
    Fjall(fjall::Error),
    MissingPartition(String),
}

/// One of the engine's three partitions.
#[derive(Debug, Clone, Copy, PartialEq, Eq, Structural)]
pub enum Partition {
    Default,
    Lock,
    Write,
}

/// One write of an atomic batch.
#[derive(Debug, Clone)]
pub enum BatchOp {
    Insert { partition: Partition, key: Vec<u8>, value: Vec<u8> },
    Remove { partition: Partition, key: Vec<u8> },
}

pub enum BatchOpView {
    Insert { partition: Partition, key: Seq<u8>, value: Seq<u8> },
    Remove { partition: Partition, key: Seq<u8> },
}

impl View for BatchOp {
    type V = BatchOpView;

    open spec fn view(&self) -> BatchOpView {
        match self {
            BatchOp::Insert { partition, key, value } => BatchOpView::Insert {
                partition: *partition,
                key: key@,
                value: value@,
            },
            BatchOp::Remove { partition, key } => BatchOpView::Remove {
                partition: *partition,
                key: key@,
            },
        }
    }
}

/// A write the store accepts.
pub open spec fn op_fits(o: BatchOpView) -> bool {
    match o {
        BatchOpView::Insert { key, value, .. } => storable_key(key) && storable_value(value),
        BatchOpView::Remove { key, .. } => storable_key(key),
    }
}

/// Writes the store accepts, every one of them.
pub open spec fn ops_fit(ops: Seq<BatchOpView>) -> bool {
    forall|i: int| 0 <= i < ops.len() ==> op_fits(#[trigger] ops[i])
}

/// The plain content of a list of writes.
pub open spec fn ops_view(ops: Seq<BatchOp>) -> Seq<BatchOpView> {
    ops.map_values(|o: BatchOp| o@)
}

/// The plain content of a list of stored entries.
pub open spec fn entries_view(es: Seq<(Vec<u8>, Vec<u8>)>) -> Seq<(Seq<u8>, Seq<u8>)> {
    es.map_values(|e: (Vec<u8>, Vec<u8>)| (e.0@, e.1@))
}

/// What one point read of the keyspace returned: the partition, the key and
/// what is stored under it.  Only the engine's reads make these, so a receipt
/// whose content is known says that the engine read exactly that.
pub struct ReadReceipt {
    partition: Partition,
    key: Seq<u8>,
    found: Option<Seq<u8>>,
}

impl ReadReceipt {
    pub closed spec fn partition(self) -> Partition {
        self.partition
    }

    pub closed spec fn key(self) -> Seq<u8> {
        self.key
    }

    pub closed spec fn found(self) -> Option<Seq<u8>> {
        self.found
    }
}

/// What one seek of the keyspace returned: the partition, the bound, whether
/// it was exclusive, and the first entry found from it.
pub struct SeekReceipt {
    partition: Partition,
    from: Seq<u8>,
    exclusive: bool,
    found: Option<(Seq<u8>, Seq<u8>)>,
}

impl SeekReceipt {
    pub closed spec fn partition(self) -> Partition {
        self.partition
    }

    pub closed spec fn from(self) -> Seq<u8> {
        self.from
    }

    pub closed spec fn exclusive(self) -> bool {
        self.exclusive
    }

    pub closed spec fn found(self) -> Option<(Seq<u8>, Seq<u8>)> {
        self.found
    }
}

/// A batch the engine handed to the keyspace to commit: the writes, the
/// items of the batch that carried them, and whether the keyspace reported
/// the commit done.
pub struct WriteReceipt {
    ops: Seq<BatchOpView>,
    items: Seq<(Seq<char>, Seq<u8>, Seq<u8>, bool)>,
    committed: bool,
}

impl WriteReceipt {
    pub closed spec fn ops(self) -> Seq<BatchOpView> {
        self.ops
    }

    pub closed spec fn items(self) -> Seq<(Seq<char>, Seq<u8>, Seq<u8>, bool)> {
        self.items
    }

    pub closed spec fn committed(self) -> bool {
        self.committed
    }
}

/// Every one of the batches was reported committed.
pub open spec fn all_committed(wrs: Seq<WriteReceipt>) -> bool {
    forall|i: int| 0 <= i < wrs.len() ==> (#[trigger] wrs[i]).committed()
}

/// The receipts of the batches handed to the keyspace: one for each of
/// `writes`, carrying exactly those writes.
pub open spec fn handed(wrs: Seq<WriteReceipt>, writes: Seq<Seq<BatchOpView>>) -> bool {
    &&& wrs.len() == writes.len()
    &&& forall|i: int| 0 <= i < wrs.len() ==> (#[trigger] wrs[i]).ops() == writes[i]
}

/// Seeks that walk partition `p` from `start`: the first from `start`
/// on, each later one strictly after the entry found before it; each found
/// the entry visited next, and a last one, if any, found nothing.
pub open spec fn seeks_follow(p: Partition, start: Seq<u8>, es: Seq<(Seq<u8>, Seq<u8>)>, sks: Seq<SeekReceipt>) -> bool {
    &&& es.len() <= sks.len() <= es.len() + 1
    &&& forall|i: int|
        0 <= i < sks.len() ==> (#[trigger] sks[i]).partition() == p && sks[i].from() == (if i
            == 0 {
            start
        } else {
            es[i - 1].0
        }) && sks[i].exclusive() == (i > 0)
    &&& forall|i: int| 0 <= i < es.len() ==> (#[trigger] sks[i]).found() == Some(es[i])
    &&& sks.len() == es.len() + 1 ==> sks.last().found() is None
}

/// The plain content of a stored value, when there is one.
pub open spec fn found_view(o: Option<Vec<u8>>) -> Option<Seq<u8>> {
    match o {
        Some(v) => Some(v@),
        None => None,
    }
}

/// The plain content of a stored entry, when there is one.
pub open spec fn entry_found_view(o: Option<(Vec<u8>, Vec<u8>)>) -> Option<(Seq<u8>, Seq<u8>)> {
    match o {
        Some(e) => Some((e.0@, e.1@)),
        None => None,
    }
}

#[derive(Clone)]
pub struct StorageEngine {
    keyspace: fjall::Keyspace,
    p_default: fjall::PartitionHandle,
    p_lock: fjall::PartitionHandle,
    p_write: fjall::PartitionHandle,
}

impl StorageEngine {
    /// The keyspace the engine writes its batches to.
    pub closed spec fn keyspace_handle(&self) -> fjall::Keyspace {
        self.keyspace
    }

    /// The handle of partition `p`.
    pub closed spec fn partition_handle(&self, p: Partition) -> fjall::PartitionHandle {
        match p {
            Partition::Default => self.p_default,
            Partition::Lock => self.p_lock,
            Partition::Write => self.p_write,
        }
    }

    /// The batch item that carries out `op`.
    pub open spec fn batch_item(&self, op: BatchOpView) -> (Seq<char>, Seq<u8>, Seq<u8>, bool) {
        match op {
            BatchOpView::Insert { partition, key, value } => (
                partition_name(self.partition_handle(partition)),
                key,
                value,
                false,
            ),
            BatchOpView::Remove { partition, key } => (
                partition_name(self.partition_handle(partition)),
                key,
                Seq::empty(),
                true,
            ),
        }
    }

    /// An engine over an opened keyspace and its three partitions.
    pub fn from_parts(
        keyspace: fjall::Keyspace,
        p_default: fjall::PartitionHandle,
        p_lock: fjall::PartitionHandle,
        p_write: fjall::PartitionHandle,
    ) -> (e: Self)
        ensures
            e.keyspace_handle() == keyspace,
            e.partition_handle(Partition::Default) == p_default,
            e.partition_handle(Partition::Lock) == p_lock,
            e.partition_handle(Partition::Write) == p_write,
    {
        StorageEngine { keyspace, p_default, p_lock, p_write }
    }

    pub fn default_partition(&self) -> (h: &fjall::PartitionHandle)
        ensures
            *h == self.partition_handle(Partition::Default),
    {
        &self.p_default
    }

    pub fn lock_partition(&self) -> (h: &fjall::PartitionHandle)
        ensures
            *h == self.partition_handle(Partition::Lock),
    {
        &self.p_lock
    }

    pub fn write_partition(&self) -> (h: &fjall::PartitionHandle)
        ensures
            *h == self.partition_handle(Partition::Write),
    {
        &self.p_write
    }

    fn handle(&self, p: Partition) -> (h: &fjall::PartitionHandle)
        ensures
            *h == self.partition_handle(p),
    {
        match p {
            Partition::Default => &self.p_default,
            Partition::Lock => &self.p_lock,
            Partition::Write => &self.p_write,
        }
    }

    /// A new, empty atomic write batch on the engine's keyspace.
    pub fn batch(&self) -> (b: fjall::Batch)
        ensures
            batch_items(b) == Seq::<(Seq<char>, Seq<u8>, Seq<u8>, bool)>::empty(),
    {
        keyspace_batch(&self.keyspace)
    }

    /// Commits `batch`; a failure is the keyspace's error.
    pub fn commit_batch(&self, batch: fjall::Batch) -> (r: Result<(), StorageError>)
        ensures
            r is Err ==> r matches Err(StorageError::Fjall(_)),
    {
        match batch_commit(batch) {
            Ok(()) => Ok(()),
            Err(e) => Err(StorageError::Fjall(e)),
        }
    }

    /// The value stored under `key` in partition `p`.
    pub fn get(&self, p: Partition, key: &[u8]) -> (r: Result<Option<Vec<u8>>, fjall::Error>)
        requires
            key@.len() <= 65535,
        ensures
            r matches Ok(Some(v)) ==> storable_key(key@) && storable_value(v@),
    {
        self.get_traced(p, key).0
    }

    /// The value stored under `key` in partition `p`, with the receipt of the read.
    pub fn get_traced(&self, p: Partition, key: &[u8]) -> ((r, rec): (
        Result<Option<Vec<u8>>, fjall::Error>,
        Ghost<ReadReceipt>,
    ))
        requires
            key@.len() <= 65535,
        ensures
            r matches Ok(Some(v)) ==> storable_key(key@) && storable_value(v@),
            rec@.partition() == p,
            rec@.key() == key@,
            r matches Ok(v) ==> rec@.found() == found_view(v),
    {
        let r = partition_get(self.handle(p), key);
        let ghost found = if r is Ok {
            found_view(r->Ok_0)
        } else {
            None
        };
        (r, Ghost(ReadReceipt { partition: p, key: key@, found }))
    }

    /// The first entry of partition `p` whose key is at or after `from`, or
    /// strictly after it when `exclusive`, with the receipt of the seek.
    pub fn seek_traced(&self, p: Partition, from: &[u8], exclusive: bool) -> ((r, rec): (
        Result<Option<(Vec<u8>, Vec<u8>)>, fjall::Error>,
        Ghost<SeekReceipt>,
    ))
        requires
            from@.len() <= 65535,
        ensures
            r matches Ok(Some(e)) ==> (if exclusive {
                seq_lt(from@, e.0@)
            } else {
                seq_le(from@, e.0@)
            }) && storable_key(e.0@) && storable_value(e.1@),
            rec@.partition() == p,
            rec@.from() == from@,
            rec@.exclusive() == exclusive,
            r matches Ok(f) ==> rec@.found() == entry_found_view(f),
    {
        let r = partition_first(self.handle(p), from, exclusive);
        let ghost found = if r is Ok {
            entry_found_view(r->Ok_0)
        } else {
            None
        };
        (r, Ghost(SeekReceipt { partition: p, from: from@, exclusive, found }))
    }

    /// The first entry of partition `p` whose key is at or after `from`.
    pub fn first_from(&self, p: Partition, from: &[u8]) -> (r: Result<
        Option<(Vec<u8>, Vec<u8>)>,
        fjall::Error,
    >)
        requires
            from@.len() <= 65535,
        ensures
            r matches Ok(Some(e)) ==> seq_le(from@, e.0@) && storable_key(e.0@) && storable_value(e.1@),
    {
        partition_first(self.handle(p), from, false)
    }

    /// The first entry of partition `p` whose key is strictly after `from`.
    pub fn first_after(&self, p: Partition, from: &[u8]) -> (r: Result<
        Option<(Vec<u8>, Vec<u8>)>,
        fjall::Error,
    >)
        requires
            from@.len() <= 65535,
        ensures
            r matches Ok(Some(e)) ==> seq_lt(from@, e.0@) && storable_key(e.0@) && storable_value(e.1@),
    {
        partition_first(self.handle(p), from, true)
    }

    /// A batch holding one item for each of `ops`, in order.
    pub fn build_batch(&self, ops: &Vec<BatchOp>) -> (b: fjall::Batch)
        requires
            ops_fit(ops_view(ops@)),
        ensures
            batch_items(b) == ops_view(ops@).map_values(|o: BatchOpView| self.batch_item(o)),
    {
        let mut batch = self.batch();
        let mut i: usize = 0;
        while i < ops.len()
            invariant
                i <= ops@.len(),
                ops_fit(ops_view(ops@)),
                batch_items(batch) == ops_view(ops@).take(i as int).map_values(
                    |o: BatchOpView| self.batch_item(o),
                ),
            decreases ops@.len() - i,
        {
            let ghost before = batch_items(batch);
            assert(op_fits(ops_view(ops@)[i as int]));
            match &ops[i] {
                BatchOp::Insert { partition, key, value } => {
                    batch_insert(&mut batch, self.handle(*partition), copy_bytes(key), copy_bytes(value));
                },
                BatchOp::Remove { partition, key } => {
                    batch_remove(&mut batch, self.handle(*partition), copy_bytes(key));
                },
            }
            proof {
                let f = |o: BatchOpView| self.batch_item(o);
                assert(ops_view(ops@)[i as int] == ops@[i as int]@);
                assert(ops_view(ops@).take(i + 1).map_values(f) =~= ops_view(ops@).take(i as int).map_values(f).push(
                    f(ops_view(ops@)[i as int]),
                ));
            }
            i = i + 1;
        }
        assert(ops_view(ops@).take(ops@.len() as int) =~= ops_view(ops@));
        batch
    }

    /// Writes `ops` as one atomic batch, in order; a failure is the keyspace's error.
    pub fn apply(&self, ops: Vec<BatchOp>) -> (r: Result<(), StorageError>)
        requires
            ops_fit(ops_view(ops@)),
        ensures
            r is Err ==> r matches Err(StorageError::Fjall(_)),
    {
        self.apply_traced(ops).0
    }

    /// Writes `ops` as one atomic batch, in order, with the receipt of the
    /// batch handed to the keyspace; a failure is the keyspace's error.
    pub fn apply_traced(&self, ops: Vec<BatchOp>) -> ((r, rec): (Result<(), StorageError>, Ghost<WriteReceipt>))
        requires
            ops_fit(ops_view(ops@)),
        ensures
            r is Err ==> r matches Err(StorageError::Fjall(_)),
            rec@.ops() == ops_view(ops@),
            rec@.items() == ops_view(ops@).map_values(|o: BatchOpView| self.batch_item(o)),
            rec@.committed() == (r is Ok),
    {
        let batch = self.build_batch(&ops);
        let ghost items = batch_items(batch);
        let r = self.commit_batch(batch);
        (r, Ghost(WriteReceipt { ops: ops_view(ops@), items, committed: r is Ok }))
    }

    /// Every entry of partition `p`, in increasing order of key.  A scan visits
    /// at most `u64::MAX` entries.
    pub fn scan_all(&self, p: Partition) -> (r: Result<Vec<(Vec<u8>, Vec<u8>)>, StorageError>)
        ensures
            r matches Ok(es) ==> forall|i: int, j: int|
                0 <= i < j < es@.len() ==> seq_lt(es@[i].0@, es@[j].0@),
            r is Err ==> r matches Err(StorageError::Fjall(_)),
            r matches Ok(es) ==> forall|i: int|
                0 <= i < es@.len() ==> storable_key(#[trigger] es@[i].0@) && storable_value(es@[i].1@),
    {
        self.scan_all_traced(p).0
    }

    /// Every entry of partition `p`, in increasing order of key, with the
    /// receipts of the seeks that found them: they walk the partition from its
    /// start.  A scan visits at most `u64::MAX` entries.
    pub fn scan_all_traced(&self, p: Partition) -> ((r, sks): (
        Result<Vec<(Vec<u8>, Vec<u8>)>, StorageError>,
        Ghost<Seq<SeekReceipt>>,
    ))
        ensures
            r matches Ok(es) ==> forall|i: int, j: int|
                0 <= i < j < es@.len() ==> seq_lt(es@[i].0@, es@[j].0@),
            r is Err ==> r matches Err(StorageError::Fjall(_)),
            r matches Ok(es) ==> forall|i: int|
                0 <= i < es@.len() ==> storable_key(#[trigger] es@[i].0@) && storable_value(es@[i].1@),
            r matches Ok(es) ==> seeks_follow(p, Seq::empty(), entries_view(es@), sks@),
    {
        let mut out: Vec<(Vec<u8>, Vec<u8>)> = Vec::new();
        let mut cursor: Vec<u8> = Vec::new();
        let mut after = false;
        let mut steps: u64 = 0;
        let ghost mut sks: Seq<SeekReceipt> = Seq::empty();
        while steps < u64::MAX
            invariant_except_break
                forall|i: int| 0 <= i < out@.len() ==> seq_lt(out@[i].0@, cursor@) || (after && out@[i].0@ == cursor@),
                !after ==> out@.len() == 0,
                after == (out@.len() > 0),
                cursor@ == (if out@.len() == 0 { Seq::<u8>::empty() } else { out@.last().0@ }),
                sks.len() == out@.len(),
            invariant
                cursor@.len() <= 65535,
                forall|i: int|
                    0 <= i < out@.len() ==> storable_key(#[trigger] out@[i].0@) && storable_value(out@[i].1@),
                forall|i: int, j: int|
                    0 <= i < j < out@.len() ==> seq_lt(out@[i].0@, out@[j].0@),
                seeks_follow(p, Seq::empty(), entries_view(out@), sks),
            ensures
                forall|i: int|
                    0 <= i < out@.len() ==> storable_key(#[trigger] out@[i].0@) && storable_value(out@[i].1@),
                forall|i: int, j: int|
                    0 <= i < j < out@.len() ==> seq_lt(out@[i].0@, out@[j].0@),
                seeks_follow(p, Seq::empty(), entries_view(out@), sks),
            decreases u64::MAX - steps,
        {
            let (found, sk) = self.seek_traced(p, cursor.as_slice(), after);
            match found {
                Err(e) => {
                    return (Err(StorageError::Fjall(e)), Ghost(sks));
                },
                Ok(None) => {
                    proof {
                        sks = sks.push(sk@);
                    }
                    break;
                },
                Ok(Some((k, v))) => {
                    assert(storable_key(k@) && storable_value(v@));
                    proof {
                        assert forall|i: int| 0 <= i < out@.len() implies seq_lt(
                            out@[i].0@,
                            k@,
                        ) by {
                            if out@[i].0@ != cursor@ && cursor@ != k@ {
                                crate::codec::lemma_seq_lt_transitive(out@[i].0@, cursor@, k@);
                            }
                        }
                    }
                    let ghost before = out@;
                    let next = copy_bytes(&k);
                    out.push((k, v));
                    proof {
                        sks = sks.push(sk@);
                        assert(entries_view(out@) =~= entries_view(before).push((next@, out@.last().1@)));
                    }
                    cursor = next;
                    after = true;
                },
            }
            steps = steps + 1;
        }
        (Ok(out), Ghost(sks))
    }
}

impl StorageEngine {
    /// The entries of partition `p` whose keys begin with `prefix`, in
    /// increasing order of key: the scan starts at `prefix` and ends at the
    /// first key that does not begin with it.  A scan visits at most
    /// `u64::MAX` entries.
    pub fn scan_prefix(&self, p: Partition, prefix: &[u8]) -> (r: Result<
        Vec<(Vec<u8>, Vec<u8>)>,
        StorageError,
    >)
        requires
            prefix@.len() <= 65535,
        ensures
            r matches Ok(es) ==> {
                &&& forall|i: int|
                    0 <= i < es@.len() ==> #[trigger] es@[i].0@.len() >= prefix@.len()
                        && es@[i].0@.subrange(0, prefix@.len() as int) == prefix@
                &&& forall|i: int, j: int|
                    0 <= i < j < es@.len() ==> seq_lt(es@[i].0@, es@[j].0@)
            },
            r is Err ==> r matches Err(StorageError::Fjall(_)),
            r matches Ok(es) ==> forall|i: int|
                0 <= i < es@.len() ==> storable_key(#[trigger] es@[i].0@) && storable_value(es@[i].1@),
    {
        let mut out: Vec<(Vec<u8>, Vec<u8>)> = Vec::new();
        let mut cursor: Vec<u8> = vstd::slice::slice_to_vec(prefix);
        let mut after = false;
        let mut steps: u64 = 0;
        while steps < u64::MAX
            invariant_except_break
                forall|i: int| 0 <= i < out@.len() ==> seq_lt(out@[i].0@, cursor@) || (after && out@[i].0@ == cursor@),
                !after ==> out@.len() == 0,
            invariant
                cursor@.len() <= 65535,
                forall|i: int|
                    0 <= i < out@.len() ==> storable_key(#[trigger] out@[i].0@) && storable_value(out@[i].1@),
                forall|i: int|
                    0 <= i < out@.len() ==> #[trigger] out@[i].0@.len() >= prefix@.len()
                        && out@[i].0@.subrange(0, prefix@.len() as int) == prefix@,
                forall|i: int, j: int|
                    0 <= i < j < out@.len() ==> seq_lt(out@[i].0@, out@[j].0@),
            ensures
                forall|i: int|
                    0 <= i < out@.len() ==> storable_key(#[trigger] out@[i].0@) && storable_value(out@[i].1@),
                forall|i: int|
                    0 <= i < out@.len() ==> #[trigger] out@[i].0@.len() >= prefix@.len()
                        && out@[i].0@.subrange(0, prefix@.len() as int) == prefix@,
                forall|i: int, j: int|
                    0 <= i < j < out@.len() ==> seq_lt(out@[i].0@, out@[j].0@),
            decreases u64::MAX - steps,
        {
            let found = if after {
                self.first_after(p, cursor.as_slice())
            } else {
                self.first_from(p, cursor.as_slice())
            };
            match found {
                Err(e) => {
                    return Err(StorageError::Fjall(e));
                },
                Ok(None) => {
                    break;
                },
                Ok(Some((k, v))) => {
                    assert(storable_key(k@) && storable_value(v@));
                    if !crate::raft::keys::starts_with(k.as_slice(), prefix) {
                        break;
                    }
                    proof {
                        assert forall|i: int| 0 <= i < out@.len() implies seq_lt(
                            out@[i].0@,
                            k@,
                        ) by {
                            if out@[i].0@ != cursor@ && cursor@ != k@ {
                                crate::codec::lemma_seq_lt_transitive(out@[i].0@, cursor@, k@);
                            }
                        }
                    }
                    let next = copy_bytes(&k);
                    out.push((k, v));
                    cursor = next;
                    after = true;
                },
            }
            steps = steps + 1;
        }
        Ok(out)
    }
}


} // verus!
