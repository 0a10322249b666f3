pub mod codec;
pub mod raft;
pub mod service;
pub mod storage;
pub mod txn;

pub use raft::config::RaftConfig;
pub use raft::node::RaftCmd;
pub use raft::router::{Region, RegionRouter, RouterError};
pub use storage::config::StorageConfig;
pub use storage::engine::{StorageEngine, StorageError, PARTITION_DEFAULT, PARTITION_LOCK, PARTITION_WRITE};
pub use storage::key::{KeyEncoder, KeyError};
pub use storage::lock::{Lock, LockError};
pub use storage::mvcc::{OpType, WriteRecord};
pub use storage::reader::{MvccError, MvccReader};
pub use txn::coordinator::{Mutation, TransactionCoordinator, TxnError};
pub use txn::hlc::{HybridLogicalClock, Timestamp};
pub use txn::lock_resolver::{LockResolver, LockResolverError, TxnStatus};
