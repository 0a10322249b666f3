//! Storage engine tuning.
use vstd::prelude::*;

verus! {

#[derive(Debug, Clone)]
pub struct StorageConfig {
    pub max_memtable_size_bytes: u32,
    pub flush_workers: usize,
    pub compaction_workers: usize,
    pub async_journal_flush_ms: Option<u64>,
}

impl Default for StorageConfig {
    fn default() -> (c: Self)
        ensures
            c.max_memtable_size_bytes == 64 * 1024 * 1024,
            c.flush_workers == 2,
            c.compaction_workers == 4,
            c.async_journal_flush_ms == Some(10u64),
    {
        Self {
            max_memtable_size_bytes: 64 * 1024 * 1024,
            flush_workers: 2,
            compaction_workers: 4,
            async_journal_flush_ms: Some(10),
        }
    }
}

/// The settings a keyspace and its partitions are opened with.
#[derive(Debug, Clone)]
pub struct KeyspaceOptions {
    pub flush_workers: usize,
    pub compaction_workers: usize,
    pub max_write_buffer_size: u64,
    pub max_journaling_size: u64,
    pub fsync_ms: Option<u16>,
    pub max_memtable_size: u32,
}

impl StorageConfig {
    /// The keyspace settings for this configuration: a write buffer of four
    /// memtables, a journal of eight memtables but at least 24 MiB, and the
    /// flush interval truncated to 16 bits.
    pub fn keyspace_options(&self) -> (o: KeyspaceOptions)
        ensures
            o.flush_workers == self.flush_workers,
            o.compaction_workers == self.compaction_workers,
            o.max_write_buffer_size == self.max_memtable_size_bytes * 4,
            o.max_journaling_size == if self.max_memtable_size_bytes * 8 >= 24 * 1024 * 1024 {
                self.max_memtable_size_bytes * 8
            } else {
                24 * 1024 * 1024int
            },
            o.fsync_ms == match self.async_journal_flush_ms {
                Some(ms) => Some((ms % 0x10000) as u16),
                None => None::<u16>,
            },
            o.max_memtable_size == self.max_memtable_size_bytes,
    {
        let m = self.max_memtable_size_bytes as u64;
        let journal = if m * 8 >= 24 * 1024 * 1024 {
            m * 8
        } else {
            24 * 1024 * 1024
        };
        let fsync_ms = match self.async_journal_flush_ms {
            Some(ms) => {
                let t: u16 = #[verifier::truncate] (ms as u16);
                assert(t == ms % 0x10000) by (bit_vector)
                    requires
                        t == #[verifier::truncate] (ms as u16),
                ;
                Some(t)
            },
            None => None,
        };
        KeyspaceOptions {
            flush_workers: self.flush_workers,
            compaction_workers: self.compaction_workers,
            max_write_buffer_size: m * 4,
            max_journaling_size: journal,
            fsync_ms,
            max_memtable_size: self.max_memtable_size_bytes,
        }
    }
}

} // verus!
