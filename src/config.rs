use vstd::prelude::*;

verus! {

/// Settings of a store.
#[derive(Clone, Debug)]
pub struct Config {
    /// Target size of a table file, in bytes.
    pub sstable_file_limit: usize,
    /// Tables that level 0 may hold before it is compacted.
    pub level_0_file_limit: usize,
    /// Each level holds this many times the bytes of the level above.
    pub level_size_expand_factor: usize,
    pub meta_log_file_name: String,
    /// Entries of the table index cache.
    pub sstable_meta_cache: usize,
    /// Size of the memory table at which it is rotated, in bytes.
    pub memtable_size_limit: usize,
    /// Level 0 length from which writers are slowed down.
    pub level_0_len_to_slow_write_threshold: usize,
    pub memtable_log_file_path: String,
    /// Bytes of requests gathered into one log write.
    pub request_write_batch_size: usize,
    /// Longest wait for more requests of a batch, in microseconds.
    pub request_write_buffer_wait_micros: u64,
    /// Whether each batch is synced to disk before it is acknowledged.
    pub sync_write: bool,
}

impl Config {
    pub fn new() -> (r: Config)
        ensures
            r.sstable_file_limit == 2097152,
            r.level_0_file_limit == 4,
            r.level_size_expand_factor == 10,
            r.sstable_meta_cache == 100,
            r.memtable_size_limit == 2097152,
            r.level_0_len_to_slow_write_threshold == 4,
            r.request_write_batch_size == 1048576,
            r.request_write_buffer_wait_micros == 25,
            r.sync_write,
    {
        Config {
            sstable_file_limit: 2097152,
            level_0_file_limit: 4,
            level_size_expand_factor: 10,
            meta_log_file_name: "meta".to_string(),
            sstable_meta_cache: 100,
            memtable_size_limit: 2097152,
            level_0_len_to_slow_write_threshold: 4,
            memtable_log_file_path: "memtable_log".to_string(),
            request_write_batch_size: 1048576,
            request_write_buffer_wait_micros: 25,
            sync_write: true,
        }
    }
}

impl Config {
    /// A copy equal to this one.
    pub fn duplicate(&self) -> (r: Config)
        ensures
            r == *self,
    {
        Config {
            sstable_file_limit: self.sstable_file_limit,
            level_0_file_limit: self.level_0_file_limit,
            level_size_expand_factor: self.level_size_expand_factor,
            meta_log_file_name: self.meta_log_file_name.clone(),
            sstable_meta_cache: self.sstable_meta_cache,
            memtable_size_limit: self.memtable_size_limit,
            level_0_len_to_slow_write_threshold: self.level_0_len_to_slow_write_threshold,
            memtable_log_file_path: self.memtable_log_file_path.clone(),
            request_write_batch_size: self.request_write_batch_size,
            request_write_buffer_wait_micros: self.request_write_buffer_wait_micros,
            sync_write: self.sync_write,
        }
    }

    /// Whether a batch that holds `bytes` bytes of requests is complete.
    pub fn batch_full(&self, bytes: usize) -> (r: bool)
        ensures
            r == (bytes >= self.request_write_batch_size),
    {
        bytes >= self.request_write_batch_size
    }

    /// Whether writers are slowed down while level 0 holds `level_0_len` tables.
    pub fn slow_write(&self, level_0_len: usize) -> (r: bool)
        ensures
            r == (level_0_len >= self.level_0_len_to_slow_write_threshold),
    {
        level_0_len >= self.level_0_len_to_slow_write_threshold
    }
}

} // verus!
