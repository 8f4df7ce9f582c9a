pub mod key;
pub mod text;
pub mod codec;
pub mod value;
pub mod common;
pub mod block;
pub mod sstable;
pub mod merge;
pub mod level;
pub mod config;
pub mod version;
pub mod memtable;
pub mod lru;
pub mod rand;
pub mod write_batch;
pub mod metrics;
pub mod reclaimer;
pub mod log;
pub mod db;
pub mod sstable_cache;
pub mod skip_list;
pub mod skip_list_imp;
