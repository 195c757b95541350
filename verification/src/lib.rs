//! A log-structured merge tree with verified building blocks, and a small
//! schema-driven binary message encoding.
pub mod byte_format;
pub mod config;
pub mod lsm;
pub mod memtable;
pub mod proto;
pub mod search;
pub mod sparse_index;
pub mod sstable;
pub mod sstable_entry;
pub mod text;
pub mod traits;
pub mod wal;
