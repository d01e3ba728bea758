//! A log-structured merge-tree key-value engine: the ordered in-memory table,
//! the write-ahead log format, the sorted string table format, and the kernel
//! that routes writes and reads across those layers.

pub mod keys;
pub mod sorted;
pub mod error;
pub mod model;
pub mod memtable;
pub mod ints;
pub mod codec;
pub mod wal;
pub mod compression;
pub mod sstable;
pub mod sstable_builder;
pub mod db_kernel;
pub mod options;
pub mod protocol;
pub mod flush;
pub mod table_roundtrip;
