//! Configuration of the engine.

use vstd::prelude::*;
use vstd::string::StringExecFns;

use crate::compression::CompressionType;
use crate::memtable::MEM_TABLE_MAX_SIZE;

verus! {

/// Global configuration options for the database.
///
/// It is recommended to construct `DbOptions` using [`DbOptionsBuilder`].
#[derive(Clone, Debug)]
pub struct DbOptions {
    /// The directory where WAL and SSTable files are stored.
    pub dir: String,
    /// Maximum approximate size of the MemTable before it is flushed to disk (in bytes).
    pub mem_table_max_size: usize,
    /// Maximum total size of a write batch (in bytes) before forcing a WAL sync.
    pub max_batch_bytes: usize,
    /// Maximum number of operations in a write batch before forcing a WAL sync.
    pub max_batch_count: usize,
    /// Target size of an SSTable block (in bytes).
    pub sstable_block_size: usize,
    /// The compression algorithm to use for SSTable blocks.
    pub compression_type: CompressionType,
    /// The compression level for the selected compression algorithm.
    pub compression_level: i32,
    /// Maximum number of pending write requests in the queue before backpressure occurs.
    pub max_write_queue_size: usize,
    /// Maximum number of pending MemTables waiting to be flushed to disk.
    pub flush_queue_size: usize,
}

/// The default settings: directory `lsmkv_db`, 4 MiB MemTables, 1 MiB and 1000
/// operations per write batch, 4 KiB blocks compressed with zstd at level 3, a
/// write queue of 1024 and a flush queue of 100.
pub open spec fn default_options(o: DbOptions) -> bool {
    &&& o.dir@ == "lsmkv_db"@
    &&& o.mem_table_max_size == 4194304
    &&& o.max_batch_bytes == 1048576
    &&& o.max_batch_count == 1000
    &&& o.sstable_block_size == 4096
    &&& o.compression_type == CompressionType::Zstd
    &&& o.compression_level == 3
    &&& o.max_write_queue_size == 1024
    &&& o.flush_queue_size == 100
}

impl Default for DbOptions {
    fn default() -> (r: Self)
        ensures
            default_options(r),
    {
        DbOptions {
            dir: String::from_str("lsmkv_db"),
            mem_table_max_size: MEM_TABLE_MAX_SIZE,
            max_batch_bytes: 1024 * 1024,
            max_batch_count: 1000,
            sstable_block_size: 4096,
            compression_type: CompressionType::Zstd,
            compression_level: 3,
            max_write_queue_size: 1024,
            flush_queue_size: 100,
        }
    }
}

impl DbOptions {
    /// A builder starting from the default settings.
    pub fn builder() -> (r: DbOptionsBuilder)
        ensures
            default_options(r.options()),
    {
        DbOptionsBuilder::default()
    }
}

/// A builder for constructing [`DbOptions`] with custom parameters.
pub struct DbOptionsBuilder {
    options: DbOptions,
}

impl Default for DbOptionsBuilder {
    fn default() -> (r: Self)
        ensures
            default_options(r.options()),
    {
        Self { options: DbOptions::default() }
    }
}

impl DbOptionsBuilder {
    /// The settings built so far.
    pub closed spec fn options(&self) -> DbOptions {
        self.options
    }

    /// A builder starting from the default settings.
    pub fn new() -> (r: Self)
        ensures
            default_options(r.options()),
    {
        Self::default()
    }

    /// Sets the directory path for the database files.
    pub fn dir(self, path: String) -> (r: Self)
        ensures
            r.options() == (DbOptions { dir: path, ..self.options() }),
    {
        let mut s = self;
        s.options.dir = path;
        s
    }

    /// Sets the maximum approximate size in bytes of the MemTable before triggering a flush.
    pub fn mem_table_max_size(self, size: usize) -> (r: Self)
        ensures
            r.options() == (DbOptions { mem_table_max_size: size, ..self.options() }),
    {
        let mut s = self;
        s.options.mem_table_max_size = size;
        s
    }

    /// Sets the maximum number of bytes to accumulate in a write batch before syncing to WAL.
    pub fn max_batch_bytes(self, bytes: usize) -> (r: Self)
        ensures
            r.options() == (DbOptions { max_batch_bytes: bytes, ..self.options() }),
    {
        let mut s = self;
        s.options.max_batch_bytes = bytes;
        s
    }

    /// Sets the maximum number of operations to accumulate in a write batch before syncing to WAL.
    pub fn max_batch_count(self, count: usize) -> (r: Self)
        ensures
            r.options() == (DbOptions { max_batch_count: count, ..self.options() }),
    {
        let mut s = self;
        s.options.max_batch_count = count;
        s
    }

    /// Sets the target size of data blocks within an SSTable in bytes.
    pub fn sstable_block_size(self, size: usize) -> (r: Self)
        ensures
            r.options() == (DbOptions { sstable_block_size: size, ..self.options() }),
    {
        let mut s = self;
        s.options.sstable_block_size = size;
        s
    }

    /// Sets the compression algorithm used for SSTable data blocks.
    pub fn compression_type(self, c_type: CompressionType) -> (r: Self)
        ensures
            r.options() == (DbOptions { compression_type: c_type, ..self.options() }),
    {
        let mut s = self;
        s.options.compression_type = c_type;
        s
    }

    /// Sets the compression level (applicable for algorithms like Zstd).
    pub fn compression_level(self, level: i32) -> (r: Self)
        ensures
            r.options() == (DbOptions { compression_level: level, ..self.options() }),
    {
        let mut s = self;
        s.options.compression_level = level;
        s
    }

    /// Sets the capacity of the channel used to queue concurrent write requests.
    pub fn max_write_queue_size(self, size: usize) -> (r: Self)
        ensures
            r.options() == (DbOptions { max_write_queue_size: size, ..self.options() }),
    {
        let mut s = self;
        s.options.max_write_queue_size = size;
        s
    }

    /// Sets the capacity of the channel used for background flush tasks.
    pub fn flush_queue_size(self, size: usize) -> (r: Self)
        ensures
            r.options() == (DbOptions { flush_queue_size: size, ..self.options() }),
    {
        let mut s = self;
        s.options.flush_queue_size = size;
        s
    }

    /// Builds the `DbOptions` based on the configured parameters.
    pub fn build(self) -> (r: DbOptions)
        ensures
            r == self.options(),
    {
        self.options
    }
}

/// Setters of different fields commute: each replaces its own field and keeps the
/// others (see the setters' contracts), so applying two of them in either order to
/// the same settings builds the same options.
pub proof fn lemma_setters_commute(
    o: DbOptions,
    dir: String,
    mem_table_max_size: usize,
    max_batch_bytes: usize,
    max_batch_count: usize,
    sstable_block_size: usize,
    compression_type: CompressionType,
    compression_level: i32,
    max_write_queue_size: usize,
    flush_queue_size: usize,
)
    ensures
        (DbOptions { mem_table_max_size: mem_table_max_size, ..DbOptions { dir: dir, ..o } }) == (DbOptions { dir: dir, ..DbOptions { mem_table_max_size: mem_table_max_size, ..o } }),
        (DbOptions { max_batch_bytes: max_batch_bytes, ..DbOptions { dir: dir, ..o } }) == (DbOptions { dir: dir, ..DbOptions { max_batch_bytes: max_batch_bytes, ..o } }),
        (DbOptions { max_batch_count: max_batch_count, ..DbOptions { dir: dir, ..o } }) == (DbOptions { dir: dir, ..DbOptions { max_batch_count: max_batch_count, ..o } }),
        (DbOptions { sstable_block_size: sstable_block_size, ..DbOptions { dir: dir, ..o } }) == (DbOptions { dir: dir, ..DbOptions { sstable_block_size: sstable_block_size, ..o } }),
        (DbOptions { compression_type: compression_type, ..DbOptions { dir: dir, ..o } }) == (DbOptions { dir: dir, ..DbOptions { compression_type: compression_type, ..o } }),
        (DbOptions { compression_level: compression_level, ..DbOptions { dir: dir, ..o } }) == (DbOptions { dir: dir, ..DbOptions { compression_level: compression_level, ..o } }),
        (DbOptions { max_write_queue_size: max_write_queue_size, ..DbOptions { dir: dir, ..o } }) == (DbOptions { dir: dir, ..DbOptions { max_write_queue_size: max_write_queue_size, ..o } }),
        (DbOptions { flush_queue_size: flush_queue_size, ..DbOptions { dir: dir, ..o } }) == (DbOptions { dir: dir, ..DbOptions { flush_queue_size: flush_queue_size, ..o } }),
        (DbOptions { max_batch_bytes: max_batch_bytes, ..DbOptions { mem_table_max_size: mem_table_max_size, ..o } }) == (DbOptions { mem_table_max_size: mem_table_max_size, ..DbOptions { max_batch_bytes: max_batch_bytes, ..o } }),
        (DbOptions { max_batch_count: max_batch_count, ..DbOptions { mem_table_max_size: mem_table_max_size, ..o } }) == (DbOptions { mem_table_max_size: mem_table_max_size, ..DbOptions { max_batch_count: max_batch_count, ..o } }),
        (DbOptions { sstable_block_size: sstable_block_size, ..DbOptions { mem_table_max_size: mem_table_max_size, ..o } }) == (DbOptions { mem_table_max_size: mem_table_max_size, ..DbOptions { sstable_block_size: sstable_block_size, ..o } }),
        (DbOptions { compression_type: compression_type, ..DbOptions { mem_table_max_size: mem_table_max_size, ..o } }) == (DbOptions { mem_table_max_size: mem_table_max_size, ..DbOptions { compression_type: compression_type, ..o } }),
        (DbOptions { compression_level: compression_level, ..DbOptions { mem_table_max_size: mem_table_max_size, ..o } }) == (DbOptions { mem_table_max_size: mem_table_max_size, ..DbOptions { compression_level: compression_level, ..o } }),
        (DbOptions { max_write_queue_size: max_write_queue_size, ..DbOptions { mem_table_max_size: mem_table_max_size, ..o } }) == (DbOptions { mem_table_max_size: mem_table_max_size, ..DbOptions { max_write_queue_size: max_write_queue_size, ..o } }),
        (DbOptions { flush_queue_size: flush_queue_size, ..DbOptions { mem_table_max_size: mem_table_max_size, ..o } }) == (DbOptions { mem_table_max_size: mem_table_max_size, ..DbOptions { flush_queue_size: flush_queue_size, ..o } }),
        (DbOptions { max_batch_count: max_batch_count, ..DbOptions { max_batch_bytes: max_batch_bytes, ..o } }) == (DbOptions { max_batch_bytes: max_batch_bytes, ..DbOptions { max_batch_count: max_batch_count, ..o } }),
        (DbOptions { sstable_block_size: sstable_block_size, ..DbOptions { max_batch_bytes: max_batch_bytes, ..o } }) == (DbOptions { max_batch_bytes: max_batch_bytes, ..DbOptions { sstable_block_size: sstable_block_size, ..o } }),
        (DbOptions { compression_type: compression_type, ..DbOptions { max_batch_bytes: max_batch_bytes, ..o } }) == (DbOptions { max_batch_bytes: max_batch_bytes, ..DbOptions { compression_type: compression_type, ..o } }),
        (DbOptions { compression_level: compression_level, ..DbOptions { max_batch_bytes: max_batch_bytes, ..o } }) == (DbOptions { max_batch_bytes: max_batch_bytes, ..DbOptions { compression_level: compression_level, ..o } }),
        (DbOptions { max_write_queue_size: max_write_queue_size, ..DbOptions { max_batch_bytes: max_batch_bytes, ..o } }) == (DbOptions { max_batch_bytes: max_batch_bytes, ..DbOptions { max_write_queue_size: max_write_queue_size, ..o } }),
        (DbOptions { flush_queue_size: flush_queue_size, ..DbOptions { max_batch_bytes: max_batch_bytes, ..o } }) == (DbOptions { max_batch_bytes: max_batch_bytes, ..DbOptions { flush_queue_size: flush_queue_size, ..o } }),
        (DbOptions { sstable_block_size: sstable_block_size, ..DbOptions { max_batch_count: max_batch_count, ..o } }) == (DbOptions { max_batch_count: max_batch_count, ..DbOptions { sstable_block_size: sstable_block_size, ..o } }),
        (DbOptions { compression_type: compression_type, ..DbOptions { max_batch_count: max_batch_count, ..o } }) == (DbOptions { max_batch_count: max_batch_count, ..DbOptions { compression_type: compression_type, ..o } }),
        (DbOptions { compression_level: compression_level, ..DbOptions { max_batch_count: max_batch_count, ..o } }) == (DbOptions { max_batch_count: max_batch_count, ..DbOptions { compression_level: compression_level, ..o } }),
        (DbOptions { max_write_queue_size: max_write_queue_size, ..DbOptions { max_batch_count: max_batch_count, ..o } }) == (DbOptions { max_batch_count: max_batch_count, ..DbOptions { max_write_queue_size: max_write_queue_size, ..o } }),
        (DbOptions { flush_queue_size: flush_queue_size, ..DbOptions { max_batch_count: max_batch_count, ..o } }) == (DbOptions { max_batch_count: max_batch_count, ..DbOptions { flush_queue_size: flush_queue_size, ..o } }),
        (DbOptions { compression_type: compression_type, ..DbOptions { sstable_block_size: sstable_block_size, ..o } }) == (DbOptions { sstable_block_size: sstable_block_size, ..DbOptions { compression_type: compression_type, ..o } }),
        (DbOptions { compression_level: compression_level, ..DbOptions { sstable_block_size: sstable_block_size, ..o } }) == (DbOptions { sstable_block_size: sstable_block_size, ..DbOptions { compression_level: compression_level, ..o } }),
        (DbOptions { max_write_queue_size: max_write_queue_size, ..DbOptions { sstable_block_size: sstable_block_size, ..o } }) == (DbOptions { sstable_block_size: sstable_block_size, ..DbOptions { max_write_queue_size: max_write_queue_size, ..o } }),
        (DbOptions { flush_queue_size: flush_queue_size, ..DbOptions { sstable_block_size: sstable_block_size, ..o } }) == (DbOptions { sstable_block_size: sstable_block_size, ..DbOptions { flush_queue_size: flush_queue_size, ..o } }),
        (DbOptions { compression_level: compression_level, ..DbOptions { compression_type: compression_type, ..o } }) == (DbOptions { compression_type: compression_type, ..DbOptions { compression_level: compression_level, ..o } }),
        (DbOptions { max_write_queue_size: max_write_queue_size, ..DbOptions { compression_type: compression_type, ..o } }) == (DbOptions { compression_type: compression_type, ..DbOptions { max_write_queue_size: max_write_queue_size, ..o } }),
        (DbOptions { flush_queue_size: flush_queue_size, ..DbOptions { compression_type: compression_type, ..o } }) == (DbOptions { compression_type: compression_type, ..DbOptions { flush_queue_size: flush_queue_size, ..o } }),
        (DbOptions { max_write_queue_size: max_write_queue_size, ..DbOptions { compression_level: compression_level, ..o } }) == (DbOptions { compression_level: compression_level, ..DbOptions { max_write_queue_size: max_write_queue_size, ..o } }),
        (DbOptions { flush_queue_size: flush_queue_size, ..DbOptions { compression_level: compression_level, ..o } }) == (DbOptions { compression_level: compression_level, ..DbOptions { flush_queue_size: flush_queue_size, ..o } }),
        (DbOptions { flush_queue_size: flush_queue_size, ..DbOptions { max_write_queue_size: max_write_queue_size, ..o } }) == (DbOptions { max_write_queue_size: max_write_queue_size, ..DbOptions { flush_queue_size: flush_queue_size, ..o } }),
{
}

} // verus!
