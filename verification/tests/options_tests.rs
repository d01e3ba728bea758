use lsmkv::compression::CompressionType;
use lsmkv::error::DbError;
use lsmkv::options::{DbOptions, DbOptionsBuilder};

#[test]
fn options_defaults() {
    let o = DbOptions::default();
    assert_eq!(o.dir, "lsmkv_db");
    assert_eq!(o.mem_table_max_size, 4 * 1024 * 1024);
    assert_eq!(o.max_batch_bytes, 1024 * 1024);
    assert_eq!(o.max_batch_count, 1000);
    assert_eq!(o.sstable_block_size, 4096);
    assert_eq!(o.compression_type, CompressionType::Zstd);
    assert_eq!(o.compression_level, 3);
    assert_eq!(o.max_write_queue_size, 1024);
    assert_eq!(o.flush_queue_size, 100);
    let b = DbOptions::builder().build();
    assert_eq!(b.dir, o.dir);
    assert_eq!(b.mem_table_max_size, o.mem_table_max_size);
}

#[test]
fn options_builder_sets_fields() {
    let o = DbOptionsBuilder::new()
        .dir("./my_db_data".to_string())
        .mem_table_max_size(8 * 1024 * 1024)
        .max_batch_bytes(2 * 1024 * 1024)
        .max_batch_count(2000)
        .sstable_block_size(8192)
        .compression_type(CompressionType::Uncompressed)
        .compression_level(9)
        .max_write_queue_size(7)
        .flush_queue_size(3)
        .build();
    assert_eq!(o.dir, "./my_db_data");
    assert_eq!(o.mem_table_max_size, 8 * 1024 * 1024);
    assert_eq!(o.max_batch_bytes, 2 * 1024 * 1024);
    assert_eq!(o.max_batch_count, 2000);
    assert_eq!(o.sstable_block_size, 8192);
    assert_eq!(o.compression_type, CompressionType::Uncompressed);
    assert_eq!(o.compression_level, 9);
    assert_eq!(o.max_write_queue_size, 7);
    assert_eq!(o.flush_queue_size, 3);
}

#[test]
fn options_builder_keeps_other_fields() {
    let o = DbOptions::builder().max_batch_count(2000).build();
    assert_eq!(o.max_batch_count, 2000);
    assert_eq!(o.dir, "lsmkv_db");
    assert_eq!(o.sstable_block_size, 4096);
}

#[test]
fn compression_bytes() {
    assert_eq!(CompressionType::Uncompressed.to_byte(), 0);
    assert_eq!(CompressionType::Snappy.to_byte(), 1);
    assert_eq!(CompressionType::Zstd.to_byte(), 2);
    for c in [CompressionType::Uncompressed, CompressionType::Snappy, CompressionType::Zstd] {
        assert_eq!(CompressionType::from_byte(c.to_byte()).unwrap(), c);
    }
    match CompressionType::from_byte(5) {
        Err(DbError::Corruption(m)) => assert_eq!(m, "Unknown compression type: 5"),
        other => panic!("unexpected {:?}", other),
    }
    match CompressionType::from_byte(255) {
        Err(DbError::Corruption(m)) => assert_eq!(m, "Unknown compression type: 255"),
        other => panic!("unexpected {:?}", other),
    }
}
