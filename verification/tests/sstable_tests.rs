use lsmkv::compression::CompressionType;
use lsmkv::error::DbError;
use lsmkv::flush::{flush_memtable, sst_file_name};
use lsmkv::memtable::MemTable;
use lsmkv::model::GetResult;
use lsmkv::sstable::SSTable;
use lsmkv::sstable_builder::SSTableBuilder;

fn sample_table(n: usize) -> MemTable {
    let mut m = MemTable::new(3);
    for i in 0..n {
        m.put(format!("key_{:04}", i).into_bytes(), Some(format!("value_{}", i).into_bytes()));
    }
    m.delete(&b"key_0002".to_vec()).unwrap();
    m
}

fn open_checked(bytes: Vec<u8>) -> SSTable {
    let t = SSTable::open(bytes).unwrap();
    assert!(t.validate());
    t
}

#[test]
fn sstable_roundtrip_uncompressed() {
    let m = sample_table(50);
    for block_size in [0usize, 1, 64, 4096] {
        let bytes = SSTableBuilder::new(block_size, CompressionType::Uncompressed, 3)
            .build(m.iter())
            .unwrap();
        let t = open_checked(bytes);
        for i in 0..50 {
            let k = format!("key_{:04}", i).into_bytes();
            let got = t.get(&k);
            if i == 2 {
                assert_eq!(got, GetResult::Deleted);
            } else {
                assert_eq!(got, GetResult::Found(format!("value_{}", i).into_bytes()));
            }
        }
        assert_eq!(t.get(&b"key_".to_vec()), GetResult::NotFound);
        assert_eq!(t.get(&b"a".to_vec()), GetResult::NotFound);
        assert_eq!(t.get(&b"key_0001x".to_vec()), GetResult::NotFound);
        assert_eq!(t.get(&b"zzz".to_vec()), GetResult::NotFound);
    }
}

#[test]
fn sstable_roundtrip_zstd() {
    let m = sample_table(200);
    let bytes = flush_memtable(&m, 256, CompressionType::Zstd, 3).unwrap();
    let t = open_checked(bytes);
    assert_eq!(t.get(&b"key_0150".to_vec()), GetResult::Found(b"value_150".to_vec()));
    assert_eq!(t.get(&b"key_0002".to_vec()), GetResult::Deleted);
    assert_eq!(t.get(&b"key_9999".to_vec()), GetResult::NotFound);
}

#[test]
fn sstable_layout_uncompressed_single_block() {
    let mut m = MemTable::new(0);
    m.put(b"a".to_vec(), Some(b"1".to_vec()));
    let bytes = SSTableBuilder::new(4096, CompressionType::Uncompressed, 0).build(m.iter()).unwrap();
    let block = bincode::serialize(&vec![(0u32, b"a".to_vec(), Some(b"1".to_vec()))]).unwrap();
    let mut expected = vec![];
    expected.extend_from_slice(&(block.len() as u64).to_le_bytes());
    expected.extend_from_slice(&block);
    let index_offset = expected.len() as u64;
    expected.extend(bincode::serialize(&vec![(b"a".to_vec(), 0u64)]).unwrap());
    expected.extend_from_slice(&index_offset.to_le_bytes());
    expected.push(0);
    expected.extend_from_slice(&[0u8; 7]);
    expected.extend_from_slice(&0x888Au64.to_le_bytes());
    assert_eq!(bytes, expected);
}

#[test]
fn sstable_zstd_blocks_are_compressed() {
    let mut m = MemTable::new(0);
    m.put(b"a".to_vec(), Some(vec![b'x'; 10000]));
    let plain = SSTableBuilder::new(4096, CompressionType::Uncompressed, 3).build(m.iter()).unwrap();
    let packed = SSTableBuilder::new(4096, CompressionType::Zstd, 3).build(m.iter()).unwrap();
    assert!(packed.len() < plain.len());
    let t = open_checked(packed);
    assert_eq!(t.get(&b"a".to_vec()), GetResult::Found(vec![b'x'; 10000]));
}

#[test]
fn sstable_empty_table() {
    let m = MemTable::new(0);
    let bytes = SSTableBuilder::new(4096, CompressionType::Zstd, 3).build(m.iter()).unwrap();
    assert_eq!(bytes.len(), 8 + 24);
    let t = open_checked(bytes);
    assert_eq!(t.get(&b"a".to_vec()), GetResult::NotFound);
}

#[test]
fn sstable_snappy_not_implemented() {
    let m = sample_table(3);
    match SSTableBuilder::new(4096, CompressionType::Snappy, 3).build(m.iter()) {
        Err(DbError::Corruption(msg)) => assert_eq!(msg, "Snappy not implemented"),
        other => panic!("unexpected {:?}", other.map(|b| b.len())),
    }
    // also with no entries
    let empty = MemTable::new(0);
    match SSTableBuilder::new(4096, CompressionType::Snappy, 3).build(empty.iter()) {
        Err(DbError::Corruption(msg)) => assert_eq!(msg, "Snappy not implemented"),
        other => panic!("unexpected {:?}", other.map(|b| b.len())),
    }
    assert!(matches!(flush_memtable(&empty, 4096, CompressionType::Snappy, 3), Err(DbError::Corruption(_))));
}

fn footer(index_offset: u64, compression: u8, magic: u64) -> Vec<u8> {
    let mut f = vec![];
    f.extend_from_slice(&index_offset.to_le_bytes());
    f.push(compression);
    f.extend_from_slice(&[0u8; 7]);
    f.extend_from_slice(&magic.to_le_bytes());
    f
}

#[test]
fn sstable_open_errors() {
    match SSTable::open(vec![0u8; 23]) {
        Err(DbError::Corruption(m)) => assert_eq!(m, "SSTable file is too short."),
        _ => panic!("expected too short"),
    }
    match SSTable::open(vec![0u8; 24]) {
        Err(DbError::Corruption(m)) => assert_eq!(m, "Bad Magic"),
        _ => panic!("expected bad magic"),
    }
    match SSTable::open(footer(0, 9, 0x888A)) {
        Err(DbError::Corruption(m)) => assert_eq!(m, "Unknown compression type: 9"),
        _ => panic!("expected bad compression"),
    }
    let mut bad_index = vec![1u8, 2, 3];
    bad_index.extend(footer(0, 0, 0x888A));
    match SSTable::open(bad_index) {
        Err(DbError::Corruption(m)) => assert_eq!(m, "Invalid sparse index"),
        _ => panic!("expected a bad index"),
    }
}

#[test]
fn sstable_index_offset_out_of_range() {
    match SSTable::open(footer(100, 0, 0x888A)) {
        Err(DbError::Corruption(m)) => assert_eq!(m, "Index offset out of range"),
        _ => panic!("expected an index offset out of range"),
    }
    // the other footer checks come first
    assert!(matches!(SSTable::open(footer(100, 0, 1)), Err(DbError::Corruption(m)) if m == "Bad Magic"));
    assert!(matches!(SSTable::open(footer(100, 7, 0x888A)), Err(DbError::Corruption(m)) if m == "Unknown compression type: 7"));
}

#[test]
fn sstable_index_later_pair_wins() {
    // an index that names the same start key twice keeps the later offset
    let block = bincode::serialize(&vec![(0u32, b"a".to_vec(), Some(b"1".to_vec()))]).unwrap();
    let mut bytes = vec![];
    bytes.extend_from_slice(&(block.len() as u64).to_le_bytes());
    bytes.extend_from_slice(&block);
    let index_offset = bytes.len() as u64;
    bytes.extend(bincode::serialize(&vec![(b"a".to_vec(), 999u64), (b"a".to_vec(), 0u64)]).unwrap());
    bytes.extend(footer(index_offset, 0, 0x888A));
    let t = open_checked(bytes);
    assert_eq!(t.get(&b"a".to_vec()), GetResult::Found(b"1".to_vec()));
}

#[test]
fn sstable_validate_rejects_block_out_of_bounds() {
    let mut bytes = vec![];
    let index_offset = 0u64;
    bytes.extend(bincode::serialize(&vec![(b"a".to_vec(), 1000u64)]).unwrap());
    bytes.extend(footer(index_offset, 0, 0x888A));
    let t = SSTable::open(bytes).unwrap();
    assert!(!t.validate());
    match t.get(&b"a".to_vec()) {
        GetResult::Error(m) => assert_eq!(m, "SSTable block out of bounds"),
        other => panic!("unexpected {:?}", other),
    }
}

#[test]
fn sstable_snappy_block_reads_as_error() {
    let block = bincode::serialize(&vec![(0u32, b"a".to_vec(), Some(b"1".to_vec()))]).unwrap();
    let mut bytes = vec![];
    bytes.extend_from_slice(&(block.len() as u64).to_le_bytes());
    bytes.extend_from_slice(&block);
    let index_offset = bytes.len() as u64;
    bytes.extend(bincode::serialize(&vec![(b"a".to_vec(), 0u64)]).unwrap());
    bytes.extend(footer(index_offset, 1, 0x888A));
    let t = SSTable::open(bytes).unwrap();
    assert!(!t.validate());
    match t.get(&b"a".to_vec()) {
        GetResult::Error(m) => assert_eq!(m, "Snappy decompression not implemented"),
        other => panic!("unexpected {:?}", other),
    }
}

#[test]
fn sstable_put_without_value_reads_as_error() {
    let block = bincode::serialize(&vec![(0u32, b"a".to_vec(), None::<Vec<u8>>)]).unwrap();
    let mut bytes = vec![];
    bytes.extend_from_slice(&(block.len() as u64).to_le_bytes());
    bytes.extend_from_slice(&block);
    let index_offset = bytes.len() as u64;
    bytes.extend(bincode::serialize(&vec![(b"a".to_vec(), 0u64)]).unwrap());
    bytes.extend(footer(index_offset, 0, 0x888A));
    let t = SSTable::open(bytes).unwrap();
    assert!(!t.validate());
    assert_eq!(t.get(&b"a".to_vec()), GetResult::Error("Put record without a value".to_string()));
}

#[test]
fn sstable_corrupt_block_reads_as_error() {
    // a block whose bytes do not decode
    let mut bytes = vec![];
    bytes.extend_from_slice(&3u64.to_le_bytes());
    bytes.extend_from_slice(&[9, 9, 9]);
    let index_offset = bytes.len() as u64;
    bytes.extend(bincode::serialize(&vec![(b"a".to_vec(), 0u64)]).unwrap());
    bytes.extend(footer(index_offset, 0, 0x888A));
    let t = open_checked(bytes);
    assert!(matches!(t.get(&b"a".to_vec()), GetResult::Error(_)));
    // a zstd table whose block is not a zstd frame
    let mut bytes = vec![];
    bytes.extend_from_slice(&3u64.to_le_bytes());
    bytes.extend_from_slice(&[9, 9, 9]);
    let index_offset = bytes.len() as u64;
    bytes.extend(bincode::serialize(&vec![(b"a".to_vec(), 0u64)]).unwrap());
    bytes.extend(footer(index_offset, 2, 0x888A));
    let t = open_checked(bytes);
    match t.get(&b"b".to_vec()) {
        GetResult::Error(m) => assert!(m.starts_with("Zstd decompression failed: ")),
        other => panic!("unexpected {:?}", other),
    }
}

#[test]
fn sstable_file_names() {
    assert_eq!(sst_file_name(12), b"sst_000012.sst".to_vec());
    assert_eq!(sst_file_name(1234567), b"sst_1234567.sst".to_vec());
}

#[test]
fn sstable_largest_block_size() {
    // a block size no record reaches keeps every entry in one block
    let m = sample_table(10);
    let t = open_checked(flush_memtable(&m, usize::MAX, CompressionType::Uncompressed, 3).unwrap());
    assert_eq!(t.get(&b"key_0009".to_vec()), GetResult::Found(b"value_9".to_vec()));
    assert_eq!(t.get(&b"key_0002".to_vec()), GetResult::Deleted);
    let one = open_checked(flush_memtable(&m, 1, CompressionType::Uncompressed, 3).unwrap());
    assert_eq!(one.get(&b"key_0009".to_vec()), GetResult::Found(b"value_9".to_vec()));
}
