use std::sync::Arc;

use lsmkv::compression::CompressionType;
use lsmkv::db_kernel::{batch_has_room, encode_batch, DbKernel, WriteBatch, WriteOP};
use lsmkv::error::DbError;
use lsmkv::flush::flush_memtable;
use lsmkv::memtable::MemTable;
use lsmkv::sstable::SSTable;
use lsmkv::wal::{encode_record, read_all_records};
use lsmkv::model::{LogRecord, RecordType};

const DEFAULT_MAX: usize = 4 * 1024 * 1024;

fn fresh() -> DbKernel {
    DbKernel::new(vec![], DEFAULT_MAX).unwrap()
}

#[test]
fn kernel_basic_put_get() {
    let mut kv = fresh();
    kv.put(b"key1".to_vec(), b"value1".to_vec());
    let val = kv.get(&b"key1".to_vec()).unwrap();
    assert_eq!(val, b"value1".to_vec());

    kv.put(b"key2".to_vec(), b"value2".to_vec());
    let val = kv.get(&b"key2".to_vec()).unwrap();
    assert_eq!(val, b"value2".to_vec());

    kv.delete(b"key1".to_vec());
    assert!(kv.get(&b"key1".to_vec()).is_err());
}

#[test]
fn kernel_hundred_puts_in_one_batch() {
    let mut kv = fresh();
    let mut ops = vec![];
    for i in 0..100 {
        let k = format!("key{}", i).into_bytes();
        let v = format!("value{}", i).into_bytes();
        ops.push(WriteOP::Put(k, v));
    }
    assert_eq!(kv.write(&WriteBatch { ops }), None);
    for i in 0..100 {
        let k = format!("key{}", i).into_bytes();
        let expected_v = format!("value{}", i).into_bytes();
        let val = kv.get(&k).unwrap();
        assert_eq!(val, expected_v);
    }
}

#[test]
fn kernel_missing_key_is_not_found() {
    let kv = fresh();
    assert!(matches!(kv.get(&b"nope".to_vec()), Err(DbError::NotFound)));
    assert_eq!(kv.next_file_id(), 0);
    assert_eq!(kv.imm_memtables().len(), 0);
}

#[test]
fn kernel_empty_value_is_found() {
    let mut kv = fresh();
    kv.put(b"k".to_vec(), Vec::new());
    assert_eq!(kv.get(&b"k".to_vec()).unwrap(), Vec::<u8>::new());
}

#[test]
fn kernel_batch_last_write_wins() {
    let mut kv = fresh();
    kv.put(b"c".to_vec(), b"old".to_vec());
    let batch = WriteBatch {
        ops: vec![
            WriteOP::Put(b"a".to_vec(), b"1".to_vec()),
            WriteOP::Put(b"a".to_vec(), b"2".to_vec()),
            WriteOP::Put(b"b".to_vec(), b"1".to_vec()),
            WriteOP::Delete(b"b".to_vec()),
        ],
    };
    kv.write(&batch);
    assert_eq!(kv.get(&b"a".to_vec()).unwrap(), b"2".to_vec());
    assert!(matches!(kv.get(&b"b".to_vec()), Err(DbError::NotFound)));
    assert_eq!(kv.get(&b"c".to_vec()).unwrap(), b"old".to_vec());
}

fn big_value() -> Vec<u8> {
    vec![7u8; 1024 * 1024]
}

#[test]
fn kernel_rotates_at_threshold() {
    let mut kv = fresh();
    assert_eq!(kv.put(b"k0".to_vec(), big_value()), None);
    assert_eq!(kv.put(b"k1".to_vec(), big_value()), None);
    assert_eq!(kv.put(b"k2".to_vec(), big_value()), None);
    // 4 * (2 + 1 MiB) reaches the 4 MiB threshold
    assert_eq!(kv.put(b"k3".to_vec(), big_value()), Some(1));
    assert_eq!(kv.next_file_id(), 1);
    assert_eq!(kv.imm_memtables().len(), 1);
    assert_eq!(kv.imm_memtables()[0].id(), 0);
    assert_eq!(kv.imm_memtables()[0].len(), 4);
    // reads still see the frozen table
    assert_eq!(kv.get(&b"k0".to_vec()).unwrap(), big_value());
    // and a newer write shadows it
    kv.delete(b"k0".to_vec());
    assert!(matches!(kv.get(&b"k0".to_vec()), Err(DbError::NotFound)));
    assert_eq!(kv.get(&b"k3".to_vec()).unwrap(), big_value());
}

#[test]
fn kernel_flush_keeps_reads() {
    let mut kv = fresh();
    for i in 0..4 {
        kv.put(format!("k{}", i).into_bytes(), big_value());
    }
    kv.put(b"k1".to_vec(), b"newer".to_vec());
    let frozen: Arc<MemTable> = kv.imm_memtables()[0].clone();
    for compression in [CompressionType::Uncompressed, CompressionType::Zstd] {
        let mut kv2 = DbKernel::new(vec![], DEFAULT_MAX).unwrap();
        for i in 0..4 {
            kv2.put(format!("k{}", i).into_bytes(), big_value());
        }
        kv2.put(b"k1".to_vec(), b"newer".to_vec());
        let bytes = flush_memtable(&frozen, 4096, compression, 3).unwrap();
        let t = SSTable::open(bytes).unwrap();
        assert!(t.validate());
        kv2.install_flush_result(frozen.id(), t);
        assert_eq!(kv2.imm_memtables().len(), 0);
        assert_eq!(kv2.get(&b"k0".to_vec()).unwrap(), big_value());
        assert_eq!(kv2.get(&b"k1".to_vec()).unwrap(), b"newer".to_vec());
        assert_eq!(kv2.get(&b"k3".to_vec()).unwrap(), big_value());
        assert!(matches!(kv2.get(&b"k9".to_vec()), Err(DbError::NotFound)));
    }
    // without an installed table the frozen table keeps answering
    assert_eq!(kv.imm_memtables().len(), 1);
    assert_eq!(kv.get(&b"k0".to_vec()).unwrap(), big_value());
}

#[test]
fn kernel_rotates_at_configured_threshold() {
    let mut kv = DbKernel::new(vec![], 10).unwrap();
    assert_eq!(kv.put(b"ab".to_vec(), b"cdef".to_vec()), None);
    assert_eq!(kv.memtable_size(), 6);
    assert_eq!(kv.put(b"gh".to_vec(), b"ij".to_vec()), Some(1));
    assert_eq!(kv.memtable_size(), 0);
    assert_eq!(kv.imm_memtables()[0].id(), 0);
    assert_eq!(kv.get(&b"ab".to_vec()).unwrap(), b"cdef".to_vec());
}

#[test]
fn kernel_recovered_size_estimate() {
    let bytes = encode_batch(&WriteBatch {
        ops: vec![
            WriteOP::Put(b"a".to_vec(), b"123".to_vec()),
            WriteOP::Put(b"a".to_vec(), b"1".to_vec()),
            WriteOP::Delete(b"bb".to_vec()),
        ],
    })
    .unwrap();
    let kv = DbKernel::new(vec![(0, bytes)], DEFAULT_MAX).unwrap();
    assert_eq!(kv.memtable_size(), 2 + 2);
    assert_eq!(fresh().memtable_size(), 0);
}

#[test]
fn kernel_unreadable_table_is_corruption() {
    let mut kv = fresh();
    let mut bytes = vec![];
    bytes.extend_from_slice(&3u64.to_le_bytes());
    bytes.extend_from_slice(&[9, 9, 9]);
    let index_offset = bytes.len() as u64;
    bytes.extend(bincode::serialize(&vec![(b"a".to_vec(), 0u64)]).unwrap());
    bytes.extend_from_slice(&index_offset.to_le_bytes());
    bytes.push(0);
    bytes.extend_from_slice(&[0u8; 7]);
    bytes.extend_from_slice(&0x888Au64.to_le_bytes());
    let t = SSTable::open(bytes).unwrap();
    assert!(t.validate());
    for i in 0..4 {
        kv.put(format!("k{}", i).into_bytes(), big_value());
    }
    assert_eq!(kv.imm_memtables().len(), 1);
    kv.install_flush_result(0, t);
    assert!(matches!(kv.get(&b"a".to_vec()), Err(DbError::Corruption(_))));
    // a key below every block start is not looked for on disk
    assert!(matches!(kv.get(&b"0".to_vec()), Err(DbError::NotFound)));
}

#[test]
fn kernel_recovers_from_wal() {
    let batch = WriteBatch {
        ops: vec![
            WriteOP::Put(b"a".to_vec(), b"1".to_vec()),
            WriteOP::Put(b"b".to_vec(), b"2".to_vec()),
            WriteOP::Delete(b"a".to_vec()),
        ],
    };
    let mut bytes = encode_batch(&batch).unwrap();
    // a torn last frame
    let torn = encode_record(&LogRecord { r_type: RecordType::Put, key: b"c".to_vec(), value: Some(b"3".to_vec()) }).unwrap();
    bytes.extend_from_slice(&torn[..torn.len() - 1]);
    assert_eq!(read_all_records(&bytes).unwrap().len(), 3);
    let kv = DbKernel::new(vec![(3, bytes)], DEFAULT_MAX).unwrap();
    assert_eq!(kv.next_file_id(), 3);
    assert_eq!(kv.get(&b"b".to_vec()).unwrap(), b"2".to_vec());
    assert!(matches!(kv.get(&b"a".to_vec()), Err(DbError::NotFound)));
    assert!(matches!(kv.get(&b"c".to_vec()), Err(DbError::NotFound)));
}

#[test]
fn kernel_recovery_orders_files_by_id() {
    let older = encode_batch(&WriteBatch { ops: vec![WriteOP::Put(b"k".to_vec(), b"old".to_vec()), WriteOP::Put(b"x".to_vec(), b"1".to_vec())] }).unwrap();
    let newer = encode_batch(&WriteBatch { ops: vec![WriteOP::Put(b"k".to_vec(), b"new".to_vec())] }).unwrap();
    let middle = encode_batch(&WriteBatch { ops: vec![WriteOP::Delete(b"x".to_vec())] }).unwrap();
    let kv = DbKernel::new(vec![(9, newer), (2, older), (5, middle)], DEFAULT_MAX).unwrap();
    assert_eq!(kv.next_file_id(), 9);
    let ids: Vec<u64> = kv.imm_memtables().iter().map(|m| m.id()).collect();
    assert_eq!(ids, vec![2, 5]);
    assert_eq!(kv.get(&b"k".to_vec()).unwrap(), b"new".to_vec());
    assert!(matches!(kv.get(&b"x".to_vec()), Err(DbError::NotFound)));
}

#[test]
fn kernel_recovery_rejects_corrupt_wal() {
    let good = encode_batch(&WriteBatch { ops: vec![WriteOP::Put(b"k".to_vec(), b"v".to_vec())] }).unwrap();
    let mut bad = vec![];
    bad.extend_from_slice(&2u32.to_le_bytes());
    bad.extend_from_slice(&[0xff, 0xff]);
    assert!(matches!(DbKernel::new(vec![(1, good), (2, bad)], DEFAULT_MAX), Err(DbError::Corruption(_))));
}

#[test]
fn kernel_encode_batch_is_frames() {
    let batch = WriteBatch { ops: vec![WriteOP::Put(b"a".to_vec(), b"1".to_vec()), WriteOP::Delete(b"b".to_vec())] };
    let bytes = encode_batch(&batch).unwrap();
    let mut expected = encode_record(&LogRecord { r_type: RecordType::Put, key: b"a".to_vec(), value: Some(b"1".to_vec()) }).unwrap();
    expected.extend(encode_record(&LogRecord { r_type: RecordType::Delete, key: b"b".to_vec(), value: None }).unwrap());
    assert_eq!(bytes, expected);
}

#[test]
fn kernel_batch_room() {
    assert!(batch_has_room(0, 0, 1000, 1024));
    assert!(!batch_has_room(1000, 10, 1000, 1024));
    assert!(!batch_has_room(3, 1024, 1000, 1024));
}

#[test]
fn kernel_installs_oldest_flush_first() {
    let mut kv = DbKernel::new(vec![], 3).unwrap();
    assert_eq!(kv.put(b"k".to_vec(), b"v1".to_vec()), Some(1));
    assert_eq!(kv.put(b"k".to_vec(), b"v2".to_vec()), Some(2));
    assert_eq!(kv.next_flush_to_install(&vec![]), None);
    // the newer table's flush finished first: it waits
    assert_eq!(kv.next_flush_to_install(&vec![1]), None);
    assert_eq!(kv.next_flush_to_install(&vec![1, 0]), Some(1));
    let oldest = kv.imm_memtables()[0].clone();
    let t = SSTable::open(flush_memtable(&oldest, 4096, CompressionType::Zstd, 3).unwrap()).unwrap();
    kv.install_flush_result(0, t);
    assert_eq!(kv.next_flush_to_install(&vec![1]), Some(0));
    assert_eq!(kv.get(&b"k".to_vec()).unwrap(), b"v2".to_vec());
    assert_eq!(fresh().next_flush_to_install(&vec![0]), None);
}
