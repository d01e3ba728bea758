use lsmkv::memtable::{MemTable, MEM_TABLE_MAX_SIZE};
use lsmkv::model::GetResult;

#[test]
fn memtable_new_is_empty() {
    let m = MemTable::new(7);
    assert!(m.is_empty());
    assert_eq!(m.len(), 0);
    assert_eq!(m.id(), 7);
    assert_eq!(m.approx_size(), 0);
}

#[test]
fn memtable_put_then_get() {
    let mut m = MemTable::new(0);
    m.put(b"b".to_vec(), Some(b"2".to_vec()));
    m.put(b"a".to_vec(), Some(b"1".to_vec()));
    assert_eq!(m.get(&b"a".to_vec()), GetResult::Found(&b"1".to_vec()));
    assert_eq!(m.get(&b"b".to_vec()), GetResult::Found(&b"2".to_vec()));
    assert_eq!(m.get(&b"c".to_vec()), GetResult::NotFound);
    assert_eq!(m.len(), 2);
}

#[test]
fn memtable_delete_leaves_tombstone() {
    let mut m = MemTable::new(0);
    m.put(b"a".to_vec(), Some(b"1".to_vec()));
    assert!(m.delete(&b"a".to_vec()).is_ok());
    assert_eq!(m.get(&b"a".to_vec()), GetResult::Deleted);
    // a tombstone still counts as an entry
    assert_eq!(m.len(), 1);
    assert!(!m.is_empty());
    // deleting a key never written also leaves a tombstone
    m.delete(&b"z".to_vec()).unwrap();
    assert_eq!(m.get(&b"z".to_vec()), GetResult::Deleted);
}

#[test]
fn memtable_empty_value_is_a_value() {
    let mut m = MemTable::new(0);
    m.put(b"k".to_vec(), Some(Vec::new()));
    assert_eq!(m.get(&b"k".to_vec()), GetResult::Found(&Vec::new()));
}

#[test]
fn memtable_size_estimate() {
    let mut m = MemTable::new(0);
    m.put(b"key".to_vec(), Some(b"value".to_vec()));
    assert_eq!(m.approx_size(), 8);
    // overwriting takes the old entry off
    m.put(b"key".to_vec(), Some(b"v".to_vec()));
    assert_eq!(m.approx_size(), 4);
    // a tombstone counts its key only
    m.delete(&b"key".to_vec()).unwrap();
    assert_eq!(m.approx_size(), 3);
    m.put(b"other".to_vec(), None);
    assert_eq!(m.approx_size(), 8);
    m.clear();
    assert_eq!(m.approx_size(), 0);
    assert!(m.is_empty());
    assert_eq!(m.id(), 0);
}

#[test]
fn memtable_iter_in_key_order() {
    let mut m = MemTable::new(0);
    for k in [b"d".to_vec(), b"a".to_vec(), b"c".to_vec(), b"ab".to_vec(), b"b".to_vec()] {
        m.put(k, Some(b"x".to_vec()));
    }
    m.delete(&b"c".to_vec()).unwrap();
    let keys: Vec<Vec<u8>> = m.iter().iter().map(|(k, _)| k.clone()).collect();
    assert_eq!(keys, vec![b"a".to_vec(), b"ab".to_vec(), b"b".to_vec(), b"c".to_vec(), b"d".to_vec()]);
    assert_eq!(m.iter()[3].1, None);
}

#[test]
fn memtable_threshold_value() {
    assert_eq!(MEM_TABLE_MAX_SIZE, 4 * 1024 * 1024);
}
