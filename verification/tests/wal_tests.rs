use lsmkv::error::DbError;
use lsmkv::model::{LogRecord, RecordType};
use lsmkv::wal::{encode_record, parse_wal_file_name, read_all_records, record_tag, wal_file_name};

fn put(k: &[u8], v: &[u8]) -> LogRecord {
    LogRecord { r_type: RecordType::Put, key: k.to_vec(), value: Some(v.to_vec()) }
}

fn del(k: &[u8]) -> LogRecord {
    LogRecord { r_type: RecordType::Delete, key: k.to_vec(), value: None }
}

#[test]
fn wal_frame_is_length_then_bincode() {
    let r = put(b"key", b"value");
    let frame = encode_record(&r).unwrap();
    let payload = bincode::serialize(&(0u32, b"key".to_vec(), Some(b"value".to_vec()))).unwrap();
    assert_eq!(&frame[0..4], &(payload.len() as u32).to_le_bytes());
    assert_eq!(&frame[4..], &payload[..]);
    // exact layout: tag, key length, key, option tag, value length, value
    let mut expected = vec![];
    expected.extend_from_slice(&0u32.to_le_bytes());
    expected.extend_from_slice(&3u64.to_le_bytes());
    expected.extend_from_slice(b"key");
    expected.push(1);
    expected.extend_from_slice(&5u64.to_le_bytes());
    expected.extend_from_slice(b"value");
    assert_eq!(payload, expected);
    assert_eq!(frame.len(), 4 + 4 + 8 + 3 + 1 + 8 + 5);
}

#[test]
fn wal_delete_frame() {
    let frame = encode_record(&del(b"k")).unwrap();
    let mut expected = vec![];
    expected.extend_from_slice(&14u32.to_le_bytes());
    expected.extend_from_slice(&1u32.to_le_bytes());
    expected.extend_from_slice(&1u64.to_le_bytes());
    expected.extend_from_slice(b"k");
    expected.push(0);
    assert_eq!(frame, expected);
}

#[test]
fn wal_roundtrip() {
    let records = vec![put(b"a", b"1"), del(b"a"), put(b"b", b""), put(b"", b"empty key")];
    let mut bytes = vec![];
    for r in &records {
        bytes.extend(encode_record(r).unwrap());
    }
    let back = read_all_records(&bytes).unwrap();
    assert_eq!(back.len(), records.len());
    for (x, y) in back.iter().zip(records.iter()) {
        assert_eq!(x.r_type, y.r_type);
        assert_eq!(x.key, y.key);
        assert_eq!(x.value, y.value);
    }
}

#[test]
fn wal_torn_tail_is_dropped() {
    let mut bytes = encode_record(&put(b"a", b"1")).unwrap();
    let torn = encode_record(&put(b"b", b"2")).unwrap();
    for cut in 0..torn.len() {
        let mut b = bytes.clone();
        b.extend_from_slice(&torn[..cut]);
        let back = read_all_records(&b).unwrap();
        assert_eq!(back.len(), 1, "cut at {}", cut);
        assert_eq!(back[0].key, b"a".to_vec());
    }
    bytes.extend(torn);
    assert_eq!(read_all_records(&bytes).unwrap().len(), 2);
}

#[test]
fn wal_empty_file() {
    assert_eq!(read_all_records(&[]).unwrap().len(), 0);
}

#[test]
fn wal_bad_payload_is_corruption() {
    // a complete frame whose payload is not a record
    let mut bytes = vec![];
    bytes.extend_from_slice(&3u32.to_le_bytes());
    bytes.extend_from_slice(&[1, 2, 3]);
    assert!(matches!(read_all_records(&bytes), Err(DbError::Corruption(_))));
}

#[test]
fn wal_bad_tag_is_corruption() {
    let payload = bincode::serialize(&(7u32, b"k".to_vec(), None::<Vec<u8>>)).unwrap();
    let mut bytes = vec![];
    bytes.extend_from_slice(&(payload.len() as u32).to_le_bytes());
    bytes.extend_from_slice(&payload);
    assert!(matches!(read_all_records(&bytes), Err(DbError::Corruption(_))));
}

#[test]
fn wal_record_tags() {
    assert_eq!(record_tag(RecordType::Put), 0);
    assert_eq!(record_tag(RecordType::Delete), 1);
}

#[test]
fn wal_file_names() {
    assert_eq!(wal_file_name(1), b"log_000001.log".to_vec());
    assert_eq!(wal_file_name(0), b"log_000000.log".to_vec());
    assert_eq!(wal_file_name(1234567), b"log_1234567.log".to_vec());
    assert_eq!(wal_file_name(u64::MAX), format!("log_{:06}.log", u64::MAX).into_bytes());
    for id in [0u64, 7, 42, 999999, 1000000, 123456789] {
        assert_eq!(wal_file_name(id), format!("log_{:06}.log", id).into_bytes());
        assert_eq!(parse_wal_file_name(&wal_file_name(id)), Some(id));
    }
}

#[test]
fn wal_file_name_parsing() {
    assert_eq!(parse_wal_file_name(b"log_000001.log"), Some(1));
    assert_eq!(parse_wal_file_name(b"log_+5.log"), Some(5));
    assert_eq!(parse_wal_file_name(b"log_abc.log"), None);
    assert_eq!(parse_wal_file_name(b"log_.log"), None);
    assert_eq!(parse_wal_file_name(b"log_+.log"), None);
    assert_eq!(parse_wal_file_name(b"log_-1.log"), None);
    assert_eq!(parse_wal_file_name(b"log_18446744073709551615.log"), Some(u64::MAX));
    assert_eq!(parse_wal_file_name(b"log_18446744073709551616.log"), None);
    assert_eq!(parse_wal_file_name(b"sst_000001.sst"), None);
    assert_eq!(parse_wal_file_name(b"log_1.txt"), None);
    assert_eq!(parse_wal_file_name(b"log"), None);
    for name in ["log_12.log", "log_+0.log", "log_x.log", "log_007.log"] {
        let s = &name[4..name.len() - 4];
        assert_eq!(parse_wal_file_name(name.as_bytes()), s.parse::<u64>().ok());
    }
}
