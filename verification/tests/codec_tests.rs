use bitcask::config::{get_store_config, StoreConfig};
use bitcask::keydir::Item;
use bitcask::keydir::SegmentId;
use bitcask::logwriter::LogWriter;
use bitcask::random_string;
use bitcask::read::scan_records;
use bitcask::record::LogEntry;
use bitcask::write_file::{WriteFile, WriteTarget};
use bitcask::{is_tombstone, tombstone};

#[test]
fn test_will_fit() {
    let mut write_target = WriteFile::new(Vec::new());
    write_target.write(b"foo");
    assert!(write_target.will_fit(b"bar", 10));
    assert!(!write_target.will_fit(b"bar", 5));
}

#[test]
fn test_happy_set() {
    let mut writer = LogWriter::new(Vec::new());
    writer.write(b"foo");
    assert_eq!(writer.stream_position(), 3);
    let out = writer.out;
    assert!(out.ends_with(b"foo"));
}

/// The encoded record layout: crc, timestamp, sizes, key, value, with the
/// CRC field matching an independent CRC-32C of the body.
#[test]
fn test_record_layout_and_crc() {
    let entry = LogEntry { key: b"key".to_vec(), val: b"value".to_vec(), ts: 77 };
    assert_eq!(entry.key_sz(), 3);
    assert_eq!(entry.val_sz(), 5);

    let body = entry.serialize();
    assert_eq!(body.len(), 16 + 8 + 8 + 3 + 5);
    assert_eq!(&body[0..16], 77u128.to_le_bytes().as_slice());
    assert_eq!(&body[16..24], 3u64.to_le_bytes().as_slice());
    assert_eq!(&body[24..32], 5u64.to_le_bytes().as_slice());
    assert_eq!(&body[32..35], b"key");
    assert_eq!(&body[35..40], b"value");

    let expected = crc::Crc::<u32>::new(&crc::CRC_32_ISCSI).checksum(&body);
    assert_eq!(entry.crc(), expected);

    let full = entry.serialize_with_crc();
    assert_eq!(&full[0..4], expected.to_le_bytes().as_slice());
    assert_eq!(&full[4..], body.as_slice());
}

/// A scan recovers exactly the records that were appended.
#[test]
fn test_scan_round_trip() {
    let e1 = LogEntry { key: b"a".to_vec(), val: b"1".to_vec(), ts: 1 };
    let e2 = LogEntry { key: b"bb".to_vec(), val: b"22".to_vec(), ts: 2 };
    let mut data = e1.serialize_with_crc();
    data.extend_from_slice(&e2.serialize_with_crc());
    let id = SegmentId { ts: 9, seq: 0 };
    let items = scan_records(id, &data);
    assert_eq!(items.len(), 2);
    assert_eq!(items[0].entry.key, b"a".to_vec());
    assert_eq!(items[0].entry.val, b"1".to_vec());
    assert_eq!(items[0].entry.ts, 1);
    assert_eq!(items[1].entry.key, b"bb".to_vec());
    assert_eq!(items[1].entry.ts, 2);
    // The value offset points at the value bytes inside the image.
    let vp = items[1].val_pos as usize;
    assert_eq!(&data[vp..vp + 2], b"22");
}

/// A truncated tail is ignored: the valid prefix ends before it.
#[test]
fn test_scan_stops_at_truncation() {
    let e1 = LogEntry { key: b"a".to_vec(), val: b"1".to_vec(), ts: 1 };
    let mut data = e1.serialize_with_crc();
    data.extend_from_slice(b"\x01\x02\x03");
    let id = SegmentId { ts: 9, seq: 0 };
    let items = scan_records(id, &data);
    assert_eq!(items.len(), 1);
}

#[test]
fn test_hint_record_layout() {
    let item = Item { file_id: SegmentId { ts: 4, seq: 0 }, val_sz: 5, val_pos: 99, ts: 77 };
    let hint = item.serialize_as_hint(b"key");
    assert_eq!(hint.len(), 16 + 8 + 8 + 8 + 3);
    assert_eq!(&hint[0..16], 77u128.to_le_bytes().as_slice());
    assert_eq!(&hint[16..24], 3u64.to_le_bytes().as_slice());
    assert_eq!(&hint[24..32], 5u64.to_le_bytes().as_slice());
    assert_eq!(&hint[32..40], 99u64.to_le_bytes().as_slice());
    assert_eq!(&hint[40..], b"key");

    // An entry encodes the same hint record for the same locator.
    let entry = LogEntry { key: b"key".to_vec(), val: b"12345".to_vec(), ts: 77 };
    assert_eq!(entry.serialize_hint(99), hint);
}

#[test]
fn test_tombstone_bytes() {
    let t = tombstone();
    assert_eq!(t, vec![0xe2u8, 0x98, 0x97]);
    assert!(is_tombstone(&t));
    assert!(!is_tombstone(b"foo"));
    assert!(!is_tombstone(b""));
}

#[test]
fn test_from_set_stamps_entry() {
    let e = LogEntry::from_set(b"k", b"v").unwrap();
    assert_eq!(e.key, b"k".to_vec());
    assert_eq!(e.val, b"v".to_vec());
}

#[test]
fn test_store_config_defaults() {
    let d = StoreConfig::default();
    assert_eq!(d.log_dir, "/tmp/bitcask/");
    assert_eq!(d.max_log_file_size, 2_000_000_000);

    let c = get_store_config(None, None);
    assert_eq!(c.log_dir, "/tmp/bitcask/");
    assert_eq!(c.max_log_file_size, 2_000_000_000);

    let c = get_store_config(Some("/var/data/".to_owned()), Some(42));
    assert_eq!(c.log_dir, "/var/data/");
    assert_eq!(c.max_log_file_size, 42);
}

#[test]
fn test_random_string_shape() {
    let s = random_string(25);
    assert_eq!(s.len(), 25);
    assert!(s.chars().all(|c| c.is_ascii_alphanumeric()));
    let s2 = random_string(0);
    assert_eq!(s2.len(), 0);
}
