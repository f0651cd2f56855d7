use bitcask::bitcask::{BitCask, SetError};
use bitcask::config::StoreConfig;
use bitcask::files::Segment;
use bitcask::random_string;

fn test_config(max: u64) -> StoreConfig {
    StoreConfig { log_dir: "/tmp/bitcask-test/".to_owned(), max_log_file_size: max }
}

fn fresh(max: u64) -> BitCask {
    BitCask::new(test_config(max), Vec::new())
}

/// Basic happy path test.
#[test]
fn bitcask_test_happy_path() {
    let mut bitcask = fresh(1000);

    let key1 = b"foo";
    let val1 = b"bar";
    bitcask.set(key1, val1).unwrap();

    let key2 = b"baz";
    let val2 = b"quux\n\nand\n\nother\n\nstuff\n\ntoo";
    bitcask.set(key2, val2).unwrap();

    assert_eq!(bitcask.get(key1).unwrap(), val1.to_vec());
    assert_eq!(bitcask.get(key2).unwrap(), val2.to_vec());
}

/// The same happy path through the public interface alone.
#[test]
fn tests_test_happy_path() {
    let mut bitcask = fresh(1000);

    bitcask.set(b"foo", b"bar").unwrap();
    bitcask.set(b"baz", b"quux\n\nand\n\nother\n\nstuff\n\ntoo").unwrap();

    assert_eq!(bitcask.get(b"foo").unwrap(), b"bar".to_vec());
    assert_eq!(
        bitcask.get(b"baz").unwrap(),
        b"quux\n\nand\n\nother\n\nstuff\n\ntoo".to_vec()
    );
}

/// Overwriting a key reads back the latest value.
#[test]
fn test_overwrite() {
    let mut bitcask = fresh(1000);
    bitcask.set(b"k", b"v1").unwrap();
    bitcask.set(b"k", b"v2").unwrap();
    assert_eq!(bitcask.get(b"k").unwrap(), b"v2".to_vec());
}

/// A deleted key reads as missing until it is set again.
#[test]
fn test_delete() {
    let mut bitcask = fresh(1000);
    bitcask.set(b"k", b"v").unwrap();
    bitcask.delete(b"k").unwrap();
    assert!(bitcask.get(b"k").is_err());
    bitcask.set(b"k", b"w").unwrap();
    assert_eq!(bitcask.get(b"k").unwrap(), b"w".to_vec());
}

/// Writing the tombstone bytes as a value acts as a delete.
#[test]
fn test_set_tombstone_hides() {
    let mut bitcask = fresh(1000);
    bitcask.set(b"k", b"v").unwrap();
    bitcask.set(b"k", b"\xe2\x98\x97").unwrap();
    assert!(bitcask.get(b"k").is_err());
}

/// Keys and values are arbitrary byte strings.
#[test]
fn test_arbitrary_bytes() {
    let mut bitcask = fresh(10_000);
    let key: &[u8] = &[0u8, 1, 2, 255, 13, 10, 0];
    let val: &[u8] = &[255u8, 0, 13, 10, 13, 10, 7];
    bitcask.set(key, val).unwrap();
    assert_eq!(bitcask.get(key).unwrap(), val.to_vec());
}

/// Non-ASCII text survives the byte round trip.
#[test]
fn test_non_ascii() {
    let mut bitcask = fresh(1000);

    let key = "sprawd\u{17a}".as_bytes();
    let val = "\u{17c}e dzia\u{142}a tak, jak powinno";
    bitcask.set(key, val.as_bytes()).unwrap();

    let got = bitcask.get(key).unwrap();
    assert_eq!(got, val.as_bytes().to_vec());
    assert_eq!(std::str::from_utf8(&got).unwrap(), val);
}

/// Tests whether preexisting log data reads correctly on initialization.
#[test]
fn bitcask_test_read_existing_on_init() {
    let mut bitcask = fresh(1000);
    bitcask.set(b"foo", b"bar").unwrap();
    let files = bitcask.into_files();

    // Open a new store over the same segment images.
    let mut bitcask = BitCask::new(test_config(1000), files);
    assert_eq!(bitcask.get(b"foo").unwrap(), b"bar".to_vec());
}

/// The same durability check after several writes and a delete.
#[test]
fn tests_test_read_existing_on_init() {
    let mut bitcask = fresh(1000);
    bitcask.set(b"foo", b"bar").unwrap();
    bitcask.set(b"gone", b"soon").unwrap();
    bitcask.delete(b"gone").unwrap();
    let files = bitcask.into_files();

    let mut bitcask = BitCask::new(test_config(1000), files);
    assert_eq!(bitcask.get(b"foo").unwrap(), b"bar".to_vec());
    assert!(bitcask.get(b"gone").is_err());
}

/// Test merge functionality: rotation fills several segments, merge
/// compacts them down and writes hint sidecars.
#[test]
fn bitcask_test_merge() {
    let mut bitcask = fresh(1000);

    let mut last = Vec::new();
    for _ in 0..50 {
        last = random_string(25).into_bytes();
        bitcask.set(b"foo", &last).unwrap();
    }
    assert!(bitcask.segment_count() > 2);

    // Open a new store, since the current write segment is not merged.
    let files = bitcask.into_files();
    let mut bitcask = BitCask::new(test_config(1000), files);
    bitcask.merge().unwrap();

    assert_eq!(bitcask.get(b"foo").unwrap(), last);
    assert!(bitcask.segment_count() <= 2);
    assert!(bitcask.hint_count() + 1 >= bitcask.segment_count());

    // The compacted store still reads correctly after another reopen.
    let files = bitcask.into_files();
    let mut bitcask = BitCask::new(test_config(1000), files);
    assert_eq!(bitcask.get(b"foo").unwrap(), last);
}

/// After a merge the closed segments hold one record per live key.
#[test]
fn tests_test_merge() {
    let mut bitcask = fresh(1000);
    let mut last = Vec::new();
    for _ in 0..50 {
        last = random_string(25).into_bytes();
        bitcask.set(b"foo", &last).unwrap();
    }
    let files = bitcask.into_files();
    let mut bitcask = BitCask::new(test_config(1000), files);
    bitcask.merge().unwrap();
    assert_eq!(bitcask.get(b"foo").unwrap(), last);

    // One live key: exactly one record across the merged segments.
    let files = bitcask.into_files();
    let mut total = 0;
    for seg in &files {
        total += bitcask::read::scan_records(seg.id, &seg.data).len();
    }
    assert_eq!(total, 1);
}

/// A record too large for even a fresh segment is refused and nothing
/// changes.
#[test]
fn test_oversize_record() {
    let mut bitcask = fresh(100);
    let big = vec![7u8; 200];
    let r = bitcask.set(b"k", &big);
    assert!(matches!(r, Err(SetError::OversizeRecord)));
    assert!(bitcask.get(b"k").is_err());
    // A record that just fits is accepted.
    bitcask.set(b"k", b"small").unwrap();
    assert_eq!(bitcask.get(b"k").unwrap(), b"small".to_vec());
}

/// A missing key is a miss, not an error in the store.
#[test]
fn test_key_miss() {
    let bitcask = fresh(1000);
    assert!(bitcask.get(b"nothing").is_err());
}

/// Merging twice in a row is harmless and reads stay the same.
#[test]
fn test_merge_idempotent_reads() {
    let mut bitcask = fresh(1000);
    bitcask.set(b"a", b"1").unwrap();
    bitcask.set(b"b", b"2").unwrap();
    bitcask.delete(b"a").unwrap();
    let files = bitcask.into_files();
    let mut bitcask = BitCask::new(test_config(1000), files);
    bitcask.merge().unwrap();
    bitcask.merge().unwrap();
    assert!(bitcask.get(b"a").is_err());
    assert_eq!(bitcask.get(b"b").unwrap(), b"2".to_vec());
}

/// An empty value round-trips like any other byte string.
#[test]
fn test_empty_value() {
    let mut bitcask = fresh(1000);
    bitcask.set(b"k", b"").unwrap();
    assert_eq!(bitcask.get(b"k").unwrap(), Vec::<u8>::new());
}

/// A mixed workload with rotations, merges and reopens always reads each
/// key's latest surviving write.
#[test]
fn test_mixed_workload() {
    let mut bitcask = fresh(200);
    for round in 0u32..6 {
        for key in 0u32..8 {
            let k = format!("key-{}", key);
            let v = format!("value-{}-{}", key, round);
            bitcask.set(k.as_bytes(), v.as_bytes()).unwrap();
        }
        bitcask.delete(format!("key-{}", round).as_bytes()).unwrap();
        if round % 2 == 1 {
            let files = bitcask.into_files();
            bitcask = BitCask::new(test_config(200), files);
            bitcask.merge().unwrap();
        }
    }
    // After the last round, key-5 was deleted and the rest read the final
    // round's values.
    assert!(bitcask.get(b"key-5").is_err());
    for key in 0u32..5 {
        let k = format!("key-{}", key);
        let expected = format!("value-{}-5", key);
        assert_eq!(bitcask.get(k.as_bytes()).unwrap(), expected.into_bytes());
    }
}

/// A corrupted hint sidecar is ignored and the segment is rescanned:
/// reads come out the same as with the intact hint.
#[test]
fn test_corrupt_hint_falls_back_to_scan() {
    let mut bitcask = fresh(1000);
    bitcask.set(b"foo", b"bar").unwrap();
    bitcask.set(b"baz", b"quux").unwrap();
    let files = bitcask.into_files();
    let mut bitcask = BitCask::new(test_config(1000), files);
    bitcask.merge().unwrap();
    assert!(bitcask.hint_count() >= 1);

    let mut files = bitcask.into_files();
    for seg in files.iter_mut() {
        if let Some(hint) = &mut seg.hint {
            if !hint.is_empty() {
                hint[0] ^= 0xff;
            }
        }
    }
    let reopened = BitCask::new(test_config(1000), files);
    assert_eq!(reopened.get(b"foo").unwrap(), b"bar".to_vec());
    assert_eq!(reopened.get(b"baz").unwrap(), b"quux".to_vec());
}

/// Hint sidecars written by merge describe their segments exactly, and a
/// store opened over them reads the same values.
#[test]
fn test_hint_files_read_on_startup() {
    let mut bitcask = fresh(1000);
    bitcask.set(b"foo", b"bar").unwrap();
    bitcask.set(b"baz", b"quux").unwrap();
    let files = bitcask.into_files();
    let mut bitcask = BitCask::new(test_config(1000), files);
    bitcask.merge().unwrap();

    let files = bitcask.into_files();
    assert!(files.iter().any(|s| s.hint.is_some()));
    let reopened = BitCask::new(test_config(1000), files);
    assert_eq!(reopened.get(b"foo").unwrap(), b"bar".to_vec());
    assert_eq!(reopened.get(b"baz").unwrap(), b"quux".to_vec());
}

/// Corrupting a record invalidates the rest of that segment's scan: the
/// store falls back to the longest valid prefix.
#[test]
fn test_corrupt_record_truncates_scan() {
    let mut bitcask = fresh(10_000);
    bitcask.set(b"first", b"one").unwrap();
    bitcask.set(b"second", b"two").unwrap();
    let mut files = bitcask.into_files();
    assert_eq!(files.len(), 1);

    // Flip a byte inside the first record's key; its CRC no longer
    // matches, so the whole segment scan stops at the start.
    let mut seg = files.remove(0);
    seg.data[36] ^= 0xff;
    let reopened = BitCask::new(
        test_config(10_000),
        vec![Segment::new(seg.id, seg.data, seg.hint)],
    );
    assert!(reopened.get(b"first").is_err());
    assert!(reopened.get(b"second").is_err());
}
