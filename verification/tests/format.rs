use mini_bitcask::codec::{decode_u32_be, encode_u32_be};
use mini_bitcask::order::{compare_keys, KeyOrd};
use mini_bitcask::{Error, KeyDir, Log};

#[test]
fn encode_u32_is_big_endian() {
    assert_eq!(encode_u32_be(0), [0, 0, 0, 0]);
    assert_eq!(encode_u32_be(1), [0, 0, 0, 1]);
    assert_eq!(encode_u32_be(0x0102_0304), [1, 2, 3, 4]);
    assert_eq!(encode_u32_be(u32::MAX), [0xff, 0xff, 0xff, 0xff]);
}

#[test]
fn decode_u32_round_trips() {
    for n in [0u32, 1, 255, 256, 0xdead_beef, u32::MAX] {
        let b = encode_u32_be(n);
        assert_eq!(decode_u32_be(b[0], b[1], b[2], b[3]), n);
    }
}

#[test]
fn write_entry_lays_out_value_record() {
    let mut log = Log::new(Vec::new());
    let (offset, len) = log.write_entry(b"k", Some(b"val"));
    assert_eq!(offset, 0);
    assert_eq!(len, 8 + 1 + 3);
    assert_eq!(
        log.data,
        vec![0, 0, 0, 1, 0, 0, 0, 3, b'k', b'v', b'a', b'l']
    );
}

#[test]
fn write_entry_lays_out_tombstone() {
    let mut log = Log::new(Vec::new());
    let (offset, len) = log.write_entry(b"k", None);
    assert_eq!(offset, 0);
    assert_eq!(len, 9);
    assert_eq!(log.data, vec![0, 0, 0, 1, 0xff, 0xff, 0xff, 0xff, b'k']);
}

#[test]
fn write_entry_appends_at_end() {
    let mut log = Log::new(Vec::new());
    let (o1, l1) = log.write_entry(b"a", Some(b"1"));
    let (o2, _l2) = log.write_entry(b"b", Some(b"22"));
    assert_eq!(o1, 0);
    assert_eq!(o2 as u32, l1);
}

#[test]
fn read_value_returns_exact_bytes() {
    let mut log = Log::new(Vec::new());
    let (offset, len) = log.write_entry(b"key", Some(b"value"));
    let value_pos = offset + len as u64 - 5;
    assert_eq!(log.read_value(value_pos, 5), Ok(b"value".to_vec()));
}

#[test]
fn read_value_out_of_bounds_fails() {
    let log = Log::new(vec![1, 2, 3]);
    assert_eq!(log.read_value(2, 5), Err(Error::OutOfBounds));
    assert_eq!(log.read_value(9, 1), Err(Error::OutOfBounds));
}

#[test]
fn load_index_points_at_value_bytes() {
    let mut log = Log::new(Vec::new());
    log.write_entry(b"a", Some(b"xx"));
    log.write_entry(b"b", Some(b"yyy"));
    let kd = log.load_index().unwrap();
    // First record: header 8 + key 1 = value at 9, length 2.
    assert_eq!(kd.get(b"a"), Some((9, 2)));
    // Second record starts at 11: value at 11 + 8 + 1 = 20, length 3.
    assert_eq!(kd.get(b"b"), Some((20, 3)));
    assert_eq!(kd.get(b"c"), None);
}

#[test]
fn load_index_last_writer_wins() {
    let mut log = Log::new(Vec::new());
    log.write_entry(b"k", Some(b"old"));
    let (offset, len) = log.write_entry(b"k", Some(b"newer"));
    let kd = log.load_index().unwrap();
    assert_eq!(kd.get(b"k"), Some((offset + len as u64 - 5, 5)));
}

#[test]
fn keydir_keeps_entries_sorted() {
    let mut kd = KeyDir::new();
    kd.insert(b"b".to_vec(), 1, 1);
    kd.insert(b"a".to_vec(), 2, 1);
    kd.insert(b"c".to_vec(), 3, 1);
    kd.insert(b"a".to_vec(), 4, 2);
    let keys: Vec<Vec<u8>> = kd.entries.iter().map(|e| e.key.clone()).collect();
    assert_eq!(keys, vec![b"a".to_vec(), b"b".to_vec(), b"c".to_vec()]);
    assert_eq!(kd.get(b"a"), Some((4, 2)));
    kd.remove(b"b");
    assert_eq!(kd.get(b"b"), None);
    assert_eq!(kd.get(b"c"), Some((3, 1)));
    kd.remove(b"missing");
    assert_eq!(kd.entries.len(), 2);
}

#[test]
fn compare_keys_is_byte_lexicographic() {
    assert_eq!(compare_keys(b"a", b"b"), KeyOrd::Less);
    assert_eq!(compare_keys(b"b", b"a"), KeyOrd::Greater);
    assert_eq!(compare_keys(b"a", b"a"), KeyOrd::Equal);
    assert_eq!(compare_keys(b"a", b"aa"), KeyOrd::Less);
    assert_eq!(compare_keys(b"aa", b"a"), KeyOrd::Greater);
    assert_eq!(compare_keys(b"", b""), KeyOrd::Equal);
    assert_eq!(compare_keys(b"", b"x"), KeyOrd::Less);
    assert_eq!(compare_keys(&[0x01, 0xff], &[0x02]), KeyOrd::Less);
}
