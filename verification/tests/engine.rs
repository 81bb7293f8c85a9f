use mini_bitcask::{Error, MiniBitcask};

fn open_empty() -> MiniBitcask {
    MiniBitcask::new(Vec::new()).unwrap()
}

/// The record bytes for `key = value`, as the on-disk format lays them out.
fn record(key: &[u8], value: &[u8]) -> Vec<u8> {
    let mut out = Vec::new();
    out.extend_from_slice(&(key.len() as u32).to_be_bytes());
    out.extend_from_slice(&(value.len() as i32).to_be_bytes());
    out.extend_from_slice(key);
    out.extend_from_slice(value);
    out
}

/// The record bytes for a tombstone of `key`.
fn tombstone(key: &[u8]) -> Vec<u8> {
    let mut out = Vec::new();
    out.extend_from_slice(&(key.len() as u32).to_be_bytes());
    out.extend_from_slice(&(-1i32).to_be_bytes());
    out.extend_from_slice(key);
    out
}

#[test]
fn round_trip_set_get() {
    let mut e = open_empty();
    e.set(b"k", b"v".to_vec()).unwrap();
    assert_eq!(e.get(b"k").unwrap(), Some(b"v".to_vec()));
}

#[test]
fn get_missing_is_none() {
    let e = open_empty();
    assert_eq!(e.get(b"nope").unwrap(), None);
}

#[test]
fn overwrite_wins_and_survives_reopen() {
    let mut e = open_empty();
    e.set(b"k", b"v1".to_vec()).unwrap();
    e.set(b"k", b"v2".to_vec()).unwrap();
    assert_eq!(e.get(b"k").unwrap(), Some(b"v2".to_vec()));

    let bytes = e.log.data.clone();
    let e2 = MiniBitcask::new(bytes).unwrap();
    assert_eq!(e2.get(b"k").unwrap(), Some(b"v2".to_vec()));
}

#[test]
fn tombstone_persists_across_restart() {
    let mut e = open_empty();
    e.set(b"k", b"v".to_vec()).unwrap();
    e.delete(b"k").unwrap();
    let bytes = e.log.data.clone();
    let e2 = MiniBitcask::new(bytes).unwrap();
    assert_eq!(e2.get(b"k").unwrap(), None);
}

#[test]
fn idempotent_delete_of_missing_key() {
    let mut e = open_empty();
    assert_eq!(e.delete(b"ghost"), Ok(()));
    assert_eq!(e.get(b"ghost").unwrap(), None);
}

#[test]
fn merge_preserves_live_set() {
    let mut e = open_empty();
    e.set(b"a", b"1".to_vec()).unwrap();
    e.set(b"b", b"2".to_vec()).unwrap();
    e.set(b"c", b"3".to_vec()).unwrap();
    e.set(b"b", b"2x".to_vec()).unwrap();
    e.delete(b"c").unwrap();
    e.merge().unwrap();
    assert_eq!(e.get(b"a").unwrap(), Some(b"1".to_vec()));
    assert_eq!(e.get(b"b").unwrap(), Some(b"2x".to_vec()));
    assert_eq!(e.get(b"c").unwrap(), None);

    // Exactly one record per live key, in ascending key order.
    let mut expected = record(b"a", b"1");
    expected.extend_from_slice(&record(b"b", b"2x"));
    assert_eq!(e.log.data, expected);
}

#[test]
fn merge_result_survives_reopen() {
    let mut e = open_empty();
    e.set(b"k1", b"v1".to_vec()).unwrap();
    e.delete(b"k1").unwrap();
    e.set(b"k2", b"v2".to_vec()).unwrap();
    e.merge().unwrap();
    let e2 = MiniBitcask::new(e.log.data.clone()).unwrap();
    assert_eq!(e2.get(b"k1").unwrap(), None);
    assert_eq!(e2.get(b"k2").unwrap(), Some(b"v2".to_vec()));
}

#[test]
fn recovery_from_unflushed_but_complete_record() {
    // The record is physically complete in the log bytes even though no
    // explicit flush ever ran; reopening recovers it.
    let mut e = open_empty();
    e.set(b"x", b"v1".to_vec()).unwrap();
    let bytes = e.log.data.clone();
    drop(e);
    let e2 = MiniBitcask::new(bytes).unwrap();
    assert_eq!(e2.get(b"x").unwrap(), Some(b"v1".to_vec()));
}

#[test]
fn end_to_end_scenario() {
    let mut e = open_empty();
    e.set(b"k1", b"v1".to_vec()).unwrap();
    e.set(b"k2", b"v2".to_vec()).unwrap();
    e.delete(b"k1").unwrap();
    e.merge().unwrap();
    assert_eq!(e.get(b"k1").unwrap(), None);
    assert_eq!(e.get(b"k2").unwrap(), Some(b"v2".to_vec()));
    // The merged file holds exactly the one live record.
    assert_eq!(e.log.data, record(b"k2", b"v2"));
}

#[test]
fn open_rejects_truncated_header() {
    let mut bytes = record(b"k", b"v");
    bytes.truncate(5);
    assert_eq!(MiniBitcask::new(bytes).err(), Some(Error::Corrupt));
}

#[test]
fn open_rejects_truncated_value() {
    let mut e = open_empty();
    e.set(b"key", b"value".to_vec()).unwrap();
    let mut bytes = e.log.data.clone();
    bytes.pop();
    assert_eq!(MiniBitcask::new(bytes).err(), Some(Error::Corrupt));
}

#[test]
fn open_rejects_trailing_garbage_after_good_record() {
    let mut bytes = record(b"k", b"v");
    bytes.extend_from_slice(&[0, 0, 0]);
    assert_eq!(MiniBitcask::new(bytes).err(), Some(Error::Corrupt));
}

#[test]
fn open_replays_tombstones_and_overwrites() {
    let mut bytes = record(b"a", b"1");
    bytes.extend_from_slice(&record(b"b", b"2"));
    bytes.extend_from_slice(&tombstone(b"a"));
    bytes.extend_from_slice(&record(b"b", b"3"));
    let e = MiniBitcask::new(bytes).unwrap();
    assert_eq!(e.get(b"a").unwrap(), None);
    assert_eq!(e.get(b"b").unwrap(), Some(b"3".to_vec()));
}

#[test]
fn empty_value_round_trip() {
    let mut e = open_empty();
    e.set(b"k", Vec::new()).unwrap();
    assert_eq!(e.get(b"k").unwrap(), Some(Vec::new()));
    let e2 = MiniBitcask::new(e.log.data.clone()).unwrap();
    assert_eq!(e2.get(b"k").unwrap(), Some(Vec::new()));
}
