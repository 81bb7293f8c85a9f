use mini_bitcask::{MiniBitcask, ScanBound, ScanIterator};

fn collect(mut it: ScanIterator, e: &MiniBitcask) -> Vec<(Vec<u8>, Vec<u8>)> {
    let mut out = Vec::new();
    while let Some(kv) = it.next(&e.log) {
        out.push(kv);
    }
    out
}

#[test]
fn scan_unbounded_yields_byte_order() {
    let mut e = MiniBitcask::new(Vec::new()).unwrap();
    e.set(b"b", b"2".to_vec()).unwrap();
    e.set(b"a", b"1".to_vec()).unwrap();
    e.set(b"c", b"3".to_vec()).unwrap();
    let got = collect(e.scan(ScanBound::Unbounded, ScanBound::Unbounded), &e);
    assert_eq!(
        got,
        vec![
            (b"a".to_vec(), b"1".to_vec()),
            (b"b".to_vec(), b"2".to_vec()),
            (b"c".to_vec(), b"3".to_vec()),
        ]
    );
}

#[test]
fn scan_respects_bounds() {
    let mut e = MiniBitcask::new(Vec::new()).unwrap();
    for (k, v) in [(b"a", b"1"), (b"b", b"2"), (b"c", b"3"), (b"d", b"4")] {
        e.set(k, v.to_vec()).unwrap();
    }
    let got = collect(
        e.scan(
            ScanBound::Included(b"b".to_vec()),
            ScanBound::Excluded(b"d".to_vec()),
        ),
        &e,
    );
    assert_eq!(
        got,
        vec![(b"b".to_vec(), b"2".to_vec()), (b"c".to_vec(), b"3".to_vec())]
    );
    let got = collect(
        e.scan(
            ScanBound::Excluded(b"a".to_vec()),
            ScanBound::Included(b"c".to_vec()),
        ),
        &e,
    );
    assert_eq!(
        got,
        vec![(b"b".to_vec(), b"2".to_vec()), (b"c".to_vec(), b"3".to_vec())]
    );
}

#[test]
fn scan_sees_current_values() {
    let mut e = MiniBitcask::new(Vec::new()).unwrap();
    e.set(b"k", b"old".to_vec()).unwrap();
    e.set(b"k", b"new".to_vec()).unwrap();
    let got = collect(e.scan(ScanBound::Unbounded, ScanBound::Unbounded), &e);
    assert_eq!(got, vec![(b"k".to_vec(), b"new".to_vec())]);
}

#[test]
fn scan_is_restartable() {
    let mut e = MiniBitcask::new(Vec::new()).unwrap();
    e.set(b"a", b"1".to_vec()).unwrap();
    e.set(b"b", b"2".to_vec()).unwrap();
    let first = collect(e.scan(ScanBound::Unbounded, ScanBound::Unbounded), &e);
    let second = collect(e.scan(ScanBound::Unbounded, ScanBound::Unbounded), &e);
    assert_eq!(first, second);
}

#[test]
fn scan_counts_down_as_it_steps() {
    let mut e = MiniBitcask::new(Vec::new()).unwrap();
    e.set(b"a", b"1".to_vec()).unwrap();
    e.set(b"b", b"2".to_vec()).unwrap();
    let mut it = e.scan(ScanBound::Unbounded, ScanBound::Unbounded);
    assert_eq!(it.remaining(), 2);
    it.next(&e.log);
    assert_eq!(it.remaining(), 1);
    it.next(&e.log);
    assert_eq!(it.remaining(), 0);
    assert_eq!(it.next(&e.log), None);
}

#[test]
fn scan_prefix_yields_exactly_the_prefixed_keys() {
    let mut e = MiniBitcask::new(Vec::new()).unwrap();
    e.set(b"aa", b"1".to_vec()).unwrap();
    e.set(b"ab", b"2".to_vec()).unwrap();
    e.set(b"b", b"3".to_vec()).unwrap();
    let got = collect(e.scan_prefix(b"a"), &e);
    assert_eq!(
        got,
        vec![(b"aa".to_vec(), b"1".to_vec()), (b"ab".to_vec(), b"2".to_vec())]
    );
}

#[test]
fn scan_prefix_handles_high_byte() {
    // A prefix whose last byte is 0xff: incrementing it would overflow,
    // but prefix matching still selects exactly the prefixed keys.
    let mut e = MiniBitcask::new(Vec::new()).unwrap();
    e.set(&[0xfe], b"low".to_vec()).unwrap();
    e.set(&[0xff], b"hi".to_vec()).unwrap();
    e.set(&[0xff, 0x01], b"hi1".to_vec()).unwrap();
    let got = collect(e.scan_prefix(&[0xff]), &e);
    assert_eq!(
        got,
        vec![
            (vec![0xff], b"hi".to_vec()),
            (vec![0xff, 0x01], b"hi1".to_vec()),
        ]
    );
}

#[test]
fn scan_prefix_empty_prefix_yields_everything() {
    let mut e = MiniBitcask::new(Vec::new()).unwrap();
    e.set(b"x", b"1".to_vec()).unwrap();
    e.set(b"y", b"2".to_vec()).unwrap();
    let got = collect(e.scan_prefix(b""), &e);
    assert_eq!(got.len(), 2);
}

#[test]
fn scan_skips_deleted_keys() {
    let mut e = MiniBitcask::new(Vec::new()).unwrap();
    e.set(b"a", b"1".to_vec()).unwrap();
    e.set(b"b", b"2".to_vec()).unwrap();
    e.delete(b"a").unwrap();
    let got = collect(e.scan(ScanBound::Unbounded, ScanBound::Unbounded), &e);
    assert_eq!(got, vec![(b"b".to_vec(), b"2".to_vec())]);
}
