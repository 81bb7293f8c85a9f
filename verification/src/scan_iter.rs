//! Range scans: a lazy, order-preserving iterator over a key range,
//! backed by the index's ordered entries plus on-demand log reads.

use vstd::prelude::*;

use crate::keydir::{sorted_entries, KeyDirEntry};
use crate::log::Log;
use crate::order::{compare_keys, key_lt, KeyOrd};

verus! {

/// One end of a key range.
pub enum ScanBound {
    Unbounded,
    Included(Vec<u8>),
    Excluded(Vec<u8>),
}

/// Whether `k` lies at or above the range's start.
pub open spec fn above_start(k: Seq<u8>, b: ScanBound) -> bool {
    match b {
        ScanBound::Unbounded => true,
        ScanBound::Included(s) => !key_lt(k, s@),
        ScanBound::Excluded(s) => key_lt(s@, k),
    }
}

/// Whether `k` lies at or below the range's end.
pub open spec fn below_end(k: Seq<u8>, b: ScanBound) -> bool {
    match b {
        ScanBound::Unbounded => true,
        ScanBound::Included(s) => !key_lt(s@, k),
        ScanBound::Excluded(s) => key_lt(k, s@),
    }
}

/// Whether `k` lies between the two bounds.
pub open spec fn in_range(k: Seq<u8>, start: ScanBound, end: ScanBound) -> bool {
    above_start(k, start) && below_end(k, end)
}

/// An index entry as a plain value: its key bytes and value location.
pub open spec fn entry_view(e: KeyDirEntry) -> (Seq<u8>, u64, u32) {
    (e.key@, e.value_pos, e.value_len)
}

/// A whole entry sequence as plain values.
pub open spec fn entry_views(s: Seq<KeyDirEntry>) -> Seq<(Seq<u8>, u64, u32)> {
    s.map_values(|e: KeyDirEntry| entry_view(e))
}

/// The range test on an entry view, as one named predicate so that
/// callers and implementations speak of the same function.
pub open spec fn range_pred(start: ScanBound, end: ScanBound) -> spec_fn(
    (Seq<u8>, u64, u32),
) -> bool {
    |t: (Seq<u8>, u64, u32)| in_range(t.0, start, end)
}

/// Whether `p` is a prefix of `k`.
pub open spec fn has_prefix(k: Seq<u8>, p: Seq<u8>) -> bool {
    p.len() <= k.len() && k.subrange(0, p.len() as int) == p
}

/// The prefix test on an entry view.
pub open spec fn prefix_pred(p: Seq<u8>) -> spec_fn((Seq<u8>, u64, u32)) -> bool {
    |t: (Seq<u8>, u64, u32)| has_prefix(t.0, p)
}

/// Tests whether `k` lies at or above the start bound.
pub fn key_above_start(k: &[u8], b: &ScanBound) -> (r: bool)
    ensures
        r == above_start(k@, *b),
{
    match b {
        ScanBound::Unbounded => true,
        ScanBound::Included(s) => !matches!(compare_keys(k, s.as_slice()), KeyOrd::Less),
        ScanBound::Excluded(s) => matches!(compare_keys(s.as_slice(), k), KeyOrd::Less),
    }
}

/// Tests whether `k` lies at or below the end bound.
pub fn key_below_end(k: &[u8], b: &ScanBound) -> (r: bool)
    ensures
        r == below_end(k@, *b),
{
    match b {
        ScanBound::Unbounded => true,
        ScanBound::Included(s) => !matches!(compare_keys(s.as_slice(), k), KeyOrd::Less),
        ScanBound::Excluded(s) => matches!(compare_keys(k, s.as_slice()), KeyOrd::Less),
    }
}

/// Tests whether `p` is a prefix of `k`.
pub fn key_has_prefix(k: &[u8], p: &[u8]) -> (r: bool)
    ensures
        r == has_prefix(k@, p@),
{
    let p_len: usize = p.len();
    if p_len > k.len() {
        return false;
    }
    let mut i: usize = 0;
    while i < p_len
        invariant
            0 <= i <= p_len,
            p_len == p@.len(),
            p_len <= k@.len(),
            forall|j: int| 0 <= j < i ==> k@[j] == p@[j],
        decreases p_len - i,
    {
        if *vstd::slice::slice_index_get(k, i) != *vstd::slice::slice_index_get(p, i) {
            proof {
                assert(k@.subrange(0, p_len as int)[i as int] != p@[i as int]);
            }
            return false;
        }
        i = i + 1;
    }
    proof {
        assert(k@.subrange(0, p_len as int) =~= p@);
    }
    true
}

/// A lazy iterator over a key range: the matching index entries in
/// ascending key order, with each value read from the log on demand at
/// each step.
pub struct ScanIterator {
    pub entries: Vec<KeyDirEntry>,
    pub idx: usize,
}

impl ScanIterator {
    /// The iterator fits the log it will read from: every entry's value
    /// region lies within the log.
    pub open spec fn wf(&self, log: &Log) -> bool {
        &&& self.idx <= self.entries@.len()
        &&& forall|j: int|
            0 <= j < self.entries@.len() ==> (#[trigger] self.entries@[j]).value_pos
                + self.entries@[j].value_len <= log.data@.len()
    }

    /// The number of steps still to take.
    pub fn remaining(&self) -> (r: usize)
        requires
            self.idx <= self.entries@.len(),
        ensures
            r == self.entries@.len() - self.idx,
    {
        self.entries.len() - self.idx
    }

    /// Yields the next key/value pair of the range, reading the value
    /// bytes from the log, or nothing when the range is exhausted.
    pub fn next(&mut self, log: &Log) -> (r: Option<(Vec<u8>, Vec<u8>)>)
        requires
            old(self).wf(log),
        ensures
            final(self).wf(log),
            final(self).entries == old(self).entries,
            if old(self).idx < old(self).entries@.len() {
                let e = old(self).entries@[old(self).idx as int];
                &&& final(self).idx == old(self).idx + 1
                &&& r matches Some(kv) && kv.0@ == e.key@ && kv.1@ == log.data@.subrange(
                    e.value_pos as int,
                    e.value_pos + e.value_len,
                )
            } else {
                &&& r is None
                &&& final(self).idx == old(self).idx
            },
    {
        if self.idx < self.entries.len() {
            let value_pos: u64 = self.entries[self.idx].value_pos;
            let value_len: u32 = self.entries[self.idx].value_len;
            let value = match log.read_value(value_pos, value_len) {
                Ok(v) => v,
                Err(_) => {
                    proof {
                        assert(false);
                    }
                    return None;
                },
            };
            let key = vstd::slice::slice_to_vec(self.entries[self.idx].key.as_slice());
            self.idx = self.idx + 1;
            Some((key, value))
        } else {
            None
        }
    }
}

} // verus!
