//! The storage engine: a Log and a KeyDir, orchestrated to provide
//! get/set/delete/merge/scan, with recovery by replay at open.
//!
//! The engine's state is captured by `contents()`: the map from live key to
//! value bytes. The invariant ties the in-memory index to the log bytes:
//! replaying the log yields exactly the index, so reopening the same bytes
//! recovers the same contents.

use vstd::prelude::*;

use crate::codec::{record_bytes, MAX_VALUE_LEN};
use crate::keydir::{has_key, lemma_locs_at, lemma_locs_contains, KeyDir, KeyDirEntry};
use crate::log::{lemma_replay_record, locs_wf, replay_locs, Error, Log};
use crate::order::key_lt;
use crate::scan_iter::{entry_view, entry_views, has_prefix, key_above_start, key_below_end,
    key_has_prefix, prefix_pred, range_pred, ScanBound, ScanIterator};

verus! {

/// The live contents that a log and a location map describe: each live key
/// mapped to its value bytes in the log.
pub open spec fn contents_from(data: Seq<u8>, locs: Map<Seq<u8>, (nat, nat)>) -> Map<
    Seq<u8>,
    Seq<u8>,
> {
    Map::new(
        |k: Seq<u8>| locs.contains_key(k),
        |k: Seq<u8>| data.subrange(locs[k].0 as int, (locs[k].0 + locs[k].1) as int),
    )
}

/// Every live record would fit in one encoded record whose total length is
/// a `u32`, as the append path guarantees for records it wrote itself.
pub open spec fn locs_compactable(locs: Map<Seq<u8>, (nat, nat)>) -> bool {
    forall|k: Seq<u8>|
        #[trigger] locs.contains_key(k) ==> 8 + k.len() + locs[k].1 <= u32::MAX
}

/// The contents that replaying `data` recovers, when replay succeeds.
pub open spec fn recovered_contents(data: Seq<u8>) -> Option<Map<Seq<u8>, Seq<u8>>> {
    match replay_locs(data) {
        Some(locs) => Some(contents_from(data, locs)),
        None => None,
    }
}

/// The byte content of a compacted log: one record per index entry, in
/// index (that is, ascending key) order, each carrying the value bytes the
/// old log held for it.
#[verifier::opaque]
pub open spec fn compact_bytes(data: Seq<u8>, entries: Seq<KeyDirEntry>) -> Seq<u8>
    decreases entries.len(),
{
    if entries.len() == 0 {
        Seq::empty()
    } else {
        compact_bytes(data, entries.drop_last()) + record_bytes(
            entries.last().key@,
            Some(
                data.subrange(
                    entries.last().value_pos as int,
                    entries.last().value_pos + entries.last().value_len,
                ),
            ),
        )
    }
}

/// One compaction step: appending the record for entry `i` extends the
/// compacted bytes by exactly that record, leaves every earlier byte in
/// place, and puts the value bytes at the record's tail.
proof fn lemma_rewrite_step(
    od: Seq<u8>,
    os: Seq<KeyDirEntry>,
    i: int,
    prev: Seq<u8>,
    value: Seq<u8>,
    nd: Seq<u8>,
)
    requires
        0 <= i < os.len(),
        value == od.subrange(os[i].value_pos as int, os[i].value_pos + os[i].value_len),
        prev == compact_bytes(od, os.take(i)),
        nd == prev + record_bytes(os[i].key@, Some(value)),
        os[i].key@.len() <= u32::MAX,
        value.len() <= MAX_VALUE_LEN,
    ensures
        nd == compact_bytes(od, os.take(i + 1)),
        nd.subrange(
            (prev.len() + 8 + os[i].key@.len()) as int,
            (prev.len() + 8 + os[i].key@.len() + value.len()) as int,
        ) == value,
        forall|a: int, b: int|
            0 <= a <= b <= prev.len() ==> #[trigger] nd.subrange(a, b) == prev.subrange(a, b),
{
    reveal(compact_bytes);
    assert(os.take(i + 1).drop_last() =~= os.take(i));
    assert(os.take(i + 1).last() == os[i]);
    let vp: int = (prev.len() + 8 + os[i].key@.len()) as int;
    assert(nd.subrange(vp, vp + value.len()) =~= value);
    assert forall|a: int, b: int| 0 <= a <= b <= prev.len() implies #[trigger] nd.subrange(a, b)
        == prev.subrange(a, b) by {
        assert(nd.subrange(a, b) =~= prev.subrange(a, b));
    }
}

/// The storage engine.
pub struct MiniBitcask {
    pub log: Log,
    pub keydir: KeyDir,
}

impl MiniBitcask {
    /// The engine's invariant: the index is sorted, replaying the log bytes
    /// yields exactly the index, and every indexed location lies within the
    /// log.
    pub open spec fn inv(&self) -> bool {
        &&& self.keydir.wf()
        &&& replay_locs(self.log.data@) == Some(self.keydir.locs())
        &&& locs_wf(self.keydir.locs(), self.log.data@.len())
    }

    /// The live contents: each live key mapped to its value bytes.
    pub open spec fn contents(&self) -> Map<Seq<u8>, Seq<u8>> {
        contents_from(self.log.data@, self.keydir.locs())
    }

    /// Opens an engine over the given log file content, rebuilding the
    /// index by replay. Fails with `Corrupt` exactly when the content does
    /// not decode completely, and otherwise recovers exactly the contents
    /// the bytes describe.
    pub fn new(data: Vec<u8>) -> (r: Result<MiniBitcask, Error>)
        ensures
            match r {
                Ok(e) => {
                    &&& e.inv()
                    &&& e.log.data@ == data@
                    &&& recovered_contents(data@) == Some(e.contents())
                },
                Err(err) => {
                    &&& err == Error::Corrupt
                    &&& recovered_contents(data@) is None
                },
            },
    {
        let log = Log::new(data);
        match log.load_index() {
            Ok(keydir) => Ok(MiniBitcask { log, keydir }),
            Err(err) => Err(err),
        }
    }

    /// Point read: the value last set for `key`, or nothing when the key
    /// is absent or deleted. Never fails on a well-formed engine.
    pub fn get(&self, key: &[u8]) -> (r: Result<Option<Vec<u8>>, Error>)
        requires
            self.inv(),
        ensures
            match r {
                Ok(Some(v)) => self.contents().contains_key(key@) && v@ == self.contents()[key@],
                Ok(None) => !self.contents().contains_key(key@),
                Err(_) => false,
            },
    {
        match self.keydir.get(key) {
            Some((value_pos, value_len)) => {
                match self.log.read_value(value_pos, value_len) {
                    Ok(v) => Ok(Some(v)),
                    Err(err) => {
                        proof {
                            assert(false);
                        }
                        Err(err)
                    },
                }
            },
            None => Ok(None),
        }
    }

    /// Writes `key = value`: appends one record to the log and points the
    /// index at its value bytes. The log grows by exactly that record.
    pub fn set(&mut self, key: &[u8], value: Vec<u8>) -> (r: Result<(), Error>)
        requires
            old(self).inv(),
            key@.len() <= u32::MAX,
            value@.len() <= MAX_VALUE_LEN,
            8 + key@.len() + value@.len() <= u32::MAX,
        ensures
            final(self).inv(),
            r == Ok::<(), Error>(()),
            final(self).contents() == old(self).contents().insert(key@, value@),
            final(self).log.data@ == old(self).log.data@ + record_bytes(key@, Some(value@)),
    {
        let value_len: u32 = value.len() as u32;
        let (_offset, _len) = self.log.write_entry(key, Some(value.as_slice()));
        let end: usize = self.log.data.len();
        let value_pos: u64 = (end - value.len()) as u64;
        self.keydir.insert(vstd::slice::slice_to_vec(key), value_pos, value_len);
        proof {
            let od = old(self).log.data@;
            let ol = old(self).keydir.locs();
            let nd = self.log.data@;
            let nl = self.keydir.locs();
            let vp = (od.len() + 8 + key@.len()) as nat;
            lemma_replay_record(od, key@, Some(value@));
            assert(value_pos as nat == vp);
            assert(nl == ol.insert(key@, (vp, value@.len() as nat)));
            assert(locs_wf(nl, nd.len())) by {
                assert forall|k: Seq<u8>| #[trigger] nl.contains_key(k) implies nl[k].0 + nl[k].1
                    <= nd.len() && nl[k].1 <= MAX_VALUE_LEN by {
                    if k != key@ {
                        assert(ol.contains_key(k));
                    }
                }
            }
            assert forall|k: Seq<u8>| nl.contains_key(k) implies contents_from(nd, nl)[k]
                == old(self).contents().insert(key@, value@)[k] by {
                if k == key@ {
                    assert(nd.subrange(vp as int, (vp + value@.len()) as int) =~= value@);
                } else {
                    assert(ol.contains_key(k));
                    assert(nd.subrange(ol[k].0 as int, (ol[k].0 + ol[k].1) as int)
                        =~= od.subrange(ol[k].0 as int, (ol[k].0 + ol[k].1) as int));
                }
            }
            assert(self.contents() =~= old(self).contents().insert(key@, value@));
        }
        Ok(())
    }

    /// Deletes `key`: appends a tombstone record and drops the key from the
    /// index, whether or not it was present. The log grows by exactly the
    /// tombstone record.
    pub fn delete(&mut self, key: &[u8]) -> (r: Result<(), Error>)
        requires
            old(self).inv(),
            key@.len() <= u32::MAX,
            8 + key@.len() <= u32::MAX,
        ensures
            final(self).inv(),
            r == Ok::<(), Error>(()),
            final(self).contents() == old(self).contents().remove(key@),
            final(self).log.data@ == old(self).log.data@ + record_bytes(key@, None),
    {
        let (_offset, _len) = self.log.write_entry(key, None);
        self.keydir.remove(key);
        proof {
            let od = old(self).log.data@;
            let ol = old(self).keydir.locs();
            let nd = self.log.data@;
            let nl = self.keydir.locs();
            lemma_replay_record(od, key@, None);
            assert(nl == ol.remove(key@));
            assert(locs_wf(nl, nd.len())) by {
                assert forall|k: Seq<u8>| #[trigger] nl.contains_key(k) implies nl[k].0 + nl[k].1
                    <= nd.len() && nl[k].1 <= MAX_VALUE_LEN by {
                    assert(ol.contains_key(k));
                }
            }
            assert forall|k: Seq<u8>| nl.contains_key(k) implies contents_from(nd, nl)[k]
                == old(self).contents().remove(key@)[k] by {
                assert(ol.contains_key(k));
                assert(nd.subrange(ol[k].0 as int, (ol[k].0 + ol[k].1) as int)
                    =~= od.subrange(ol[k].0 as int, (ol[k].0 + ol[k].1) as int));
            }
            assert(self.contents() =~= old(self).contents().remove(key@));
        }
        Ok(())
    }

    /// Rewrites the live records into a fresh log and index: one record
    /// per live key, in ascending key order, each carrying the value bytes
    /// the current log holds for it.
    #[verifier::rlimit(100)]
    fn rewrite_live(&self) -> (r: Result<(Log, KeyDir), Error>)
        requires
            self.inv(),
        ensures
            locs_compactable(self.keydir.locs()) ==> r is Ok,
            match r {
                Ok((nl, nk)) => {
                    &&& nk.wf()
                    &&& nk.entries@.len() == self.keydir.entries@.len()
                    &&& nl.data@ == compact_bytes(self.log.data@, self.keydir.entries@)
                    &&& replay_locs(nl.data@) == Some(nk.locs())
                    &&& locs_wf(nk.locs(), nl.data@.len())
                    &&& contents_from(nl.data@, nk.locs()) == self.contents()
                },
                Err(_) => true,
            },
    {
        let n: usize = self.keydir.entries.len();
        let mut new_log = Log::new(Vec::new());
        let mut new_kd = KeyDir::new();
        let mut i: usize = 0;
        proof {
            reveal(compact_bytes);
            assert(new_log.data@ =~= compact_bytes(self.log.data@, self.keydir.entries@.take(0)));
        }
        while i < n
            invariant
                self.inv(),
                0 <= i <= n,
                n == self.keydir.entries@.len(),
                new_kd.wf(),
                new_kd.entries@.len() == i,
                new_log.data@ == compact_bytes(self.log.data@, self.keydir.entries@.take(i as int)),
                replay_locs(new_log.data@) == Some(new_kd.locs()),
                forall|j: int|
                    0 <= j < i ==> {
                        let ne = #[trigger] new_kd.entries@[j];
                        let oe = self.keydir.entries@[j];
                        &&& ne.key@ == oe.key@
                        &&& ne.value_len == oe.value_len
                        &&& ne.value_pos + ne.value_len <= new_log.data@.len()
                        &&& new_log.data@.subrange(
                            ne.value_pos as int,
                            ne.value_pos + ne.value_len,
                        ) == self.log.data@.subrange(
                            oe.value_pos as int,
                            oe.value_pos + oe.value_len,
                        )
                    },
            decreases n - i,
        {
            let value_len: u32 = self.keydir.entries[i].value_len;
            let value_pos: u64 = self.keydir.entries[i].value_pos;
            proof {
                lemma_locs_at(self.keydir.entries@, i as int);
            }
            let value = match self.log.read_value(value_pos, value_len) {
                Ok(v) => v,
                Err(err) => {
                    proof {
                        assert(false);
                    }
                    return Err(err);
                },
            };
            let key_len: usize = self.keydir.entries[i].key.len();
            if (key_len as u64) > (u32::MAX as u64) - 8 - (value_len as u64) {
                // A live record too large to re-encode with a u32 total
                // length; the append path never writes one.
                return Err(Error::RecordTooLarge);
            }
            let ghost prev_data = new_log.data@;
            let ghost k = self.keydir.entries@[i as int].key@;
            let (_offset, _len) = new_log.write_entry(
                self.keydir.entries[i].key.as_slice(),
                Some(value.as_slice()),
            );
            let new_value_pos: u64 = (new_log.data.len() - value.len()) as u64;
            proof {
                lemma_replay_record(prev_data, k, Some(value@));
                // Keys arrive in ascending index order, so each new key is
                // strictly above everything already in the new index.
                assert forall|j: int| 0 <= j < new_kd.entries@.len() implies key_lt(
                    (#[trigger] new_kd.entries@[j]).key@,
                    k,
                ) by {
                    assert(new_kd.entries@[j].key@ == self.keydir.entries@[j].key@);
                }
            }
            new_kd.push_entry_max(
                vstd::slice::slice_to_vec(self.keydir.entries[i].key.as_slice()),
                new_value_pos,
                value_len,
            );
            proof {
                let vp = (prev_data.len() + 8 + k.len()) as nat;
                assert(new_value_pos as nat == vp);
                lemma_rewrite_step(
                    self.log.data@,
                    self.keydir.entries@,
                    i as int,
                    prev_data,
                    value@,
                    new_log.data@,
                );
                assert forall|j: int| 0 <= j < i + 1 implies {
                    let ne = #[trigger] new_kd.entries@[j];
                    let oe = self.keydir.entries@[j];
                    &&& ne.key@ == oe.key@
                    &&& ne.value_len == oe.value_len
                    &&& ne.value_pos + ne.value_len <= new_log.data@.len()
                    &&& new_log.data@.subrange(ne.value_pos as int, ne.value_pos + ne.value_len)
                        == self.log.data@.subrange(oe.value_pos as int, oe.value_pos + oe.value_len)
                } by {
                    let ne = new_kd.entries@[j];
                    if j < i {
                        assert(new_log.data@.subrange(
                            ne.value_pos as int,
                            ne.value_pos + ne.value_len,
                        ) == prev_data.subrange(ne.value_pos as int, ne.value_pos + ne.value_len));
                    }
                }
            }
            i = i + 1;
        }
        proof {
            assert(self.keydir.entries@.take(n as int) =~= self.keydir.entries@);
            let od = self.log.data@;
            let os = self.keydir.entries@;
            let nd = new_log.data@;
            let ns = new_kd.entries@;
            assert forall|k: Seq<u8>|
                new_kd.locs().contains_key(k) == self.keydir.locs().contains_key(k) by {
                lemma_locs_contains(ns, k);
                lemma_locs_contains(os, k);
                if has_key(ns, k) {
                    let w = choose|w: int| 0 <= w < ns.len() && #[trigger] ns[w].key@ == k;
                    assert(os[w].key@ == k);
                }
                if has_key(os, k) {
                    let w = choose|w: int| 0 <= w < os.len() && #[trigger] os[w].key@ == k;
                    assert(ns[w].key@ == k);
                }
            }
            assert forall|k: Seq<u8>| #[trigger] new_kd.locs().contains_key(k) implies {
                &&& contents_from(nd, new_kd.locs())[k] == contents_from(od, self.keydir.locs())[k]
                &&& new_kd.locs()[k].0 + new_kd.locs()[k].1 <= nd.len()
                &&& new_kd.locs()[k].1 <= MAX_VALUE_LEN
            } by {
                lemma_locs_contains(ns, k);
                let w = choose|w: int| 0 <= w < ns.len() && #[trigger] ns[w].key@ == k;
                lemma_locs_at(ns, w);
                assert(os[w].key@ == k);
                lemma_locs_at(os, w);
            }
            assert(contents_from(nd, new_kd.locs()) =~= contents_from(od, self.keydir.locs()));
        }
        Ok((new_log, new_kd))
    }

    /// Compaction: rewrites the log to hold exactly one record per live
    /// key, in ascending key order, and swaps the new log and index in.
    /// The live contents do not change. On failure nothing changes: the
    /// new log is built on the side and only swapped in at the end.
    pub fn merge(&mut self) -> (r: Result<(), Error>)
        requires
            old(self).inv(),
        ensures
            final(self).inv(),
            locs_compactable(old(self).keydir.locs()) ==> r is Ok,
            match r {
                Ok(()) => {
                    &&& final(self).contents() == old(self).contents()
                    &&& final(self).log.data@ == compact_bytes(
                        old(self).log.data@,
                        old(self).keydir.entries@,
                    )
                    &&& final(self).keydir.entries@.len() == old(self).keydir.entries@.len()
                },
                Err(_) => {
                    &&& final(self).log.data@ == old(self).log.data@
                    &&& final(self).keydir.entries@ == old(self).keydir.entries@
                },
            },
    {
        match self.rewrite_live() {
            Ok((new_log, new_kd)) => {
                self.log = new_log;
                self.keydir = new_kd;
                Ok(())
            },
            Err(err) => Err(err),
        }
    }

    /// A lazy scan over the key range between the two bounds: the live
    /// keys in that range, in ascending byte order, each step reading the
    /// current value bytes from the log.
    pub fn scan(&self, start: ScanBound, end: ScanBound) -> (it: ScanIterator)
        requires
            self.inv(),
        ensures
            it.idx == 0,
            it.wf(&self.log),
            entry_views(it.entries@) == entry_views(self.keydir.entries@).filter(
                range_pred(start, end),
            ),
            crate::keydir::sorted_entries(it.entries@),
            forall|q: int|
                0 <= q < it.entries@.len() ==> {
                    let e = #[trigger] it.entries@[q];
                    &&& self.contents().contains_key(e.key@)
                    &&& self.log.data@.subrange(e.value_pos as int, e.value_pos + e.value_len)
                        == self.contents()[e.key@]
                },
    {
        let n: usize = self.keydir.entries.len();
        let mut res: Vec<KeyDirEntry> = Vec::new();
        let ghost pred = range_pred(start, end);
        let mut j: usize = 0;
        proof {
            reveal_with_fuel(Seq::filter, 1);
            assert(entry_views(res@) =~= entry_views(self.keydir.entries@.take(0)).filter(pred));
        }
        while j < n
            invariant
                self.inv(),
                0 <= j <= n,
                n == self.keydir.entries@.len(),
                pred == range_pred(start, end),
                entry_views(res@) == entry_views(self.keydir.entries@.take(j as int)).filter(pred),
                crate::keydir::sorted_entries(res@),
                forall|p: int, t: int|
                    0 <= p < res@.len() && j <= t < n ==> key_lt(
                        (#[trigger] res@[p]).key@,
                        (#[trigger] self.keydir.entries@[t]).key@,
                    ),
                forall|q: int|
                    0 <= q < res@.len() ==> {
                        let e = #[trigger] res@[q];
                        &&& e.value_pos + e.value_len <= self.log.data@.len()
                        &&& self.contents().contains_key(e.key@)
                        &&& self.log.data@.subrange(e.value_pos as int, e.value_pos + e.value_len)
                            == self.contents()[e.key@]
                    },
            decreases n - j,
        {
            let in_r = key_above_start(self.keydir.entries[j].key.as_slice(), &start)
                && key_below_end(self.keydir.entries[j].key.as_slice(), &end);
            proof {
                let tk = self.keydir.entries@.take(j as int);
                let e = self.keydir.entries@[j as int];
                assert(self.keydir.entries@.take(j + 1) =~= tk.push(e));
                assert(entry_views(tk.push(e)) =~= entry_views(tk).push(entry_view(e)));
                entry_views(tk).lemma_filter_push(entry_view(e), pred);
            }
            if in_r {
                proof {
                    lemma_locs_at(self.keydir.entries@, j as int);
                }
                let copy = KeyDirEntry {
                    key: vstd::slice::slice_to_vec(self.keydir.entries[j].key.as_slice()),
                    value_pos: self.keydir.entries[j].value_pos,
                    value_len: self.keydir.entries[j].value_len,
                };
                res.push(copy);
                proof {
                    assert(entry_views(res@) =~= entry_views(
                        self.keydir.entries@.take(j + 1),
                    ).filter(pred));
                }
            }
            j = j + 1;
        }
        proof {
            assert(self.keydir.entries@.take(n as int) =~= self.keydir.entries@);
        }
        ScanIterator { entries: res, idx: 0 }
    }

    /// A lazy scan over every key that carries the given prefix, in
    /// ascending byte order.
    pub fn scan_prefix(&self, prefix: &[u8]) -> (it: ScanIterator)
        requires
            self.inv(),
        ensures
            it.idx == 0,
            it.wf(&self.log),
            entry_views(it.entries@) == entry_views(self.keydir.entries@).filter(
                prefix_pred(prefix@),
            ),
            crate::keydir::sorted_entries(it.entries@),
            forall|q: int|
                0 <= q < it.entries@.len() ==> {
                    let e = #[trigger] it.entries@[q];
                    &&& self.contents().contains_key(e.key@)
                    &&& self.log.data@.subrange(e.value_pos as int, e.value_pos + e.value_len)
                        == self.contents()[e.key@]
                },
    {
        let n: usize = self.keydir.entries.len();
        let mut res: Vec<KeyDirEntry> = Vec::new();
        let ghost pred = prefix_pred(prefix@);
        let mut j: usize = 0;
        proof {
            reveal_with_fuel(Seq::filter, 1);
            assert(entry_views(res@) =~= entry_views(self.keydir.entries@.take(0)).filter(pred));
        }
        while j < n
            invariant
                self.inv(),
                0 <= j <= n,
                n == self.keydir.entries@.len(),
                pred == prefix_pred(prefix@),
                entry_views(res@) == entry_views(self.keydir.entries@.take(j as int)).filter(pred),
                crate::keydir::sorted_entries(res@),
                forall|p: int, t: int|
                    0 <= p < res@.len() && j <= t < n ==> key_lt(
                        (#[trigger] res@[p]).key@,
                        (#[trigger] self.keydir.entries@[t]).key@,
                    ),
                forall|q: int|
                    0 <= q < res@.len() ==> {
                        let e = #[trigger] res@[q];
                        &&& e.value_pos + e.value_len <= self.log.data@.len()
                        &&& self.contents().contains_key(e.key@)
                        &&& self.log.data@.subrange(e.value_pos as int, e.value_pos + e.value_len)
                            == self.contents()[e.key@]
                    },
            decreases n - j,
        {
            let in_r = key_has_prefix(self.keydir.entries[j].key.as_slice(), prefix);
            proof {
                let tk = self.keydir.entries@.take(j as int);
                let e = self.keydir.entries@[j as int];
                assert(self.keydir.entries@.take(j + 1) =~= tk.push(e));
                assert(entry_views(tk.push(e)) =~= entry_views(tk).push(entry_view(e)));
                entry_views(tk).lemma_filter_push(entry_view(e), pred);
            }
            if in_r {
                proof {
                    lemma_locs_at(self.keydir.entries@, j as int);
                }
                let copy = KeyDirEntry {
                    key: vstd::slice::slice_to_vec(self.keydir.entries[j].key.as_slice()),
                    value_pos: self.keydir.entries[j].value_pos,
                    value_len: self.keydir.entries[j].value_len,
                };
                res.push(copy);
                proof {
                    assert(entry_views(res@) =~= entry_views(
                        self.keydir.entries@.take(j + 1),
                    ).filter(pred));
                }
            }
            j = j + 1;
        }
        proof {
            assert(self.keydir.entries@.take(n as int) =~= self.keydir.entries@);
        }
        ScanIterator { entries: res, idx: 0 }
    }
}

/// Law: setting a key and then reading it back yields the value just
/// written. `set` turns the contents into `m.insert(k, v)`, and `get`
/// returns exactly the contents at `k`.
pub proof fn lemma_set_then_get(m: Map<Seq<u8>, Seq<u8>>, k: Seq<u8>, v: Seq<u8>)
    ensures
        m.insert(k, v).contains_key(k),
        m.insert(k, v)[k] == v,
{
}

/// Law: of two sets of the same key, the second wins, both before and —
/// through `lemma_reopen_recovers` — after a restart.
pub proof fn lemma_overwrite(m: Map<Seq<u8>, Seq<u8>>, k: Seq<u8>, v1: Seq<u8>, v2: Seq<u8>)
    ensures
        m.insert(k, v1).insert(k, v2).contains_key(k),
        m.insert(k, v1).insert(k, v2)[k] == v2,
{
}

/// Law: after a delete the key reads as absent — whether or not it was
/// present, so deleting an absent key is harmless — and a key other than
/// the deleted one is untouched.
pub proof fn lemma_delete_then_get(m: Map<Seq<u8>, Seq<u8>>, k: Seq<u8>, other: Seq<u8>)
    ensures
        !m.remove(k).contains_key(k),
        other != k ==> m.remove(k).contains_key(other) == m.contains_key(other),
        other != k && m.contains_key(other) ==> m.remove(k)[other] == m[other],
{
}

/// Law: reopening an engine on its own log bytes recovers exactly its
/// live contents: `MiniBitcask::new` on those bytes succeeds and yields
/// the same contents map. With `set`'s and `delete`'s postconditions this
/// carries writes, overwrites and tombstones across a restart.
pub proof fn lemma_reopen_recovers(e: &MiniBitcask)
    requires
        e.inv(),
    ensures
        recovered_contents(e.log.data@) == Some(e.contents()),
{
}

/// Law: a range scan is complete — every live key within the bounds
/// appears among the scanned entries (and, the scan contract being a
/// filter of the sorted index, appears exactly once, in order).
pub proof fn lemma_scan_complete(e: &MiniBitcask, start: ScanBound, end: ScanBound, k: Seq<u8>)
    requires
        e.inv(),
        e.contents().contains_key(k),
        crate::scan_iter::in_range(k, start, end),
    ensures
        exists|j: int|
            0 <= j < entry_views(e.keydir.entries@).filter(range_pred(start, end)).len()
                && (#[trigger] entry_views(e.keydir.entries@).filter(range_pred(start, end))[j]).0
                == k,
{
    lemma_locs_contains(e.keydir.entries@, k);
    let i = choose|i: int|
        0 <= i < e.keydir.entries@.len() && #[trigger] e.keydir.entries@[i].key@ == k;
    let views = entry_views(e.keydir.entries@);
    assert(views[i] == entry_view(e.keydir.entries@[i]));
    assert(range_pred(start, end)(views[i]));
    views.lemma_filter_contains(range_pred(start, end), i);
    let vs = views.filter(range_pred(start, end));
    let j = choose|j: int| 0 <= j < vs.len() && vs[j] == views[i];
    assert(0 <= j < vs.len() && vs[j].0 == k);
}

/// Law: a prefix scan is complete — every live key that carries the
/// prefix appears among the scanned entries.
pub proof fn lemma_scan_prefix_complete(e: &MiniBitcask, prefix: Seq<u8>, k: Seq<u8>)
    requires
        e.inv(),
        e.contents().contains_key(k),
        has_prefix(k, prefix),
    ensures
        exists|j: int|
            0 <= j < entry_views(e.keydir.entries@).filter(prefix_pred(prefix)).len()
                && (#[trigger] entry_views(e.keydir.entries@).filter(prefix_pred(prefix))[j]).0
                == k,
{
    lemma_locs_contains(e.keydir.entries@, k);
    let i = choose|i: int|
        0 <= i < e.keydir.entries@.len() && #[trigger] e.keydir.entries@[i].key@ == k;
    let views = entry_views(e.keydir.entries@);
    assert(views[i] == entry_view(e.keydir.entries@[i]));
    assert(prefix_pred(prefix)(views[i]));
    views.lemma_filter_contains(prefix_pred(prefix), i);
    let vs = views.filter(prefix_pred(prefix));
    let j = choose|j: int| 0 <= j < vs.len() && vs[j] == views[i];
    assert(0 <= j < vs.len() && vs[j].0 == k);
}

} // verus!
