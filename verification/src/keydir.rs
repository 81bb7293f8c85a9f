//! The KeyDir: the in-memory index of live keys. It maps each live key to
//! the position and length of its value bytes in the log, and keeps its
//! entries sorted by byte-lexicographic key order so that range scans come
//! out ordered.

use vstd::prelude::*;

use crate::order::{compare_keys, key_lt, lemma_key_lt_asym, lemma_key_lt_irrefl,
    lemma_key_lt_trans, lemma_key_lt_trichotomy, KeyOrd};

verus! {

/// One index entry: a live key and where its value bytes sit in the log.
pub struct KeyDirEntry {
    pub key: Vec<u8>,
    pub value_pos: u64,
    pub value_len: u32,
}

/// Entries strictly ascending in byte-lexicographic key order.
pub open spec fn sorted_entries(s: Seq<KeyDirEntry>) -> bool {
    forall|i: int, j: int|
        0 <= i < j < s.len() ==> key_lt(#[trigger] s[i].key@, #[trigger] s[j].key@)
}

/// Whether some entry carries the key `k`.
pub open spec fn has_key(s: Seq<KeyDirEntry>, k: Seq<u8>) -> bool {
    exists|i: int| 0 <= i < s.len() && #[trigger] s[i].key@ == k
}

/// The entries as a map from key to value location, later entries winning.
pub open spec fn locs_of(s: Seq<KeyDirEntry>) -> Map<Seq<u8>, (nat, nat)>
    decreases s.len(),
{
    if s.len() == 0 {
        Map::empty()
    } else {
        locs_of(s.drop_last()).insert(
            s.last().key@,
            (s.last().value_pos as nat, s.last().value_len as nat),
        )
    }
}

/// The location map has a key exactly when some entry carries it.
pub proof fn lemma_locs_contains(s: Seq<KeyDirEntry>, k: Seq<u8>)
    ensures
        locs_of(s).contains_key(k) == has_key(s, k),
    decreases s.len(),
{
    if s.len() > 0 {
        lemma_locs_contains(s.drop_last(), k);
        if has_key(s.drop_last(), k) {
            let w = choose|w: int|
                0 <= w < s.drop_last().len() && #[trigger] s.drop_last()[w].key@ == k;
            assert(s[w].key@ == k);
        }
        if s.last().key@ == k {
            assert(s[s.len() - 1].key@ == k);
        }
        if has_key(s, k) && s.last().key@ != k {
            let w = choose|w: int| 0 <= w < s.len() && #[trigger] s[w].key@ == k;
            assert(s.drop_last()[w].key@ == k);
        }
    }
}

/// In a sorted entry sequence no key occurs twice.
pub proof fn lemma_sorted_unique(s: Seq<KeyDirEntry>, i: int, j: int)
    requires
        sorted_entries(s),
        0 <= i < s.len(),
        0 <= j < s.len(),
        s[i].key@ == s[j].key@,
    ensures
        i == j,
{
    if i < j {
        lemma_key_lt_irrefl(s[i].key@);
    }
    if j < i {
        lemma_key_lt_irrefl(s[i].key@);
    }
}

/// In a sorted entry sequence, the map records exactly entry `i`'s location
/// under entry `i`'s key.
pub proof fn lemma_locs_at(s: Seq<KeyDirEntry>, i: int)
    requires
        sorted_entries(s),
        0 <= i < s.len(),
    ensures
        locs_of(s).contains_key(s[i].key@),
        locs_of(s)[s[i].key@] == (s[i].value_pos as nat, s[i].value_len as nat),
    decreases s.len(),
{
    lemma_locs_contains(s, s[i].key@);
    if i < s.len() - 1 {
        assert(sorted_entries(s.drop_last())) by {
            assert(forall|p: int|
                0 <= p < s.len() - 1 ==> #[trigger] s.drop_last()[p] == s[p]);
        }
        lemma_locs_at(s.drop_last(), i);
        lemma_key_lt_asym(s[i].key@, s.last().key@);
    }
}

/// The in-memory index: an ordered map from live key to value location,
/// kept as a sorted vector of entries.
pub struct KeyDir {
    pub entries: Vec<KeyDirEntry>,
}

impl KeyDir {
    /// The index is well formed: entries strictly sorted by key.
    pub open spec fn wf(&self) -> bool {
        sorted_entries(self.entries@)
    }

    /// The index as a map from key to `(value_pos, value_len)`.
    pub open spec fn locs(&self) -> Map<Seq<u8>, (nat, nat)> {
        locs_of(self.entries@)
    }

    pub fn new() -> (r: KeyDir)
        ensures
            r.wf(),
            r.locs() == Map::<Seq<u8>, (nat, nat)>::empty(),
            r.entries@.len() == 0,
    {
        KeyDir { entries: Vec::new() }
    }

    /// Point lookup: the recorded value location of `key`, if it is live.
    pub fn get(&self, key: &[u8]) -> (r: Option<(u64, u32)>)
        requires
            self.wf(),
        ensures
            match r {
                Some((pos, len)) => self.locs().contains_key(key@) && self.locs()[key@] == (
                    pos as nat,
                    len as nat,
                ),
                None => !self.locs().contains_key(key@),
            },
    {
        let n: usize = self.entries.len();
        let mut i: usize = 0;
        while i < n
            invariant
                self.wf(),
                0 <= i <= n,
                n == self.entries@.len(),
                forall|j: int| 0 <= j < i ==> #[trigger] self.entries@[j].key@ != key@,
            decreases n - i,
        {
            let ord = compare_keys(self.entries[i].key.as_slice(), key);
            if ord == KeyOrd::Equal {
                proof {
                    lemma_locs_at(self.entries@, i as int);
                }
                return Some((self.entries[i].value_pos, self.entries[i].value_len));
            }
            i = i + 1;
        }
        proof {
            lemma_locs_contains(self.entries@, key@);
        }
        None
    }

    /// Inserts or overwrites the location recorded for `key`.
    pub fn insert(&mut self, key: Vec<u8>, value_pos: u64, value_len: u32)
        requires
            old(self).wf(),
        ensures
            final(self).wf(),
            final(self).locs() == old(self).locs().insert(
                key@,
                (value_pos as nat, value_len as nat),
            ),
    {
        let ghost old_s = self.entries@;
        let n: usize = self.entries.len();
        let mut i: usize = 0;
        while i < n && matches!(compare_keys(self.entries[i].key.as_slice(), key.as_slice()), KeyOrd::Less)
            invariant
                self.wf(),
                self.entries@ == old_s,
                0 <= i <= n,
                n == self.entries@.len(),
                forall|j: int| 0 <= j < i ==> key_lt(#[trigger] self.entries@[j].key@, key@),
            decreases n - i,
        {
            i = i + 1;
        }
        let entry = KeyDirEntry { key, value_pos, value_len };
        let ghost k = entry.key@;
        if i < n && matches!(compare_keys(self.entries[i].key.as_slice(), entry.key.as_slice()), KeyOrd::Equal) {
            // Overwrite in place: remove the old entry, insert the new one
            // at the same position.
            self.entries.remove(i);
            self.entries.insert(i, entry);
            proof {
                let s = self.entries@;
                assert(forall|j: int| 0 <= j < s.len() && j != i ==> s[j] == old_s[j]);
                assert(s[i as int].key@ == k && old_s[i as int].key@ == k);
                assert forall|p: int, q: int| 0 <= p < q < s.len() implies key_lt(
                    #[trigger] s[p].key@,
                    #[trigger] s[q].key@,
                ) by {
                    assert(s[p].key@ == old_s[p].key@);
                    assert(s[q].key@ == old_s[q].key@);
                }
                let m = old(self).locs().insert(k, (value_pos as nat, value_len as nat));
                assert forall|kk: Seq<u8>| locs_of(s).contains_key(kk) == m.contains_key(kk) by {
                    lemma_locs_contains(s, kk);
                    lemma_locs_contains(old_s, kk);
                    if has_key(s, kk) {
                        let w = choose|w: int| 0 <= w < s.len() && #[trigger] s[w].key@ == kk;
                        if w != i {
                            assert(old_s[w].key@ == kk);
                        }
                    }
                    if has_key(old_s, kk) {
                        let w = choose|w: int|
                            0 <= w < old_s.len() && #[trigger] old_s[w].key@ == kk;
                        assert(s[w].key@ == kk || kk == k);
                        if kk != k {
                            assert(s[w].key@ == kk);
                        } else {
                            assert(s[i as int].key@ == kk);
                        }
                    }
                }
                assert forall|kk: Seq<u8>| locs_of(s).contains_key(kk) implies locs_of(s)[kk]
                    == m[kk] by {
                    lemma_locs_contains(s, kk);
                    let w = choose|w: int| 0 <= w < s.len() && #[trigger] s[w].key@ == kk;
                    lemma_locs_at(s, w);
                    if kk != k {
                        lemma_locs_at(old_s, w);
                        assert(old_s[w].key@ == kk);
                    } else {
                        lemma_sorted_unique(s, w, i as int);
                    }
                }
                assert(locs_of(s) =~= m);
            }
        } else {
            proof {
                // Entry i, when it exists, is strictly above `key`: the loop
                // stopped on a non-Less comparison, and this branch rules
                // out Equal.
                if i < n {
                    let c = self.entries@[i as int].key@;
                    assert(!key_lt(c, k));
                    assert(c != k);
                    lemma_key_lt_trichotomy(c, k);
                    assert(key_lt(k, c));
                }
            }
            self.entries.insert(i, entry);
            proof {
                let s = self.entries@;
                assert(forall|j: int| 0 <= j < i ==> s[j] == old_s[j]);
                assert(forall|j: int| i < j < s.len() ==> s[j] == old_s[j - 1]);
                assert(s[i as int].key@ == k);
                assert forall|p: int, q: int| 0 <= p < q < s.len() implies key_lt(
                    #[trigger] s[p].key@,
                    #[trigger] s[q].key@,
                ) by {
                    if p < i && q == i {
                        // loop invariant: old entries before i are below k
                    } else if p < i && q > i {
                        assert(s[q] == old_s[q - 1]);
                        assert(p < q - 1);
                    } else if p == i && q > i {
                        assert(s[q] == old_s[q - 1]);
                        assert(key_lt(k, old_s[i as int].key@));
                        if q - 1 > i {
                            lemma_key_lt_trans(k, old_s[i as int].key@, old_s[q - 1].key@);
                        }
                    }
                }
                let m = old(self).locs().insert(k, (value_pos as nat, value_len as nat));
                assert forall|kk: Seq<u8>| locs_of(s).contains_key(kk) == m.contains_key(kk) by {
                    lemma_locs_contains(s, kk);
                    lemma_locs_contains(old_s, kk);
                    if has_key(s, kk) {
                        let w = choose|w: int| 0 <= w < s.len() && #[trigger] s[w].key@ == kk;
                        if w < i {
                            assert(old_s[w].key@ == kk);
                        }
                        if w > i {
                            assert(old_s[w - 1].key@ == kk);
                        }
                    }
                    if has_key(old_s, kk) {
                        let w = choose|w: int|
                            0 <= w < old_s.len() && #[trigger] old_s[w].key@ == kk;
                        if w < i {
                            assert(s[w].key@ == kk);
                        }
                        if w >= i {
                            assert(s[w + 1].key@ == kk);
                        }
                    }
                }
                assert forall|kk: Seq<u8>| locs_of(s).contains_key(kk) implies locs_of(s)[kk]
                    == m[kk] by {
                    lemma_locs_contains(s, kk);
                    let w = choose|w: int| 0 <= w < s.len() && #[trigger] s[w].key@ == kk;
                    lemma_locs_at(s, w);
                    if kk != k {
                        assert(w != i);
                        if w < i {
                            lemma_locs_at(old_s, w);
                        } else {
                            lemma_locs_at(old_s, w - 1);
                            assert(old_s[w - 1].key@ == kk);
                        }
                    } else {
                        lemma_sorted_unique(s, w, i as int);
                    }
                }
                assert(locs_of(s) =~= m);
            }
        }
    }

    /// Removes `key` from the index; doing nothing when it is absent.
    pub fn remove(&mut self, key: &[u8])
        requires
            old(self).wf(),
        ensures
            final(self).wf(),
            final(self).locs() == old(self).locs().remove(key@),
    {
        let ghost old_s = self.entries@;
        let n: usize = self.entries.len();
        let mut i: usize = 0;
        while i < n
            invariant
                self.wf(),
                self.entries@ == old_s,
                old(self).entries@ == old_s,
                0 <= i <= n,
                n == self.entries@.len(),
                forall|j: int| 0 <= j < i ==> #[trigger] self.entries@[j].key@ != key@,
            decreases n - i,
        {
            let ord = compare_keys(self.entries[i].key.as_slice(), key);
            if ord == KeyOrd::Equal {
                self.entries.remove(i);
                proof {
                    let s = self.entries@;
                    assert(old_s[i as int].key@ == key@);
                    assert(forall|j: int| 0 <= j < i ==> s[j] == old_s[j]);
                    assert(forall|j: int| i <= j < s.len() ==> s[j] == old_s[j + 1]);
                    assert forall|p: int, q: int| 0 <= p < q < s.len() implies key_lt(
                        #[trigger] s[p].key@,
                        #[trigger] s[q].key@,
                    ) by {
                        if p < i && q >= i {
                            assert(key_lt(old_s[p].key@, old_s[q + 1].key@));
                        }
                    }
                    let m = old(self).locs().remove(key@);
                    assert forall|kk: Seq<u8>|
                        locs_of(s).contains_key(kk) == m.contains_key(kk) by {
                        lemma_locs_contains(s, kk);
                        lemma_locs_contains(old_s, kk);
                        if has_key(s, kk) {
                            let w = choose|w: int| 0 <= w < s.len() && #[trigger] s[w].key@ == kk;
                            let v: int = if w < i { w } else { w + 1 };
                            assert(old_s[v].key@ == kk);
                            if kk == key@ {
                                lemma_sorted_unique(old_s, v, i as int);
                                assert(false);
                            }
                        }
                        if has_key(old_s, kk) && kk != key@ {
                            let w = choose|w: int|
                                0 <= w < old_s.len() && #[trigger] old_s[w].key@ == kk;
                            assert(w != i);
                            if w < i {
                                assert(s[w].key@ == kk);
                            }
                            if w > i {
                                assert(s[w - 1].key@ == kk);
                            }
                        }
                    }
                    assert forall|kk: Seq<u8>| locs_of(s).contains_key(kk) implies locs_of(s)[kk]
                        == m[kk] by {
                        lemma_locs_contains(s, kk);
                        let w = choose|w: int| 0 <= w < s.len() && #[trigger] s[w].key@ == kk;
                        lemma_locs_at(s, w);
                        let v: int = if w < i { w } else { w + 1 };
                        assert(old_s[v].key@ == kk);
                        if kk == key@ {
                            lemma_sorted_unique(old_s, v, i as int);
                            assert(false);
                        }
                        lemma_locs_at(old_s, v);
                    }
                    assert(locs_of(s) =~= m);
                }
                return;
            }
            i = i + 1;
        }
        proof {
            lemma_locs_contains(old_s, key@);
            assert(!has_key(old_s, key@));
            assert(self.locs() =~= old(self).locs().remove(key@));
        }
    }

    /// Appends an entry whose key is strictly greater than every key already
    /// present. The compaction pass uses this while rewriting the log in
    /// ascending key order.
    pub fn push_entry_max(&mut self, key: Vec<u8>, value_pos: u64, value_len: u32)
        requires
            old(self).wf(),
            forall|j: int|
                0 <= j < old(self).entries@.len() ==> key_lt(
                    #[trigger] old(self).entries@[j].key@,
                    key@,
                ),
        ensures
            final(self).wf(),
            final(self).locs() == old(self).locs().insert(
                key@,
                (value_pos as nat, value_len as nat),
            ),
            final(self).entries@.len() == old(self).entries@.len() + 1,
            forall|j: int|
                0 <= j < old(self).entries@.len() ==> final(self).entries@[j] == old(
                    self,
                ).entries@[j],
            final(self).entries@.last().key@ == key@,
            final(self).entries@.last().value_pos == value_pos,
            final(self).entries@.last().value_len == value_len,
    {
        let ghost old_s = self.entries@;
        let ghost k = key@;
        self.entries.push(KeyDirEntry { key, value_pos, value_len });
        proof {
            let s = self.entries@;
            assert(s.drop_last() =~= old_s);
        }
    }
}

} // verus!
