//! Byte-lexicographic ordering of keys. Range scans depend on this order,
//! and the KeyDir keeps its entries sorted by it.

use vstd::prelude::*;

verus! {

/// Strict byte-lexicographic order: `a` comes before `b`.
pub open spec fn key_lt(a: Seq<u8>, b: Seq<u8>) -> bool
    decreases a.len(),
{
    if b.len() == 0 {
        false
    } else if a.len() == 0 {
        true
    } else if a[0] < b[0] {
        true
    } else if a[0] > b[0] {
        false
    } else {
        key_lt(a.skip(1), b.skip(1))
    }
}

pub proof fn lemma_key_lt_irrefl(a: Seq<u8>)
    ensures
        !key_lt(a, a),
    decreases a.len(),
{
    if a.len() > 0 {
        lemma_key_lt_irrefl(a.skip(1));
    }
}

pub proof fn lemma_key_lt_trichotomy(a: Seq<u8>, b: Seq<u8>)
    ensures
        key_lt(a, b) || key_lt(b, a) || a == b,
    decreases a.len(),
{
    if a.len() == 0 && b.len() == 0 {
        assert(a =~= b);
    } else if a.len() > 0 && b.len() > 0 && a[0] == b[0] {
        lemma_key_lt_trichotomy(a.skip(1), b.skip(1));
        if !key_lt(a, b) && !key_lt(b, a) {
            assert(a.skip(1) == b.skip(1));
            assert forall|i: int| 0 <= i < a.len() implies a[i] == b[i] by {
                if i >= 1 {
                    assert(a[i] == a.skip(1)[i - 1]);
                    assert(b[i] == b.skip(1)[i - 1]);
                }
            }
            assert(a =~= b);
        }
    }
}

pub proof fn lemma_key_lt_trans(a: Seq<u8>, b: Seq<u8>, c: Seq<u8>)
    requires
        key_lt(a, b),
        key_lt(b, c),
    ensures
        key_lt(a, c),
    decreases a.len(),
{
    if a.len() == 0 {
        // b is nonempty (since key_lt(a, b)), hence c is nonempty too.
        assert(c.len() > 0);
    } else {
        // a nonempty and key_lt(a, b) forces b nonempty, likewise c.
        assert(b.len() > 0);
        assert(c.len() > 0);
        if a[0] == b[0] && b[0] == c[0] {
            lemma_key_lt_trans(a.skip(1), b.skip(1), c.skip(1));
        }
    }
}

pub proof fn lemma_key_lt_asym(a: Seq<u8>, b: Seq<u8>)
    requires
        key_lt(a, b),
    ensures
        !key_lt(b, a),
        a != b,
{
    lemma_key_lt_irrefl(a);
    if key_lt(b, a) {
        lemma_key_lt_trans(a, b, a);
    }
}

/// If `a` and `b` agree on their first `i` bytes, their order is decided by
/// the remainders.
pub proof fn lemma_key_lt_common_prefix(a: Seq<u8>, b: Seq<u8>, i: int)
    requires
        0 <= i <= a.len(),
        i <= b.len(),
        a.subrange(0, i) == b.subrange(0, i),
    ensures
        key_lt(a, b) == key_lt(a.skip(i), b.skip(i)),
    decreases i,
{
    if i == 0 {
        assert(a.skip(0) =~= a);
        assert(b.skip(0) =~= b);
    } else {
        assert(a[0] == b[0]) by {
            assert(a.subrange(0, i)[0] == a[0]);
            assert(b.subrange(0, i)[0] == b[0]);
        }
        assert(a.len() > 0 && b.len() > 0);
        assert(key_lt(a, b) == key_lt(a.skip(1), b.skip(1)));
        assert(a.skip(1).subrange(0, i - 1) == b.skip(1).subrange(0, i - 1)) by {
            assert(a.skip(1).subrange(0, i - 1) =~= a.subrange(0, i).skip(1));
            assert(b.skip(1).subrange(0, i - 1) =~= b.subrange(0, i).skip(1));
        }
        lemma_key_lt_common_prefix(a.skip(1), b.skip(1), i - 1);
        assert(a.skip(1).skip(i - 1) =~= a.skip(i));
        assert(b.skip(1).skip(i - 1) =~= b.skip(i));
    }
}

/// Outcome of comparing two keys byte-lexicographically.
#[derive(PartialEq, Eq, Structural, Clone, Copy, Debug)]
pub enum KeyOrd {
    Less,
    Equal,
    Greater,
}

/// Compares two byte strings in byte-lexicographic order.
pub fn compare_keys(a: &[u8], b: &[u8]) -> (r: KeyOrd)
    ensures
        (r == KeyOrd::Less) == key_lt(a@, b@),
        (r == KeyOrd::Equal) == (a@ == b@),
        (r == KeyOrd::Greater) == key_lt(b@, a@),
{
    let a_len: usize = a.len();
    let b_len: usize = b.len();
    let mut i: usize = 0;
    while i < a_len && i < b_len
        invariant
            0 <= i <= a_len,
            i <= b_len,
            a_len == a@.len(),
            b_len == b@.len(),
            a@.subrange(0, i as int) == b@.subrange(0, i as int),
        decreases a_len - i,
    {
        let ca: u8 = *vstd::slice::slice_index_get(a, i);
        let cb: u8 = *vstd::slice::slice_index_get(b, i);
        if ca < cb {
            proof {
                lemma_key_lt_common_prefix(a@, b@, i as int);
                assert(key_lt(a@.skip(i as int), b@.skip(i as int))) by {
                    assert(a@.skip(i as int)[0] == ca);
                    assert(b@.skip(i as int)[0] == cb);
                }
                lemma_key_lt_asym(a@, b@);
            }
            return KeyOrd::Less;
        }
        if ca > cb {
            proof {
                lemma_key_lt_common_prefix(b@, a@, i as int);
                assert(key_lt(b@.skip(i as int), a@.skip(i as int))) by {
                    assert(a@.skip(i as int)[0] == ca);
                    assert(b@.skip(i as int)[0] == cb);
                }
                lemma_key_lt_asym(b@, a@);
            }
            return KeyOrd::Greater;
        }
        proof {
            assert(a@.subrange(0, i + 1) =~= b@.subrange(0, i + 1)) by {
                assert(forall|j: int|
                    0 <= j < i ==> a@.subrange(0, i + 1)[j] == #[trigger] a@.subrange(
                        0,
                        i as int,
                    )[j] && b@.subrange(0, i + 1)[j] == b@.subrange(0, i as int)[j]);
            }
        }
        i = i + 1;
    }
    if a_len < b_len {
        proof {
            lemma_key_lt_common_prefix(a@, b@, i as int);
            assert(key_lt(a@.skip(i as int), b@.skip(i as int)));
            lemma_key_lt_asym(a@, b@);
        }
        KeyOrd::Less
    } else if a_len > b_len {
        proof {
            lemma_key_lt_common_prefix(b@, a@, i as int);
            assert(key_lt(b@.skip(i as int), a@.skip(i as int)));
            lemma_key_lt_asym(b@, a@);
        }
        KeyOrd::Greater
    } else {
        proof {
            assert forall|j: int| 0 <= j < a@.len() implies a@[j] == b@[j] by {
                assert(a@[j] == a@.subrange(0, i as int)[j]);
                assert(b@[j] == b@.subrange(0, i as int)[j]);
            }
            assert(a@ =~= b@);
            lemma_key_lt_irrefl(a@);
        }
        KeyOrd::Equal
    }
}

} // verus!
