//! The on-disk record format.
//!
//! A record is `key_len (4 bytes, big-endian u32)`, then
//! `value_len_or_tombstone (4 bytes, big-endian i32)`, then the key bytes,
//! then the value bytes when the record is not a tombstone. A negative
//! second field (canonically -1, encoded as four 0xff bytes) marks a
//! deletion; no value bytes follow it.

use vstd::prelude::*;

verus! {

/// Width in bytes of each of the two header length fields.
pub const KEY_VAL_HEADER_LEN: u32 = 4;

/// Largest value length a record can carry: the second header field is a
/// signed 32-bit integer whose negative range is reserved for tombstones.
pub const MAX_VALUE_LEN: u32 = 0x7fff_ffff;

/// A `u32` as four big-endian bytes.
pub open spec fn u32_be(n: u32) -> Seq<u8> {
    seq![
        (n / 0x1000000) as u8,
        ((n / 0x10000) % 0x100) as u8,
        ((n / 0x100) % 0x100) as u8,
        (n % 0x100) as u8,
    ]
}

/// Four big-endian bytes read back as an integer.
pub open spec fn be_u32(s: Seq<u8>) -> int
    recommends
        s.len() == 4,
{
    s[0] * 0x1000000 + s[1] * 0x10000 + s[2] * 0x100 + s[3]
}

/// The four bytes of the tombstone marker: -1 as a big-endian i32.
pub open spec fn tombstone_bytes() -> Seq<u8> {
    seq![0xffu8, 0xffu8, 0xffu8, 0xffu8]
}

/// The full encoding of one log record.
pub open spec fn record_bytes(key: Seq<u8>, value: Option<Seq<u8>>) -> Seq<u8>
    recommends
        key.len() <= u32::MAX,
        value matches Some(v) ==> v.len() <= MAX_VALUE_LEN,
{
    match value {
        Some(v) => u32_be(key.len() as u32) + u32_be(v.len() as u32) + key + v,
        None => u32_be(key.len() as u32) + tombstone_bytes() + key,
    }
}

/// Decoding the four big-endian bytes of an encoded `u32` gives it back.
pub proof fn lemma_u32_be_round_trip(n: u32)
    ensures
        be_u32(u32_be(n)) == n,
        0 <= be_u32(u32_be(n)) <= u32::MAX,
{
    let x = n as int;
    let d0 = x / 0x1000000;
    let d1 = (x / 0x10000) % 0x100;
    let d2 = (x / 0x100) % 0x100;
    let d3 = x % 0x100;
    vstd::arithmetic::div_mod::lemma_fundamental_div_mod(x, 0x100);
    vstd::arithmetic::div_mod::lemma_fundamental_div_mod(x / 0x100, 0x100);
    vstd::arithmetic::div_mod::lemma_fundamental_div_mod(x / 0x10000, 0x100);
    vstd::arithmetic::div_mod::lemma_div_denominator(x, 0x100, 0x100);
    vstd::arithmetic::div_mod::lemma_div_denominator(x, 0x10000, 0x100);
    assert(x / 0x100 / 0x100 == x / 0x10000);
    assert(x / 0x10000 / 0x100 == x / 0x1000000);
    assert(x == d0 * 0x1000000 + d1 * 0x10000 + d2 * 0x100 + d3);
    assert(d0 < 0x100 && 0 <= d0 && 0 <= d1 && 0 <= d2 && 0 <= d3);
    assert(u32_be(n)[0] == d0 as u8 && u32_be(n)[1] == d1 as u8 && u32_be(n)[2] == d2 as u8
        && u32_be(n)[3] == d3 as u8);
}

/// Any four bytes decode to a value in `u32` range.
pub proof fn lemma_be_u32_bounds(s: Seq<u8>)
    requires
        s.len() == 4,
    ensures
        0 <= be_u32(s) <= u32::MAX,
{
    assert(s[0] <= 0xff && s[1] <= 0xff && s[2] <= 0xff && s[3] <= 0xff);
}

/// When a value length is within `MAX_VALUE_LEN`, the first byte of its
/// encoding stays below 0x80, so it can never be mistaken for a tombstone.
pub proof fn lemma_value_len_not_tombstone(n: u32)
    requires
        n <= MAX_VALUE_LEN,
    ensures
        u32_be(n)[0] < 0x80,
{
    assert(n / 0x1000000 < 0x80) by (nonlinear_arith)
        requires
            n <= 0x7fff_ffff,
    ;
}

/// Encodes a `u32` as four big-endian bytes.
pub fn encode_u32_be(n: u32) -> (r: [u8; 4])
    ensures
        r@ == u32_be(n),
{
    proof {
        lemma_u32_be_round_trip(n);
    }
    let b0: u8 = (n / 0x1000000) as u8;
    let b1: u8 = ((n / 0x10000) % 0x100) as u8;
    let b2: u8 = ((n / 0x100) % 0x100) as u8;
    let b3: u8 = (n % 0x100) as u8;
    let r = [b0, b1, b2, b3];
    proof {
        assert(r@ =~= u32_be(n));
    }
    r
}

/// Decodes four big-endian bytes as a `u32`.
pub fn decode_u32_be(b0: u8, b1: u8, b2: u8, b3: u8) -> (r: u32)
    ensures
        r == be_u32(seq![b0, b1, b2, b3]),
{
    proof {
        lemma_be_u32_bounds(seq![b0, b1, b2, b3]);
    }
    (b0 as u32) * 0x1000000 + (b1 as u32) * 0x10000 + (b2 as u32) * 0x100 + (b3 as u32)
}

} // verus!
