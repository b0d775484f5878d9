//! Little-endian integer values of byte sequences, and their encodings.
use vstd::prelude::*;

verus! {

/// Value of the two bytes `s[i]`, `s[i + 1]` read as a little-endian integer.
pub open spec fn le_u16(s: Seq<u8>, i: int) -> int {
    s[i] as int + s[i + 1] as int * 256
}

/// Value of the four bytes starting at `s[i]`, little-endian.
pub open spec fn le_u32(s: Seq<u8>, i: int) -> int {
    le_u16(s, i) + le_u16(s, i + 2) * 65536
}

/// Value of the eight bytes starting at `s[i]`, little-endian.
pub open spec fn le_u64(s: Seq<u8>, i: int) -> int {
    le_u32(s, i) + le_u32(s, i + 4) * 4294967296
}

/// The two little-endian bytes of `v` (for `0 <= v < 2^16`).
#[verifier::opaque]
pub open spec fn le_bytes2(v: int) -> Seq<u8> {
    seq![(v % 256) as u8, (v / 256) as u8]
}

/// The four little-endian bytes of `v` (for `0 <= v < 2^32`).
#[verifier::opaque]
pub open spec fn le_bytes4(v: int) -> Seq<u8> {
    le_bytes2(v % 65536) + le_bytes2(v / 65536)
}

/// The eight little-endian bytes of `v` (for `0 <= v < 2^64`).
#[verifier::opaque]
pub open spec fn le_bytes8(v: int) -> Seq<u8> {
    le_bytes4(v % 4294967296) + le_bytes4(v / 4294967296)
}

/// Reading back two encoded bytes gives the value.
pub proof fn lemma_le_bytes2(v: int)
    requires
        0 <= v < 65536,
    ensures
        le_bytes2(v).len() == 2,
        le_u16(le_bytes2(v), 0) == v,
{
    reveal(le_bytes2);
    assert((v % 256) as u8 as int == v % 256);
    assert((v / 256) as u8 as int == v / 256);
}

/// Reading back four encoded bytes gives the value.
pub proof fn lemma_le_bytes4(v: int)
    requires
        0 <= v < 4294967296,
    ensures
        le_bytes4(v).len() == 4,
        le_u32(le_bytes4(v), 0) == v,
{
    reveal(le_bytes4);
    let lo = le_bytes2(v % 65536);
    let hi = le_bytes2(v / 65536);
    lemma_le_bytes2(v % 65536);
    lemma_le_bytes2(v / 65536);
    let s = lo + hi;
    assert(s[0] == lo[0] && s[1] == lo[1] && s[2] == hi[0] && s[3] == hi[1]);
    assert(le_u16(s, 0) == le_u16(lo, 0));
    assert(le_u16(s, 2) == le_u16(hi, 0));
}

/// Reading back eight encoded bytes gives the value.
pub proof fn lemma_le_bytes8(v: int)
    requires
        0 <= v < 18446744073709551616,
    ensures
        le_bytes8(v).len() == 8,
        le_u64(le_bytes8(v), 0) == v,
{
    reveal(le_bytes8);
    let lo = le_bytes4(v % 4294967296);
    let hi = le_bytes4(v / 4294967296);
    lemma_le_bytes4(v % 4294967296);
    lemma_le_bytes4(v / 4294967296);
    let s = lo + hi;
    lemma_le_u32_shift(lo, hi, 0);
    lemma_le_u32_shift(hi, lo, 0);
    assert(le_u32(s, 0) == le_u32(lo, 0));
    assert(le_u32(s, 4) == le_u32(hi, 0)) by {
        assert forall|j: int| 0 <= j < 4 implies s[4 + j] == hi[j] by {}
    }
}

/// A four-byte value depends only on the four bytes read.
pub proof fn lemma_le_u32_shift(a: Seq<u8>, b: Seq<u8>, i: int)
    requires
        0 <= i,
        i + 4 <= a.len(),
    ensures
        le_u32(a + b, i) == le_u32(a, i),
{
    let s = a + b;
    assert(s[i] == a[i] && s[i + 1] == a[i + 1] && s[i + 2] == a[i + 2] && s[i + 3] == a[i + 3]);
}

} // verus!
