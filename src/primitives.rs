//! Bounds-checked readers of fixed-width integers, byte arrays and varints.
use vstd::prelude::*;
use crate::bytes::{le_u16, le_u32, le_u64};
use crate::cursor::{Cursor, DecodeError};

verus! {

/// The four bytes that open every record.
pub open spec fn magic() -> Seq<u8> {
    seq![0xf9u8, 0xbeu8, 0xb4u8, 0xd9u8]
}

/// Number of bytes of a varint whose first byte is `prefix`.
pub open spec fn varint_width(prefix: u8) -> nat {
    if prefix <= 0xfc {
        1
    } else if prefix == 0xfd {
        3
    } else if prefix == 0xfe {
        5
    } else {
        9
    }
}

/// Value of the varint that starts at `s[i]`.
pub open spec fn varint_value(s: Seq<u8>, i: int) -> int {
    let prefix = s[i];
    if prefix <= 0xfc {
        prefix as int
    } else if prefix == 0xfd {
        le_u16(s, i + 1)
    } else if prefix == 0xfe {
        le_u32(s, i + 1)
    } else {
        le_u64(s, i + 1)
    }
}

/// A varint reads the same from a window of the bytes that holds it.
pub proof fn lemma_varint_value_subrange(s: Seq<u8>, a: int, b: int, i: int)
    requires
        0 <= a,
        0 <= i,
        a + i < b <= s.len(),
        a + i + varint_width(s[a + i]) <= b,
    ensures
        s.subrange(a, b)[i] == s[a + i],
        varint_value(s.subrange(a, b), i) == varint_value(s, a + i),
{
    let w = s.subrange(a, b);
    let prefix = s[a + i];
    if prefix == 0xfd {
        assert(le_u16(w, i + 1) == le_u16(s, a + i + 1));
    } else if prefix == 0xfe {
        assert(le_u32(w, i + 1) == le_u32(s, a + i + 1));
    } else if prefix == 0xff {
        assert(le_u64(w, i + 1) == le_u64(s, a + i + 1));
    }
}

/// Reads two little-endian bytes at `i`.
fn read_u16_at(buf: &[u8], i: usize) -> (r: u16)
    requires
        i + 2 <= buf.len(),
    ensures
        r as int == le_u16(buf@, i as int),
{
    buf[i] as u16 + buf[i + 1] as u16 * 256
}

/// Reads four little-endian bytes at `i`.
fn read_u32_at(buf: &[u8], i: usize) -> (r: u32)
    requires
        i + 4 <= buf.len(),
    ensures
        r as int == le_u32(buf@, i as int),
{
    read_u16_at(buf, i) as u32 + read_u16_at(buf, i + 2) as u32 * 65536
}

/// Reads eight little-endian bytes at `i`.
fn read_u64_at(buf: &[u8], i: usize) -> (r: u64)
    requires
        i + 8 <= buf.len(),
    ensures
        r as int == le_u64(buf@, i as int),
{
    read_u32_at(buf, i) as u64 + read_u32_at(buf, i + 4) as u64 * 4294967296
}

/// Reads a little-endian `u32` and advances the cursor by 4; fails with
/// `UnexpectedEnd`, the cursor unchanged, when fewer than 4 bytes remain.
pub fn read_u32_le(cur: &mut Cursor) -> (r: Result<u32, DecodeError>)
    requires
        old(cur).wf(),
    ensures
        final(cur).buf@ == old(cur).buf@,
        final(cur).wf(),
        old(cur).rest().len() >= 4 ==> r == Ok::<u32, DecodeError>(
            le_u32(old(cur).buf@, old(cur).pos as int) as u32,
        ) && final(cur).pos == old(cur).pos + 4,
        old(cur).rest().len() < 4 ==> r == Err::<u32, DecodeError>(DecodeError::UnexpectedEnd)
            && final(cur).pos == old(cur).pos,
{
    if cur.buf.len() - cur.pos < 4 {
        return Err(DecodeError::UnexpectedEnd);
    }
    let v = read_u32_at(cur.buf, cur.pos);
    cur.pos = cur.pos + 4;
    Ok(v)
}

/// Whether `s` holds the magic tag at `i`.
pub open spec fn magic_at(s: Seq<u8>, i: int) -> bool {
    s.subrange(i, i + 4) == magic()
}

/// Reads a varint: its first byte selects the width (1, 3, 5 or 9 bytes) and
/// the value is widened to `u64`. Fails with `UnexpectedEnd`, the cursor
/// unchanged, when the first byte or any byte that it announces is missing.
pub fn read_varint(cur: &mut Cursor) -> (r: Result<u64, DecodeError>)
    requires
        old(cur).wf(),
    ensures
        final(cur).buf@ == old(cur).buf@,
        final(cur).wf(),
        ({
            let s = old(cur).buf@;
            let p = old(cur).pos as int;
            if p < s.len() && p + varint_width(s[p]) <= s.len() {
                r == Ok::<u64, DecodeError>(varint_value(s, p) as u64) && final(cur).pos == p
                    + varint_width(s[p])
            } else {
                r == Err::<u64, DecodeError>(DecodeError::UnexpectedEnd) && final(cur).pos == p
            }
        }),
{
    let n = cur.buf.len();
    let p = cur.pos;
    if p >= n {
        return Err(DecodeError::UnexpectedEnd);
    }
    let prefix = cur.buf[p];
    let width: usize = if prefix <= 0xfc {
        1
    } else if prefix == 0xfd {
        3
    } else if prefix == 0xfe {
        5
    } else {
        9
    };
    if n - p < width {
        return Err(DecodeError::UnexpectedEnd);
    }
    let value: u64 = if prefix <= 0xfc {
        prefix as u64
    } else if prefix == 0xfd {
        read_u16_at(cur.buf, p + 1) as u64
    } else if prefix == 0xfe {
        read_u32_at(cur.buf, p + 1) as u64
    } else {
        read_u64_at(cur.buf, p + 1)
    };
    cur.pos = p + width;
    Ok(value)
}

/// Reads 32 bytes verbatim and advances the cursor by 32; fails with
/// `UnexpectedEnd`, the cursor unchanged, when fewer remain.
pub(crate) fn read_32_bytes(cur: &mut Cursor) -> (r: Result<[u8; 32], DecodeError>)
    requires
        old(cur).wf(),
    ensures
        final(cur).buf@ == old(cur).buf@,
        final(cur).wf(),
        old(cur).rest().len() >= 32 ==> r is Ok && r->Ok_0@ == old(cur).buf@.subrange(
            old(cur).pos as int,
            old(cur).pos + 32,
        ) && final(cur).pos == old(cur).pos + 32,
        old(cur).rest().len() < 32 ==> r == Err::<[u8; 32], DecodeError>(
            DecodeError::UnexpectedEnd,
        ) && final(cur).pos == old(cur).pos,
{
    let n = cur.buf.len();
    if n - cur.pos < 32 {
        return Err(DecodeError::UnexpectedEnd);
    }
    let p = cur.pos;
    let mut out = [0u8; 32];
    let mut i: usize = 0;
    while i < 32
        invariant
            i <= 32,
            p + 32 <= n,
            n == cur.buf@.len(),
            forall|j: int| 0 <= j < i ==> out@[j] == cur.buf@[p + j],
        decreases 32 - i,
    {
        out[i] = cur.buf[p + i];
        i = i + 1;
    }
    assert(out@ == cur.buf@.subrange(p as int, p + 32));
    cur.pos = p + 32;
    Ok(out)
}

/// Reads four bytes, advancing the cursor by 4, and tells whether they are
/// the magic tag. With fewer than 4 bytes left there is no match and the
/// cursor is unchanged.
pub(crate) fn match_magic_bytes(cur: &mut Cursor) -> (r: bool)
    requires
        old(cur).wf(),
    ensures
        final(cur).buf@ == old(cur).buf@,
        final(cur).wf(),
        old(cur).rest().len() >= 4 ==> final(cur).pos == old(cur).pos + 4 && r == magic_at(
            old(cur).buf@,
            old(cur).pos as int,
        ),
        old(cur).rest().len() < 4 ==> !r && final(cur).pos == old(cur).pos,
{
    let p = cur.pos;
    if cur.buf.len() - p < 4 {
        return false;
    }
    let m = cur.buf[p] == 0xf9 && cur.buf[p + 1] == 0xbe && cur.buf[p + 2] == 0xb4 && cur.buf[p
        + 3] == 0xd9;
    cur.pos = p + 4;
    assert(m ==> cur.buf@.subrange(p as int, p + 4) =~= magic());
    m
}

} // verus!
