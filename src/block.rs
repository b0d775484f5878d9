//! Record framing, header decoding and the record iterator.
use vstd::prelude::*;
use crate::bytes::le_u32;
use crate::cursor::{Cursor, DecodeError};
use crate::primitives::{
    lemma_varint_value_subrange, magic_at, read_u32_le, read_varint, varint_value, varint_width,
};
use crate::primitives::{match_magic_bytes, read_32_bytes};

verus! {

/// Size in bytes of a record header.
pub const HEADER_LEN: usize = 80;

/// Size in bytes of the frame header: magic tag and size field.
pub const FRAME_LEN: usize = 8;

/// The fixed 80-byte header of a record.
#[derive(Debug)]
pub struct Blockheader {
    pub version: u32,
    pub prev_block: [u8; 32],
    pub merkle_root: [u8; 32],
    pub time: u32,
    /// Encoded difficulty target, kept as read.
    pub bits: u32,
    pub nonce: u32,
}

/// The fields of a header, with the two digests as byte sequences.
pub ghost struct HeaderView {
    pub version: u32,
    pub prev_block: Seq<u8>,
    pub merkle_root: Seq<u8>,
    pub time: u32,
    pub bits: u32,
    pub nonce: u32,
}

impl View for Blockheader {
    type V = HeaderView;

    open spec fn view(&self) -> HeaderView {
        HeaderView {
            version: self.version,
            prev_block: self.prev_block@,
            merkle_root: self.merkle_root@,
            time: self.time,
            bits: self.bits,
            nonce: self.nonce,
        }
    }
}

/// A transaction of a block's body.
pub struct Transaction {
    pub version: u32,
    pub data: Vec<u8>,
}

/// One decoded record: its header, its transaction count and the byte range
/// of the transaction data that follows the count.
pub struct Block {
    pub header: Blockheader,
    pub tx_count: u64,
    pub txns: Vec<Transaction>,
    pub raw_payload_start: usize,
    pub raw_payload_end: usize,
}

/// The header laid out in `s` from index `i`: version, previous-block
/// reference, merkle root, time, bits and nonce, packed in that order.
pub open spec fn header_at(s: Seq<u8>, i: int) -> HeaderView {
    HeaderView {
        version: le_u32(s, i) as u32,
        prev_block: s.subrange(i + 4, i + 36),
        merkle_root: s.subrange(i + 36, i + 68),
        time: le_u32(s, i + 68) as u32,
        bits: le_u32(s, i + 72) as u32,
        nonce: le_u32(s, i + 76) as u32,
    }
}

/// A header reads the same from a window of the bytes that holds it.
pub proof fn lemma_header_at_subrange(s: Seq<u8>, a: int, b: int, i: int)
    requires
        0 <= a,
        0 <= i,
        a + i + 80 <= b <= s.len(),
    ensures
        header_at(s.subrange(a, b), i) == header_at(s, a + i),
{
    let w = s.subrange(a, b);
    assert(w.subrange(i + 4, i + 36) =~= s.subrange(a + i + 4, a + i + 36));
    assert(w.subrange(i + 36, i + 68) =~= s.subrange(a + i + 36, a + i + 68));
    assert(le_u32(w, i) == le_u32(s, a + i));
    assert(le_u32(w, i + 68) == le_u32(s, a + i + 68));
    assert(le_u32(w, i + 72) == le_u32(s, a + i + 72));
    assert(le_u32(w, i + 76) == le_u32(s, a + i + 76));
}

/// Framing of the record that `s` starts with, `s` standing at offset `at`
/// of its buffer. `Ok(Some(n))`: a complete record of `n` bytes (frame
/// header included); `Ok(None)`: no complete record is left; `Err`: the
/// bytes cannot start a record, or the record's end is past the largest
/// offset that `usize` can hold.
pub open spec fn frame(s: Seq<u8>, at: int) -> Result<Option<nat>, DecodeError> {
    if s.len() < 8 {
        Ok(None)
    } else if !magic_at(s, 0) {
        Err(DecodeError::InvalidMagic)
    } else {
        let size = le_u32(s, 4);
        if at + 8 + size > usize::MAX {
            Err(DecodeError::InvalidFraming)
        } else if size > s.len() - 8 {
            Ok(None)
        } else {
            Ok(Some((8 + size) as nat))
        }
    }
}

/// One scan step on `s` (at offset `at`): the framing, with the header then
/// decoded from the bytes after the frame header. A header cut short by the
/// end of `s` is an `UnexpectedEnd` error; a header that the buffer holds but
/// the declared size does not is an `InvalidFraming` error.
pub open spec fn step(s: Seq<u8>, at: int) -> Result<Option<nat>, DecodeError> {
    match frame(s, at) {
        Ok(Some(n)) => if s.len() < 88 {
            Err(DecodeError::UnexpectedEnd)
        } else if n < 88 {
            Err(DecodeError::InvalidFraming)
        } else {
            Ok(Some(n))
        },
        other => other,
    }
}

/// Number of records that a walk over `s` (at offset `at`) by magic tag and
/// declared size alone passes before it stops.
pub open spec fn framed_count(s: Seq<u8>, at: int) -> nat
    decreases s.len(),
{
    match frame(s, at) {
        Ok(Some(n)) => 1 + framed_count(s.subrange(n as int, s.len() as int), at + n),
        _ => 0,
    }
}

/// How the walk of `framed_count` ends: `Ok(())` at the end of the usable
/// data, or the framing error that stopped it.
pub open spec fn framed_end(s: Seq<u8>, at: int) -> Result<(), DecodeError>
    decreases s.len(),
{
    match frame(s, at) {
        Ok(Some(n)) => framed_end(s.subrange(n as int, s.len() as int), at + n),
        Ok(None) => Ok(()),
        Err(e) => Err(e),
    }
}

/// The headers of the records that a scan over `s` (at offset `at`) yields,
/// in order.
pub open spec fn records(s: Seq<u8>, at: int) -> Seq<HeaderView>
    decreases s.len(),
{
    match step(s, at) {
        Ok(Some(n)) => seq![header_at(s, 8)] + records(
            s.subrange(n as int, s.len() as int),
            at + n,
        ),
        _ => Seq::empty(),
    }
}

/// How a scan over `s` (at offset `at`) ends: `Ok(())` at the end of the
/// usable data, or the error that stopped it.
pub open spec fn scan_end(s: Seq<u8>, at: int) -> Result<(), DecodeError>
    decreases s.len(),
{
    match step(s, at) {
        Ok(Some(n)) => scan_end(s.subrange(n as int, s.len() as int), at + n),
        Ok(None) => Ok(()),
        Err(e) => Err(e),
    }
}

/// Decodes the 80-byte header at the cursor and advances it by 80; fails
/// with `UnexpectedEnd`, the cursor unchanged, when fewer than 80 bytes
/// remain. The fields are not checked.
pub fn parse_header(cur: &mut Cursor) -> (r: Result<Blockheader, DecodeError>)
    requires
        old(cur).wf(),
    ensures
        final(cur).buf@ == old(cur).buf@,
        final(cur).wf(),
        old(cur).rest().len() >= 80 ==> r is Ok && r->Ok_0@ == header_at(
            old(cur).buf@,
            old(cur).pos as int,
        ) && final(cur).pos == old(cur).pos + 80,
        old(cur).rest().len() < 80 ==> r == Err::<Blockheader, DecodeError>(
            DecodeError::UnexpectedEnd,
        ) && final(cur).pos == old(cur).pos,
{
    if cur.buf.len() - cur.pos < HEADER_LEN {
        return Err(DecodeError::UnexpectedEnd);
    }
    let version = match read_u32_le(cur) {
        Ok(v) => v,
        Err(e) => return Err(e),
    };
    let prev_block = match read_32_bytes(cur) {
        Ok(v) => v,
        Err(e) => return Err(e),
    };
    let merkle_root = match read_32_bytes(cur) {
        Ok(v) => v,
        Err(e) => return Err(e),
    };
    let time = match read_u32_le(cur) {
        Ok(v) => v,
        Err(e) => return Err(e),
    };
    let bits = match read_u32_le(cur) {
        Ok(v) => v,
        Err(e) => return Err(e),
    };
    let nonce = match read_u32_le(cur) {
        Ok(v) => v,
        Err(e) => return Err(e),
    };
    Ok(Blockheader { version, prev_block, merkle_root, time, bits, nonce })
}

/// Reads the frame header: the magic tag and the declared size. Returns the
/// size and the position right after the frame header, where the cursor then
/// stands. Fails with `UnexpectedEnd` when fewer than 8 bytes remain and with
/// `InvalidMagic` when the tag is wrong, the cursor unchanged either way.
fn read_block_framing(cur: &mut Cursor) -> (r: Result<(usize, usize), DecodeError>)
    requires
        old(cur).wf(),
    ensures
        final(cur).buf@ == old(cur).buf@,
        final(cur).wf(),
        ({
            let s = old(cur).rest();
            if s.len() < 8 {
                r == Err::<(usize, usize), DecodeError>(DecodeError::UnexpectedEnd)
                    && final(cur).pos == old(cur).pos
            } else if !magic_at(s, 0) {
                r == Err::<(usize, usize), DecodeError>(DecodeError::InvalidMagic)
                    && final(cur).pos == old(cur).pos
            } else {
                r == Ok::<(usize, usize), DecodeError>((le_u32(s, 4) as usize, final(cur).pos))
                    && final(cur).pos == old(cur).pos + 8
            }
        }),
{
    let start = cur.pos;
    if cur.buf.len() - start < FRAME_LEN {
        return Err(DecodeError::UnexpectedEnd);
    }
    proof {
        assert(cur.rest().subrange(0, 4) =~= cur.buf@.subrange(start as int, start + 4));
    }
    if !match_magic_bytes(cur) {
        cur.pos = start;
        return Err(DecodeError::InvalidMagic);
    }
    let size = match read_u32_le(cur) {
        Ok(v) => v,
        Err(e) => return Err(e),
    };
    Ok((size as usize, cur.pos))
}

/// The record framer: reads the frame header and checks the declared size
/// against the buffer. Returns the end of a complete record, with the cursor
/// at its header; `None` when no complete record is left; an error when the
/// bytes cannot start a record or its end cannot be represented. Except on
/// success the cursor is unchanged.
fn frame_record(cur: &mut Cursor) -> (r: Result<Option<usize>, DecodeError>)
    requires
        old(cur).wf(),
    ensures
        final(cur).buf@ == old(cur).buf@,
        final(cur).wf(),
        match frame(old(cur).rest(), old(cur).pos as int) {
            Ok(Some(n)) => r == Ok::<Option<usize>, DecodeError>(Some((old(cur).pos + n) as usize))
                && final(cur).pos == old(cur).pos + 8,
            Ok(None) => r == Ok::<Option<usize>, DecodeError>(None) && final(cur).pos == old(
                cur,
            ).pos,
            Err(e) => r == Err::<Option<usize>, DecodeError>(e) && final(cur).pos == old(cur).pos,
        },
{
    let start = cur.pos;
    let (size, payload_start) = match read_block_framing(cur) {
        Ok(f) => f,
        Err(DecodeError::UnexpectedEnd) => return Ok(None),
        Err(e) => return Err(e),
    };
    if size > usize::MAX - payload_start {
        cur.pos = start;
        return Err(DecodeError::InvalidFraming);
    }
    if size > cur.buf.len() - payload_start {
        cur.pos = start;
        return Ok(None);
    }
    Ok(Some(payload_start + size))
}

/// One step of a scan: decodes the record at the cursor and moves the cursor
/// past its whole payload. `Ok(None)` when no complete record is left (fewer
/// than 8 bytes, or a declared size that runs past the buffer); an
/// `UnexpectedEnd` error when the buffer ends inside the header, and an
/// `InvalidFraming` error when the declared size cannot hold the header or
/// the record's end cannot be represented. The cursor stays put unless a
/// header is returned.
pub fn next_block_header(cur: &mut Cursor) -> (r: Result<Option<Blockheader>, DecodeError>)
    requires
        old(cur).wf(),
    ensures
        final(cur).buf@ == old(cur).buf@,
        final(cur).wf(),
        match step(old(cur).rest(), old(cur).pos as int) {
            Ok(Some(n)) => r matches Ok(Some(h)) && h@ == header_at(old(cur).rest(), 8)
                && final(cur).pos == old(cur).pos + n,
            Ok(None) => r matches Ok(None) && final(cur).pos == old(cur).pos,
            Err(e) => r == Err::<Option<Blockheader>, DecodeError>(e) && final(cur).pos == old(
                cur,
            ).pos,
        },
{
    let ghost s = cur.rest();
    let start = cur.pos;
    let end = match frame_record(cur) {
        Ok(Some(end)) => end,
        Ok(None) => return Ok(None),
        Err(e) => return Err(e),
    };
    let ghost hp = cur.pos as int;
    let header = match parse_header(cur) {
        Ok(h) => h,
        Err(e) => {
            cur.pos = start;
            return Err(e);
        },
    };
    if end - start < FRAME_LEN + HEADER_LEN {
        cur.pos = start;
        return Err(DecodeError::InvalidFraming);
    }
    proof {
        lemma_header_at_subrange(cur.buf@, hp - 8, cur.buf@.len() as int, 8);
    }
    cur.pos = end;
    Ok(Some(header))
}

/// Moving past a complete record leaves the rest of the walk.
proof fn lemma_framed_step(buf: Seq<u8>, pos: int)
    requires
        0 <= pos <= buf.len(),
        frame(buf.subrange(pos, buf.len() as int), pos) is Ok,
        frame(buf.subrange(pos, buf.len() as int), pos)->Ok_0 is Some,
    ensures
        ({
            let s = buf.subrange(pos, buf.len() as int);
            let n = frame(s, pos)->Ok_0->Some_0;
            let t = buf.subrange(pos + n, buf.len() as int);
            &&& 8 <= n <= s.len()
            &&& framed_count(s, pos) == 1 + framed_count(t, pos + n)
            &&& framed_end(s, pos) == framed_end(t, pos + n)
        }),
{
    let s = buf.subrange(pos, buf.len() as int);
    let n = frame(s, pos)->Ok_0->Some_0;
    assert(s.subrange(n as int, s.len() as int) =~= buf.subrange(pos + n, buf.len() as int));
}

/// Counts the complete records of `buf` from its start, by magic tag and
/// declared size alone (headers are not decoded): the number of records
/// passed when the walk ends at the end of the usable data, else the error
/// that stopped it.
pub fn count_blocks(buf: &[u8]) -> (r: Result<usize, DecodeError>)
    ensures
        match framed_end(buf@, 0) {
            Ok(_) => r == Ok::<usize, DecodeError>(framed_count(buf@, 0) as usize),
            Err(e) => r == Err::<usize, DecodeError>(e),
        },
{
    let mut cur = Cursor::new(buf);
    let mut blocks: usize = 0;
    assert(cur.rest() =~= buf@);
    loop
        invariant
            cur.wf(),
            cur.buf@ == buf@,
            blocks + framed_count(cur.rest(), cur.pos as int) == framed_count(buf@, 0),
            framed_end(cur.rest(), cur.pos as int) == framed_end(buf@, 0),
            blocks * 8 <= cur.pos,
        decreases buf@.len() - cur.pos,
    {
        let ghost pos = cur.pos as int;
        match frame_record(&mut cur) {
            Ok(Some(end)) => {
                proof {
                    lemma_framed_step(buf@, pos);
                }
                cur.pos = end;
                blocks = blocks + 1;
            },
            Ok(None) => {
                return Ok(blocks);
            },
            Err(e) => {
                return Err(e);
            },
        }
    }
}

/// What decoding the single record that `s` starts with gives: its header,
/// its transaction count, and the start and end (relative to `s`) of the
/// transaction data after the count. Running out of bytes anywhere in the
/// frame header, the payload, the header or the count is `UnexpectedEnd`; a
/// count that runs past the declared payload, or a record end that `usize`
/// cannot hold (`s` standing at offset `at`), is `InvalidFraming`.
pub open spec fn block_outcome(s: Seq<u8>, at: int) -> Result<
    (HeaderView, int, int, int),
    DecodeError,
> {
    match frame(s, at) {
        Ok(Some(n)) => if s.len() <= 88 {
            Err(DecodeError::UnexpectedEnd)
        } else if 88 + varint_width(s[88]) > s.len() {
            Err(DecodeError::UnexpectedEnd)
        } else if 88 + varint_width(s[88]) > n {
            Err(DecodeError::InvalidFraming)
        } else {
            Ok((header_at(s, 8), varint_value(s, 88), 88 + varint_width(s[88]) as int, n as int))
        },
        Ok(None) => Err(DecodeError::UnexpectedEnd),
        Err(e) => Err(e),
    }
}

/// Decodes the one record that starts at `offset` in `data`: frame header,
/// header and transaction count. The transactions are not decoded; their
/// bytes are given as a range. A record cut short by the end of `data` is an
/// `UnexpectedEnd` error.
pub fn parse_block(data: &[u8], offset: usize) -> (r: Result<Block, DecodeError>)
    ensures
        offset > data@.len() ==> r is Err && r->Err_0 == DecodeError::UnexpectedEnd,
        offset <= data@.len() ==> match block_outcome(
            data@.subrange(offset as int, data@.len() as int),
            offset as int,
        ) {
            Ok((h, count, start, end)) => r matches Ok(b) && b.header@ == h && b.tx_count == count
                && b.txns@.len() == 0 && b.raw_payload_start == offset + start
                && b.raw_payload_end == offset + end,
            Err(e) => r is Err && r->Err_0 == e,
        },
{
    if offset > data.len() {
        return Err(DecodeError::UnexpectedEnd);
    }
    let ghost s = data@.subrange(offset as int, data@.len() as int);
    let mut cur = Cursor { buf: data, pos: offset };
    let end = match frame_record(&mut cur) {
        Ok(Some(end)) => end,
        Ok(None) => return Err(DecodeError::UnexpectedEnd),
        Err(e) => return Err(e),
    };
    let header = match parse_header(&mut cur) {
        Ok(h) => h,
        Err(e) => return Err(e),
    };
    proof {
        lemma_header_at_subrange(data@, offset as int, data@.len() as int, 8);
        if offset + 88 < data@.len() && offset + 88 + varint_width(s[88]) <= data@.len() {
            lemma_varint_value_subrange(data@, offset as int, data@.len() as int, 88);
        }
    }
    let tx_count = match read_varint(&mut cur) {
        Ok(c) => c,
        Err(e) => return Err(e),
    };
    if cur.pos > end {
        return Err(DecodeError::InvalidFraming);
    }
    Ok(
        Block {
            header,
            tx_count,
            txns: Vec::new(),
            raw_payload_start: cur.pos,
            raw_payload_end: end,
        },
    )
}

} // verus!
