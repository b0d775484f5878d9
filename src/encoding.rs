//! How records are laid out, as spec functions, and what decoding them
//! gives back.
use vstd::prelude::*;
use crate::block::{
    block_outcome, frame, framed_count, framed_end, header_at, records, scan_end, HeaderView,
};
use crate::bytes::{le_bytes2, le_bytes4, le_bytes8, lemma_le_bytes2, lemma_le_bytes4, lemma_le_bytes8};
use crate::bytes::{le_u16, le_u32, le_u64};
use crate::cursor::DecodeError;
use crate::primitives::{magic, magic_at, varint_value, varint_width};

verus! {

/// The shortest varint that holds `v`.
pub open spec fn varint_encode(v: u64) -> Seq<u8> {
    if v <= 0xfc {
        seq![v as u8]
    } else if v <= 0xffff {
        seq![0xfdu8] + le_bytes2(v as int)
    } else if v <= 0xffff_ffff {
        seq![0xfeu8] + le_bytes4(v as int)
    } else {
        seq![0xffu8] + le_bytes8(v as int)
    }
}

/// The two digests of a header are 32 bytes each.
pub open spec fn header_wf(h: HeaderView) -> bool {
    h.prev_block.len() == 32 && h.merkle_root.len() == 32
}

/// The 80 bytes of a header.
#[verifier::opaque]
pub open spec fn encode_header(h: HeaderView) -> Seq<u8> {
    le_bytes4(h.version as int) + h.prev_block + h.merkle_root + le_bytes4(h.time as int)
        + le_bytes4(h.bits as int) + le_bytes4(h.nonce as int)
}

/// A record whose payload is the header followed by `body` (the
/// transaction count and the transactions).
pub open spec fn encode_record(h: HeaderView, body: Seq<u8>) -> Seq<u8> {
    magic() + le_bytes4(80 + body.len() as int) + encode_header(h) + body
}

/// The header is well formed and the declared size fits its field.
pub open spec fn record_wf(h: HeaderView, body: Seq<u8>) -> bool {
    header_wf(h) && 80 + body.len() < 4294967296
}

/// Records laid end to end.
pub open spec fn concat_records(rs: Seq<(HeaderView, Seq<u8>)>) -> Seq<u8>
    decreases rs.len(),
{
    if rs.len() == 0 {
        Seq::empty()
    } else {
        encode_record(rs[0].0, rs[0].1) + concat_records(rs.drop_first())
    }
}

/// The headers of a list of records.
pub open spec fn headers_of(rs: Seq<(HeaderView, Seq<u8>)>) -> Seq<HeaderView> {
    rs.map_values(|r: (HeaderView, Seq<u8>)| r.0)
}

/// Four bytes that encode `v` read back as `v`, wherever they stand.
proof fn lemma_le_u32_at(s: Seq<u8>, i: int, v: int)
    requires
        0 <= v < 4294967296,
        0 <= i,
        i + 4 <= s.len(),
        s.subrange(i, i + 4) == le_bytes4(v),
    ensures
        le_u32(s, i) == v,
{
    lemma_le_bytes4(v);
    let e = le_bytes4(v);
    assert(s[i] == e[0] && s[i + 1] == e[1] && s[i + 2] == e[2] && s[i + 3] == e[3]) by {
        assert(s.subrange(i, i + 4)[0] == s[i]);
        assert(s.subrange(i, i + 4)[1] == s[i + 1]);
        assert(s.subrange(i, i + 4)[2] == s[i + 2]);
        assert(s.subrange(i, i + 4)[3] == s[i + 3]);
    }
}

/// A header decodes to the fields it was encoded from.
pub proof fn lemma_header_round_trip(pre: Seq<u8>, h: HeaderView, post: Seq<u8>)
    requires
        header_wf(h),
    ensures
        encode_header(h).len() == 80,
        header_at(pre + encode_header(h) + post, pre.len() as int) == h,
{
    reveal(encode_header);
    lemma_le_bytes4(h.version as int);
    lemma_le_bytes4(h.time as int);
    lemma_le_bytes4(h.bits as int);
    lemma_le_bytes4(h.nonce as int);
    let s = pre + encode_header(h) + post;
    let p = pre.len() as int;
    assert(s.subrange(p, p + 4) =~= le_bytes4(h.version as int));
    assert(s.subrange(p + 4, p + 36) =~= h.prev_block);
    assert(s.subrange(p + 36, p + 68) =~= h.merkle_root);
    assert(s.subrange(p + 68, p + 72) =~= le_bytes4(h.time as int));
    assert(s.subrange(p + 72, p + 76) =~= le_bytes4(h.bits as int));
    assert(s.subrange(p + 76, p + 80) =~= le_bytes4(h.nonce as int));
    lemma_le_u32_at(s, p, h.version as int);
    lemma_le_u32_at(s, p + 68, h.time as int);
    lemma_le_u32_at(s, p + 72, h.bits as int);
    lemma_le_u32_at(s, p + 76, h.nonce as int);
}

/// The frame header of a well-formed record holds the magic tag and the
/// declared size, whatever follows the record.
proof fn lemma_frame_header(h: HeaderView, body: Seq<u8>, post: Seq<u8>)
    requires
        record_wf(h, body),
    ensures
        encode_record(h, body).len() == 88 + body.len(),
        magic_at(encode_record(h, body) + post, 0),
        le_u32(encode_record(h, body) + post, 4) == 80 + body.len(),
{
    let size = 80 + body.len() as int;
    lemma_le_bytes4(size);
    lemma_header_round_trip(Seq::empty(), h, Seq::empty());
    let s = encode_record(h, body) + post;
    assert(s.subrange(0, 4) =~= magic());
    assert(s.subrange(4, 8) =~= le_bytes4(size));
    lemma_le_u32_at(s, 4, size);
}

/// A well-formed record at offset `at` of a buffer, whatever follows it,
/// frames as a complete record of its own length when its end is an offset
/// that `usize` holds, and its header decodes to the fields it was built
/// from.
pub proof fn lemma_record_frames(h: HeaderView, body: Seq<u8>, post: Seq<u8>, at: int)
    requires
        record_wf(h, body),
        0 <= at,
        at + encode_record(h, body).len() <= usize::MAX,
    ensures
        encode_record(h, body).len() == 88 + body.len(),
        frame(encode_record(h, body) + post, at) == Ok::<Option<nat>, DecodeError>(
            Some(encode_record(h, body).len()),
        ),
        header_at(encode_record(h, body) + post, 8) == h,
        (encode_record(h, body) + post).subrange(
            encode_record(h, body).len() as int,
            (encode_record(h, body) + post).len() as int,
        ) == post,
{
    let rec = encode_record(h, body);
    let s = rec + post;
    lemma_frame_header(h, body, post);
    let pre = magic() + le_bytes4(80 + body.len() as int);
    lemma_header_round_trip(pre, h, body + post);
    assert(s =~= pre + encode_header(h) + (body + post));
    assert(s.subrange(rec.len() as int, s.len() as int) =~= post);
}

/// Varint round trip: the shortest encoding of `v`, followed by any bytes,
/// decodes to `v` and spans exactly the encoding, which is 1 byte up to 252,
/// 3 up to 65535, 5 up to 4294967295 and 9 above.
pub proof fn lemma_varint_round_trip(v: u64, rest: Seq<u8>)
    ensures
        varint_width((varint_encode(v) + rest)[0]) == varint_encode(v).len(),
        varint_value(varint_encode(v) + rest, 0) == v,
        v <= 252 ==> varint_encode(v).len() == 1,
        252 < v <= 65535 ==> varint_encode(v).len() == 3,
        65535 < v <= 4294967295 ==> varint_encode(v).len() == 5,
        4294967295 < v ==> varint_encode(v).len() == 9,
{
    let e = varint_encode(v);
    let s = e + rest;
    if v <= 0xfc {
    } else if v <= 0xffff {
        lemma_le_bytes2(v as int);
        let b = le_bytes2(v as int);
        assert(s[1] == b[0] && s[2] == b[1]);
    } else if v <= 0xffff_ffff {
        lemma_le_bytes4(v as int);
        let b = le_bytes4(v as int);
        assert(s.subrange(1, 5) =~= b);
        lemma_le_u32_at(s, 1, v as int);
    } else {
        lemma_le_bytes8(v as int);
        let b = le_bytes8(v as int);
        assert(s.subrange(1, 9) =~= b);
        assert(le_u64(s, 1) == le_u64(b, 0)) by {
            assert forall|j: int| 0 <= j < 8 implies s[1 + j] == b[j] by {
                assert(s.subrange(1, 9)[j] == s[1 + j]);
            }
        }
    }
}

/// Decoding a single record built from a header, the shortest varint of a
/// transaction count and a payload gives that header, that count, and the
/// payload's range, whatever bytes follow the record, at any offset `at`
/// where the record's end fits in `usize`.
pub proof fn lemma_block_round_trip(
    h: HeaderView,
    count: u64,
    payload: Seq<u8>,
    post: Seq<u8>,
    at: int,
)
    requires
        record_wf(h, varint_encode(count) + payload),
        0 <= at,
        at + encode_record(h, varint_encode(count) + payload).len() <= usize::MAX,
    ensures
        ({
            let rec = encode_record(h, varint_encode(count) + payload);
            let w = varint_encode(count).len() as int;
            block_outcome(rec + post, at) == Ok::<(HeaderView, int, int, int), DecodeError>(
                (h, count as int, 88 + w, rec.len() as int),
            )
        }),
{
    let body = varint_encode(count) + payload;
    let rec = encode_record(h, body);
    let s = rec + post;
    lemma_record_frames(h, body, post, at);
    let pre = magic() + le_bytes4(80 + body.len() as int) + encode_header(h);
    lemma_header_round_trip(magic() + le_bytes4(80 + body.len() as int), h, body);
    assert(pre.len() == 88);
    assert(s =~= pre + (varint_encode(count) + (payload + post)));
    lemma_varint_round_trip(count, payload + post);
    let t = varint_encode(count) + (payload + post);
    assert(s.subrange(88, s.len() as int) =~= t);
    assert(s[88] == t[0]);
    lemma_varint_value_shift(s, 88);
}

/// A varint reads the same after the bytes before it are dropped.
proof fn lemma_varint_value_shift(s: Seq<u8>, i: int)
    requires
        0 <= i < s.len(),
        i + varint_width(s[i]) <= s.len(),
    ensures
        varint_value(s, i) == varint_value(s.subrange(i, s.len() as int), 0),
{
    let t = s.subrange(i, s.len() as int);
    if s[i] == 0xfd {
        assert(le_u16(s, i + 1) == le_u16(t, 1));
    } else if s[i] == 0xfe {
        assert(le_u32(s, i + 1) == le_u32(t, 1));
    } else if s[i] == 0xff {
        assert(le_u64(s, i + 1) == le_u64(t, 1));
    }
}

/// Every record of the list is well formed.
pub open spec fn records_wf(rs: Seq<(HeaderView, Seq<u8>)>) -> bool {
    forall|i: int| 0 <= i < rs.len() ==> #[trigger] record_wf(rs[i].0, rs[i].1)
}

/// A scan over well-formed records laid end to end from offset `at`, all
/// ending at offsets that `usize` holds, followed by any bytes, yields the
/// records' headers in order and then goes on as a scan of those bytes
/// alone; so does the walk that counts records.
pub proof fn lemma_scan_records_then(rs: Seq<(HeaderView, Seq<u8>)>, tail: Seq<u8>, at: int)
    requires
        records_wf(rs),
        0 <= at,
        at + concat_records(rs).len() <= usize::MAX,
    ensures
        ({
            let buf = concat_records(rs) + tail;
            let after = at + concat_records(rs).len();
            &&& records(buf, at) == headers_of(rs) + records(tail, after)
            &&& scan_end(buf, at) == scan_end(tail, after)
            &&& framed_count(buf, at) == rs.len() + framed_count(tail, after)
            &&& framed_end(buf, at) == framed_end(tail, after)
        }),
    decreases rs.len(),
{
    if rs.len() == 0 {
        assert(concat_records(rs) + tail =~= tail);
        assert(headers_of(rs) + records(tail, at) =~= records(tail, at));
    } else {
        let rest = rs.drop_first();
        assert(records_wf(rest)) by {
            assert forall|i: int| 0 <= i < rest.len() implies #[trigger] record_wf(
                rest[i].0,
                rest[i].1,
            ) by {
                assert(rest[i] == rs[i + 1]);
            }
        }
        assert(record_wf(rs[0].0, rs[0].1));
        let rec = encode_record(rs[0].0, rs[0].1);
        lemma_scan_records_then(rest, tail, at + rec.len());
        let post = concat_records(rest) + tail;
        let after = at + concat_records(rs).len();
        assert(concat_records(rs) + tail =~= rec + post);
        lemma_record_frames(rs[0].0, rs[0].1, post, at);
        assert(headers_of(rs) =~= seq![rs[0].0] + headers_of(rest));
        assert(seq![rs[0].0] + (headers_of(rest) + records(tail, after)) =~= headers_of(rs)
            + records(tail, after));
    }
}

/// A scan over well-formed records laid end to end (a buffer that fits in
/// memory) yields exactly their headers, in order (as many as there are
/// records), and ends at the end of the data; the counting walk passes
/// exactly those records and ends there too.
pub proof fn lemma_scan_records(rs: Seq<(HeaderView, Seq<u8>)>)
    requires
        records_wf(rs),
        concat_records(rs).len() <= usize::MAX,
    ensures
        records(concat_records(rs), 0) == headers_of(rs),
        records(concat_records(rs), 0).len() == rs.len(),
        scan_end(concat_records(rs), 0) == Ok::<(), DecodeError>(()),
        framed_count(concat_records(rs), 0) == rs.len(),
        framed_end(concat_records(rs), 0) == Ok::<(), DecodeError>(()),
{
    let e = Seq::<u8>::empty();
    lemma_scan_records_then(rs, e, 0);
    assert(concat_records(rs) + e =~= concat_records(rs));
    assert(headers_of(rs) + records(e, concat_records(rs).len() as int) =~= headers_of(rs));
}

/// When the last record is cut short, at any length below its own, the scan
/// and the counting walk pass the complete records before it and end at the
/// end of the data, with no error.
pub proof fn lemma_truncated_last_record(
    rs: Seq<(HeaderView, Seq<u8>)>,
    h: HeaderView,
    body: Seq<u8>,
    m: int,
)
    requires
        records_wf(rs),
        record_wf(h, body),
        0 <= m < encode_record(h, body).len(),
        concat_records(rs).len() + encode_record(h, body).len() <= usize::MAX,
    ensures
        ({
            let buf = concat_records(rs) + encode_record(h, body).subrange(0, m);
            &&& records(buf, 0) == headers_of(rs)
            &&& scan_end(buf, 0) == Ok::<(), DecodeError>(())
            &&& framed_count(buf, 0) == rs.len()
            &&& framed_end(buf, 0) == Ok::<(), DecodeError>(())
        }),
{
    let rec = encode_record(h, body);
    let tail = rec.subrange(0, m);
    let after = concat_records(rs).len() as int;
    lemma_scan_records_then(rs, tail, 0);
    if m >= 8 {
        lemma_frame_header(h, body, Seq::empty());
        assert(rec + Seq::<u8>::empty() =~= rec);
        assert(tail.subrange(0, 4) =~= rec.subrange(0, 4));
        assert(le_u32(tail, 4) == le_u32(rec, 4));
    }
    assert(headers_of(rs) + records(tail, after) =~= headers_of(rs));
}

/// When one of the four magic bytes of the record after some well-formed
/// records is changed, the scan and the counting walk pass the records before
/// it and stop there with `InvalidMagic`.
pub proof fn lemma_corrupt_magic(
    rs: Seq<(HeaderView, Seq<u8>)>,
    h: HeaderView,
    body: Seq<u8>,
    post: Seq<u8>,
    j: int,
    b: u8,
)
    requires
        records_wf(rs),
        record_wf(h, body),
        0 <= j < 4,
        b != magic()[j],
        concat_records(rs).len() <= usize::MAX,
    ensures
        ({
            let buf = concat_records(rs) + (encode_record(h, body) + post).update(j, b);
            &&& records(buf, 0) == headers_of(rs)
            &&& scan_end(buf, 0) == Err::<(), DecodeError>(DecodeError::InvalidMagic)
            &&& framed_count(buf, 0) == rs.len()
            &&& framed_end(buf, 0) == Err::<(), DecodeError>(DecodeError::InvalidMagic)
        }),
{
    let rec = encode_record(h, body);
    let tail = (rec + post).update(j, b);
    let after = concat_records(rs).len() as int;
    lemma_scan_records_then(rs, tail, 0);
    lemma_frame_header(h, body, post);
    assert(tail.subrange(0, 4)[j] == b);
    assert(!magic_at(tail, 0));
    assert(headers_of(rs) + records(tail, after) =~= headers_of(rs));
}

} // verus!
