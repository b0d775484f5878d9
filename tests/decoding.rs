use btc_block_parser::block::{count_blocks, next_block_header, parse_block, parse_header};
use btc_block_parser::cursor::{Cursor, DecodeError};
use btc_block_parser::iter::BlockIter;
use btc_block_parser::primitives::{read_u32_le, read_varint};

const MAGIC: [u8; 4] = [0xf9, 0xbe, 0xb4, 0xd9];

fn header_bytes(version: u32, fill: u8, time: u32, bits: u32, nonce: u32) -> Vec<u8> {
    let mut h = Vec::new();
    h.extend_from_slice(&version.to_le_bytes());
    h.extend_from_slice(&[fill; 32]);
    h.extend_from_slice(&[fill.wrapping_add(1); 32]);
    h.extend_from_slice(&time.to_le_bytes());
    h.extend_from_slice(&bits.to_le_bytes());
    h.extend_from_slice(&nonce.to_le_bytes());
    h
}

fn record(header: &[u8], body: &[u8]) -> Vec<u8> {
    let mut r = MAGIC.to_vec();
    r.extend_from_slice(&((header.len() + body.len()) as u32).to_le_bytes());
    r.extend_from_slice(header);
    r.extend_from_slice(body);
    r
}

fn sample(version: u32) -> Vec<u8> {
    record(&header_bytes(version, version as u8, 1000 + version, 0x1d00ffff, 7 * version), &[2, 0xaa, 0xbb])
}

#[test]
fn single_record_scenario() {
    let data = record(&header_bytes(1, 0, 0, 0, 0), &[0x00]);
    assert_eq!(data.len(), 89);
    let block = parse_block(&data, 0).unwrap();
    assert_eq!(block.header.version, 1);
    assert_eq!(block.header.prev_block, [0u8; 32]);
    assert_eq!(block.tx_count, 0);
    assert_eq!(block.raw_payload_start, 89);
    assert_eq!(block.raw_payload_end, 89);
    assert!(block.txns.is_empty());
}

#[test]
fn parse_block_reports_range_and_count() {
    let mut data = vec![0x11, 0x22];
    data.extend(record(&header_bytes(2, 5, 9, 3, 4), &[0xfd, 0x34, 0x12, 1, 2, 3]));
    let block = parse_block(&data, 2).unwrap();
    assert_eq!(block.header.version, 2);
    assert_eq!(block.header.time, 9);
    assert_eq!(block.header.bits, 3);
    assert_eq!(block.header.nonce, 4);
    assert_eq!(block.header.merkle_root, [6u8; 32]);
    assert_eq!(block.tx_count, 0x1234);
    assert_eq!(block.raw_payload_start, 2 + 88 + 3);
    assert_eq!(block.raw_payload_end, data.len());
}

#[test]
fn parse_block_errors() {
    let data = record(&header_bytes(1, 0, 0, 0, 0), &[0x00]);
    assert_eq!(parse_block(&data[..50], 0).err(), Some(DecodeError::UnexpectedEnd));
    assert_eq!(parse_block(&data, 200).err(), Some(DecodeError::UnexpectedEnd));
    assert_eq!(parse_block(&data[..5], 0).err(), Some(DecodeError::UnexpectedEnd));
    let mut bad = data.clone();
    bad[0] = 0;
    assert_eq!(parse_block(&bad, 0).err(), Some(DecodeError::InvalidMagic));
    let no_count = record(&header_bytes(1, 0, 0, 0, 0), &[]);
    assert_eq!(parse_block(&no_count, 0).err(), Some(DecodeError::UnexpectedEnd));
    let cut_count = record(&header_bytes(1, 0, 0, 0, 0), &[0xfe, 1, 2]);
    assert_eq!(parse_block(&cut_count, 0).err(), Some(DecodeError::UnexpectedEnd));
    let mut count_outside = record(&header_bytes(1, 0, 0, 0, 0), &[]);
    count_outside.extend(record(&header_bytes(2, 0, 0, 0, 0), &[0x00]));
    assert_eq!(parse_block(&count_outside, 0).err(), Some(DecodeError::InvalidFraming));
    let mut short_size = MAGIC.to_vec();
    short_size.extend_from_slice(&40u32.to_le_bytes());
    short_size.extend_from_slice(&[0u8; 60]);
    assert_eq!(parse_block(&short_size, 0).err(), Some(DecodeError::UnexpectedEnd));
}

#[test]
fn next_block_header_decodes_and_skips_payload() {
    let mut data = vec![0u8; 3];
    let rec = sample(4);
    data.extend(&rec);
    data.extend(sample(5));
    let mut cur = Cursor { buf: &data, pos: 3 };
    let h = next_block_header(&mut cur).unwrap().unwrap();
    assert_eq!(h.version, 4);
    assert_eq!(h.prev_block, [4u8; 32]);
    assert_eq!(h.merkle_root, [5u8; 32]);
    assert_eq!(h.time, 1004);
    assert_eq!(h.bits, 0x1d00ffff);
    assert_eq!(h.nonce, 28);
    assert_eq!(cur.pos, 3 + rec.len());
}

#[test]
fn iterator_yields_all_records_in_order() {
    let mut data = Vec::new();
    for v in 1..=3 {
        data.extend(sample(v));
    }
    let mut it = BlockIter::new(&data);
    for v in 1..=3 {
        let h = it.next().unwrap().unwrap();
        assert_eq!(h.version, v);
    }
    assert!(it.next().is_none());
    assert!(it.next().is_none());
    assert_eq!(it.cur.pos, data.len());
}

#[test]
fn iterator_on_empty_buffer() {
    let data: Vec<u8> = Vec::new();
    let mut it = BlockIter::new(&data);
    assert!(it.next().is_none());
    assert_eq!(count_blocks(&data), Ok(0));
}

#[test]
fn truncated_before_frame_header_is_end_of_data() {
    let mut data = sample(1);
    data.extend(&sample(2)[..5]);
    let mut it = BlockIter::new(&data);
    assert_eq!(it.next().unwrap().unwrap().version, 1);
    assert!(it.next().is_none());
    assert_eq!(count_blocks(&data), Ok(1));
}

#[test]
fn truncated_payload_is_end_of_data() {
    let mut data = sample(1);
    let second = sample(2);
    data.extend(&second[..second.len() - 1]);
    let mut it = BlockIter::new(&data);
    assert_eq!(it.next().unwrap().unwrap().version, 1);
    assert!(it.next().is_none());
    assert_eq!(it.cur.pos, sample(1).len());
    assert_eq!(count_blocks(&data), Ok(1));
}

#[test]
fn corrupted_magic_halts_iteration() {
    for j in 0..4 {
        let mut data = sample(1);
        let start = data.len();
        data.extend(sample(2));
        data.extend(sample(3));
        data[start + j] ^= 0x40;
        let mut it = BlockIter::new(&data);
        assert_eq!(it.next().unwrap().unwrap().version, 1);
        assert_eq!(it.next().unwrap().err(), Some(DecodeError::InvalidMagic));
        assert_eq!(it.cur.pos, start);
        assert!(it.next().is_none());
        assert_eq!(count_blocks(&data), Err(DecodeError::InvalidMagic));
    }
}

#[test]
fn short_declared_size_is_invalid_framing() {
    let mut data = MAGIC.to_vec();
    data.extend_from_slice(&10u32.to_le_bytes());
    data.extend_from_slice(&[0u8; 100]);
    let mut cur = Cursor::new(&data);
    assert_eq!(next_block_header(&mut cur).err(), Some(DecodeError::InvalidFraming));
    assert_eq!(cur.pos, 0);
    let mut it = BlockIter::new(&data);
    assert_eq!(it.next().unwrap().err(), Some(DecodeError::InvalidFraming));
    assert!(it.next().is_none());
    assert_eq!(count_blocks(&data), Err(DecodeError::InvalidMagic));
}

#[test]
fn declared_size_of_exactly_the_header() {
    let mut data = record(&header_bytes(3, 0, 0, 0, 0), &[]);
    data.extend(sample(4));
    let mut it = BlockIter::new(&data);
    assert_eq!(it.next().unwrap().unwrap().version, 3);
    assert_eq!(it.cur.pos, 88);
    assert_eq!(it.next().unwrap().unwrap().version, 4);
    assert!(it.next().is_none());
}

#[test]
fn header_cut_short_is_unexpected_end() {
    let mut data = MAGIC.to_vec();
    data.extend_from_slice(&10u32.to_le_bytes());
    data.extend_from_slice(&[0u8; 20]);
    let mut cur = Cursor::new(&data);
    assert_eq!(next_block_header(&mut cur).err(), Some(DecodeError::UnexpectedEnd));
    assert_eq!(cur.pos, 0);
    let mut it = BlockIter::new(&data);
    assert_eq!(it.next().unwrap().err(), Some(DecodeError::UnexpectedEnd));
    assert!(it.next().is_none());
    assert_eq!(count_blocks(&data), Err(DecodeError::InvalidMagic));
}

#[test]
fn zero_size_record_then_bad_magic() {
    let mut data = MAGIC.to_vec();
    data.extend_from_slice(&0u32.to_le_bytes());
    data.extend_from_slice(&[1, 2, 3, 4, 5, 6, 7, 8]);
    assert_eq!(count_blocks(&data), Err(DecodeError::InvalidMagic));
    let mut data = MAGIC.to_vec();
    data.extend_from_slice(&0u32.to_le_bytes());
    data.extend_from_slice(&MAGIC);
    data.extend_from_slice(&0u32.to_le_bytes());
    assert_eq!(count_blocks(&data), Ok(2));
}

#[test]
fn count_well_formed_records() {
    let mut data = Vec::new();
    for v in 0..5 {
        data.extend(sample(v));
    }
    assert_eq!(count_blocks(&data), Ok(5));
}

#[test]
fn count_second_magic_corrupted() {
    let mut data = sample(1);
    let start = data.len();
    data.extend(sample(2));
    data[start + 2] = 0;
    assert_eq!(count_blocks(&data), Err(DecodeError::InvalidMagic));
}

#[test]
fn read_u32_le_values() {
    let data = [0x78, 0x56, 0x34, 0x12, 0xff];
    let mut cur = Cursor::new(&data);
    assert_eq!(read_u32_le(&mut cur), Ok(0x12345678));
    assert_eq!(cur.pos, 4);
    assert_eq!(read_u32_le(&mut cur), Err(DecodeError::UnexpectedEnd));
    assert_eq!(cur.pos, 4);
}

#[test]
fn parse_header_needs_80_bytes() {
    let h = header_bytes(7, 1, 2, 3, 4);
    let mut cur = Cursor::new(&h[..79]);
    assert_eq!(parse_header(&mut cur).err(), Some(DecodeError::UnexpectedEnd));
    assert_eq!(cur.pos, 0);
    let mut cur = Cursor::new(&h);
    let hd = parse_header(&mut cur).unwrap();
    assert_eq!(hd.version, 7);
    assert_eq!(hd.time, 2);
    assert_eq!(cur.pos, 80);
}

fn encode_varint(v: u64) -> Vec<u8> {
    if v <= 0xfc {
        vec![v as u8]
    } else if v <= 0xffff {
        let mut e = vec![0xfd];
        e.extend_from_slice(&(v as u16).to_le_bytes());
        e
    } else if v <= 0xffff_ffff {
        let mut e = vec![0xfe];
        e.extend_from_slice(&(v as u32).to_le_bytes());
        e
    } else {
        let mut e = vec![0xff];
        e.extend_from_slice(&v.to_le_bytes());
        e
    }
}

#[test]
fn varint_round_trip() {
    let cases: [(u64, usize); 8] = [
        (0, 1),
        (252, 1),
        (253, 3),
        (65535, 3),
        (65536, 5),
        (4294967295, 5),
        (4294967296, 9),
        (18446744073709551615, 9),
    ];
    for (v, width) in cases {
        let mut data = encode_varint(v);
        assert_eq!(data.len(), width);
        data.push(0x99);
        let mut cur = Cursor::new(&data);
        assert_eq!(read_varint(&mut cur), Ok(v));
        assert_eq!(cur.pos, width);
    }
}

#[test]
fn varint_exact_values() {
    let data = [0xfe, 0x01, 0x02, 0x03, 0x04];
    let mut cur = Cursor::new(&data);
    assert_eq!(read_varint(&mut cur), Ok(0x04030201));
    let data = [0xff, 1, 0, 0, 0, 0, 0, 0, 0x80];
    let mut cur = Cursor::new(&data);
    assert_eq!(read_varint(&mut cur), Ok(0x8000_0000_0000_0001));
}

#[test]
fn varint_truncated() {
    let empty: [u8; 0] = [];
    let mut cur = Cursor::new(&empty);
    assert_eq!(read_varint(&mut cur), Err(DecodeError::UnexpectedEnd));
    let data = [0xff, 1, 2, 3];
    let mut cur = Cursor::new(&data);
    assert_eq!(read_varint(&mut cur), Err(DecodeError::UnexpectedEnd));
    assert_eq!(cur.pos, 0);
    let data = [0xfd, 1];
    let mut cur = Cursor::new(&data);
    assert_eq!(read_varint(&mut cur), Err(DecodeError::UnexpectedEnd));
}
