//! Decoder for streams of length-framed block records: a 4-byte magic tag,
//! a little-endian size field and an 80-byte header followed by an opaque
//! transaction area.
pub mod bytes;
pub mod cursor;
pub mod primitives;
pub mod block;
pub mod iter;
pub mod encoding;
