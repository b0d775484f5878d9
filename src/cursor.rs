//! A read position over a borrowed byte buffer.
use vstd::prelude::*;

verus! {

/// Why a decode step failed.
#[derive(Debug, Clone, Copy, PartialEq, Eq, Structural)]
pub enum DecodeError {
    /// Fewer bytes remain than the step needs.
    UnexpectedEnd,
    /// The four bytes where a record should start are not the magic tag.
    InvalidMagic,
    /// A record's declared size is inconsistent: it cannot hold what the
    /// record must contain, or the record's end is past what `usize` holds.
    InvalidFraming,
}

/// Traversal state over an immutable buffer: reads start at `pos` and
/// advance it.
pub struct Cursor<'a> {
    pub buf: &'a [u8],
    pub pos: usize,
}

impl<'a> Cursor<'a> {
    /// The position lies within the buffer (it may equal its length).
    pub open spec fn wf(&self) -> bool {
        self.pos <= self.buf.len()
    }

    /// The bytes not yet read.
    pub open spec fn rest(&self) -> Seq<u8> {
        self.buf@.subrange(self.pos as int, self.buf@.len() as int)
    }

    /// A cursor at the start of `buf`.
    pub fn new(buf: &'a [u8]) -> (r: Cursor<'a>)
        ensures
            r.buf@ == buf@,
            r.pos == 0,
            r.wf(),
    {
        Cursor { buf, pos: 0 }
    }
}

} // verus!
