//! A scan over a buffer that yields one record header per step.
use vstd::prelude::*;
use crate::block::{header_at, step, next_block_header, Blockheader};
use crate::cursor::{Cursor, DecodeError};

verus! {

/// Lazy scan over the records of a buffer. Once it has reported the end of
/// the data or an error it is exhausted and yields nothing more.
pub struct BlockIter<'a> {
    pub cur: Cursor<'a>,
    pub exhausted: bool,
}

impl<'a> BlockIter<'a> {
    /// A scan from the start of `buf`.
    pub fn new(buf: &'a [u8]) -> (r: BlockIter<'a>)
        ensures
            r.cur.buf@ == buf@,
            r.cur.pos == 0,
            r.cur.wf(),
            !r.exhausted,
    {
        BlockIter { cur: Cursor::new(buf), exhausted: false }
    }

    /// The next step of the scan: `Some(Ok(header))` for a complete record,
    /// after which the cursor stands past its payload; `None` at the end of
    /// the usable data; `Some(Err(e))` once for a malformed record. After
    /// `None` or an error, every further call returns `None`.
    pub fn next(&mut self) -> (r: Option<Result<Blockheader, DecodeError>>)
        requires
            old(self).cur.wf(),
        ensures
            final(self).cur.buf@ == old(self).cur.buf@,
            final(self).cur.wf(),
            old(self).exhausted ==> r is None && final(self).cur.pos == old(self).cur.pos
                && final(self).exhausted,
            !old(self).exhausted ==> match step(old(self).cur.rest(), old(self).cur.pos as int) {
                Ok(Some(n)) => r matches Some(Ok(h)) && h@ == header_at(old(self).cur.rest(), 8)
                    && final(self).cur.pos == old(self).cur.pos + n && !final(self).exhausted,
                Ok(None) => r is None && final(self).cur.pos == old(self).cur.pos
                    && final(self).exhausted,
                Err(e) => r matches Some(Err(x)) && x == e && final(self).cur.pos == old(
                    self,
                ).cur.pos && final(self).exhausted,
            },
    {
        if self.exhausted {
            return None;
        }
        match next_block_header(&mut self.cur) {
            Ok(Some(header)) => Some(Ok(header)),
            Ok(None) => {
                self.exhausted = true;
                None
            },
            Err(e) => {
                self.exhausted = true;
                Some(Err(e))
            },
        }
    }
}

} // verus!
