//! The shard coordinator.
//!
//! A slicer hands out contiguous chunks of the buffer, each extended by the
//! scanner's overlap so that a record starting near a chunk's nominal end
//! is fully visible to the worker that owns its start. The first chunk is
//! scanned from its first byte; every later chunk re-derives its own
//! starting point from the overlap, so workers need no coordination beyond
//! this static plan.

use vstd::prelude::*;
use crate::scanner::BUFFER_OVERLAP;

verus! {

/// Nominal bytes per chunk.
pub const CHUNK_SIZE: usize = 2 * 1024 * 1024;

/// Hands out chunk bounds over a buffer of a fixed length.
pub struct Slicer {
    buffer_len: usize,
    cur_offset: usize,
}

impl Slicer {
    /// The buffer length the plan covers.
    pub closed spec fn len(&self) -> int {
        self.buffer_len as int
    }

    /// The start of the next chunk to hand out.
    pub closed spec fn offset(&self) -> int {
        self.cur_offset as int
    }

    /// A plan over a buffer of `buffer_len` bytes.
    pub fn new(buffer_len: usize) -> (r: Self)
        requires
            buffer_len + CHUNK_SIZE + BUFFER_OVERLAP <= usize::MAX,
        ensures
            r.len() == buffer_len,
            r.offset() == 0,
    {
        Slicer { buffer_len, cur_offset: 0 }
    }

    /// The next chunk's byte range, or `None` when the buffer is used up.
    /// A chunk spans one nominal chunk size from where the previous one
    /// ended, extended by the overlap, and clipped to the buffer.
    pub fn next_slice(&mut self) -> (r: Option<(usize, usize)>)
        requires
            old(self).len() + CHUNK_SIZE + BUFFER_OVERLAP <= usize::MAX,
            0 <= old(self).offset(),
        ensures
            final(self).len() == old(self).len(),
            match r {
                Some((start, end)) => {
                    &&& start == old(self).offset()
                    &&& start < old(self).len()
                    &&& end == if start + CHUNK_SIZE + BUFFER_OVERLAP <= old(self).len() {
                        start + CHUNK_SIZE + BUFFER_OVERLAP
                    } else {
                        old(self).len() as int
                    }
                    &&& final(self).offset() == start + CHUNK_SIZE
                },
                None => {
                    &&& old(self).offset() >= old(self).len()
                    &&& final(self).offset() == old(self).offset()
                },
            },
    {
        let offset = self.cur_offset;
        if offset >= self.buffer_len {
            None
        } else {
            let extended = offset + CHUNK_SIZE + BUFFER_OVERLAP;
            let end = if extended <= self.buffer_len {
                extended
            } else {
                self.buffer_len
            };
            self.cur_offset = offset + CHUNK_SIZE;
            Some((offset, end))
        }
    }
}

} // verus!
