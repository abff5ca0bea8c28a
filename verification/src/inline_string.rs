//! Bounded keys for the aggregation table.
//!
//! A key owns its bytes, holds at most the longest legal station name, and
//! compares by length and content. The empty key is the sentinel that marks
//! an unoccupied table slot.

use vstd::prelude::*;

verus! {

/// Longest key an `InlineString` may hold, matching the record grammar.
pub const MAX_STRING_LEN: usize = 50;

/// A bounded key. The empty state stands for "unoccupied".
#[derive(Debug)]
pub struct InlineString {
    bytes: Vec<u8>,
}

impl View for InlineString {
    type V = Seq<u8>;

    closed spec fn view(&self) -> Seq<u8> {
        self.bytes@
    }
}

/// Copies a byte slice into a fresh vector.
pub fn copy_bytes(contents: &[u8]) -> (r: Vec<u8>)
    ensures
        r@ == contents@,
{
    let mut out: Vec<u8> = Vec::new();
    let len = contents.len();
    for i in 0..len
        invariant
            out@ == contents@.take(i as int),
            len == contents@.len(),
    {
        out.push(contents[i]);
        proof {
            assert(out@ =~= contents@.take(i + 1));
        }
    }
    proof {
        assert(contents@.take(len as int) =~= contents@);
    }
    out
}

/// Compares two byte slices for equality.
pub fn bytes_eq(a: &[u8], b: &[u8]) -> (r: bool)
    ensures
        r == (a@ == b@),
{
    if a.len() != b.len() {
        proof {
            assert(a@.len() != b@.len());
        }
        return false;
    }
    let len = a.len();
    for i in 0..len
        invariant
            len == a@.len() == b@.len(),
            forall|j: int| 0 <= j < i ==> a@[j] == b@[j],
        ensures
            a@ =~= b@,
    {
        if a[i] != b[i] {
            proof {
                assert(a@[i as int] != b@[i as int]);
            }
            return false;
        }
    }
    true
}

impl InlineString {
    /// A key holding a copy of `contents`.
    pub fn new(contents: &[u8]) -> (r: Self)
        requires
            contents@.len() <= MAX_STRING_LEN,
        ensures
            r@ == contents@,
    {
        InlineString { bytes: copy_bytes(contents) }
    }

    /// Whether the key is still the unoccupied sentinel.
    pub fn is_default(&self) -> (r: bool)
        ensures
            r == (self@.len() == 0),
    {
        self.bytes.len() == 0
    }

    pub fn len(&self) -> (r: usize)
        ensures
            r == self@.len(),
    {
        self.bytes.len()
    }

    /// Overwrites the key with a copy of `contents`.
    pub fn initialize(&mut self, contents: &[u8])
        requires
            contents@.len() <= MAX_STRING_LEN,
        ensures
            final(self)@ == contents@,
    {
        self.bytes = copy_bytes(contents);
    }

    /// The stored bytes.
    pub fn value(&self) -> (r: &[u8])
        ensures
            r@ == self@,
    {
        self.bytes.as_slice()
    }

    /// The byte at position `i`.
    pub fn byte_at(&self, i: usize) -> (r: u8)
        requires
            i < self@.len(),
        ensures
            r == self@[i as int],
    {
        self.bytes[i]
    }

    /// Whether the key equals a borrowed byte string.
    pub fn eq_foreign_str(&self, other: &[u8]) -> (r: bool)
        ensures
            r == (self@ == other@),
    {
        bytes_eq(self.bytes.as_slice(), other)
    }
}

impl Clone for InlineString {
    /// A copy with the same bytes.
    fn clone(&self) -> (r: Self)
        ensures
            r@ == self@,
    {
        InlineString { bytes: copy_bytes(self.bytes.as_slice()) }
    }
}

impl Default for InlineString {
    /// The unoccupied sentinel.
    fn default() -> (r: Self)
        ensures
            r@ == Seq::<u8>::empty(),
    {
        let r = InlineString { bytes: Vec::new() };
        proof {
            assert(r@ =~= Seq::<u8>::empty());
        }
        r
    }
}

} // verus!
