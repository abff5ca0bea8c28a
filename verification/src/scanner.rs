//! The windowed boundary scanner.
//!
//! The scanner walks a zero-padded buffer in fixed-size windows. For each
//! window it keeps two bitmasks — one bit per byte for the key/value
//! delimiter and one for the record terminator — and yields successive
//! `(key span, value)` pairs by hopping from mask bit to mask bit instead of
//! re-reading bytes. Each `next` call is proved to perform exactly one step
//! of the `next_record` model, whatever the window boundaries cut through.

use vstd::prelude::*;
use crate::error::{BarseError, BarseErrorKind};
use crate::reading::{TemperatureReading, decode_value, MAX_TEMP_READING_LEN};
use crate::records::{
    find_from, lemma_find_from, lemma_find_from_is, lemma_find_from_none, lemma_rfind_before_is,
    lemma_rfind_before_none, next_record, rfind_before, ScanStep, DELIMITER, MAX_STATION_NAME_LEN,
    TERMINATOR,
};

verus! {

/// Bytes per scan window.
pub const BYTES_PER_BUFFER: usize = 16;

/// Trailing bytes a shard is extended by, so that a record starting near
/// the shard's nominal end is fully visible: the longest key, the
/// delimiter, the longest token and the terminator, rounded up to whole
/// windows.
pub const BUFFER_OVERLAP: usize = 64;

/// Whether bit `i` of `m` is set.
pub open spec fn bit_set(m: u64, i: u64) -> bool {
    i < 64 && (m >> i) & 1u64 == 1u64
}

/// The mask `m` marks exactly the window bytes equal to `needle`: bit `i`
/// is set iff byte `wb + i` of the buffer is `needle`.
pub open spec fn masks_ok(s: Seq<u8>, wb: int, m: u64, needle: u8) -> bool {
    forall|i: u64| i < BYTES_PER_BUFFER ==> (#[trigger] bit_set(m, i) <==> s[wb + i] == needle)
}

proof fn lemma_bit_or(m: u64, i: u64)
    by (bit_vector)
    requires
        i < 64,
    ensures
        forall|j: u64| j < 64 ==> (#[trigger] bit_set(m | (1u64 << i), j) <==> (bit_set(m, j) || j
            == i)),
{
}

proof fn lemma_bit_zero()
    by (bit_vector)
    ensures
        forall|j: u64| j < 64 ==> !#[trigger] bit_set(0u64, j),
{
}

/// Computes the mask of one window for one needle byte; bits beyond the
/// window stay clear.
fn window_mask(buffer: &[u8], wb: usize, needle: u8) -> (m: u64)
    requires
        wb + BYTES_PER_BUFFER <= buffer@.len(),
    ensures
        masks_ok(buffer@, wb as int, m, needle),
        forall|j: u64| BYTES_PER_BUFFER <= j < 64 ==> !#[trigger] bit_set(m, j),
{
    let mut m: u64 = 0;
    proof {
        lemma_bit_zero();
    }
    let n = buffer.len();
    let mut i: usize = 0;
    while i < BYTES_PER_BUFFER
        invariant
            i <= BYTES_PER_BUFFER,
            n == buffer@.len(),
            wb + BYTES_PER_BUFFER <= n,
            forall|j: u64| j < i ==> (#[trigger] bit_set(m, j) <==> buffer@[wb + j] == needle),
            forall|j: u64| i <= j < 64 ==> !#[trigger] bit_set(m, j),
        decreases BYTES_PER_BUFFER - i,
    {
        if buffer[wb + i] == needle {
            proof {
                lemma_bit_or(m, i as u64);
            }
            m = m | (1u64 << (i as u64));
        }
        i = i + 1;
    }
    m
}

/// Loads the delimiter and terminator masks of the window at `wb`; bits
/// beyond the window stay clear.
pub fn read_next_from_buffer(buffer: &[u8], wb: usize) -> (r: (u64, u64))
    requires
        wb + BYTES_PER_BUFFER <= buffer@.len(),
    ensures
        masks_ok(buffer@, wb as int, r.0, DELIMITER),
        masks_ok(buffer@, wb as int, r.1, TERMINATOR),
        forall|j: u64| BYTES_PER_BUFFER <= j < 64 ==> !#[trigger] bit_set(r.0, j),
        forall|j: u64| BYTES_PER_BUFFER <= j < 64 ==> !#[trigger] bit_set(r.1, j),
{
    (window_mask(buffer, wb, DELIMITER), window_mask(buffer, wb, TERMINATOR))
}

/// The lowest set bit of `m` at or after `from`, within the window.
fn mask_first_at_least(m: u64, from: usize) -> (r: Option<usize>)
    requires
        from <= BYTES_PER_BUFFER,
    ensures
        match r {
            Some(i) => {
                &&& from <= i < BYTES_PER_BUFFER
                &&& bit_set(m, i as u64)
                &&& forall|j: u64| from <= j < i ==> !#[trigger] bit_set(m, j)
            },
            None => forall|j: u64| from <= j < BYTES_PER_BUFFER ==> !#[trigger] bit_set(m, j),
        },
{
    let mut i: usize = from;
    while i < BYTES_PER_BUFFER
        invariant
            from <= i <= BYTES_PER_BUFFER,
            forall|j: u64| from <= j < i ==> !#[trigger] bit_set(m, j),
        decreases BYTES_PER_BUFFER - i,
    {
        if (m >> (i as u64)) & 1u64 == 1u64 {
            return Some(i);
        }
        i = i + 1;
    }
    None
}

/// The highest set bit of `m` within the window.
fn mask_last_bit(m: u64) -> (r: Option<usize>)
    ensures
        match r {
            Some(i) => {
                &&& i < BYTES_PER_BUFFER
                &&& bit_set(m, i as u64)
                &&& forall|j: u64| i < j < BYTES_PER_BUFFER ==> !#[trigger] bit_set(m, j)
            },
            None => forall|j: u64| j < BYTES_PER_BUFFER ==> !#[trigger] bit_set(m, j),
        },
{
    let mut i: usize = BYTES_PER_BUFFER;
    while i > 0
        invariant
            i <= BYTES_PER_BUFFER,
            forall|j: u64| i <= j < BYTES_PER_BUFFER ==> !#[trigger] bit_set(m, j),
        decreases i,
    {
        i = i - 1;
        if (m >> (i as u64)) & 1u64 == 1u64 {
            return Some(i);
        }
    }
    None
}

/// Scans for alternating delimiters and terminators over a padded buffer.
pub struct Scanner<'a> {
    buffer: &'a [u8],
    semicolon_mask: u64,
    newline_mask: u64,
    /// Offset within the current window of the next unread byte. A value
    /// one past the window end means the next window still has to be
    /// loaded.
    cur_offset: usize,
    /// Start of the current window, a multiple of the window size.
    window_base: usize,
}

impl<'a> Scanner<'a> {
    /// The scanned bytes.
    pub closed spec fn buf(&self) -> Seq<u8> {
        self.buffer@
    }

    /// The absolute position of the next unread byte.
    pub closed spec fn pos(&self) -> int {
        self.window_base + self.cur_offset
    }

    /// Well-formedness: the buffer is whole windows, the current window
    /// lies inside it, and both masks describe the current window.
    pub closed spec fn wf(&self) -> bool {
        &&& self.buffer@.len() % (BYTES_PER_BUFFER as nat) == 0
        &&& (self.buffer@.len() == 0 ==> self.window_base == 0 && self.cur_offset == 0)
        &&& (self.buffer@.len() > 0 ==> {
            &&& self.window_base % BYTES_PER_BUFFER == 0
            &&& self.window_base + BYTES_PER_BUFFER <= self.buffer@.len()
            &&& self.cur_offset <= BYTES_PER_BUFFER
            &&& masks_ok(self.buffer@, self.window_base as int, self.semicolon_mask, DELIMITER)
            &&& masks_ok(self.buffer@, self.window_base as int, self.newline_mask, TERMINATOR)
        })
    }

    /// The bytes of the buffer spanning `[ks, ke)`, as yielded key spans do.
    pub fn key_slice(&self, ks: usize, ke: usize) -> (r: &[u8])
        requires
            ks <= ke <= self.buf().len(),
        ensures
            r@ == self.buf().subrange(ks as int, ke as int),
    {
        &self.buffer[ks..ke]
    }

    /// The cursor stays inside the buffer.
    pub proof fn lemma_pos_in_range(&self)
        requires
            self.wf(),
        ensures
            0 <= self.pos() <= self.buf().len(),
    {
    }

    /// A scanner over `buffer` starting at its first byte.
    pub fn from_start(buffer: &'a [u8]) -> (r: Self)
        requires
            buffer@.len() % (BYTES_PER_BUFFER as nat) == 0,
        ensures
            r.wf(),
            r.buf() == buffer@,
            r.pos() == 0,
    {
        if buffer.len() == 0 {
            Scanner { buffer, semicolon_mask: 0, newline_mask: 0, cur_offset: 0, window_base: 0 }
        } else {
            let (semicolon_mask, newline_mask) = read_next_from_buffer(buffer, 0);
            Scanner { buffer, semicolon_mask, newline_mask, cur_offset: 0, window_base: 0 }
        }
    }

    /// Loads the next window and rewinds the cursor to its start.
    fn advance_window(&mut self)
        requires
            old(self).wf(),
            old(self).buf().len() > 0,
            old(self).window_base + 2 * BYTES_PER_BUFFER <= old(self).buf().len(),
        ensures
            final(self).wf(),
            final(self).buf() == old(self).buf(),
            final(self).window_base == old(self).window_base + BYTES_PER_BUFFER,
            final(self).cur_offset == 0,
    {
        let n = self.buffer.len();
        self.window_base = self.window_base + BYTES_PER_BUFFER;
        self.cur_offset = 0;
        let (semicolon_mask, newline_mask) = read_next_from_buffer(self.buffer, self.window_base);
        self.semicolon_mask = semicolon_mask;
        self.newline_mask = newline_mask;
    }
}

/// A window step stays inside a buffer made of whole windows.
proof fn lemma_window_step(wb: int, len: int)
    requires
        len % (BYTES_PER_BUFFER as int) == 0,
        wb % (BYTES_PER_BUFFER as int) == 0,
        0 <= wb,
        wb + BYTES_PER_BUFFER < len,
    ensures
        wb + 2 * BYTES_PER_BUFFER <= len,
{
    let b = BYTES_PER_BUFFER as int;
    vstd::arithmetic::div_mod::lemma_fundamental_div_mod(len, b);
    vstd::arithmetic::div_mod::lemma_fundamental_div_mod(wb, b);
    let k1 = wb / b;
    let k2 = len / b;
    assert(wb == b * k1);
    assert(len == b * k2);
    assert(b * k1 + b < b * k2);
    assert(k1 + 1 < k2) by (nonlinear_arith)
        requires
            b * k1 + b < b * k2,
            b == 16,
    ;
    assert(b * (k1 + 2) <= b * k2) by (nonlinear_arith)
        requires
            k1 + 2 <= k2,
            b == 16,
    ;
}


/// What a cross-window search found.
enum SeekOutcome {
    /// The needle's position, within the bound; the cursor lands past it.
    Found(usize),
    /// The needle occurs, but beyond the bound.
    TooFar,
    /// The needle does not occur before the buffer ends.
    Exhausted,
}

impl<'a> Scanner<'a> {
    /// Advances to the first delimiter (or, with `terminator` set, the
    /// first terminator) at or after the cursor, loading further windows as
    /// needed, and says whether it lies within `bound` bytes of the cursor,
    /// beyond it, or nowhere before the buffer ends.
    #[verifier::loop_isolation(false)]
    fn seek(&mut self, terminator: bool, bound: usize) -> (r: SeekOutcome)
        requires
            old(self).wf(),
            old(self).buf().len() > 0,
        ensures
            final(self).wf(),
            final(self).buf() == old(self).buf(),
            ({
                let needle = if terminator { TERMINATOR } else { DELIMITER };
                let p = old(self).pos();
                let f = find_from(old(self).buf(), needle, p);
                match r {
                    SeekOutcome::Found(j) => {
                        &&& f == j
                        &&& p <= j <= p + bound
                        &&& j < old(self).buf().len()
                        &&& final(self).pos() == j + 1
                    },
                    SeekOutcome::TooFar => f != -1 && f > p + bound,
                    SeekOutcome::Exhausted => f == -1,
                }
            }),
    {
        let ghost s = self.buffer@;
        let n = self.buffer.len();
        let needle: u8 = if terminator {
            TERMINATOR
        } else {
            DELIMITER
        };
        let start_pos = self.window_base + self.cur_offset;
        let mut search = self.cur_offset;
        loop
            invariant
                self.wf(),
                self.buffer@ == s,
                s.len() > 0,
                search <= BYTES_PER_BUFFER,
                start_pos <= self.window_base + search,
                start_pos == old(self).pos(),
                needle == if terminator { TERMINATOR } else { DELIMITER },
                forall|k: int|
                    start_pos <= k < self.window_base + search ==> s[k] != needle,
            decreases s.len() - self.window_base,
        {
            let mask = if terminator {
                self.newline_mask
            } else {
                self.semicolon_mask
            };
            match mask_first_at_least(mask, search) {
                Some(i) => {
                    let j = self.window_base + i;
                    proof {
                        assert forall|k: int|
                            self.window_base + search <= k < j implies s[k] != needle by {
                            let jj = (k - self.window_base) as u64;
                            assert(!bit_set(mask, jj));
                        }
                        assert(bit_set(mask, i as u64));
                        assert(s[j as int] == needle);
                        lemma_find_from_is(s, needle, start_pos as int, j as int);
                    }
                    if j - start_pos > bound {
                        return SeekOutcome::TooFar;
                    }
                    self.cur_offset = i + 1;
                    return SeekOutcome::Found(j);
                },
                None => {
                    proof {
                        assert forall|k: int|
                            self.window_base + search <= k < self.window_base
                                + BYTES_PER_BUFFER implies s[k] != needle by {
                            let jj = (k - self.window_base) as u64;
                            assert(!bit_set(mask, jj));
                        }
                    }
                    if self.window_base + BYTES_PER_BUFFER == n {
                        proof {
                            lemma_find_from_none(s, needle, start_pos as int);
                        }
                        return SeekOutcome::Exhausted;
                    }
                    proof {
                        lemma_window_step(self.window_base as int, s.len() as int);
                    }
                    self.advance_window();
                    search = 0;
                },
            }
        }
    }

    /// Yields the next record as `(key start, key end, value)` — the key
    /// spans those byte positions of the buffer — or `None` once the data
    /// is exhausted (padding, the buffer's end, or a trailing partial
    /// record), or the error the bytes at the cursor fail with. Each call
    /// performs exactly one step of the `next_record` model.
    pub fn next(&mut self) -> (r: Result<Option<(usize, usize, TemperatureReading)>, BarseError>)
        requires
            old(self).wf(),
        ensures
            final(self).wf(),
            final(self).buf() == old(self).buf(),
            match next_record(old(self).buf(), old(self).pos()) {
                ScanStep::Done => r == Ok::<Option<(usize, usize, TemperatureReading)>, BarseError>(
                    None,
                ),
                ScanStep::Fail { kind } => r matches Err(e) && e.kind == kind,
                ScanStep::Rec { key, value, next } => r matches Ok(Some((ks, ke, v))) && (ks
                    == old(self).pos() && ks <= ke <= old(self).buf().len() && key == old(
                    self,
                ).buf().subrange(ks as int, ke as int) && v@ == value && final(self).pos() == next),
            },
    {
        let ghost s = self.buffer@;
        let ghost p0 = self.pos();
        let n = self.buffer.len();
        if n == 0 {
            return Ok(None);
        }
        if self.cur_offset == BYTES_PER_BUFFER {
            if self.window_base + BYTES_PER_BUFFER == n {
                return Ok(None);
            }
            proof {
                lemma_window_step(self.window_base as int, s.len() as int);
            }
            self.advance_window();
        }
        let pos = self.window_base + self.cur_offset;
        if self.buffer[pos] == 0 {
            return Ok(None);
        }
        let semi = match self.seek(false, MAX_STATION_NAME_LEN) {
            SeekOutcome::Found(j) => j,
            SeekOutcome::TooFar => {
                return Err(BarseError::new(BarseErrorKind::MissingDelimiter));
            },
            SeekOutcome::Exhausted => {
                if n - pos <= MAX_STATION_NAME_LEN {
                    // The buffer ran out before a delimiter had to exist:
                    // the stream is exhausted, not malformed.
                    return Ok(None);
                }
                return Err(BarseError::new(BarseErrorKind::MissingDelimiter));
            },
        };
        if semi == pos {
            return Err(BarseError::new(BarseErrorKind::MalformedRecord));
        }
        let nl = match self.seek(true, MAX_TEMP_READING_LEN) {
            SeekOutcome::Found(j) => j,
            SeekOutcome::TooFar => {
                return Err(BarseError::new(BarseErrorKind::MissingTerminator));
            },
            SeekOutcome::Exhausted => {
                // No terminator before the buffer ends: a trailing partial
                // record, discarded quietly.
                return Ok(None);
            },
        };
        let token = &self.buffer[semi + 1..nl];
        match decode_value(token) {
            Some(v) => Ok(Some((pos, semi, v))),
            None => Err(BarseError::new(BarseErrorKind::MalformedRecord)),
        }
    }

    /// A scanner over a shard whose leading bytes duplicate the tail of its
    /// neighbour: scanning begins just past the last record terminator
    /// inside the overlap region, so the record straddling the shard
    /// boundary is attributed to the shard owning its start. With no
    /// terminator in the overlap the shard yields nothing.
    pub fn from_midpoint(buffer: &'a [u8]) -> (r: Self)
        requires
            buffer@.len() % (BYTES_PER_BUFFER as nat) == 0,
            buffer@.len() >= BUFFER_OVERLAP,
        ensures
            r.wf(),
            r.buf() == buffer@,
            r.pos() == {
                let last = rfind_before(buffer@, TERMINATOR, BUFFER_OVERLAP as int);
                if last >= 0 {
                    last + 1
                } else {
                    buffer@.len() as int
                }
            },
    {
        let mut best_wb: usize = 0;
        let mut best_off: usize = 0;
        let mut found = false;
        let mut w: usize = 0;
        while w < BUFFER_OVERLAP / BYTES_PER_BUFFER
            invariant
                w <= BUFFER_OVERLAP / BYTES_PER_BUFFER,
                buffer@.len() >= BUFFER_OVERLAP,
                found ==> {
                    &&& best_wb % BYTES_PER_BUFFER == 0
                    &&& best_off < BYTES_PER_BUFFER
                    &&& best_wb + best_off < w * BYTES_PER_BUFFER
                    &&& best_wb + BYTES_PER_BUFFER <= BUFFER_OVERLAP
                    &&& buffer@[best_wb + best_off] == TERMINATOR
                    &&& forall|k: int|
                        best_wb + best_off < k < w * BYTES_PER_BUFFER ==> buffer@[k] != TERMINATOR
                },
                !found ==> forall|k: int| 0 <= k < w * BYTES_PER_BUFFER ==> buffer@[k] != TERMINATOR,
            decreases BUFFER_OVERLAP / BYTES_PER_BUFFER - w,
        {
            let wb = w * BYTES_PER_BUFFER;
            let nm = window_mask(buffer, wb, TERMINATOR);
            match mask_last_bit(nm) {
                Some(i) => {
                    proof {
                        assert(bit_set(nm, i as u64));
                        assert(buffer@[wb + i] == TERMINATOR);
                        assert forall|k: int|
                            wb + i < k < wb + BYTES_PER_BUFFER implies buffer@[k]
                            != TERMINATOR by {
                            let jj = (k - wb) as u64;
                            assert(!bit_set(nm, jj));
                        }
                    }
                    found = true;
                    best_wb = wb;
                    best_off = i;
                },
                None => {
                    proof {
                        assert forall|k: int|
                            wb <= k < wb + BYTES_PER_BUFFER implies buffer@[k] != TERMINATOR by {
                            let jj = (k - wb) as u64;
                            assert(!bit_set(nm, jj));
                        }
                    }
                },
            }
            w = w + 1;
        }
        if found {
            proof {
                lemma_rfind_before_is(
                    buffer@,
                    TERMINATOR,
                    BUFFER_OVERLAP as int,
                    (best_wb + best_off) as int,
                );
            }
            let (semicolon_mask, newline_mask) = read_next_from_buffer(buffer, best_wb);
            Scanner {
                buffer,
                semicolon_mask,
                newline_mask,
                cur_offset: best_off + 1,
                window_base: best_wb,
            }
        } else {
            proof {
                lemma_rfind_before_none(buffer@, TERMINATOR, BUFFER_OVERLAP as int);
            }
            let wb = buffer.len() - BYTES_PER_BUFFER;
            proof {
                lemma_last_window(buffer@.len() as int);
            }
            let (semicolon_mask, newline_mask) = read_next_from_buffer(buffer, wb);
            Scanner {
                buffer,
                semicolon_mask,
                newline_mask,
                cur_offset: BYTES_PER_BUFFER,
                window_base: wb,
            }
        }
    }
}

/// The last whole window of a buffer made of whole windows starts at a
/// window boundary.
proof fn lemma_last_window(len: int)
    requires
        len % (BYTES_PER_BUFFER as int) == 0,
        len >= BYTES_PER_BUFFER,
    ensures
        (len - BYTES_PER_BUFFER) % (BYTES_PER_BUFFER as int) == 0,
{
    let b = BYTES_PER_BUFFER as int;
    vstd::arithmetic::div_mod::lemma_fundamental_div_mod(len, b);
    let k = len / b;
    assert(len == b * k);
    assert(len - b == b * (k - 1));
    assert((b * (k - 1)) % b == 0) by {
        vstd::arithmetic::div_mod::lemma_mod_multiples_basic(k - 1, b);
    };
}

} // verus!
