//! Fixed-point temperature readings and the numeric token decoder.
//!
//! A reading is a signed fixed-point number with one decimal digit, stored
//! scaled by ten (`-12.3` is stored as `-123`). A legal token is an optional
//! `-`, one or two integer digits, a `.`, and one fractional digit, so every
//! reading lies in `-999 ..= 999`.

use vstd::prelude::*;
use vstd::pervasive::VecAdditionalExecFns;

verus! {

/// Lowest legal scaled reading (`-99.9`).
pub const MIN_READING: i16 = -999;

/// Highest legal scaled reading (`99.9`).
pub const MAX_READING: i16 = 999;

/// Longest legal numeric token, in bytes (`-99.9`).
pub const MAX_TEMP_READING_LEN: usize = 5;

/// A temperature scaled by ten so that one decimal digit is kept exactly.
#[derive(Clone, Copy, Debug, PartialEq, Eq, Structural)]
pub struct TemperatureReading {
    reading: i16,
}

impl View for TemperatureReading {
    type V = int;

    closed spec fn view(&self) -> int {
        self.reading as int
    }
}

impl TemperatureReading {
    pub fn new(reading: i16) -> (r: Self)
        ensures
            r@ == reading as int,
    {
        Self { reading }
    }

    pub fn reading(&self) -> (r: i16)
        ensures
            r as int == self@,
    {
        self.reading
    }
}

/// True of the ASCII digits `0` ..= `9`.
pub open spec fn is_ascii_digit(b: u8) -> bool {
    48 <= b <= 57
}

/// The numeric value of a digit token `D.D`: two digits around a dot.
pub open spec fn spec_decode_short(t: Seq<u8>) -> Option<int> {
    if t.len() == 3 && is_ascii_digit(t[0]) && t[1] == 46 && is_ascii_digit(t[2]) {
        Some((t[0] - 48) * 10 + (t[2] - 48))
    } else {
        None
    }
}

/// The numeric value of a digit token `DD.D`: three digits around a dot.
pub open spec fn spec_decode_long(t: Seq<u8>) -> Option<int> {
    if t.len() == 4 && is_ascii_digit(t[0]) && is_ascii_digit(t[1]) && t[2] == 46
        && is_ascii_digit(t[3]) {
        Some((t[0] - 48) * 100 + (t[1] - 48) * 10 + (t[3] - 48))
    } else {
        None
    }
}

/// The magnitude encoded by an unsigned token, if it is well formed.
pub open spec fn spec_decode_magnitude(t: Seq<u8>) -> Option<int> {
    if spec_decode_short(t) is Some {
        spec_decode_short(t)
    } else {
        spec_decode_long(t)
    }
}

/// The scaled value encoded by a numeric token: an optional leading `-`,
/// one or two integer digits, a dot, and one fractional digit.
pub open spec fn spec_decode(t: Seq<u8>) -> Option<int> {
    if t.len() > 0 && t[0] == 45 {
        match spec_decode_magnitude(t.subrange(1, t.len() as int)) {
            Some(m) => Some(-m),
            None => None,
        }
    } else {
        spec_decode_magnitude(t)
    }
}

/// Every decoded value is a legal scaled reading.
pub proof fn lemma_decode_in_range(t: Seq<u8>)
    ensures
        spec_decode(t) is Some ==> MIN_READING <= spec_decode(t).unwrap() <= MAX_READING,
{
}

/// Decodes a numeric token, as the scanner's record grammar defines it.
/// Returns `None` on any byte sequence outside the grammar.
pub fn decode_value(t: &[u8]) -> (r: Option<TemperatureReading>)
    ensures
        match r {
            Some(v) => spec_decode(t@) == Some(v@),
            None => spec_decode(t@) is None,
        },
{
    let len = t.len();
    if len < 3 || len > 5 {
        return None;
    }
    let negative = t[0] == 45;
    let start: usize = if negative { 1 } else { 0 };
    proof {
        if negative {
            assert(t@.subrange(1, t@.len() as int) =~= t@.skip(1));
        }
    }
    let mag_len = len - start;
    let magnitude: i16 = if mag_len == 3 {
        let d0 = t[start];
        let dot = t[start + 1];
        let d2 = t[start + 2];
        if d0 >= 48 && d0 <= 57 && dot == 46 && d2 >= 48 && d2 <= 57 {
            (d0 - 48) as i16 * 10 + (d2 - 48) as i16
        } else {
            return None;
        }
    } else if mag_len == 4 {
        let d0 = t[start];
        let d1 = t[start + 1];
        let dot = t[start + 2];
        let d3 = t[start + 3];
        if d0 >= 48 && d0 <= 57 && d1 >= 48 && d1 <= 57 && dot == 46 && d3 >= 48 && d3 <= 57 {
            (d0 - 48) as i16 * 100 + (d1 - 48) as i16 * 10 + (d3 - 48) as i16
        } else {
            return None;
        }
    } else {
        return None;
    };
    proof {
        let mag = t@.subrange(start as int, t@.len() as int);
        if mag_len == 3 {
            assert(mag.len() == 3);
            assert(mag[0] == t@[start as int]);
            assert(mag[1] == t@[start as int + 1]);
            assert(mag[2] == t@[start as int + 2]);
        } else {
            assert(mag.len() == 4);
            assert(mag[0] == t@[start as int]);
            assert(mag[1] == t@[start as int + 1]);
            assert(mag[2] == t@[start as int + 2]);
            assert(mag[3] == t@[start as int + 3]);
        }
    }
    if negative {
        Some(TemperatureReading::new(-magnitude))
    } else {
        Some(TemperatureReading::new(magnitude))
    }
}


/// A token that decodes is three to five bytes long.
pub proof fn lemma_decode_some_len(t: Seq<u8>)
    ensures
        spec_decode(t) is Some ==> 3 <= t.len() <= 5,
{
}

/// The canonical byte string of a scaled reading: an optional sign, one or
/// two integer digits, a dot, and the fractional digit.
pub open spec fn spec_format_magnitude(m: int) -> Seq<u8> {
    let tens = m / 10;
    let ones = m % 10;
    (if tens >= 10 {
        seq![(48 + tens / 10) as u8, (48 + tens % 10) as u8]
    } else {
        seq![(48 + tens) as u8]
    }) + seq![46u8, (48 + ones) as u8]
}

/// The canonical byte string of a scaled reading.
pub open spec fn spec_format_reading(v: int) -> Seq<u8> {
    if v < 0 {
        seq![45u8] + spec_format_magnitude(-v)
    } else {
        spec_format_magnitude(v)
    }
}

/// Appends the canonical byte string of a reading to `out`.
pub fn push_reading(out: &mut Vec<u8>, r: TemperatureReading)
    requires
        MIN_READING <= r@ <= MAX_READING,
    ensures
        final(out)@ == old(out)@ + spec_format_reading(r@),
{
    let ghost prefix = out@;
    let v = r.reading();
    if v < 0 {
        out.push(45);
    }
    let m: u16 = if v < 0 {
        (-v) as u16
    } else {
        v as u16
    };
    let tens = m / 10;
    let ones = m % 10;
    if tens >= 10 {
        out.push((48 + tens / 10) as u8);
        out.push((48 + tens % 10) as u8);
    } else {
        out.push((48 + tens) as u8);
    }
    out.push(46);
    out.push((48 + ones) as u8);
    proof {
        assert(out@ =~= prefix + spec_format_reading(r@));
    }
}

/// The canonical byte string of a legal reading holds no zero byte and is
/// three to five bytes long, and decoding it gives the reading back.
pub proof fn lemma_format_reading_decodes(v: int)
    requires
        MIN_READING <= v <= MAX_READING,
    ensures
        3 <= spec_format_reading(v).len() <= 5,
        forall|i: int|
            0 <= i < spec_format_reading(v).len() ==> spec_format_reading(v)[i] != 0,
        spec_decode(spec_format_reading(v)) == Some(v),
{
    let t = spec_format_reading(v);
    let m = if v < 0 {
        -v
    } else {
        v
    };
    let mag = spec_format_magnitude(m);
    if v < 0 {
        assert(t =~= seq![45u8] + mag);
        assert(t.subrange(1, t.len() as int) =~= mag);
    } else {
        assert(t =~= mag);
    }
    let tens = m / 10;
    let ones = m % 10;
    vstd::arithmetic::div_mod::lemma_fundamental_div_mod(m, 10);
    vstd::arithmetic::div_mod::lemma_mod_bound(m, 10);
    if tens >= 10 {
        vstd::arithmetic::div_mod::lemma_fundamental_div_mod(tens, 10);
        vstd::arithmetic::div_mod::lemma_mod_bound(tens, 10);
        assert(mag.len() == 4);
        assert(spec_decode_long(mag) == Some((tens / 10) * 100 + (tens % 10) * 10 + ones));
        assert((tens / 10) * 100 + (tens % 10) * 10 + ones == m) by (nonlinear_arith)
            requires
                m == 10 * tens + ones,
                tens == 10 * (tens / 10) + tens % 10,
        ;
    } else {
        assert(mag.len() == 3);
        assert(spec_decode_short(mag) == Some(tens * 10 + ones));
    }
}

/// Bits of the parse-table index space.
pub const PARSE_TABLE_SHIFT: u64 = 13;

/// Slot count of the numeric parse table.
pub const PARSE_TABLE_SIZE: usize = 8192;

/// The multiplicative constant of the token hash: chosen so that the hash
/// is collision-free over the canonical encodings of all legal readings,
/// which the table builder checks at run time.
pub const PARSE_MAGIC: u64 = 0xb5a491adb02afa8c;

/// The slot a token never claims: below every legal reading.
pub const PARSE_TABLE_EMPTY: i16 = i16::MIN;

/// `256^n`.
pub open spec fn pow256(n: int) -> int
    decreases n,
{
    if n <= 0 {
        1
    } else {
        256 * pow256(n - 1)
    }
}

/// Little-endian packing of a short byte string into one integer.
pub open spec fn spec_pack(t: Seq<u8>) -> int
    decreases t.len(),
{
    if t.len() == 0 {
        0
    } else {
        t[0] + 256 * spec_pack(t.skip(1))
    }
}

/// Packing is bounded by `256` to the length.
pub proof fn lemma_pack_bound(t: Seq<u8>)
    ensures
        0 <= spec_pack(t) < pow256(t.len() as int),
    decreases t.len(),
{
    if t.len() > 0 {
        lemma_pack_bound(t.skip(1));
    }
}

/// `256^n` is positive.
pub proof fn lemma_pow256_pos(n: int)
    ensures
        pow256(n) >= 1,
    decreases n,
{
    if n > 0 {
        lemma_pow256_pos(n - 1);
    }
}

/// `256^n` grows with `n`.
pub proof fn lemma_pow256_le(n1: int, n2: int)
    requires
        n1 <= n2,
    ensures
        pow256(n1) <= pow256(n2),
    decreases n2 - n1,
{
    if n1 < n2 {
        lemma_pow256_le(n1, n2 - 1);
        lemma_pow256_pos(n2 - 1);
    }
}

/// Packing is injective over byte strings without zero bytes.
pub proof fn lemma_pack_injective(a: Seq<u8>, b: Seq<u8>)
    requires
        forall|i: int| 0 <= i < a.len() ==> a[i] != 0,
        forall|i: int| 0 <= i < b.len() ==> b[i] != 0,
        spec_pack(a) == spec_pack(b),
    ensures
        a == b,
    decreases a.len(),
{
    lemma_pack_bound(a);
    lemma_pack_bound(b);
    if a.len() == 0 {
        if b.len() > 0 {
            lemma_pack_bound(b.skip(1));
            assert(spec_pack(b) >= b[0]);
        }
        assert(a =~= b);
    } else if b.len() == 0 {
        lemma_pack_bound(a.skip(1));
        assert(spec_pack(a) >= a[0]);
        assert(a =~= b);
    } else {
        let pa = spec_pack(a.skip(1));
        let pb = spec_pack(b.skip(1));
        assert(a[0] == spec_pack(a) % 256) by {
            vstd::arithmetic::div_mod::lemma_mod_multiples_vanish(pa, a[0] as int, 256);
            vstd::arithmetic::div_mod::lemma_small_mod(a[0] as nat, 256);
            assert(256 * pa + a[0] == spec_pack(a));
        };
        assert(b[0] == spec_pack(b) % 256) by {
            vstd::arithmetic::div_mod::lemma_mod_multiples_vanish(pb, b[0] as int, 256);
            vstd::arithmetic::div_mod::lemma_small_mod(b[0] as nat, 256);
            assert(256 * pb + b[0] == spec_pack(b));
        };
        assert(pa == pb);
        assert(forall|i: int| 0 <= i < a.skip(1).len() ==> a.skip(1)[i] != 0);
        assert(forall|i: int| 0 <= i < b.skip(1).len() ==> b.skip(1)[i] != 0);
        lemma_pack_injective(a.skip(1), b.skip(1));
        assert(a.len() == b.len());
        assert forall|i: int| 0 <= i < a.len() implies a[i] == b[i] by {
            if i > 0 {
                assert(a[i] == a.skip(1)[i - 1]);
                assert(b[i] == b.skip(1)[i - 1]);
            }
        }
        assert(a =~= b);
    }
}

/// Packs a short token into a word, low byte first.
pub fn pack_token(t: &[u8]) -> (r: u64)
    requires
        t@.len() <= 8,
    ensures
        r == spec_pack(t@),
{
    let len = t.len();
    let mut r: u64 = 0;
    let mut i: usize = len;
    proof {
        assert(t@.skip(len as int) =~= Seq::<u8>::empty());
    }
    while i > 0
        invariant
            i <= len,
            len == t@.len() <= 8,
            r == spec_pack(t@.skip(i as int)),
        decreases i,
    {
        i = i - 1;
        proof {
            lemma_pack_bound(t@.skip(i + 1));
            lemma_pow256_le((len - i - 1) as int, 7);
            assert(pow256(7) == 0x100_0000_0000_0000) by {
                reveal_with_fuel(pow256, 9);
            };
            assert(t@.skip(i as int)[0] == t@[i as int]);
            assert(t@.skip(i as int).skip(1) =~= t@.skip(i + 1));
        }
        r = r * 256 + (t[i] as u64);
    }
    proof {
        assert(t@.skip(0) =~= t@);
    }
    r
}

/// The canonical packed encoding of a scaled reading. Opaque: callers pin
/// it down only through the function that computes it.
#[verifier::opaque]
pub open spec fn spec_encoding_of(v: int) -> u64 {
    spec_pack(spec_format_reading(v)) as u64
}

/// Computes the canonical packed encoding of a scaled reading.
pub fn int_val_to_str_encoding(val: i16) -> (r: u64)
    requires
        MIN_READING <= val <= MAX_READING,
    ensures
        r == spec_encoding_of(val as int),
{
    let mut bytes: Vec<u8> = Vec::new();
    push_reading(&mut bytes, TemperatureReading::new(val));
    proof {
        reveal(spec_encoding_of);
        lemma_format_reading_decodes(val as int);
        assert(Seq::<u8>::empty() + spec_format_reading(val as int) =~= spec_format_reading(
            val as int,
        ));
        lemma_pack_bound(bytes@);
        lemma_pow256_le(bytes@.len() as int, 8);
        assert(pow256(8) == 0x1_0000_0000_0000_0000) by {
            reveal_with_fuel(pow256, 10);
        };
    }
    pack_token(bytes.as_slice())
}

/// The parse-table slot of a packed token encoding.
pub open spec fn spec_parse_table_idx(e: u64) -> int {
    (e.wrapping_mul(PARSE_MAGIC) >> 51) as int
}

/// Computes the parse-table slot of a packed token encoding.
pub fn parse_table_idx(e: u64) -> (r: usize)
    ensures
        r == spec_parse_table_idx(e),
        r < PARSE_TABLE_SIZE,
{
    let w = e.wrapping_mul(PARSE_MAGIC);
    let shifted = w >> 51;
    proof {
        assert(w >> 51 < 8192) by (bit_vector);
    }
    shifted as usize
}

/// The precomputed perfect-hash decode table: one slot per possible token
/// hash, holding the reading whose canonical encoding hashes there.
pub struct ParseTable {
    vals: Vec<i16>,
}

impl ParseTable {
    /// Well-formedness: every legal reading is found under the hash of its
    /// canonical encoding.
    pub closed spec fn wf(&self) -> bool {
        &&& self.vals@.len() == PARSE_TABLE_SIZE
        &&& forall|v: int|
            MIN_READING <= v <= MAX_READING ==> {
                &&& 0 <= spec_parse_table_idx(#[trigger] spec_encoding_of(v)) < PARSE_TABLE_SIZE
                &&& self.vals@[spec_parse_table_idx(spec_encoding_of(v))] == v
            }
    }

    /// The reading stored under a packed encoding's slot, or `None` for an
    /// unclaimed slot.
    pub fn lookup(&self, e: u64) -> (r: Option<i16>)
        requires
            self.wf(),
        ensures
            forall|v: int|
                MIN_READING <= v <= MAX_READING && e == #[trigger] spec_encoding_of(v) ==> r
                    == Some(v as i16),
    {
        let idx = parse_table_idx(e);
        let cand = self.vals[idx];
        if cand == PARSE_TABLE_EMPTY {
            None
        } else {
            Some(cand)
        }
    }

    /// Builds the table by hashing every legal reading's canonical
    /// encoding, checking on the way that no two readings collide. With the
    /// chosen multiplier the check never fires; the hash being perfect is
    /// verified by this run-time check rather than assumed. The build comes
    /// back empty only when two distinct legal readings really do hash to
    /// the same slot.
    pub fn build() -> (r: Option<ParseTable>)
        ensures
            r matches Some(t) ==> t.wf(),
            r is None ==> exists|v1: int, v2: int|
                {
                    &&& MIN_READING <= v1 < v2 <= MAX_READING
                    &&& spec_parse_table_idx(#[trigger] spec_encoding_of(v1))
                        == spec_parse_table_idx(#[trigger] spec_encoding_of(v2))
                },
    {
        let mut vals: Vec<i16> = Vec::new();
        let mut i: usize = 0;
        while i < PARSE_TABLE_SIZE
            invariant
                i <= PARSE_TABLE_SIZE,
                vals@.len() == i,
                forall|j: int| 0 <= j < i ==> vals@[j] == PARSE_TABLE_EMPTY,
            decreases PARSE_TABLE_SIZE - i,
        {
            vals.push(PARSE_TABLE_EMPTY);
            i = i + 1;
        }
        let mut val: i16 = MIN_READING;
        while val <= MAX_READING
            invariant
                MIN_READING <= val <= MAX_READING + 1,
                vals@.len() == PARSE_TABLE_SIZE,
                forall|v: int|
                    MIN_READING <= v < val ==> {
                        &&& 0 <= spec_parse_table_idx(#[trigger] spec_encoding_of(v))
                            < PARSE_TABLE_SIZE
                        &&& vals@[spec_parse_table_idx(spec_encoding_of(v))] == v
                    },
                forall|j: int|
                    0 <= j < vals@.len() ==> ((#[trigger] vals@[j]) == PARSE_TABLE_EMPTY || {
                        &&& MIN_READING <= vals@[j] < val
                        &&& spec_parse_table_idx(spec_encoding_of(vals@[j] as int)) == j
                    }),
            decreases MAX_READING - val + 1,
        {
            let enc = int_val_to_str_encoding(val);
            let idx = parse_table_idx(enc);
            if vals[idx] != PARSE_TABLE_EMPTY {
                proof {
                    let w = vals@[idx as int] as int;
                    assert(MIN_READING <= w < val <= MAX_READING);
                    assert(spec_parse_table_idx(spec_encoding_of(w)) == spec_parse_table_idx(
                        spec_encoding_of(val as int),
                    ));
                }
                return None;
            }
            let ghost vals0 = vals@;
            vals.set(idx, val);
            proof {
                assert forall|v: int|
                    MIN_READING <= v < val + 1 implies {
                    &&& 0 <= spec_parse_table_idx(#[trigger] spec_encoding_of(v))
                        < PARSE_TABLE_SIZE
                    &&& vals@[spec_parse_table_idx(spec_encoding_of(v))] == v
                } by {
                    if v < val {
                        assert(vals0[spec_parse_table_idx(spec_encoding_of(v))] == v);
                        assert(spec_parse_table_idx(spec_encoding_of(v)) != idx);
                    } else {
                        assert(v == val as int);
                        assert(spec_encoding_of(v) == spec_encoding_of(val as int));
                        assert(spec_parse_table_idx(spec_encoding_of(v)) == idx as int);
                        assert(vals@[idx as int] == val);
                    }
                }
            }
            val = val + 1;
        }
        Some(ParseTable { vals })
    }
}

/// Decodes a numeric token through the perfect-hash table, falling back to
/// the direct parser for anything the fast path cannot vouch for. The
/// result is always exactly what the grammar decodes.
pub fn decode_with_table(table: &ParseTable, t: &[u8]) -> (r: Option<TemperatureReading>)
    requires
        table.wf(),
    ensures
        match r {
            Some(v) => spec_decode(t@) == Some(v@),
            None => spec_decode(t@) is None,
        },
{
    let len = t.len();
    if 3 <= len && len <= 5 {
        let mut nonzero = true;
        let mut i: usize = 0;
        while i < len
            invariant
                i <= len,
                len == t@.len(),
                nonzero <==> (forall|j: int| 0 <= j < i ==> t@[j] != 0),
            decreases len - i,
        {
            if t[i] == 0 {
                nonzero = false;
            }
            i = i + 1;
        }
        if nonzero {
            let enc = pack_token(t);
            match table.lookup(enc) {
                Some(cand) => {
                    if -999 <= cand && cand <= 999 {
                        let cenc = int_val_to_str_encoding(cand);
                        if cenc == enc {
                            proof {
                                reveal(spec_encoding_of);
                                lemma_format_reading_decodes(cand as int);
                                lemma_pack_bound(spec_format_reading(cand as int));
                                lemma_pack_bound(t@);
                                lemma_pow256_le(spec_format_reading(cand as int).len() as int, 8);
                                lemma_pow256_le(t@.len() as int, 8);
                                assert(pow256(8) == 0x1_0000_0000_0000_0000) by {
            reveal_with_fuel(pow256, 10);
        };
                                lemma_pack_injective(t@, spec_format_reading(cand as int));
                            }
                            return Some(TemperatureReading::new(cand));
                        }
                    }
                    decode_value(t)
                },
                None => decode_value(t),
            }
        } else {
            decode_value(t)
        }
    } else {
        decode_value(t)
    }
}

} // verus!
