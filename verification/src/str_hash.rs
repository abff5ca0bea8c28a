//! The station-name hash.
//!
//! A polynomial fold over the first bytes of the key, scrambled by a
//! multiplicative constant, yielding a sixteen-bit table index space. The
//! contract of the table only needs the hash to be a pure function of the
//! key bytes; distribution quality affects probe length, never correctness.

use vstd::prelude::*;

verus! {

/// The scrambling multiplier.
pub const HASH_MAGIC: u64 = 0x20000400020001;

/// How many leading bytes of the key feed the hash.
pub const HASH_PREFIX_LEN: usize = 16;

/// Slot count of the default table: one slot per possible hash value.
pub const TABLE_SIZE: usize = 65536;

/// The fold of the first `n` bytes of `k`.
pub open spec fn spec_hash_fold(k: Seq<u8>, n: int) -> u64
    decreases n,
{
    if n <= 0 {
        0u64
    } else {
        spec_hash_fold(k, n - 1).wrapping_mul(31).wrapping_add(k[n - 1] as u64)
    }
}

/// How many bytes of `k` feed the hash.
pub open spec fn spec_hash_prefix_len(k: Seq<u8>) -> int {
    if k.len() < HASH_PREFIX_LEN {
        k.len() as int
    } else {
        HASH_PREFIX_LEN as int
    }
}

/// The hash of a key: fold, scramble, and keep the top bits. Opaque: no
/// caller depends on the hash formula, only on it being a function of the
/// key bytes.
#[verifier::opaque]
pub open spec fn spec_str_hash(k: Seq<u8>) -> u64 {
    spec_hash_fold(k, spec_hash_prefix_len(k)).wrapping_mul(HASH_MAGIC) >> 48
}

/// Computes the hash of a key.
pub fn str_hash(k: &[u8]) -> (r: u64)
    ensures
        r == spec_str_hash(k@),
        r < TABLE_SIZE,
{
    let lim = if k.len() < HASH_PREFIX_LEN {
        k.len()
    } else {
        HASH_PREFIX_LEN
    };
    let mut h: u64 = 0;
    let mut i: usize = 0;
    while i < lim
        invariant
            i <= lim,
            lim == spec_hash_prefix_len(k@),
            lim <= k@.len(),
            h == spec_hash_fold(k@, i as int),
        decreases lim - i,
    {
        h = h.wrapping_mul(31).wrapping_add(k[i] as u64);
        i = i + 1;
    }
    let w = h.wrapping_mul(HASH_MAGIC);
    let r = w >> 48;
    proof {
        reveal(spec_str_hash);
        assert(w >> 48 < 65536) by (bit_vector);
    }
    r
}

} // verus!
