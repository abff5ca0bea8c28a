//! Branch-prediction hints.
//!
//! The hints carry no meaning for correctness: each returns its argument
//! unchanged and only marks which way a branch usually goes.

use vstd::prelude::*;

verus! {

/// Marks a condition as usually true.
pub fn likely(b: bool) -> (r: bool)
    ensures
        r == b,
{
    b
}

/// Marks a condition as usually false.
pub fn unlikely(b: bool) -> (r: bool)
    ensures
        r == b,
{
    b
}

} // verus!
