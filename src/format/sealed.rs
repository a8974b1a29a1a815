use vstd::prelude::*;

verus! {

/// Implemented for `u16`, `u32` and `u64` only. The module that holds it is
/// private, so no type outside this crate can become a segment width.
pub trait Sealed {

}

impl Sealed for u16 {

}

impl Sealed for u32 {

}

impl Sealed for u64 {

}

} // verus!
