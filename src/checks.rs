//! Marker traits through which a record type proves at compile time that its
//! fields fill whole bytes.
use vstd::prelude::*;

verus! {

/// Implemented by a record type with `N` as its total bit count modulo 8.
pub trait TotalSizeModEight<const N: usize> {}

/// Implemented by a record type whose total bit count is a multiple of 8.
pub trait TotalSizeIsMultipleOfEightBits: TotalSizeModEight<0> {}

} // verus!
