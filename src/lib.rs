//! Generic finite-field algorithms with verified contracts: bit sequences of
//! multi-word integers, exponentiation, square roots, cyclotomic exponentiation,
//! batch inversion and roots of unity, over any type that provides the field
//! capabilities of [`field::Field`]. [`f17::F17`] is a small concrete instance.
use vstd::prelude::*;

pub mod batch;
pub mod bits;
pub mod cyclotomic;
pub mod f17;
pub mod fft;
pub mod field;
pub mod pow;
pub mod prime;
pub mod sqrt;

verus! {

} // verus!
