use vstd::prelude::*;

pub mod bigint;
pub mod convolution;
pub mod binomial_extension;
pub mod decimal;
pub mod exponentiation;
pub mod field;
pub mod mersenne_31;
pub mod number_theory;

pub use binomial_extension::BinomialExtensionField;
pub use mersenne_31::{to_mersenne31_array, Mersenne31};

verus! {

} // verus!
