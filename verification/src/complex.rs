//! Complex numbers of `num_complex`, carried through the library as opaque values.
//!
//! The library never looks inside a complex number: it only hands pairs of them to
//! the arithmetic of `num_complex`. Each operation it uses has a relation below that
//! holds between the operands and every value the operation returns for them, so
//! that the data flow of the transforms built on them can be stated exactly.
//!
//! These are relations, not functions: `num_complex` computes each component with
//! IEEE-754 `f64` arithmetic, and Rust leaves the sign and payload of a NaN result
//! nondeterministic, so the same operands may give different values from one call to
//! the next. Nothing here says that two calls on the same operands agree, nor which
//! value a call returns.

use vstd::prelude::*;
pub use num_complex::Complex64;

verus! {

/// `num_complex::Complex<T>`, known to the verifier only as an opaque type.
#[verifier::external_type_specification]
#[verifier::external_body]
#[verifier::reject_recursive_types(T)]
pub struct ExComplex<T>(num_complex::Complex<T>);

/// `r` is a value that `num_complex`'s addition `a + b` can return for these operands.
pub uninterp spec fn complex_sum_outcome(a: Complex64, b: Complex64, r: Complex64) -> bool;

/// Adds two complex numbers with `num_complex`'s `Add` impl
/// (`Complex<T> + Complex<T>`, componentwise addition).
///
/// The contract claims only that the result is an outcome of this addition of these
/// operands; it does not say which value that is.
#[verifier::external_body]
pub(crate) fn add_complex(a: Complex64, b: Complex64) -> (r: Complex64)
    ensures
        complex_sum_outcome(a, b, r),
{
    a + b
}

/// `r` is a value that `num_complex`'s subtraction `a - b` can return for these operands.
pub uninterp spec fn complex_difference_outcome(a: Complex64, b: Complex64, r: Complex64) -> bool;

/// Subtracts two complex numbers with `num_complex`'s `Sub` impl
/// (`Complex<T> - Complex<T>`, componentwise subtraction).
///
/// The contract claims only that the result is an outcome of this subtraction of
/// these operands; it does not say which value that is.
#[verifier::external_body]
pub(crate) fn sub_complex(a: Complex64, b: Complex64) -> (r: Complex64)
    ensures
        complex_difference_outcome(a, b, r),
{
    a - b
}

/// `r` is a value that `num_complex`'s multiplication `a * b` can return for these
/// operands, in this order.
pub uninterp spec fn complex_product_outcome(a: Complex64, b: Complex64, r: Complex64) -> bool;

/// Multiplies two complex numbers with `num_complex`'s `Mul` impl
/// (`Complex<T> * Complex<T>`: `(a.re*b.re - a.im*b.im) + i (a.re*b.im + a.im*b.re)`).
///
/// The contract claims only that the result is an outcome of this multiplication of
/// these operands, in this order; it does not say which value that is.
#[verifier::external_body]
pub(crate) fn mul_complex(a: Complex64, b: Complex64) -> (r: Complex64)
    ensures
        complex_product_outcome(a, b, r),
{
    a * b
}

} // verus!
