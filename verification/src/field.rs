//! Trusted boundary around the finite field that evaluations live in.
//!
//! Field elements are opaque to the verifier: the prover never inspects the
//! value of an element, it only moves elements around and hands them to the
//! arithmetic routines declared here. Each uninterpreted spec function names
//! the result of one deterministic outside function, so that contracts can
//! pin folded values down exactly without restating field arithmetic.

use vstd::prelude::*;
use winter_math::fields::f64::BaseElement;
use winter_math::{fft, polynom, StarkField};

use crate::nums::spec_is_pow2;

verus! {

#[verifier::external_type_specification]
#[verifier::external_body]
pub struct ExBaseElement(BaseElement);

/// Whether a field element is the additive identity.
pub uninterp spec fn elem_is_zero(e: BaseElement) -> bool;

/// The product of two field elements.
pub uninterp spec fn elem_mul_of(a: BaseElement, b: BaseElement) -> BaseElement;

/// Relies on `StarkField::GENERATOR`: a generator of the multiplicative group
/// of the field, hence a nonzero element.
#[verifier::external_body]
pub fn field_generator() -> (r: BaseElement)
    ensures
        !elem_is_zero(r),
{
    BaseElement::GENERATOR
}

/// Relies on the `Mul` impl of the base field: multiplication is a function
/// of its two arguments, and a product of nonzero elements of a field is
/// nonzero.
#[verifier::external_body]
pub fn elem_mul(a: BaseElement, b: BaseElement) -> (r: BaseElement)
    ensures
        r == elem_mul_of(a, b),
        !elem_is_zero(a) && !elem_is_zero(b) ==> !elem_is_zero(r),
{
    a * b
}

/// The `2^n`-th primitive root of unity of the base field.
pub uninterp spec fn root_of_unity_of(n: u32) -> BaseElement;

/// Relies on `StarkField::get_root_of_unity`: returns the `2^n`-th primitive
/// root of unity, a function of `n` alone; it panics only for `n == 0` and
/// for `n` above the field's two-adicity (32). A primitive root of unity is
/// nonzero, since some power of it is one.
#[verifier::external_body]
pub fn get_root_of_unity(n: u32) -> (r: BaseElement)
    requires
        1 <= n <= 32,
    ensures
        r == root_of_unity_of(n),
        !elem_is_zero(r),
{
    BaseElement::get_root_of_unity(n)
}

/// The inverse twiddle factors for FFT interpolation over a domain of the
/// given size.
pub uninterp spec fn inv_twiddles_of(domain_size: usize) -> Seq<BaseElement>;

/// Relies on `winter_math::fft::get_inv_twiddles`: returns the inverse
/// twiddles for the given domain size, a vector of exactly `domain_size / 2`
/// elements; it panics when the size is not a power of two, is one (the root
/// of unity of order zero it asks for does not exist), or reaches `2^32` —
/// it casts the size to `u32` before subtracting one, so the subtraction
/// overflows where the cast truncates.
#[verifier::external_body]
pub fn get_inv_twiddles(domain_size: usize) -> (r: Vec<BaseElement>)
    requires
        spec_is_pow2(domain_size as nat),
        2 <= domain_size < 0x1_0000_0000,
    ensures
        r@ == inv_twiddles_of(domain_size),
        r@.len() == domain_size / 2,
{
    fft::get_inv_twiddles::<BaseElement>(domain_size)
}

/// The coefficients interpolated from evaluations over the coset of the
/// given offset, using the given inverse twiddles.
pub uninterp spec fn interp_of(
    values: Seq<BaseElement>,
    inv_twiddles: Seq<BaseElement>,
    offset: BaseElement,
) -> Seq<BaseElement>;

/// Relies on `winter_math::fft::interpolate_poly_with_offset`: interpolates,
/// in place, the evaluations of a polynomial over the coset `offset * <g>`
/// into its coefficients, a function of the three arguments alone; it panics
/// only when the length is not a power of two, the twiddle count is not half
/// the length, the offset is zero, or the length reaches `2^32` — its serial
/// implementation caps the length at `u32::MAX`, one below the order of the
/// field's two-adic subgroup.
#[verifier::external_body]
pub fn interpolate_row(
    row: Vec<BaseElement>,
    inv_twiddles: &Vec<BaseElement>,
    offset: BaseElement,
) -> (r: Vec<BaseElement>)
    requires
        spec_is_pow2(row@.len()),
        row@.len() < 0x1_0000_0000,
        inv_twiddles@.len() * 2 == row@.len(),
        !elem_is_zero(offset),
    ensures
        r@ == interp_of(row@, inv_twiddles@, offset),
{
    let mut row = row;
    fft::interpolate_poly_with_offset(&mut row, inv_twiddles.as_slice(), offset);
    row
}

/// The value of the polynomial with the given coefficients at the given
/// point.
pub uninterp spec fn eval_of(p: Seq<BaseElement>, x: BaseElement) -> BaseElement;

/// Relies on `winter_math::polynom::eval`: Horner evaluation of a polynomial
/// given by its coefficients at a point, a function of the two arguments
/// alone; it never panics.
#[verifier::external_body]
pub fn poly_eval(p: &Vec<BaseElement>, x: BaseElement) -> (r: BaseElement)
    ensures
        r == eval_of(p@, x),
{
    polynom::eval(p.as_slice(), x)
}

} // verus!
