//! The elements of a storage that are floating-point numbers, held as bit patterns, and the
//! arithmetic on them.
use vstd::prelude::*;

verus! {

/// A number with 8 bits of exponent and 7 bits of mantissa.
#[derive(Debug, Clone, Copy)]
pub struct BF16 {
    pub bits: u16,
}

/// An IEEE 754 half-precision number.
#[derive(Debug, Clone, Copy)]
pub struct F16 {
    pub bits: u16,
}

/// An IEEE 754 single-precision number.
#[derive(Debug, Clone, Copy)]
pub struct F32 {
    pub bits: u32,
}

/// An IEEE 754 double-precision number.
#[derive(Debug, Clone, Copy)]
pub struct F64 {
    pub bits: u64,
}

/// The bit pattern of a number; all patterns that are not a number are one.
impl View for BF16 {
    type V = Option<u16>;

    open spec fn view(&self) -> Option<u16> {
        if self.bits % 0x8000 > 0x7f80 {
            None
        } else {
            Some(self.bits)
        }
    }
}

/// The bit pattern of a number; all patterns that are not a number are one.
impl View for F16 {
    type V = Option<u16>;

    open spec fn view(&self) -> Option<u16> {
        if self.bits % 0x8000 > 0x7c00 {
            None
        } else {
            Some(self.bits)
        }
    }
}

/// The bit pattern of a number; all patterns that are not a number are one.
impl View for F32 {
    type V = Option<u32>;

    open spec fn view(&self) -> Option<u32> {
        if self.bits % 0x8000_0000 > 0x7f80_0000 {
            None
        } else {
            Some(self.bits)
        }
    }
}

/// The bit pattern of a number; all patterns that are not a number are one.
impl View for F64 {
    type V = Option<u64>;

    open spec fn view(&self) -> Option<u64> {
        if self.bits % 0x8000_0000_0000_0000 > 0x7ff0_0000_0000_0000 {
            None
        } else {
            Some(self.bits)
        }
    }
}

/// The bit pattern of one.
pub const BF16_ONE: u16 = 0x3f80;

/// The bit pattern of one.
pub const F16_ONE: u16 = 0x3c00;

/// The bit pattern of one.
pub const F32_ONE: u32 = 0x3f80_0000;

/// The bit pattern of one.
pub const F64_ONE: u64 = 0x3ff0_0000_0000_0000;

/// The machine's own floating-point numbers: the conversions and the arithmetic that the program
/// which uses this library supplies. The comments say what each function is for; no proof assumes
/// anything of its result.
pub trait FloatOps {
    /// The nearest number of this type.
    fn bf16_from_f32(v: F32) -> BF16;

    /// The nearest number of this type.
    fn bf16_from_f64(v: F64) -> BF16;

    /// The same number.
    fn bf16_to_f32(v: BF16) -> F32;

    /// The same number.
    fn bf16_to_f64(v: BF16) -> F64;

    /// The nearest number of this type.
    fn f16_from_f32(v: F32) -> F16;

    /// The nearest number of this type.
    fn f16_from_f64(v: F64) -> F16;

    /// The same number.
    fn f16_to_f32(v: F16) -> F32;

    /// The same number.
    fn f16_to_f64(v: F16) -> F64;

    /// The nearest number of this type.
    fn f32_from_u32(v: u32) -> F32;

    /// The nearest number of this type.
    fn f32_from_f64(v: F64) -> F32;

    /// The same number.
    fn f64_from_u32(v: u32) -> F64;

    /// The same number.
    fn f64_from_f32(v: F32) -> F64;

    /// The number without its fraction, or the nearest `u32` if it is out of range.
    fn u32_from_f32(v: F32) -> u32;

    /// The number without its fraction, or the nearest `u32` if it is out of range.
    fn u32_from_f64(v: F64) -> u32;

    /// The sum.
    fn f16_add(a: F16, b: F16) -> F16;

    /// The product.
    fn f16_mul(a: F16, b: F16) -> F16;

    /// The quotient of the first number by the second.
    fn f16_div(a: F16, b: F16) -> F16;

    /// The sum.
    fn f32_add(a: F32, b: F32) -> F32;

    /// The product.
    fn f32_mul(a: F32, b: F32) -> F32;

    /// The quotient of the first number by the second.
    fn f32_div(a: F32, b: F32) -> F32;

    /// The sum.
    fn f64_add(a: F64, b: F64) -> F64;

    /// The product.
    fn f64_mul(a: F64, b: F64) -> F64;

    /// The quotient of the first number by the second.
    fn f64_div(a: F64, b: F64) -> F64;
}

/// A number modulo 2^32.
pub open spec fn wrap_u32(x: int) -> u32 {
    (x % 0x1_0000_0000) as u32
}

/// The sum of two numbers modulo 2^32.
pub fn u32_add(a: u32, b: u32) -> (r: u32)
    ensures
        r == wrap_u32(a + b),
{
    a.wrapping_add(b)
}

/// The product of two numbers modulo 2^32.
pub fn u32_mul(a: u32, b: u32) -> (r: u32)
    ensures
        r == wrap_u32(a * b),
{
    proof {
        vstd::arithmetic::mul::lemma_mul_nonnegative(a as int, b as int);
    }
    a.wrapping_mul(b)
}

/// The sum that `half::bf16` computes, as a function of the two numbers.
pub uninterp spec fn bf16_sum(a: Option<u16>, b: Option<u16>) -> Option<u16>;

/// The product that `half::bf16` computes, as a function of the two numbers.
pub uninterp spec fn bf16_product(a: Option<u16>, b: Option<u16>) -> Option<u16>;

/// The quotient that `half::bf16` computes, as a function of the two numbers.
pub uninterp spec fn bf16_quotient(a: Option<u16>, b: Option<u16>) -> Option<u16>;

/// Calls `+` of `half::bf16`. Trusted: the sum is a function of the two numbers. Which pattern
/// comes out when the sum is not a number is left open.
#[verifier::external_body]
pub(crate) fn bf16_add(a: BF16, b: BF16) -> (r: BF16)
    ensures
        r@ == bf16_sum(a@, b@),
{
    BF16 { bits: (half::bf16::from_bits(a.bits) + half::bf16::from_bits(b.bits)).to_bits() }
}

/// Calls `*` of `half::bf16`. Trusted: the product is a function of the two numbers. Which pattern
/// comes out when the product is not a number is left open.
#[verifier::external_body]
pub(crate) fn bf16_mul(a: BF16, b: BF16) -> (r: BF16)
    ensures
        r@ == bf16_product(a@, b@),
{
    BF16 { bits: (half::bf16::from_bits(a.bits) * half::bf16::from_bits(b.bits)).to_bits() }
}

/// Calls `/` of `half::bf16`. Trusted: the quotient is a function of the two numbers. Which pattern
/// comes out when the quotient is not a number is left open.
#[verifier::external_body]
pub(crate) fn bf16_div(a: BF16, b: BF16) -> (r: BF16)
    ensures
        r@ == bf16_quotient(a@, b@),
{
    BF16 { bits: (half::bf16::from_bits(a.bits) / half::bf16::from_bits(b.bits)).to_bits() }
}

/// Reads `half::bf16::ONE`. Trusted: its bit pattern is `0x3f80`.
#[verifier::external_body]
pub(crate) fn bf16_one() -> (r: BF16)
    ensures
        r.bits == BF16_ONE,
{
    BF16 { bits: half::bf16::ONE.to_bits() }
}

/// Calls `num_traits::zero` for `half::bf16`, which hands out `half::bf16::ZERO`. Trusted: its bit
/// pattern is zero.
#[verifier::external_body]
pub(crate) fn bf16_zero() -> (r: BF16)
    ensures
        r.bits == 0,
{
    BF16 { bits: num_traits::zero::<half::bf16>().to_bits() }
}

} // verus!
