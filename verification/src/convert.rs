//! Conversions between element types by way of single precision.
use vstd::prelude::*;

use crate::numbers::{FloatOps, BF16, F16, F32};

verus! {

/// A `u32` becomes a `BF16` by way of single precision.
pub open spec fn u32_to_bf16<N: FloatOps>(v: u32, r: BF16) -> bool {
    exists|w: F32| #[trigger]
        call_ensures(N::f32_from_u32, (v,), w) && call_ensures(N::bf16_from_f32, (w,), r)
}

/// A half-precision number becomes a `BF16` by way of single precision.
pub open spec fn f16_to_bf16<N: FloatOps>(v: F16, r: BF16) -> bool {
    exists|w: F32| #[trigger]
        call_ensures(N::f16_to_f32, (v,), w) && call_ensures(N::bf16_from_f32, (w,), r)
}

/// A `u32` becomes a half-precision number by way of single precision.
pub open spec fn u32_to_f16<N: FloatOps>(v: u32, r: F16) -> bool {
    exists|w: F32| #[trigger]
        call_ensures(N::f32_from_u32, (v,), w) && call_ensures(N::f16_from_f32, (w,), r)
}

/// A `BF16` becomes a half-precision number by way of single precision.
pub open spec fn bf16_to_f16<N: FloatOps>(v: BF16, r: F16) -> bool {
    exists|w: F32| #[trigger]
        call_ensures(N::bf16_to_f32, (v,), w) && call_ensures(N::f16_from_f32, (w,), r)
}

/// A `BF16` becomes a `u32` by way of single precision.
pub open spec fn bf16_to_u32<N: FloatOps>(v: BF16, r: u32) -> bool {
    exists|w: F32| #[trigger]
        call_ensures(N::bf16_to_f32, (v,), w) && call_ensures(N::u32_from_f32, (w,), r)
}

/// A half-precision number becomes a `u32` by way of single precision.
pub open spec fn f16_to_u32<N: FloatOps>(v: F16, r: u32) -> bool {
    exists|w: F32| #[trigger]
        call_ensures(N::f16_to_f32, (v,), w) && call_ensures(N::u32_from_f32, (w,), r)
}

/// An element as it is.
pub fn identity<T: Copy>(v: T) -> (r: T)
    ensures
        r == v,
{
    v
}

/// Converts a `u32` to a `BF16`.
pub fn bf16_from_u32<N: FloatOps>(v: u32) -> (r: BF16)
    ensures
        u32_to_bf16::<N>(v, r),
{
    N::bf16_from_f32(N::f32_from_u32(v))
}

/// Converts a half-precision number to a `BF16`.
pub fn bf16_from_f16<N: FloatOps>(v: F16) -> (r: BF16)
    ensures
        f16_to_bf16::<N>(v, r),
{
    N::bf16_from_f32(N::f16_to_f32(v))
}

/// Converts a `u32` to a half-precision number.
pub fn f16_from_u32<N: FloatOps>(v: u32) -> (r: F16)
    ensures
        u32_to_f16::<N>(v, r),
{
    N::f16_from_f32(N::f32_from_u32(v))
}

/// Converts a `BF16` to a half-precision number.
pub fn f16_from_bf16<N: FloatOps>(v: BF16) -> (r: F16)
    ensures
        bf16_to_f16::<N>(v, r),
{
    N::f16_from_f32(N::bf16_to_f32(v))
}

/// Converts a `BF16` to a `u32`.
pub fn u32_from_bf16<N: FloatOps>(v: BF16) -> (r: u32)
    ensures
        bf16_to_u32::<N>(v, r),
{
    N::u32_from_f32(N::bf16_to_f32(v))
}

/// Converts a half-precision number to a `u32`.
pub fn u32_from_f16<N: FloatOps>(v: F16) -> (r: u32)
    ensures
        f16_to_u32::<N>(v, r),
{
    N::u32_from_f32(N::f16_to_f32(v))
}

} // verus!
