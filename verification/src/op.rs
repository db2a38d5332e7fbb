//! Operations on single elements.
use vstd::prelude::*;

use crate::numbers::{BF16, F16, F32, F64};

verus! {

/// A function of one element, for each element type. Nothing is assumed of the results.
pub trait UnaryOp {
    /// The function on `BF16` elements.
    fn map_bf16(v: BF16) -> BF16;

    /// The function on `F16` elements.
    fn map_f16(v: F16) -> F16;

    /// The function on `F32` elements.
    fn map_f32(v: F32) -> F32;

    /// The function on `F64` elements.
    fn map_f64(v: F64) -> F64;

    /// The function on `u32` elements.
    fn map_u32(v: u32) -> u32;
}

/// A function of two elements, for each element type. Nothing is assumed of the results.
pub trait BinaryOp {
    /// The name under which the operation appears in errors.
    const NAME: &'static str;

    /// The function on `BF16` elements.
    fn map_bf16(a: BF16, b: BF16) -> BF16;

    /// The function on `F16` elements.
    fn map_f16(a: F16, b: F16) -> F16;

    /// The function on `F32` elements.
    fn map_f32(a: F32, b: F32) -> F32;

    /// The function on `F64` elements.
    fn map_f64(a: F64, b: F64) -> F64;

    /// The function on `u32` elements.
    fn map_u32(a: u32, b: u32) -> u32;
}

} // verus!
