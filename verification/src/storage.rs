//! The storage of an array and the operations on it.
use vstd::prelude::*;

use crate::convert;
use crate::elementwise;
use crate::embedding;
use crate::embedding::Embedding;
use crate::error::{DType, Error};
use crate::layout;
use crate::layout::Layout;
use crate::matmul;
use crate::matmul::{Gemm, GemmCall};
use crate::normalize;
use crate::numbers;
use crate::numbers::{FloatOps, BF16, BF16_ONE, F16, F16_ONE, F32, F32_ONE, F64, F64_ONE};
use crate::op::{BinaryOp, UnaryOp};
use crate::reduce;
use crate::reduce::Sum;
use crate::shape;
use crate::shape::Shape;

verus! {

/// The elements of an array, all of one type.
#[derive(Debug)]
pub enum CpuStorage {
    U32(Vec<u32>),
    BF16(Vec<BF16>),
    F16(Vec<F16>),
    F32(Vec<F32>),
    F64(Vec<F64>),
}

/// A type that the elements of a storage can have.
pub trait WithDType: Copy {
    /// The element type.
    const DTYPE: DType;

    /// The elements of a storage, if they have this type.
    spec fn elements(s: CpuStorage) -> Option<Seq<Self>>;

    /// The elements of a storage, or an error if they have another type.
    fn cpu_storage_as_slice(s: &CpuStorage) -> (r: Result<&[Self], Error>)
        ensures
            match r {
                Ok(x) => s.elem_type() == Self::DTYPE && Self::elements(*s) == Some(x@),
                Err(e) => s.elem_type() != Self::DTYPE && Self::elements(*s) is None && e == (
                Error::UnexpectedDType { expected: Self::DTYPE, got: s.elem_type() }),
            },
    ;
}

impl WithDType for u32 {
    const DTYPE: DType = DType::U32;

    open spec fn elements(s: CpuStorage) -> Option<Seq<u32>> {
        match s {
            CpuStorage::U32(vs) => Some(vs@),
            _ => None,
        }
    }

    fn cpu_storage_as_slice(s: &CpuStorage) -> (r: Result<&[u32], Error>) {
        match s {
            CpuStorage::U32(vs) => Ok(vs.as_slice()),
            _ => Err(Error::UnexpectedDType { expected: DType::U32, got: s.dtype() }),
        }
    }
}

impl WithDType for BF16 {
    const DTYPE: DType = DType::BF16;

    open spec fn elements(s: CpuStorage) -> Option<Seq<BF16>> {
        match s {
            CpuStorage::BF16(vs) => Some(vs@),
            _ => None,
        }
    }

    fn cpu_storage_as_slice(s: &CpuStorage) -> (r: Result<&[BF16], Error>) {
        match s {
            CpuStorage::BF16(vs) => Ok(vs.as_slice()),
            _ => Err(Error::UnexpectedDType { expected: DType::BF16, got: s.dtype() }),
        }
    }
}

impl WithDType for F16 {
    const DTYPE: DType = DType::F16;

    open spec fn elements(s: CpuStorage) -> Option<Seq<F16>> {
        match s {
            CpuStorage::F16(vs) => Some(vs@),
            _ => None,
        }
    }

    fn cpu_storage_as_slice(s: &CpuStorage) -> (r: Result<&[F16], Error>) {
        match s {
            CpuStorage::F16(vs) => Ok(vs.as_slice()),
            _ => Err(Error::UnexpectedDType { expected: DType::F16, got: s.dtype() }),
        }
    }
}

impl WithDType for F32 {
    const DTYPE: DType = DType::F32;

    open spec fn elements(s: CpuStorage) -> Option<Seq<F32>> {
        match s {
            CpuStorage::F32(vs) => Some(vs@),
            _ => None,
        }
    }

    fn cpu_storage_as_slice(s: &CpuStorage) -> (r: Result<&[F32], Error>) {
        match s {
            CpuStorage::F32(vs) => Ok(vs.as_slice()),
            _ => Err(Error::UnexpectedDType { expected: DType::F32, got: s.dtype() }),
        }
    }
}

impl WithDType for F64 {
    const DTYPE: DType = DType::F64;

    open spec fn elements(s: CpuStorage) -> Option<Seq<F64>> {
        match s {
            CpuStorage::F64(vs) => Some(vs@),
            _ => None,
        }
    }

    fn cpu_storage_as_slice(s: &CpuStorage) -> (r: Result<&[F64], Error>) {
        match s {
            CpuStorage::F64(vs) => Ok(vs.as_slice()),
            _ => Err(Error::UnexpectedDType { expected: DType::F64, got: s.dtype() }),
        }
    }
}

/// `r` holds, in row-major order, the elements of the array that stands in `src` as `l` says,
/// converted to `dtype`.
pub open spec fn converted<N: FloatOps>(
    src: CpuStorage,
    l: Layout,
    dtype: DType,
    r: CpuStorage,
) -> bool {
    &&& r.elem_type() == dtype
    &&& match (src, r) {
        (CpuStorage::U32(s), CpuStorage::U32(d)) => elementwise::mapped(
            s@,
            l,
            |v: u32, u: u32| u == v,
            d@,
        ),
        (CpuStorage::U32(s), CpuStorage::BF16(d)) => elementwise::mapped(
            s@,
            l,
            |v: u32, u: BF16| convert::u32_to_bf16::<N>(v, u),
            d@,
        ),
        (CpuStorage::U32(s), CpuStorage::F16(d)) => elementwise::mapped(
            s@,
            l,
            |v: u32, u: F16| convert::u32_to_f16::<N>(v, u),
            d@,
        ),
        (CpuStorage::U32(s), CpuStorage::F32(d)) => elementwise::mapped(
            s@,
            l,
            |v: u32, u: F32| call_ensures(N::f32_from_u32, (v,), u),
            d@,
        ),
        (CpuStorage::U32(s), CpuStorage::F64(d)) => elementwise::mapped(
            s@,
            l,
            |v: u32, u: F64| call_ensures(N::f64_from_u32, (v,), u),
            d@,
        ),
        (CpuStorage::BF16(s), CpuStorage::U32(d)) => elementwise::mapped(
            s@,
            l,
            |v: BF16, u: u32| convert::bf16_to_u32::<N>(v, u),
            d@,
        ),
        (CpuStorage::BF16(s), CpuStorage::BF16(d)) => elementwise::mapped(
            s@,
            l,
            |v: BF16, u: BF16| u == v,
            d@,
        ),
        (CpuStorage::BF16(s), CpuStorage::F16(d)) => elementwise::mapped(
            s@,
            l,
            |v: BF16, u: F16| convert::bf16_to_f16::<N>(v, u),
            d@,
        ),
        (CpuStorage::BF16(s), CpuStorage::F32(d)) => elementwise::mapped(
            s@,
            l,
            |v: BF16, u: F32| call_ensures(N::bf16_to_f32, (v,), u),
            d@,
        ),
        (CpuStorage::BF16(s), CpuStorage::F64(d)) => elementwise::mapped(
            s@,
            l,
            |v: BF16, u: F64| call_ensures(N::bf16_to_f64, (v,), u),
            d@,
        ),
        (CpuStorage::F16(s), CpuStorage::U32(d)) => elementwise::mapped(
            s@,
            l,
            |v: F16, u: u32| convert::f16_to_u32::<N>(v, u),
            d@,
        ),
        (CpuStorage::F16(s), CpuStorage::BF16(d)) => elementwise::mapped(
            s@,
            l,
            |v: F16, u: BF16| convert::f16_to_bf16::<N>(v, u),
            d@,
        ),
        (CpuStorage::F16(s), CpuStorage::F16(d)) => elementwise::mapped(
            s@,
            l,
            |v: F16, u: F16| u == v,
            d@,
        ),
        (CpuStorage::F16(s), CpuStorage::F32(d)) => elementwise::mapped(
            s@,
            l,
            |v: F16, u: F32| call_ensures(N::f16_to_f32, (v,), u),
            d@,
        ),
        (CpuStorage::F16(s), CpuStorage::F64(d)) => elementwise::mapped(
            s@,
            l,
            |v: F16, u: F64| call_ensures(N::f16_to_f64, (v,), u),
            d@,
        ),
        (CpuStorage::F32(s), CpuStorage::U32(d)) => elementwise::mapped(
            s@,
            l,
            |v: F32, u: u32| call_ensures(N::u32_from_f32, (v,), u),
            d@,
        ),
        (CpuStorage::F32(s), CpuStorage::BF16(d)) => elementwise::mapped(
            s@,
            l,
            |v: F32, u: BF16| call_ensures(N::bf16_from_f32, (v,), u),
            d@,
        ),
        (CpuStorage::F32(s), CpuStorage::F16(d)) => elementwise::mapped(
            s@,
            l,
            |v: F32, u: F16| call_ensures(N::f16_from_f32, (v,), u),
            d@,
        ),
        (CpuStorage::F32(s), CpuStorage::F32(d)) => elementwise::mapped(
            s@,
            l,
            |v: F32, u: F32| u == v,
            d@,
        ),
        (CpuStorage::F32(s), CpuStorage::F64(d)) => elementwise::mapped(
            s@,
            l,
            |v: F32, u: F64| call_ensures(N::f64_from_f32, (v,), u),
            d@,
        ),
        (CpuStorage::F64(s), CpuStorage::U32(d)) => elementwise::mapped(
            s@,
            l,
            |v: F64, u: u32| call_ensures(N::u32_from_f64, (v,), u),
            d@,
        ),
        (CpuStorage::F64(s), CpuStorage::BF16(d)) => elementwise::mapped(
            s@,
            l,
            |v: F64, u: BF16| call_ensures(N::bf16_from_f64, (v,), u),
            d@,
        ),
        (CpuStorage::F64(s), CpuStorage::F16(d)) => elementwise::mapped(
            s@,
            l,
            |v: F64, u: F16| call_ensures(N::f16_from_f64, (v,), u),
            d@,
        ),
        (CpuStorage::F64(s), CpuStorage::F32(d)) => elementwise::mapped(
            s@,
            l,
            |v: F64, u: F32| call_ensures(N::f32_from_f64, (v,), u),
            d@,
        ),
        (CpuStorage::F64(s), CpuStorage::F64(d)) => elementwise::mapped(
            s@,
            l,
            |v: F64, u: F64| u == v,
            d@,
        ),
    }
}

/// `out` holds the sums over the dimensions `sum_dims` of the array that stands in `src` as `l`
/// says, each taken in row-major order, where no dimension is named twice.
///
/// A dimension that is named again is shrunk again: the place in the sums is taken for a place in the
/// array, so that its outer position is divided by the extent once more. `out` then still has the
/// shape of the sums, and every element is still added to one place, but that place need not be the
/// one of its other coordinates.
pub open spec fn summed<N: FloatOps>(
    src: CpuStorage,
    l: Layout,
    sum_dims: Seq<usize>,
    out: CpuStorage,
) -> bool {
    let pairs = reduce::sum_pairs(l.shape.dims@, reduce::sorted(sum_dims));
    &&& out.len() == shape::product(reduce::reduced_dims(l.shape.dims@, sum_dims))
    &&& match (src, out) {
        (CpuStorage::U32(s), CpuStorage::U32(d)) => reduce::summed(
            s@,
            l,
            pairs,
            0,
            |a: u32, b: u32, r: u32| r == numbers::wrap_u32(a + b),
            d@,
        ),
        (CpuStorage::BF16(s), CpuStorage::BF16(d)) => reduce::summed(
            s@,
            l,
            pairs,
            BF16 { bits: 0 },
            |a: BF16, b: BF16, r: BF16| r@ == numbers::bf16_sum(a@, b@),
            d@,
        ),
        (CpuStorage::F16(s), CpuStorage::F16(d)) => reduce::summed(
            s@,
            l,
            pairs,
            F16 { bits: 0 },
            |a: F16, b: F16, r: F16| call_ensures(N::f16_add, (a, b), r),
            d@,
        ),
        (CpuStorage::F32(s), CpuStorage::F32(d)) => reduce::summed(
            s@,
            l,
            pairs,
            F32 { bits: 0 },
            |a: F32, b: F32, r: F32| call_ensures(N::f32_add, (a, b), r),
            d@,
        ),
        (CpuStorage::F64(s), CpuStorage::F64(d)) => reduce::summed(
            s@,
            l,
            pairs,
            F64 { bits: 0 },
            |a: F64, b: F64, r: F64| call_ensures(N::f64_add, (a, b), r),
            d@,
        ),
        _ => false,
    }
}

/// Every slice along the dimension `dim` of the row-major array at the start of `before` is divided
/// by the sum over it; `u32` elements are as they were.
pub open spec fn divided<N: FloatOps>(
    before: CpuStorage,
    after: CpuStorage,
    dims: Seq<usize>,
    dim: int,
) -> bool {
    let pre = shape::product(dims.take(dim));
    let per = dims[dim] as nat;
    let post = shape::row_major_stride(dims, dim);
    match (before, after) {
        (CpuStorage::U32(s), CpuStorage::U32(d)) => d == s,
        (CpuStorage::BF16(s), CpuStorage::BF16(d)) => normalize::divided(
            s@,
            d@,
            pre,
            per,
            post,
            |a: F64, x: BF16, b: F64|
                exists|w: F64| #[trigger]
                    call_ensures(N::bf16_to_f64, (x,), w) && call_ensures(N::f64_add, (a, w), b),
            |t: F64, x: BF16| call_ensures(N::bf16_from_f64, (t,), x),
            |x: BF16, y: BF16, r: BF16| r@ == numbers::bf16_quotient(x@, y@),
        ),
        (CpuStorage::F16(s), CpuStorage::F16(d)) => normalize::divided(
            s@,
            d@,
            pre,
            per,
            post,
            |a: F64, x: F16, b: F64|
                exists|w: F64| #[trigger]
                    call_ensures(N::f16_to_f64, (x,), w) && call_ensures(N::f64_add, (a, w), b),
            |t: F64, x: F16| call_ensures(N::f16_from_f64, (t,), x),
            |x: F16, y: F16, r: F16| call_ensures(N::f16_div, (x, y), r),
        ),
        (CpuStorage::F32(s), CpuStorage::F32(d)) => normalize::divided(
            s@,
            d@,
            pre,
            per,
            post,
            |a: F64, x: F32, b: F64|
                exists|w: F64| #[trigger]
                    call_ensures(N::f64_from_f32, (x,), w) && call_ensures(N::f64_add, (a, w), b),
            |t: F64, x: F32| call_ensures(N::f32_from_f64, (t,), x),
            |x: F32, y: F32, r: F32| call_ensures(N::f32_div, (x, y), r),
        ),
        (CpuStorage::F64(s), CpuStorage::F64(d)) => normalize::divided(
            s@,
            d@,
            pre,
            per,
            post,
            |a: F64, x: F64, b: F64| call_ensures(N::f64_add, (a, x), b),
            |t: F64, x: F64| x == t,
            |x: F64, y: F64, r: F64| call_ensures(N::f64_div, (x, y), r),
        ),
        _ => false,
    }
}

/// `out` holds, in row-major order, the elements of the array that stands in `src` as `l` says, each
/// multiplied by `scale` and then increased by `shift`, in the arithmetic of the element type.
pub open spec fn scaled<N: FloatOps>(
    src: CpuStorage,
    l: Layout,
    scale: F64,
    shift: F64,
    out: CpuStorage,
) -> bool {
    match (src, out) {
        (CpuStorage::U32(s), CpuStorage::U32(d)) => exists|x: u32, y: u32|
            {
                &&& #[trigger] call_ensures(N::u32_from_f64, (scale,), x)
                &&& #[trigger] call_ensures(N::u32_from_f64, (shift,), y)
                &&& elementwise::mapped(
                    s@,
                    l,
                    |v: u32, u: u32| u == numbers::wrap_u32(v * x + y),
                    d@,
                )
            },
        (CpuStorage::BF16(s), CpuStorage::BF16(d)) => exists|x: BF16, y: BF16|
            {
                &&& #[trigger] call_ensures(N::bf16_from_f64, (scale,), x)
                &&& #[trigger] call_ensures(N::bf16_from_f64, (shift,), y)
                &&& elementwise::mapped(
                    s@,
                    l,
                    |v: BF16, u: BF16|
                        u@ == numbers::bf16_sum(numbers::bf16_product(v@, x@), y@),
                    d@,
                )
            },
        (CpuStorage::F16(s), CpuStorage::F16(d)) => exists|x: F16, y: F16|
            {
                &&& #[trigger] call_ensures(N::f16_from_f64, (scale,), x)
                &&& #[trigger] call_ensures(N::f16_from_f64, (shift,), y)
                &&& elementwise::mapped(
                    s@,
                    l,
                    |v: F16, u: F16|
                        exists|w: F16| #[trigger]
                            call_ensures(N::f16_mul, (v, x), w) && call_ensures(
                                N::f16_add,
                                (w, y),
                                u,
                            ),
                    d@,
                )
            },
        (CpuStorage::F32(s), CpuStorage::F32(d)) => exists|x: F32, y: F32|
            {
                &&& #[trigger] call_ensures(N::f32_from_f64, (scale,), x)
                &&& #[trigger] call_ensures(N::f32_from_f64, (shift,), y)
                &&& elementwise::mapped(
                    s@,
                    l,
                    |v: F32, u: F32|
                        exists|w: F32| #[trigger]
                            call_ensures(N::f32_mul, (v, x), w) && call_ensures(
                                N::f32_add,
                                (w, y),
                                u,
                            ),
                    d@,
                )
            },
        (CpuStorage::F64(s), CpuStorage::F64(d)) => elementwise::mapped(
            s@,
            l,
            |v: F64, u: F64|
                exists|w: F64| #[trigger]
                    call_ensures(N::f64_mul, (v, scale), w) && call_ensures(
                        N::f64_add,
                        (w, shift),
                        u,
                    ),
            d@,
        ),
        _ => false,
    }
}

/// `out` holds, in row-major order, what `B` makes of the elements of the array that stands in `src`
/// as `l` says.
pub open spec fn unary_mapped<B: UnaryOp>(src: CpuStorage, l: Layout, out: CpuStorage) -> bool {
    match (src, out) {
        (CpuStorage::U32(s), CpuStorage::U32(d)) => elementwise::mapped(
            s@,
            l,
            |v: u32, u: u32| call_ensures(B::map_u32, (v,), u),
            d@,
        ),
        (CpuStorage::BF16(s), CpuStorage::BF16(d)) => elementwise::mapped(
            s@,
            l,
            |v: BF16, u: BF16| call_ensures(B::map_bf16, (v,), u),
            d@,
        ),
        (CpuStorage::F16(s), CpuStorage::F16(d)) => elementwise::mapped(
            s@,
            l,
            |v: F16, u: F16| call_ensures(B::map_f16, (v,), u),
            d@,
        ),
        (CpuStorage::F32(s), CpuStorage::F32(d)) => elementwise::mapped(
            s@,
            l,
            |v: F32, u: F32| call_ensures(B::map_f32, (v,), u),
            d@,
        ),
        (CpuStorage::F64(s), CpuStorage::F64(d)) => elementwise::mapped(
            s@,
            l,
            |v: F64, u: F64| call_ensures(B::map_f64, (v,), u),
            d@,
        ),
        _ => false,
    }
}

/// `out` holds, in row-major order, what `B` makes of the pairs of elements of two arrays of the
/// same element type.
pub open spec fn binary_mapped<B: BinaryOp>(
    lhs: CpuStorage,
    lhs_l: Layout,
    rhs: CpuStorage,
    rhs_l: Layout,
    out: CpuStorage,
) -> bool {
    match (lhs, rhs, out) {
        (CpuStorage::U32(a), CpuStorage::U32(b), CpuStorage::U32(d)) => elementwise::mapped2(
            a@,
            lhs_l,
            b@,
            rhs_l,
            |x: u32, y: u32, u: u32| call_ensures(B::map_u32, (x, y), u),
            d@,
        ),
        (CpuStorage::BF16(a), CpuStorage::BF16(b), CpuStorage::BF16(d)) => elementwise::mapped2(
            a@,
            lhs_l,
            b@,
            rhs_l,
            |x: BF16, y: BF16, u: BF16| call_ensures(B::map_bf16, (x, y), u),
            d@,
        ),
        (CpuStorage::F16(a), CpuStorage::F16(b), CpuStorage::F16(d)) => elementwise::mapped2(
            a@,
            lhs_l,
            b@,
            rhs_l,
            |x: F16, y: F16, u: F16| call_ensures(B::map_f16, (x, y), u),
            d@,
        ),
        (CpuStorage::F32(a), CpuStorage::F32(b), CpuStorage::F32(d)) => elementwise::mapped2(
            a@,
            lhs_l,
            b@,
            rhs_l,
            |x: F32, y: F32, u: F32| call_ensures(B::map_f32, (x, y), u),
            d@,
        ),
        (CpuStorage::F64(a), CpuStorage::F64(b), CpuStorage::F64(d)) => elementwise::mapped2(
            a@,
            lhs_l,
            b@,
            rhs_l,
            |x: F64, y: F64, u: F64| call_ensures(B::map_f64, (x, y), u),
            d@,
        ),
        _ => false,
    }
}

/// `after` is `before` with the elements of the array that stands in `src` as `src_l` says, in
/// row-major order, in the places from `dst_offset` on.
pub open spec fn copied(
    src: CpuStorage,
    src_l: Layout,
    dst_offset: int,
    before: CpuStorage,
    after: CpuStorage,
) -> bool {
    match (src, before, after) {
        (CpuStorage::U32(s), CpuStorage::U32(b), CpuStorage::U32(a)) => elementwise::copied(
            s@,
            src_l,
            dst_offset,
            b@,
            a@,
        ),
        (CpuStorage::BF16(s), CpuStorage::BF16(b), CpuStorage::BF16(a)) => elementwise::copied(
            s@,
            src_l,
            dst_offset,
            b@,
            a@,
        ),
        (CpuStorage::F16(s), CpuStorage::F16(b), CpuStorage::F16(a)) => elementwise::copied(
            s@,
            src_l,
            dst_offset,
            b@,
            a@,
        ),
        (CpuStorage::F32(s), CpuStorage::F32(b), CpuStorage::F32(a)) => elementwise::copied(
            s@,
            src_l,
            dst_offset,
            b@,
            a@,
        ),
        (CpuStorage::F64(s), CpuStorage::F64(b), CpuStorage::F64(a)) => elementwise::copied(
            s@,
            src_l,
            dst_offset,
            b@,
            a@,
        ),
        _ => false,
    }
}

/// `out` holds, in row-major order, the elements of `t` and `f` that the numbers `pred` select.
pub open spec fn where_selected(
    pred: Seq<u32>,
    layout: Layout,
    t: CpuStorage,
    layout_t: Layout,
    f: CpuStorage,
    layout_f: Layout,
    out: CpuStorage,
) -> bool {
    match (t, f, out) {
        (CpuStorage::U32(t), CpuStorage::U32(f), CpuStorage::U32(d)) => elementwise::selection(
            pred,
            layout,
            t@,
            layout_t,
            f@,
            layout_f,
            d@,
        ),
        (CpuStorage::BF16(t), CpuStorage::BF16(f), CpuStorage::BF16(d)) => elementwise::selection(
            pred,
            layout,
            t@,
            layout_t,
            f@,
            layout_f,
            d@,
        ),
        (CpuStorage::F16(t), CpuStorage::F16(f), CpuStorage::F16(d)) => elementwise::selection(
            pred,
            layout,
            t@,
            layout_t,
            f@,
            layout_f,
            d@,
        ),
        (CpuStorage::F32(t), CpuStorage::F32(f), CpuStorage::F32(d)) => elementwise::selection(
            pred,
            layout,
            t@,
            layout_t,
            f@,
            layout_f,
            d@,
        ),
        (CpuStorage::F64(t), CpuStorage::F64(f), CpuStorage::F64(d)) => elementwise::selection(
            pred,
            layout,
            t@,
            layout_t,
            f@,
            layout_f,
            d@,
        ),
        _ => false,
    }
}

/// `out` holds, one after the other, the rows of the table that starts at `start` of `table` which
/// the numbers `ids` select.
pub open spec fn rows_selected(
    ids: Seq<u32>,
    ids_l: Layout,
    hidden_size: usize,
    table: CpuStorage,
    start: int,
    out: CpuStorage,
) -> bool {
    let n = ids_l.count() as int;
    match (table, out) {
        (CpuStorage::U32(t), CpuStorage::U32(d)) => embedding::rows(
            ids,
            ids_l,
            hidden_size,
            t@,
            start,
            n,
            d@,
        ),
        (CpuStorage::BF16(t), CpuStorage::BF16(d)) => embedding::rows(
            ids,
            ids_l,
            hidden_size,
            t@,
            start,
            n,
            d@,
        ),
        (CpuStorage::F16(t), CpuStorage::F16(d)) => embedding::rows(
            ids,
            ids_l,
            hidden_size,
            t@,
            start,
            n,
            d@,
        ),
        (CpuStorage::F32(t), CpuStorage::F32(d)) => embedding::rows(
            ids,
            ids_l,
            hidden_size,
            t@,
            start,
            n,
            d@,
        ),
        (CpuStorage::F64(t), CpuStorage::F64(d)) => embedding::rows(
            ids,
            ids_l,
            hidden_size,
            t@,
            start,
            n,
            d@,
        ),
        _ => false,
    }
}

/// There is a matrix product for elements of this type.
pub open spec fn has_matmul(dtype: DType) -> bool {
    dtype == DType::F16 || dtype == DType::F32 || dtype == DType::F64
}

/// `out` holds, one after the other, the products of the matrices of two batches, each as `K`
/// computes it.
pub open spec fn multiplied<K: Gemm>(
    lhs: CpuStorage,
    rhs: CpuStorage,
    bmnk: (usize, usize, usize, usize),
    lhs_l: Layout,
    rhs_l: Layout,
    out: CpuStorage,
) -> bool {
    match (lhs, rhs, out) {
        (CpuStorage::F16(a), CpuStorage::F16(b), CpuStorage::F16(d)) => matmul::batch_product(
            bmnk,
            lhs_l,
            rhs_l,
            F16 { bits: 0 },
            |c: GemmCall, block: Seq<F16>|
                exists|x: &[F16], y: &[F16], o: Vec<F16>|
                    {
                        &&& x@ == a@
                        &&& y@ == b@
                        &&& #[trigger] call_ensures(K::gemm_f16, (x, y, c), o)
                        &&& o@ == block
                    },
            d@,
        ),
        (CpuStorage::F32(a), CpuStorage::F32(b), CpuStorage::F32(d)) => matmul::batch_product(
            bmnk,
            lhs_l,
            rhs_l,
            F32 { bits: 0 },
            |c: GemmCall, block: Seq<F32>|
                exists|x: &[F32], y: &[F32], o: Vec<F32>|
                    {
                        &&& x@ == a@
                        &&& y@ == b@
                        &&& #[trigger] call_ensures(K::gemm_f32, (x, y, c), o)
                        &&& o@ == block
                    },
            d@,
        ),
        (CpuStorage::F64(a), CpuStorage::F64(b), CpuStorage::F64(d)) => matmul::batch_product(
            bmnk,
            lhs_l,
            rhs_l,
            F64 { bits: 0 },
            |c: GemmCall, block: Seq<F64>|
                exists|x: &[F64], y: &[F64], o: Vec<F64>|
                    {
                        &&& x@ == a@
                        &&& y@ == b@
                        &&& #[trigger] call_ensures(K::gemm_f64, (x, y, c), o)
                        &&& o@ == block
                    },
            d@,
        ),
        _ => false,
    }
}

impl Clone for CpuStorage {
    fn clone(&self) -> (r: Self)
        ensures
            r.same_elements(*self),
    {
        match self {
            Self::U32(vs) => Self::U32(vs.clone()),
            Self::BF16(vs) => Self::BF16(vs.clone()),
            Self::F16(vs) => Self::F16(vs.clone()),
            Self::F32(vs) => Self::F32(vs.clone()),
            Self::F64(vs) => Self::F64(vs.clone()),
        }
    }
}

impl CpuStorage {
    /// The type of the elements.
    pub open spec fn elem_type(self) -> DType {
        match self {
            CpuStorage::U32(_) => DType::U32,
            CpuStorage::BF16(_) => DType::BF16,
            CpuStorage::F16(_) => DType::F16,
            CpuStorage::F32(_) => DType::F32,
            CpuStorage::F64(_) => DType::F64,
        }
    }

    /// The number of elements.
    pub open spec fn len(self) -> nat {
        match self {
            CpuStorage::U32(vs) => vs@.len(),
            CpuStorage::BF16(vs) => vs@.len(),
            CpuStorage::F16(vs) => vs@.len(),
            CpuStorage::F32(vs) => vs@.len(),
            CpuStorage::F64(vs) => vs@.len(),
        }
    }

    /// Both storages hold the same elements, of the same type.
    pub open spec fn same_elements(self, other: Self) -> bool {
        match (self, other) {
            (CpuStorage::U32(a), CpuStorage::U32(b)) => a@ == b@,
            (CpuStorage::BF16(a), CpuStorage::BF16(b)) => a@ == b@,
            (CpuStorage::F16(a), CpuStorage::F16(b)) => a@ == b@,
            (CpuStorage::F32(a), CpuStorage::F32(b)) => a@ == b@,
            (CpuStorage::F64(a), CpuStorage::F64(b)) => a@ == b@,
            _ => false,
        }
    }

    /// Both storages hold the same numbers, of the same type; what is not a number counts as one.
    pub open spec fn same_numbers(self, other: Self) -> bool {
        match (self, other) {
            (CpuStorage::U32(a), CpuStorage::U32(b)) => a@ == b@,
            (CpuStorage::BF16(a), CpuStorage::BF16(b)) => a@.len() == b@.len() && forall|i: int|
                0 <= i < a@.len() ==> (#[trigger] a@[i])@ == b@[i]@,
            (CpuStorage::F16(a), CpuStorage::F16(b)) => a@.len() == b@.len() && forall|i: int|
                0 <= i < a@.len() ==> (#[trigger] a@[i])@ == b@[i]@,
            (CpuStorage::F32(a), CpuStorage::F32(b)) => a@.len() == b@.len() && forall|i: int|
                0 <= i < a@.len() ==> (#[trigger] a@[i])@ == b@[i]@,
            (CpuStorage::F64(a), CpuStorage::F64(b)) => a@.len() == b@.len() && forall|i: int|
                0 <= i < a@.len() ==> (#[trigger] a@[i])@ == b@[i]@,
            _ => false,
        }
    }

    /// Every element is one.
    pub open spec fn all_ones(self) -> bool {
        match self {
            CpuStorage::U32(vs) => forall|i: int|
                0 <= i < vs@.len() ==> #[trigger] vs@[i] == 1,
            CpuStorage::BF16(vs) => forall|i: int|
                0 <= i < vs@.len() ==> #[trigger] vs@[i] == (BF16 { bits: BF16_ONE }),
            CpuStorage::F16(vs) => forall|i: int|
                0 <= i < vs@.len() ==> #[trigger] vs@[i] == (F16 { bits: F16_ONE }),
            CpuStorage::F32(vs) => forall|i: int|
                0 <= i < vs@.len() ==> #[trigger] vs@[i] == (F32 { bits: F32_ONE }),
            CpuStorage::F64(vs) => forall|i: int|
                0 <= i < vs@.len() ==> #[trigger] vs@[i] == (F64 { bits: F64_ONE }),
        }
    }

    /// Every element is zero.
    pub open spec fn all_zeros(self) -> bool {
        match self {
            CpuStorage::U32(vs) => forall|i: int|
                0 <= i < vs@.len() ==> #[trigger] vs@[i] == 0,
            CpuStorage::BF16(vs) => forall|i: int|
                0 <= i < vs@.len() ==> #[trigger] vs@[i] == (BF16 { bits: 0 }),
            CpuStorage::F16(vs) => forall|i: int|
                0 <= i < vs@.len() ==> #[trigger] vs@[i] == (F16 { bits: 0 }),
            CpuStorage::F32(vs) => forall|i: int|
                0 <= i < vs@.len() ==> #[trigger] vs@[i] == (F32 { bits: 0 }),
            CpuStorage::F64(vs) => forall|i: int|
                0 <= i < vs@.len() ==> #[trigger] vs@[i] == (F64 { bits: 0 }),
        }
    }

    /// The type of the elements.
    pub fn dtype(&self) -> (r: DType)
        ensures
            r == self.elem_type(),
    {
        match self {
            Self::U32(_) => DType::U32,
            Self::BF16(_) => DType::BF16,
            Self::F16(_) => DType::F16,
            Self::F32(_) => DType::F32,
            Self::F64(_) => DType::F64,
        }
    }

    /// The elements, or an error if they are not of the type `D`.
    pub fn as_slice<D: WithDType>(&self) -> (r: Result<&[D], Error>)
        ensures
            match r {
                Ok(x) => self.elem_type() == D::DTYPE && D::elements(*self) == Some(x@),
                Err(e) => self.elem_type() != D::DTYPE && D::elements(*self) is None && e == (
                Error::UnexpectedDType { expected: D::DTYPE, got: self.elem_type() }),
            },
    {
        D::cpu_storage_as_slice(self)
    }

    /// The elements of an array, converted to `dtype`, in row-major order.
    pub fn to_dtype<N: FloatOps>(&self, layout: &Layout, dtype: DType) -> (r: Result<Self, Error>)
        requires
            layout.wf(),
            layout.within(self.len() as int),
        ensures
            r matches Ok(out) && converted::<N>(*self, *layout, dtype, out),
    {
        match (self, dtype) {
            (Self::U32(storage), DType::BF16) => {
                let data = elementwise::unary_map(storage, layout, convert::bf16_from_u32::<N>);
                Ok(Self::BF16(data))
            },
            (Self::BF16(storage), DType::BF16) => {
                let data = elementwise::unary_map(storage, layout, convert::identity::<BF16>);
                Ok(Self::BF16(data))
            },
            (Self::F16(storage), DType::BF16) => {
                let data = elementwise::unary_map(storage, layout, convert::bf16_from_f16::<N>);
                Ok(Self::BF16(data))
            },
            (Self::F32(storage), DType::BF16) => {
                let data = elementwise::unary_map(storage, layout, N::bf16_from_f32);
                Ok(Self::BF16(data))
            },
            (Self::F64(storage), DType::BF16) => {
                let data = elementwise::unary_map(storage, layout, N::bf16_from_f64);
                Ok(Self::BF16(data))
            },
            (Self::U32(storage), DType::F16) => {
                let data = elementwise::unary_map(storage, layout, convert::f16_from_u32::<N>);
                Ok(Self::F16(data))
            },
            (Self::BF16(storage), DType::F16) => {
                let data = elementwise::unary_map(storage, layout, convert::f16_from_bf16::<N>);
                Ok(Self::F16(data))
            },
            (Self::F16(storage), DType::F16) => {
                let data = elementwise::unary_map(storage, layout, convert::identity::<F16>);
                Ok(Self::F16(data))
            },
            (Self::F32(storage), DType::F16) => {
                let data = elementwise::unary_map(storage, layout, N::f16_from_f32);
                Ok(Self::F16(data))
            },
            (Self::F64(storage), DType::F16) => {
                let data = elementwise::unary_map(storage, layout, N::f16_from_f64);
                Ok(Self::F16(data))
            },
            (Self::U32(storage), DType::F32) => {
                let data = elementwise::unary_map(storage, layout, N::f32_from_u32);
                Ok(Self::F32(data))
            },
            (Self::BF16(storage), DType::F32) => {
                let data = elementwise::unary_map(storage, layout, N::bf16_to_f32);
                Ok(Self::F32(data))
            },
            (Self::F16(storage), DType::F32) => {
                let data = elementwise::unary_map(storage, layout, N::f16_to_f32);
                Ok(Self::F32(data))
            },
            (Self::F32(storage), DType::F32) => {
                let data = elementwise::unary_map(storage, layout, convert::identity::<F32>);
                Ok(Self::F32(data))
            },
            (Self::F64(storage), DType::F32) => {
                let data = elementwise::unary_map(storage, layout, N::f32_from_f64);
                Ok(Self::F32(data))
            },
            (Self::U32(storage), DType::U32) => {
                let data = elementwise::unary_map(storage, layout, convert::identity::<u32>);
                Ok(Self::U32(data))
            },
            (Self::BF16(storage), DType::U32) => {
                let data = elementwise::unary_map(storage, layout, convert::u32_from_bf16::<N>);
                Ok(Self::U32(data))
            },
            (Self::F16(storage), DType::U32) => {
                let data = elementwise::unary_map(storage, layout, convert::u32_from_f16::<N>);
                Ok(Self::U32(data))
            },
            (Self::F32(storage), DType::U32) => {
                let data = elementwise::unary_map(storage, layout, N::u32_from_f32);
                Ok(Self::U32(data))
            },
            (Self::F64(storage), DType::U32) => {
                let data = elementwise::unary_map(storage, layout, N::u32_from_f64);
                Ok(Self::U32(data))
            },
            (Self::U32(storage), DType::F64) => {
                let data = elementwise::unary_map(storage, layout, N::f64_from_u32);
                Ok(Self::F64(data))
            },
            (Self::BF16(storage), DType::F64) => {
                let data = elementwise::unary_map(storage, layout, N::bf16_to_f64);
                Ok(Self::F64(data))
            },
            (Self::F16(storage), DType::F64) => {
                let data = elementwise::unary_map(storage, layout, N::f16_to_f64);
                Ok(Self::F64(data))
            },
            (Self::F32(storage), DType::F64) => {
                let data = elementwise::unary_map(storage, layout, N::f64_from_f32);
                Ok(Self::F64(data))
            },
            (Self::F64(storage), DType::F64) => {
                let data = elementwise::unary_map(storage, layout, convert::identity::<F64>);
                Ok(Self::F64(data))
            },
        }
    }

    /// The sums over the dimensions `sum_dims` of an array, where no dimension is named twice.
    ///
    /// A dimension that is named again divides the places of the sums by its extent again: a 2 by 2
    /// array summed over `[1, 1]` has its total in the first place of the sums and zero in the second.
    pub fn sum<N: FloatOps>(&self, layout: &Layout, sum_dims: &[usize]) -> (r: Result<Self, Error>)
        requires
            layout.wf(),
            layout.prefix_within(layout.count() as int, self.len() as int),
            forall|i: int|
                0 <= i < sum_dims@.len() ==> #[trigger] sum_dims@[i] < layout.shape.dims@.len(),
        ensures
            r matches Ok(out) && summed::<N>(*self, *layout, sum_dims@, out),
    {
        let sum = Sum::new(layout.dims(), sum_dims);
        let ghost pairs = sum.sum_dims_and_stride@;
        match self {
            Self::U32(vs) => {
                let data = sum.f(vs, layout, 0, numbers::u32_add);
                proof {
                    reduce::lemma_summed_weaken(
                        vs@,
                        *layout,
                        pairs,
                        0,
                        |a: u32, b: u32, r: u32| call_ensures(numbers::u32_add, (a, b), r),
                        |a: u32, b: u32, r: u32| r == numbers::wrap_u32(a + b),
                        data@,
                    );
                }
                Ok(Self::U32(data))
            },
            Self::BF16(vs) => {
                let zero: BF16 = numbers::bf16_zero();
                let data = sum.f(vs, layout, zero, numbers::bf16_add);
                proof {
                    reduce::lemma_summed_weaken(
                        vs@,
                        *layout,
                        pairs,
                        zero,
                        |a: BF16, b: BF16, r: BF16| call_ensures(numbers::bf16_add, (a, b), r),
                        |a: BF16, b: BF16, r: BF16| r@ == numbers::bf16_sum(a@, b@),
                        data@,
                    );
                }
                Ok(Self::BF16(data))
            },
            Self::F16(vs) => Ok(Self::F16(sum.f(vs, layout, F16 { bits: 0 }, N::f16_add))),
            Self::F32(vs) => Ok(Self::F32(sum.f(vs, layout, F32 { bits: 0 }, N::f32_add))),
            Self::F64(vs) => Ok(Self::F64(sum.f(vs, layout, F64 { bits: 0 }, N::f64_add))),
        }
    }

    /// Divides every slice along the dimension `dim` of the row-major array of the given shape at
    /// the start of the storage by the sum over it; `u32` elements stay as they are.
    pub fn divide_by_sum_over_dim<N: FloatOps>(&mut self, shape: &Shape, dim: usize) -> (r: Result<
        (),
        Error,
    >)
        requires
            shape.wf(),
            dim < shape.dims@.len(),
            old(self).elem_type() != DType::U32 ==> shape.count() <= old(self).len(),
        ensures
            r is Ok,
            divided::<N>(*old(self), *final(self), shape.dims@, dim as int),
    {
        let rank: usize = shape.dims.len();
        let elem_per_slice: usize = shape.dims[dim];
        let prod_pre_dim: usize = shape::product_of_run(&shape.dims, 0, dim);
        let prod_post_dim: usize = shape::product_of_run(&shape.dims, dim + 1, rank);
        proof {
            let dims = shape.dims@;
            assert(dims.subrange(0, dim as int) =~= dims.take(dim as int));
            assert(dims.subrange(dim + 1, rank as int) =~= dims.skip(dim + 1));
            reduce::lemma_product_around(dims, dim as int);
            shape::lemma_product_skip(dims, dim as int);
            assert(dims.subrange(dim as int, rank as int) =~= dims.skip(dim as int));
            shape::lemma_product_of_run_le_span(dims, dim as int, rank as int);
        }
        match self {
            Self::BF16(storage) => {
                let ghost before = storage@;
                normalize::divide_by_sums(
                    storage,
                    prod_pre_dim,
                    elem_per_slice,
                    prod_post_dim,
                    N::bf16_to_f64,
                    N::f64_add,
                    N::bf16_from_f64,
                    numbers::bf16_div,
                );
                proof {
                    normalize::lemma_divided_weaken(
                        before,
                        storage@,
                        prod_pre_dim as nat,
                        elem_per_slice as nat,
                        prod_post_dim as nat,
                        |a: F64, x: BF16, b: F64|
                            exists|w: F64| #[trigger]
                                call_ensures(N::bf16_to_f64, (x,), w) && call_ensures(
                                    N::f64_add,
                                    (a, w),
                                    b,
                                ),
                        |t: F64, x: BF16| call_ensures(N::bf16_from_f64, (t,), x),
                        |x: BF16, y: BF16, r: BF16| call_ensures(numbers::bf16_div, (x, y), r),
                        |a: F64, x: BF16, b: F64|
                            exists|w: F64| #[trigger]
                                call_ensures(N::bf16_to_f64, (x,), w) && call_ensures(
                                    N::f64_add,
                                    (a, w),
                                    b,
                                ),
                        |t: F64, x: BF16| call_ensures(N::bf16_from_f64, (t,), x),
                        |x: BF16, y: BF16, r: BF16| r@ == numbers::bf16_quotient(x@, y@),
                    );
                }
            },
            Self::F16(storage) => {
                normalize::divide_by_sums(
                    storage,
                    prod_pre_dim,
                    elem_per_slice,
                    prod_post_dim,
                    N::f16_to_f64,
                    N::f64_add,
                    N::f16_from_f64,
                    N::f16_div,
                );
            },
            Self::F32(storage) => {
                normalize::divide_by_sums(
                    storage,
                    prod_pre_dim,
                    elem_per_slice,
                    prod_post_dim,
                    N::f64_from_f32,
                    N::f64_add,
                    N::f32_from_f64,
                    N::f32_div,
                );
            },
            Self::F64(storage) => {
                let ghost before = storage@;
                normalize::divide_by_sums(
                    storage,
                    prod_pre_dim,
                    elem_per_slice,
                    prod_post_dim,
                    convert::identity::<F64>,
                    N::f64_add,
                    convert::identity::<F64>,
                    N::f64_div,
                );
                proof {
                    normalize::lemma_divided_weaken(
                        before,
                        storage@,
                        prod_pre_dim as nat,
                        elem_per_slice as nat,
                        prod_post_dim as nat,
                        |a: F64, x: F64, b: F64|
                            exists|w: F64| #[trigger]
                                call_ensures(convert::identity::<F64>, (x,), w) && call_ensures(
                                    N::f64_add,
                                    (a, w),
                                    b,
                                ),
                        |t: F64, x: F64| call_ensures(convert::identity::<F64>, (t,), x),
                        |x: F64, y: F64, r: F64| call_ensures(N::f64_div, (x, y), r),
                        |a: F64, x: F64, b: F64| call_ensures(N::f64_add, (a, x), b),
                        |t: F64, x: F64| x == t,
                        |x: F64, y: F64, r: F64| call_ensures(N::f64_div, (x, y), r),
                    );
                }
            },
            Self::U32(_) => {},
        }
        Ok(())
    }

    /// Multiplies the elements of an array by `scale` and adds `shift`, in the arithmetic of the element
    /// type; `u32` elements are taken modulo 2^32.
    pub fn affine<N: FloatOps>(&self, layout: &Layout, scale: F64, shift: F64) -> (r: Result<
        Self,
        Error,
    >)
        requires
            layout.wf(),
            layout.within(self.len() as int),
        ensures
            r matches Ok(out) && scaled::<N>(*self, *layout, scale, shift, out),
    {
        match self {
            Self::U32(vs) => {
                let x: u32 = N::u32_from_f64(scale);
                let y: u32 = N::u32_from_f64(shift);
                let f = |v: u32| -> (u: u32)
                    ensures
                        u == numbers::wrap_u32(v * x + y),
                {
                    proof {
                        vstd::arithmetic::div_mod::lemma_add_mod_noop(
                            v * x,
                            y as int,
                            0x1_0000_0000,
                        );
                    }
                    numbers::u32_add(numbers::u32_mul(v, x), y)
                };
                Ok(Self::U32(elementwise::unary_map(vs, layout, f)))
            },
            Self::BF16(vs) => {
                let x: BF16 = N::bf16_from_f64(scale);
                let y: BF16 = N::bf16_from_f64(shift);
                let f = |v: BF16| -> (u: BF16)
                    ensures
                        u@ == numbers::bf16_sum(numbers::bf16_product(v@, x@), y@),
                {
                    numbers::bf16_add(numbers::bf16_mul(v, x), y)
                };
                Ok(Self::BF16(elementwise::unary_map(vs, layout, f)))
            },
            Self::F16(vs) => {
                let x: F16 = N::f16_from_f64(scale);
                let y: F16 = N::f16_from_f64(shift);
                let f = |v: F16| -> (u: F16)
                    ensures
                        exists|w: F16| #[trigger]
                            call_ensures(N::f16_mul, (v, x), w) && call_ensures(
                                N::f16_add,
                                (w, y),
                                u,
                            ),
                {
                    N::f16_add(N::f16_mul(v, x), y)
                };
                Ok(Self::F16(elementwise::unary_map(vs, layout, f)))
            },
            Self::F32(vs) => {
                let x: F32 = N::f32_from_f64(scale);
                let y: F32 = N::f32_from_f64(shift);
                let f = |v: F32| -> (u: F32)
                    ensures
                        exists|w: F32| #[trigger]
                            call_ensures(N::f32_mul, (v, x), w) && call_ensures(
                                N::f32_add,
                                (w, y),
                                u,
                            ),
                {
                    N::f32_add(N::f32_mul(v, x), y)
                };
                Ok(Self::F32(elementwise::unary_map(vs, layout, f)))
            },
            Self::F64(vs) => {
                let f = |v: F64| -> (u: F64)
                    ensures
                        exists|w: F64| #[trigger]
                            call_ensures(N::f64_mul, (v, scale), w) && call_ensures(
                                N::f64_add,
                                (w, shift),
                                u,
                            ),
                {
                    N::f64_add(N::f64_mul(v, scale), shift)
                };
                Ok(Self::F64(elementwise::unary_map(vs, layout, f)))
            },
        }
    }

    /// Applies `B` to the elements of an array.
    pub fn unary_impl<B: UnaryOp>(&self, layout: &Layout) -> (r: Result<Self, Error>)
        requires
            layout.wf(),
            layout.within(self.len() as int),
        ensures
            r matches Ok(out) && unary_mapped::<B>(*self, *layout, out),
    {
        match self {
            Self::BF16(vs) => Ok(Self::BF16(elementwise::unary_map(vs, layout, B::map_bf16))),
            Self::F16(vs) => Ok(Self::F16(elementwise::unary_map(vs, layout, B::map_f16))),
            Self::F32(vs) => Ok(Self::F32(elementwise::unary_map(vs, layout, B::map_f32))),
            Self::F64(vs) => Ok(Self::F64(elementwise::unary_map(vs, layout, B::map_f64))),
            Self::U32(vs) => Ok(Self::U32(elementwise::unary_map(vs, layout, B::map_u32))),
        }
    }

    /// Applies `B` to the pairs of elements of two arrays, up to the end of the shorter one.
    pub fn binary_impl<B: BinaryOp>(&self, rhs: &Self, lhs_l: &Layout, rhs_l: &Layout) -> (r: Result<
        Self,
        Error,
    >)
        requires
            self.elem_type() == rhs.elem_type() ==> lhs_l.wf() && rhs_l.wf()
                && elementwise::pair_within(*lhs_l, self.len(), *rhs_l, rhs.len()),
        ensures
            match r {
                Ok(out) => binary_mapped::<B>(*self, *lhs_l, *rhs, *rhs_l, out),
                Err(e) => self.elem_type() != rhs.elem_type() && e == (
                Error::DTypeMismatchBinaryOp {
                    lhs: self.elem_type(),
                    rhs: rhs.elem_type(),
                    op: B::NAME,
                }),
            },
    {
        match (self, rhs) {
            (Self::BF16(lhs), Self::BF16(rhs)) => {
                Ok(Self::BF16(elementwise::binary_map(lhs_l, rhs_l, lhs, rhs, B::map_bf16)))
            },
            (Self::F16(lhs), Self::F16(rhs)) => {
                Ok(Self::F16(elementwise::binary_map(lhs_l, rhs_l, lhs, rhs, B::map_f16)))
            },
            (Self::F32(lhs), Self::F32(rhs)) => {
                Ok(Self::F32(elementwise::binary_map(lhs_l, rhs_l, lhs, rhs, B::map_f32)))
            },
            (Self::F64(lhs), Self::F64(rhs)) => {
                Ok(Self::F64(elementwise::binary_map(lhs_l, rhs_l, lhs, rhs, B::map_f64)))
            },
            (Self::U32(lhs), Self::U32(rhs)) => {
                Ok(Self::U32(elementwise::binary_map(lhs_l, rhs_l, lhs, rhs, B::map_u32)))
            },
            _ => Err(
                Error::DTypeMismatchBinaryOp { lhs: self.dtype(), rhs: rhs.dtype(), op: B::NAME },
            ),
        }
    }

    /// Copies the elements of an array, in row-major order, to the places of `dst` from `dst_offset`
    /// on.
    pub fn copy_strided_src(&self, dst: &mut Self, dst_offset: usize, src_l: &Layout) -> (r: Result<
        (),
        Error,
    >)
        requires
            self.elem_type() == old(dst).elem_type() ==> src_l.wf() && elementwise::copy_within(
                self.len(),
                old(dst).len(),
                dst_offset as int,
                *src_l,
            ),
        ensures
            match r {
                Ok(_) => copied(*self, *src_l, dst_offset as int, *old(dst), *final(dst)),
                Err(e) => *final(dst) == *old(dst) && self.elem_type() != old(dst).elem_type()
                    && e == (Error::DTypeMismatchBinaryOp {
                    lhs: self.elem_type(),
                    rhs: old(dst).elem_type(),
                    op: "copy_strided",
                }),
            },
    {
        let lhs: DType = self.dtype();
        let rhs: DType = dst.dtype();
        match (self, dst) {
            (Self::U32(src), Self::U32(dst)) => {
                elementwise::copy_strided_src_(src, dst, dst_offset, src_l);
                Ok(())
            },
            (Self::BF16(src), Self::BF16(dst)) => {
                elementwise::copy_strided_src_(src, dst, dst_offset, src_l);
                Ok(())
            },
            (Self::F16(src), Self::F16(dst)) => {
                elementwise::copy_strided_src_(src, dst, dst_offset, src_l);
                Ok(())
            },
            (Self::F32(src), Self::F32(dst)) => {
                elementwise::copy_strided_src_(src, dst, dst_offset, src_l);
                Ok(())
            },
            (Self::F64(src), Self::F64(dst)) => {
                elementwise::copy_strided_src_(src, dst, dst_offset, src_l);
                Ok(())
            },
            _ => Err(Error::DTypeMismatchBinaryOp { lhs, rhs, op: "copy_strided" }),
        }
    }

    /// Selects from `t` where this array of `u32` numbers is not zero and from `f` where it is zero.
    pub fn where_cond(
        &self,
        layout: &Layout,
        t: &Self,
        layout_t: &Layout,
        f: &Self,
        layout_f: &Layout,
    ) -> (r: Result<Self, Error>)
        requires
            t.elem_type() == f.elem_type() ==> (<u32 as WithDType>::elements(*self) matches Some(
                pred,
            ) ==> layout.wf() && layout_t.wf() && layout_f.wf() && elementwise::wcond_within(
                pred,
                *layout,
                t.len(),
                *layout_t,
                f.len(),
                *layout_f,
            )),
        ensures
            match <u32 as WithDType>::elements(*self) {
                Some(pred) => match r {
                    Ok(out) => where_selected(pred, *layout, *t, *layout_t, *f, *layout_f, out),
                    Err(e) => t.elem_type() != f.elem_type() && e == (
                    Error::DTypeMismatchBinaryOp {
                        lhs: t.elem_type(),
                        rhs: f.elem_type(),
                        op: "where_cond",
                    }),
                },
                None => r == Err::<Self, Error>(
                    Error::UnexpectedDType { expected: DType::U32, got: self.elem_type() },
                ),
            },
    {
        let pred: &[u32] = match self.as_slice::<u32>() {
            Ok(pred) => pred,
            Err(e) => {
                return Err(e);
            },
        };
        match (t, f) {
            (Self::BF16(t), Self::BF16(f)) => {
                Ok(Self::BF16(elementwise::wcond(pred, layout, t, layout_t, f, layout_f)))
            },
            (Self::F16(t), Self::F16(f)) => {
                Ok(Self::F16(elementwise::wcond(pred, layout, t, layout_t, f, layout_f)))
            },
            (Self::F32(t), Self::F32(f)) => {
                Ok(Self::F32(elementwise::wcond(pred, layout, t, layout_t, f, layout_f)))
            },
            (Self::F64(t), Self::F64(f)) => {
                Ok(Self::F64(elementwise::wcond(pred, layout, t, layout_t, f, layout_f)))
            },
            (Self::U32(t), Self::U32(f)) => {
                Ok(Self::U32(elementwise::wcond(pred, layout, t, layout_t, f, layout_f)))
            },
            _ => Err(
                Error::DTypeMismatchBinaryOp { lhs: t.dtype(), rhs: f.dtype(), op: "where_cond" },
            ),
        }
    }

    /// Selects the rows of the table `rhs` that this array of `u32` numbers names.
    pub fn embedding(&self, ids_l: &Layout, rhs: &Self, rhs_l: &Layout) -> (r: Result<Self, Error>)
        requires
            rhs_l.shape.dims@.len() == 2 ==> (<u32 as WithDType>::elements(*self) matches Some(
                ids,
            ) ==> ids_l.wf() && embedding::rows_within(
                ids,
                *ids_l,
                rhs_l.shape.dims@[0],
                rhs_l.shape.dims@[1],
                rhs_l.start_offset as int,
                rhs.len() as int,
            )),
        ensures
            match <u32 as WithDType>::elements(*self) {
                Some(ids) => if rhs_l.shape.dims@.len() == 2 {
                    let vocab_size = rhs_l.shape.dims@[0];
                    let hidden_size = rhs_l.shape.dims@[1];
                    match r {
                        Ok(out) => {
                            &&& embedding::valid_before(
                                ids,
                                *ids_l,
                                vocab_size,
                                ids_l.count() as int,
                            )
                            &&& rows_selected(
                                ids,
                                *ids_l,
                                hidden_size,
                                *rhs,
                                rhs_l.start_offset as int,
                                out,
                            )
                        },
                        Err(e) => embedding::first_invalid(ids, *ids_l, vocab_size, e),
                    }
                } else {
                    r matches Err(Error::UnexpectedNumberOfDims { expected, got, shape })
                        && expected == 2 && got == rhs_l.shape.dims@.len() && shape.dims@
                        == rhs_l.shape.dims@
                },
                None => r == Err::<Self, Error>(
                    Error::UnexpectedDType { expected: DType::U32, got: self.elem_type() },
                ),
            },
    {
        let ids: &[u32] = match self.as_slice::<u32>() {
            Ok(ids) => ids,
            Err(e) => {
                return Err(e);
            },
        };
        let (vocab_size, hidden_size) = match rhs_l.shape.r2() {
            Ok(size) => size,
            Err(e) => {
                return Err(e);
            },
        };
        let rows = Embedding { vocab_size, hidden_size, ids, ids_l };
        match rhs {
            Self::U32(vs) => match rows.f(vs, rhs_l) {
                Ok(data) => Ok(Self::U32(data)),
                Err(e) => Err(e),
            },
            Self::BF16(vs) => match rows.f(vs, rhs_l) {
                Ok(data) => Ok(Self::BF16(data)),
                Err(e) => Err(e),
            },
            Self::F16(vs) => match rows.f(vs, rhs_l) {
                Ok(data) => Ok(Self::F16(data)),
                Err(e) => Err(e),
            },
            Self::F32(vs) => match rows.f(vs, rhs_l) {
                Ok(data) => Ok(Self::F32(data)),
                Err(e) => Err(e),
            },
            Self::F64(vs) => match rows.f(vs, rhs_l) {
                Ok(data) => Ok(Self::F64(data)),
                Err(e) => Err(e),
            },
        }
    }

    /// Multiplies the matrices of two batches with `K`: `bmnk` holds the number of products, the rows
    /// of the left matrices, the columns of the right ones and what both have in common.
    pub fn matmul<K: Gemm>(
        &self,
        rhs: &Self,
        bmnk: (usize, usize, usize, usize),
        lhs_l: &Layout,
        rhs_l: &Layout,
    ) -> (r: Result<Self, Error>)
        requires
            self.elem_type() == rhs.elem_type() && has_matmul(self.elem_type())
                ==> matmul::matmul_within(
                bmnk,
                *lhs_l,
                self.len() as int,
                *rhs_l,
                rhs.len() as int,
            ),
        ensures
            if self.elem_type() == rhs.elem_type() && has_matmul(self.elem_type()) {
                if matmul::batch_striding(
                    lhs_l.stride@,
                    rhs_l.stride@,
                    bmnk.1 * bmnk.3,
                    bmnk.2 * bmnk.3,
                ) {
                    r matches Ok(out) && multiplied::<K>(*self, *rhs, bmnk, *lhs_l, *rhs_l, out)
                } else {
                    r == Err::<Self, Error>(Error::UnexpectedStriding)
                }
            } else {
                r == Err::<Self, Error>(
                    Error::DTypeMismatchBinaryOp {
                        lhs: self.elem_type(),
                        rhs: rhs.elem_type(),
                        op: "matmul",
                    },
                )
            },
    {
        match (self, rhs) {
            (Self::F16(lhs), Self::F16(rhs)) => {
                let x: &[F16] = lhs.as_slice();
                let y: &[F16] = rhs.as_slice();
                match matmul::matmul(
                    x,
                    y,
                    bmnk,
                    lhs_l,
                    rhs_l,
                    F16 { bits: 0 },
                    K::gemm_f16,
                ) {
                    Ok(dst) => {
                        proof {
                            matmul::lemma_batch_product_weaken(
                                bmnk,
                                *lhs_l,
                                *rhs_l,
                                F16 { bits: 0 },
                                |c: GemmCall, block: Seq<F16>|
                                    exists|o: Vec<F16>| #[trigger]
                                        call_ensures(K::gemm_f16, (x, y, c), o) && o@ == block,
                                |c: GemmCall, block: Seq<F16>|
                                    exists|x: &[F16], y: &[F16], o: Vec<F16>|
                                        {
                                            &&& x@ == lhs@
                                            &&& y@ == rhs@
                                            &&& #[trigger] call_ensures(K::gemm_f16, (x, y, c), o)
                                            &&& o@ == block
                                        },
                                dst@,
                            );
                        }
                        Ok(Self::F16(dst))
                    },
                    Err(e) => Err(e),
                }
            },
            (Self::F32(lhs), Self::F32(rhs)) => {
                let x: &[F32] = lhs.as_slice();
                let y: &[F32] = rhs.as_slice();
                match matmul::matmul(
                    x,
                    y,
                    bmnk,
                    lhs_l,
                    rhs_l,
                    F32 { bits: 0 },
                    K::gemm_f32,
                ) {
                    Ok(dst) => {
                        proof {
                            matmul::lemma_batch_product_weaken(
                                bmnk,
                                *lhs_l,
                                *rhs_l,
                                F32 { bits: 0 },
                                |c: GemmCall, block: Seq<F32>|
                                    exists|o: Vec<F32>| #[trigger]
                                        call_ensures(K::gemm_f32, (x, y, c), o) && o@ == block,
                                |c: GemmCall, block: Seq<F32>|
                                    exists|x: &[F32], y: &[F32], o: Vec<F32>|
                                        {
                                            &&& x@ == lhs@
                                            &&& y@ == rhs@
                                            &&& #[trigger] call_ensures(K::gemm_f32, (x, y, c), o)
                                            &&& o@ == block
                                        },
                                dst@,
                            );
                        }
                        Ok(Self::F32(dst))
                    },
                    Err(e) => Err(e),
                }
            },
            (Self::F64(lhs), Self::F64(rhs)) => {
                let x: &[F64] = lhs.as_slice();
                let y: &[F64] = rhs.as_slice();
                match matmul::matmul(
                    x,
                    y,
                    bmnk,
                    lhs_l,
                    rhs_l,
                    F64 { bits: 0 },
                    K::gemm_f64,
                ) {
                    Ok(dst) => {
                        proof {
                            matmul::lemma_batch_product_weaken(
                                bmnk,
                                *lhs_l,
                                *rhs_l,
                                F64 { bits: 0 },
                                |c: GemmCall, block: Seq<F64>|
                                    exists|o: Vec<F64>| #[trigger]
                                        call_ensures(K::gemm_f64, (x, y, c), o) && o@ == block,
                                |c: GemmCall, block: Seq<F64>|
                                    exists|x: &[F64], y: &[F64], o: Vec<F64>|
                                        {
                                            &&& x@ == lhs@
                                            &&& y@ == rhs@
                                            &&& #[trigger] call_ensures(K::gemm_f64, (x, y, c), o)
                                            &&& o@ == block
                                        },
                                dst@,
                            );
                        }
                        Ok(Self::F64(dst))
                    },
                    Err(e) => Err(e),
                }
            },
            _ => Err(
                Error::DTypeMismatchBinaryOp { lhs: self.dtype(), rhs: rhs.dtype(), op: "matmul" },
            ),
        }
    }

    /// A storage of `shape.elem_count()` ones.
    pub fn ones_impl(shape: &Shape, dtype: DType) -> (r: Self)
        requires
            shape.wf(),
        ensures
            r.elem_type() == dtype,
            r.len() == shape.count(),
            r.all_ones(),
    {
        let elem_count: usize = shape.elem_count();
        match dtype {
            DType::U32 => Self::U32(reduce::filled(1u32, elem_count)),
            DType::BF16 => Self::BF16(reduce::filled(numbers::bf16_one(), elem_count)),
            DType::F16 => Self::F16(reduce::filled(F16 { bits: F16_ONE }, elem_count)),
            DType::F32 => Self::F32(reduce::filled(F32 { bits: F32_ONE }, elem_count)),
            DType::F64 => Self::F64(reduce::filled(F64 { bits: F64_ONE }, elem_count)),
        }
    }

    /// A storage of `shape.elem_count()` zeros.
    pub fn zeros_impl(shape: &Shape, dtype: DType) -> (r: Self)
        requires
            shape.wf(),
        ensures
            r.elem_type() == dtype,
            r.len() == shape.count(),
            r.all_zeros(),
    {
        let elem_count: usize = shape.elem_count();
        match dtype {
            DType::U32 => Self::U32(reduce::filled(0u32, elem_count)),
            DType::BF16 => Self::BF16(reduce::filled(numbers::bf16_zero(), elem_count)),
            DType::F16 => Self::F16(reduce::filled(F16 { bits: 0 }, elem_count)),
            DType::F32 => Self::F32(reduce::filled(F32 { bits: 0 }, elem_count)),
            DType::F64 => Self::F64(reduce::filled(F64 { bits: 0 }, elem_count)),
        }
    }
}

/// The conversion of a contiguous array that takes up its whole storage to the type that it has
/// changes nothing.
pub proof fn lemma_convert_to_own_type<N: FloatOps>(src: CpuStorage, l: Layout, r: CpuStorage)
    requires
        converted::<N>(src, l, src.elem_type(), r),
        l.contiguous(),
        l.start_offset == 0,
        l.count() == src.len(),
    ensures
        r.same_elements(src),
{
    layout::lemma_contiguous_end(l);
    assert forall|k: int| 0 <= k < l.count() implies #[trigger] l.index(k) == k by {}
    match (src, r) {
        (CpuStorage::U32(s), CpuStorage::U32(d)) => assert(d@ =~= s@),
        (CpuStorage::BF16(s), CpuStorage::BF16(d)) => assert(d@ =~= s@),
        (CpuStorage::F16(s), CpuStorage::F16(d)) => assert(d@ =~= s@),
        (CpuStorage::F32(s), CpuStorage::F32(d)) => assert(d@ =~= s@),
        (CpuStorage::F64(s), CpuStorage::F64(d)) => assert(d@ =~= s@),
        _ => {},
    }
}

/// The order in which the dimensions are named does not matter for the sums over them.
pub proof fn lemma_sum_order<N: FloatOps>(
    src: CpuStorage,
    l: Layout,
    a: Seq<usize>,
    b: Seq<usize>,
    out: CpuStorage,
)
    requires
        a.to_multiset() == b.to_multiset(),
    ensures
        summed::<N>(src, l, a, out) <==> summed::<N>(src, l, b, out),
{
    reduce::lemma_sum_order(l.shape.dims@, a, b);
}

/// What comes out of an operation has the element type of what went in, and an element for each that
/// the operation read.
pub proof fn lemma_results<N: FloatOps, U: UnaryOp, B: BinaryOp>(
    a: CpuStorage,
    a_l: Layout,
    b: CpuStorage,
    b_l: Layout,
    sum_dims: Seq<usize>,
    scale: F64,
    shift: F64,
    out: CpuStorage,
)
    ensures
        summed::<N>(a, a_l, sum_dims, out) ==> out.elem_type() == a.elem_type(),
        scaled::<N>(a, a_l, scale, shift, out) ==> out.elem_type() == a.elem_type() && out.len()
            == a_l.count(),
        unary_mapped::<U>(a, a_l, out) ==> out.elem_type() == a.elem_type() && out.len()
            == a_l.count(),
        binary_mapped::<B>(a, a_l, b, b_l, out) ==> out.elem_type() == a.elem_type()
            && b.elem_type() == a.elem_type() && out.len() == elementwise::min(a_l.count(), b_l.count()),
{
}

/// The element type of each type that elements can have.
pub proof fn lemma_dtypes()
    ensures
        <u32 as WithDType>::DTYPE == DType::U32,
        <BF16 as WithDType>::DTYPE == DType::BF16,
        <F16 as WithDType>::DTYPE == DType::F16,
        <F32 as WithDType>::DTYPE == DType::F32,
        <F64 as WithDType>::DTYPE == DType::F64,
{
}

/// To convert an array and to convert a compact copy of it is the same.
pub proof fn lemma_convert_copy<N: FloatOps>(
    src: CpuStorage,
    l: Layout,
    c: CpuStorage,
    c_l: Layout,
    dtype: DType,
    r: CpuStorage,
)
    requires
        converted::<N>(src, l, src.elem_type(), c),
        c_l.contiguous(),
        c_l.start_offset == 0,
        c_l.count() == l.count(),
    ensures
        converted::<N>(c, c_l, dtype, r) <==> converted::<N>(src, l, dtype, r),
{
    layout::lemma_contiguous_end(c_l);
    assert forall|k: int| 0 <= k < l.count() implies #[trigger] c_l.index(k) == k by {}
    match (src, c) {
        (CpuStorage::U32(s), CpuStorage::U32(d)) => {
            assert(forall|k: int|
                0 <= k < l.count() ==> elementwise::element(d@, c_l, k) == elementwise::element(s@, l, k));
        },
        (CpuStorage::BF16(s), CpuStorage::BF16(d)) => {
            assert(forall|k: int|
                0 <= k < l.count() ==> elementwise::element(d@, c_l, k) == elementwise::element(s@, l, k));
        },
        (CpuStorage::F16(s), CpuStorage::F16(d)) => {
            assert(forall|k: int|
                0 <= k < l.count() ==> elementwise::element(d@, c_l, k) == elementwise::element(s@, l, k));
        },
        (CpuStorage::F32(s), CpuStorage::F32(d)) => {
            assert(forall|k: int|
                0 <= k < l.count() ==> elementwise::element(d@, c_l, k) == elementwise::element(s@, l, k));
        },
        (CpuStorage::F64(s), CpuStorage::F64(d)) => {
            assert(forall|k: int|
                0 <= k < l.count() ==> elementwise::element(d@, c_l, k) == elementwise::element(s@, l, k));
        },
        _ => {},
    }
}

/// The addition of the numbers of a type, as `N` supplies it, is a function of the numbers: what is not
/// a number counts as one number.
pub open spec fn addition_is_function<N: FloatOps>(dtype: DType) -> bool {
    match dtype {
        DType::F16 => forall|a: F16, b: F16, x: F16, r: F16, s: F16|
            a@ == b@ && #[trigger] call_ensures(N::f16_add, (a, x), r)
                && #[trigger] call_ensures(N::f16_add, (b, x), s) ==> r@ == s@,
        DType::F32 => forall|a: F32, b: F32, x: F32, r: F32, s: F32|
            a@ == b@ && #[trigger] call_ensures(N::f32_add, (a, x), r)
                && #[trigger] call_ensures(N::f32_add, (b, x), s) ==> r@ == s@,
        DType::F64 => forall|a: F64, b: F64, x: F64, r: F64, s: F64|
            a@ == b@ && #[trigger] call_ensures(N::f64_add, (a, x), r)
                && #[trigger] call_ensures(N::f64_add, (b, x), s) ==> r@ == s@,
        _ => true,
    }
}

/// The order in which the dimensions are named does not change the sums over them, if the addition
/// is a function: both have the same numbers.
pub proof fn lemma_sum_order_same_numbers<N: FloatOps>(
    src: CpuStorage,
    l: Layout,
    a: Seq<usize>,
    b: Seq<usize>,
    out_a: CpuStorage,
    out_b: CpuStorage,
)
    requires
        a.to_multiset() == b.to_multiset(),
        summed::<N>(src, l, a, out_a),
        summed::<N>(src, l, b, out_b),
        addition_is_function::<N>(src.elem_type()),
    ensures
        out_a.same_numbers(out_b),
{
    reduce::lemma_sum_order(l.shape.dims@, a, b);
    let pairs = reduce::sum_pairs(l.shape.dims@, reduce::sorted(a));
    match (src, out_a, out_b) {
        (CpuStorage::U32(s), CpuStorage::U32(x), CpuStorage::U32(y)) => {
            reduce::lemma_summed_unique(
                s@,
                l,
                pairs,
                0,
                |a: u32, b: u32, r: u32| r == numbers::wrap_u32(a + b),
                |v: u32| v,
                x@,
                y@,
            );
            assert forall|i: int| 0 <= i < x@.len() implies #[trigger] x@[i] == y@[i] by {}
            assert(x@ =~= y@);
        },
        (CpuStorage::BF16(s), CpuStorage::BF16(x), CpuStorage::BF16(y)) => {
            reduce::lemma_summed_unique(
                s@,
                l,
                pairs,
                BF16 { bits: 0 },
                |a: BF16, b: BF16, r: BF16| r@ == numbers::bf16_sum(a@, b@),
                |v: BF16| v@,
                x@,
                y@,
            );
            assert forall|i: int| 0 <= i < x@.len() implies (#[trigger] x@[i])@ == y@[i]@ by {}
        },
        (CpuStorage::F16(s), CpuStorage::F16(x), CpuStorage::F16(y)) => {
            reduce::lemma_summed_unique(
                s@,
                l,
                pairs,
                F16 { bits: 0 },
                |a: F16, b: F16, r: F16| call_ensures(N::f16_add, (a, b), r),
                |v: F16| v@,
                x@,
                y@,
            );
            assert forall|i: int| 0 <= i < x@.len() implies (#[trigger] x@[i])@ == y@[i]@ by {}
        },
        (CpuStorage::F32(s), CpuStorage::F32(x), CpuStorage::F32(y)) => {
            reduce::lemma_summed_unique(
                s@,
                l,
                pairs,
                F32 { bits: 0 },
                |a: F32, b: F32, r: F32| call_ensures(N::f32_add, (a, b), r),
                |v: F32| v@,
                x@,
                y@,
            );
            assert forall|i: int| 0 <= i < x@.len() implies (#[trigger] x@[i])@ == y@[i]@ by {}
        },
        (CpuStorage::F64(s), CpuStorage::F64(x), CpuStorage::F64(y)) => {
            reduce::lemma_summed_unique(
                s@,
                l,
                pairs,
                F64 { bits: 0 },
                |a: F64, b: F64, r: F64| call_ensures(N::f64_add, (a, b), r),
                |v: F64| v@,
                x@,
                y@,
            );
            assert forall|i: int| 0 <= i < x@.len() implies (#[trigger] x@[i])@ == y@[i]@ by {}
        },
        _ => {},
    }
}

/// The conversion from one type to a wider one, as `N` supplies it, is undone by the conversion back:
/// of every number, or of the `u32` numbers up to 2^24 if the wider type is `F32`.
pub open spec fn conversion_is_undone<N: FloatOps>(from: DType, to: DType) -> bool {
    match (from, to) {
        (DType::U32, DType::F32) => forall|v: u32, w: F32, u: u32|
            v <= 0x100_0000 && #[trigger] call_ensures(N::f32_from_u32, (v,), w) && #[trigger] call_ensures(
                N::u32_from_f32,
                (w,),
                u,
            ) ==> u == v,
        (DType::U32, DType::F64) => forall|v: u32, w: F64, u: u32|
            #[trigger] call_ensures(N::f64_from_u32, (v,), w) && #[trigger] call_ensures(
                N::u32_from_f64,
                (w,),
                u,
            ) ==> u == v,
        (DType::BF16, DType::F32) => forall|v: BF16, w: F32, u: BF16|
            v@ is Some && #[trigger] call_ensures(N::bf16_to_f32, (v,), w) && #[trigger] call_ensures(
                N::bf16_from_f32,
                (w,),
                u,
            ) ==> u == v,
        (DType::BF16, DType::F64) => forall|v: BF16, w: F64, u: BF16|
            v@ is Some && #[trigger] call_ensures(N::bf16_to_f64, (v,), w) && #[trigger] call_ensures(
                N::bf16_from_f64,
                (w,),
                u,
            ) ==> u == v,
        (DType::F16, DType::F32) => forall|v: F16, w: F32, u: F16|
            v@ is Some && #[trigger] call_ensures(N::f16_to_f32, (v,), w) && #[trigger] call_ensures(
                N::f16_from_f32,
                (w,),
                u,
            ) ==> u == v,
        (DType::F16, DType::F64) => forall|v: F16, w: F64, u: F16|
            v@ is Some && #[trigger] call_ensures(N::f16_to_f64, (v,), w) && #[trigger] call_ensures(
                N::f16_from_f64,
                (w,),
                u,
            ) ==> u == v,
        (DType::F32, DType::F64) => forall|v: F32, w: F64, u: F32|
            v@ is Some && #[trigger] call_ensures(N::f64_from_f32, (v,), w) && #[trigger] call_ensures(
                N::f32_from_f64,
                (w,),
                u,
            ) ==> u == v,
        _ => false,
    }
}

/// The elements of an array are numbers, and numbers up to 2^24 if they are `u32` and go to `F32`.
pub open spec fn widens(src: CpuStorage, l: Layout, to: DType) -> bool {
    match src {
        CpuStorage::U32(s) => to == DType::F32 ==> forall|k: int|
            0 <= k < l.count() ==> #[trigger] elementwise::element(s@, l, k) <= 0x100_0000,
        CpuStorage::BF16(s) => forall|k: int|
            0 <= k < l.count() ==> (#[trigger] elementwise::element(s@, l, k))@ is Some,
        CpuStorage::F16(s) => forall|k: int|
            0 <= k < l.count() ==> (#[trigger] elementwise::element(s@, l, k))@ is Some,
        CpuStorage::F32(s) => forall|k: int|
            0 <= k < l.count() ==> (#[trigger] elementwise::element(s@, l, k))@ is Some,
        CpuStorage::F64(s) => forall|k: int|
            0 <= k < l.count() ==> (#[trigger] elementwise::element(s@, l, k))@ is Some,
    }
}

/// To convert numbers to a wider type and back is to copy them, if the conversions undo each other.
pub proof fn lemma_convert_there_and_back<N: FloatOps>(
    src: CpuStorage,
    l: Layout,
    wide: DType,
    mid: CpuStorage,
    mid_l: Layout,
    out: CpuStorage,
)
    requires
        conversion_is_undone::<N>(src.elem_type(), wide),
        widens(src, l, wide),
        converted::<N>(src, l, wide, mid),
        mid_l.contiguous(),
        mid_l.start_offset == 0,
        mid_l.count() == l.count(),
        converted::<N>(mid, mid_l, src.elem_type(), out),
    ensures
        converted::<N>(src, l, src.elem_type(), out),
{
    layout::lemma_contiguous_end(mid_l);
    match (src, mid, out) {
        (CpuStorage::U32(s), CpuStorage::F32(m), CpuStorage::U32(d)) => {
            assert forall|k: int| 0 <= k < d@.len() implies #[trigger] d@[k] == elementwise::element(
                s@,
                l,
                k,
            ) by {
                assert(call_ensures(N::f32_from_u32, (elementwise::element(s@, l, k),), m@[k]));
                assert(mid_l.index(k) == k);
                assert(call_ensures(N::u32_from_f32, (m@[k],), d@[k]));
            }
        },
        (CpuStorage::U32(s), CpuStorage::F64(m), CpuStorage::U32(d)) => {
            assert forall|k: int| 0 <= k < d@.len() implies #[trigger] d@[k] == elementwise::element(
                s@,
                l,
                k,
            ) by {
                assert(call_ensures(N::f64_from_u32, (elementwise::element(s@, l, k),), m@[k]));
                assert(mid_l.index(k) == k);
                assert(call_ensures(N::u32_from_f64, (m@[k],), d@[k]));
            }
        },
        (CpuStorage::BF16(s), CpuStorage::F32(m), CpuStorage::BF16(d)) => {
            assert forall|k: int| 0 <= k < d@.len() implies #[trigger] d@[k] == elementwise::element(
                s@,
                l,
                k,
            ) by {
                assert(call_ensures(N::bf16_to_f32, (elementwise::element(s@, l, k),), m@[k]));
                assert(mid_l.index(k) == k);
                assert(call_ensures(N::bf16_from_f32, (m@[k],), d@[k]));
            }
        },
        (CpuStorage::BF16(s), CpuStorage::F64(m), CpuStorage::BF16(d)) => {
            assert forall|k: int| 0 <= k < d@.len() implies #[trigger] d@[k] == elementwise::element(
                s@,
                l,
                k,
            ) by {
                assert(call_ensures(N::bf16_to_f64, (elementwise::element(s@, l, k),), m@[k]));
                assert(mid_l.index(k) == k);
                assert(call_ensures(N::bf16_from_f64, (m@[k],), d@[k]));
            }
        },
        (CpuStorage::F16(s), CpuStorage::F32(m), CpuStorage::F16(d)) => {
            assert forall|k: int| 0 <= k < d@.len() implies #[trigger] d@[k] == elementwise::element(
                s@,
                l,
                k,
            ) by {
                assert(call_ensures(N::f16_to_f32, (elementwise::element(s@, l, k),), m@[k]));
                assert(mid_l.index(k) == k);
                assert(call_ensures(N::f16_from_f32, (m@[k],), d@[k]));
            }
        },
        (CpuStorage::F16(s), CpuStorage::F64(m), CpuStorage::F16(d)) => {
            assert forall|k: int| 0 <= k < d@.len() implies #[trigger] d@[k] == elementwise::element(
                s@,
                l,
                k,
            ) by {
                assert(call_ensures(N::f16_to_f64, (elementwise::element(s@, l, k),), m@[k]));
                assert(mid_l.index(k) == k);
                assert(call_ensures(N::f16_from_f64, (m@[k],), d@[k]));
            }
        },
        (CpuStorage::F32(s), CpuStorage::F64(m), CpuStorage::F32(d)) => {
            assert forall|k: int| 0 <= k < d@.len() implies #[trigger] d@[k] == elementwise::element(
                s@,
                l,
                k,
            ) by {
                assert(call_ensures(N::f64_from_f32, (elementwise::element(s@, l, k),), m@[k]));
                assert(mid_l.index(k) == k);
                assert(call_ensures(N::f32_from_f64, (m@[k],), d@[k]));
            }
        },
        _ => {},
    }
}

/// A relation between numbers, such as that of being scaled by one power of two, is kept by the
/// additions that `N` supplies as long as their results are `ok`, and cancelled by its divisions.
pub open spec fn division_cancels<N: FloatOps>(
    rel: spec_fn(F64, F64) -> bool,
    ok: spec_fn(F64) -> bool,
) -> bool {
    &&& rel(F64 { bits: 0 }, F64 { bits: 0 })
    &&& forall|a: F64, b: F64, v: F64, w: F64, c: F64, d: F64|
        rel(a, b) && rel(v, w) && #[trigger] call_ensures(N::f64_add, (a, v), c)
            && #[trigger] call_ensures(N::f64_add, (b, w), d) && ok(c) && ok(d) ==> rel(c, d)
    &&& forall|a: F64, b: F64, v: F64, w: F64, c: F64, d: F64|
        rel(a, b) && rel(v, w) && #[trigger] call_ensures(N::f64_div, (a, v), c)
            && #[trigger] call_ensures(N::f64_div, (b, w), d) ==> c@ == d@
}

/// Every intermediate sum along the dimension `dim` of the row-major array in `x` is `ok`.
pub open spec fn sums_within<N: FloatOps>(
    x: Seq<F64>,
    dims: Seq<usize>,
    dim: int,
    ok: spec_fn(F64) -> bool,
) -> bool {
    let (per, post) = (dims[dim] as nat, shape::row_major_stride(dims, dim));
    forall|p: nat, q: nat|
        p < shape::product(dims.take(dim)) && q < post ==> reduce::folds_within(
            |a: F64, v: F64, b: F64| call_ensures(N::f64_add, (a, v), b),
            F64 { bits: 0 },
            #[trigger] normalize::slice(x, per, post, p, q),
            ok,
        )
}

/// The division of double-precision numbers by their sums does not depend on their scale: two arrays
/// whose elements are in a relation that divisions cancel become the same numbers.
pub proof fn lemma_divide_independent_of_scale<N: FloatOps>(
    x: Vec<F64>,
    x_divided: Vec<F64>,
    y: Vec<F64>,
    y_divided: Vec<F64>,
    dims: Seq<usize>,
    dim: int,
    rel: spec_fn(F64, F64) -> bool,
    ok: spec_fn(F64) -> bool,
)
    requires
        0 <= dim < dims.len(),
        x@.len() == shape::product(dims),
        y@.len() == shape::product(dims),
        divided::<N>(CpuStorage::F64(x), CpuStorage::F64(x_divided), dims, dim),
        divided::<N>(CpuStorage::F64(y), CpuStorage::F64(y_divided), dims, dim),
        forall|i: int| 0 <= i < x@.len() ==> rel(#[trigger] x@[i], y@[i]),
        sums_within::<N>(x@, dims, dim, ok),
        sums_within::<N>(y@, dims, dim, ok),
        division_cancels::<N>(rel, ok),
    ensures
        CpuStorage::F64(x_divided).same_numbers(CpuStorage::F64(y_divided)),
{
    reduce::lemma_product_around(dims, dim);
    let (per, post) = (dims[dim] as nat, shape::row_major_stride(dims, dim));
    let fold = |a: F64, v: F64, b: F64| call_ensures(N::f64_add, (a, v), b);
    assert forall|p: nat, q: nat|
        p < shape::product(dims.take(dim)) && q < post implies reduce::folds_within(
        fold,
        F64 { bits: 0 },
        #[trigger] normalize::slice(x@, per, post, p, q),
        ok,
    ) by {}
    assert forall|p: nat, q: nat|
        p < shape::product(dims.take(dim)) && q < post implies reduce::folds_within(
        fold,
        F64 { bits: 0 },
        #[trigger] normalize::slice(y@, per, post, p, q),
        ok,
    ) by {}
    normalize::lemma_relation_cancels(
        x@,
        x_divided@,
        y@,
        y_divided@,
        shape::product(dims.take(dim)),
        per,
        post,
        fold,
        |t: F64, v: F64| v == t,
        |v: F64, w: F64, r: F64| call_ensures(N::f64_div, (v, w), r),
        ok,
        rel,
    );
}

} // verus!
