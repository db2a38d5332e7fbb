//! Reductions, copies, selections and products of storages.
use cpu_storage::error::{DType, Error};
use cpu_storage::layout::Layout;
use cpu_storage::matmul::{Gemm, GemmCall};
use cpu_storage::numbers::{FloatOps, BF16, F16, F32, F64};
use cpu_storage::shape::Shape;
use cpu_storage::storage::CpuStorage;

/// The conversions and the arithmetic of the machine.
struct Native;

fn f32_of(v: F32) -> f32 {
    f32::from_bits(v.bits)
}

fn f64_of(v: F64) -> f64 {
    f64::from_bits(v.bits)
}

fn bf16_of(v: BF16) -> half::bf16 {
    half::bf16::from_bits(v.bits)
}

fn f16_of(v: F16) -> half::f16 {
    half::f16::from_bits(v.bits)
}

fn to_bf16(v: half::bf16) -> BF16 {
    BF16 { bits: v.to_bits() }
}

fn to_f16(v: half::f16) -> F16 {
    F16 { bits: v.to_bits() }
}

fn to_f32(v: f32) -> F32 {
    F32 { bits: v.to_bits() }
}

fn to_f64(v: f64) -> F64 {
    F64 { bits: v.to_bits() }
}

impl FloatOps for Native {
    fn bf16_from_f32(v: F32) -> BF16 {
        to_bf16(half::bf16::from_f32(f32_of(v)))
    }
    fn bf16_from_f64(v: F64) -> BF16 {
        to_bf16(half::bf16::from_f64(f64_of(v)))
    }
    fn bf16_to_f32(v: BF16) -> F32 {
        to_f32(bf16_of(v).to_f32())
    }
    fn bf16_to_f64(v: BF16) -> F64 {
        to_f64(bf16_of(v).to_f64())
    }
    fn f16_from_f32(v: F32) -> F16 {
        to_f16(half::f16::from_f32(f32_of(v)))
    }
    fn f16_from_f64(v: F64) -> F16 {
        to_f16(half::f16::from_f64(f64_of(v)))
    }
    fn f16_to_f32(v: F16) -> F32 {
        to_f32(f16_of(v).to_f32())
    }
    fn f16_to_f64(v: F16) -> F64 {
        to_f64(f16_of(v).to_f64())
    }
    fn f32_from_u32(v: u32) -> F32 {
        to_f32(v as f32)
    }
    fn f32_from_f64(v: F64) -> F32 {
        to_f32(f64_of(v) as f32)
    }
    fn f64_from_u32(v: u32) -> F64 {
        to_f64(v as f64)
    }
    fn f64_from_f32(v: F32) -> F64 {
        to_f64(f32_of(v) as f64)
    }
    fn u32_from_f32(v: F32) -> u32 {
        f32_of(v) as u32
    }
    fn u32_from_f64(v: F64) -> u32 {
        f64_of(v) as u32
    }
    fn f16_add(a: F16, b: F16) -> F16 {
        to_f16(f16_of(a) + f16_of(b))
    }
    fn f16_mul(a: F16, b: F16) -> F16 {
        to_f16(f16_of(a) * f16_of(b))
    }
    fn f16_div(a: F16, b: F16) -> F16 {
        to_f16(f16_of(a) / f16_of(b))
    }
    fn f32_add(a: F32, b: F32) -> F32 {
        to_f32(f32_of(a) + f32_of(b))
    }
    fn f32_mul(a: F32, b: F32) -> F32 {
        to_f32(f32_of(a) * f32_of(b))
    }
    fn f32_div(a: F32, b: F32) -> F32 {
        to_f32(f32_of(a) / f32_of(b))
    }
    fn f64_add(a: F64, b: F64) -> F64 {
        to_f64(f64_of(a) + f64_of(b))
    }
    fn f64_mul(a: F64, b: F64) -> F64 {
        to_f64(f64_of(a) * f64_of(b))
    }
    fn f64_div(a: F64, b: F64) -> F64 {
        to_f64(f64_of(a) / f64_of(b))
    }
}

/// A storage of the given element type with the given numbers.
fn storage(dtype: DType, vs: &[f64]) -> CpuStorage {
    match dtype {
        DType::U32 => CpuStorage::U32(vs.iter().map(|&v| v as u32).collect()),
        DType::BF16 => CpuStorage::BF16(vs.iter().map(|&v| to_bf16(half::bf16::from_f64(v))).collect()),
        DType::F16 => CpuStorage::F16(vs.iter().map(|&v| to_f16(half::f16::from_f64(v))).collect()),
        DType::F32 => CpuStorage::F32(vs.iter().map(|&v| to_f32(v as f32)).collect()),
        DType::F64 => CpuStorage::F64(vs.iter().map(|&v| to_f64(v)).collect()),
    }
}

/// The numbers that a storage holds.
fn numbers(s: &CpuStorage) -> Vec<f64> {
    match s {
        CpuStorage::U32(vs) => vs.iter().map(|&v| v as f64).collect(),
        CpuStorage::BF16(vs) => vs.iter().map(|&v| bf16_of(v).to_f64()).collect(),
        CpuStorage::F16(vs) => vs.iter().map(|&v| f16_of(v).to_f64()).collect(),
        CpuStorage::F32(vs) => vs.iter().map(|&v| f32_of(v) as f64).collect(),
        CpuStorage::F64(vs) => vs.iter().map(|&v| f64_of(v)).collect(),
    }
}

const ALL: [DType; 5] = [DType::U32, DType::BF16, DType::F16, DType::F32, DType::F64];

const FLOATS: [DType; 4] = [DType::BF16, DType::F16, DType::F32, DType::F64];

fn shape(dims: &[usize]) -> Shape {
    Shape::new(dims.to_vec()).unwrap()
}

fn contiguous(dims: &[usize], start_offset: usize) -> Layout {
    Layout::contiguous_with_offset(shape(dims), start_offset)
}

fn strided(dims: &[usize], stride: &[usize], start_offset: usize) -> Layout {
    Layout::new(shape(dims), stride.to_vec(), start_offset).unwrap()
}

/// Matrix products by the schoolbook method.
struct Schoolbook;

fn product<T: Copy>(
    lhs: &[T],
    rhs: &[T],
    c: GemmCall,
    zero: T,
    mul: fn(T, T) -> T,
    add: fn(T, T) -> T,
) -> Vec<T> {
    assert_eq!((c.dst_rs, c.dst_cs), (c.n, 1));
    let mut out = Vec::new();
    for i in 0..c.m {
        for j in 0..c.n {
            let mut sum = zero;
            for p in 0..c.k {
                let a = lhs[c.lhs_offset + i * c.lhs_rs + p * c.lhs_cs];
                let b = rhs[c.rhs_offset + p * c.rhs_rs + j * c.rhs_cs];
                sum = add(sum, mul(a, b));
            }
            out.push(sum);
        }
    }
    out
}

impl Gemm for Schoolbook {
    fn gemm_f16(lhs: &[F16], rhs: &[F16], call: GemmCall) -> Vec<F16> {
        product(lhs, rhs, call, F16 { bits: 0 }, Native::f16_mul, Native::f16_add)
    }
    fn gemm_f32(lhs: &[F32], rhs: &[F32], call: GemmCall) -> Vec<F32> {
        product(lhs, rhs, call, F32 { bits: 0 }, Native::f32_mul, Native::f32_add)
    }
    fn gemm_f64(lhs: &[F64], rhs: &[F64], call: GemmCall) -> Vec<F64> {
        product(lhs, rhs, call, F64 { bits: 0 }, Native::f64_mul, Native::f64_add)
    }
}

/// Products that hand out nothing.
struct Silent;

impl Gemm for Silent {
    fn gemm_f16(_: &[F16], _: &[F16], _: GemmCall) -> Vec<F16> {
        Vec::new()
    }
    fn gemm_f32(_: &[F32], _: &[F32], _: GemmCall) -> Vec<F32> {
        Vec::new()
    }
    fn gemm_f64(_: &[F64], _: &[F64], _: GemmCall) -> Vec<F64> {
        Vec::new()
    }
}

const SIX: [f64; 6] = [1.0, 2.0, 3.0, 4.0, 5.0, 6.0];

#[test]
fn sum_over_one_dimension() {
    let l = contiguous(&[2, 3], 0);
    for d in ALL {
        let s = storage(d, &SIX);
        let r = s.sum::<Native>(&l, &[0]).unwrap();
        assert_eq!(r.dtype(), d);
        assert_eq!(numbers(&r), vec![5.0, 7.0, 9.0]);
        assert_eq!(numbers(&s.sum::<Native>(&l, &[1]).unwrap()), vec![6.0, 15.0]);
    }
}

#[test]
fn sum_over_all_and_over_no_dimensions() {
    let l = contiguous(&[2, 3], 0);
    for d in ALL {
        let s = storage(d, &SIX);
        assert_eq!(numbers(&s.sum::<Native>(&l, &[0, 1]).unwrap()), vec![21.0]);
        assert_eq!(numbers(&s.sum::<Native>(&l, &[]).unwrap()), SIX.to_vec());
    }
}

#[test]
fn sum_of_a_strided_array() {
    let s = storage(DType::U32, &[0.0, 1.0, 2.0, 3.0, 4.0, 5.0, 6.0]);
    let transposed = strided(&[3, 2], &[1, 3], 1);
    assert_eq!(numbers(&s.sum::<Native>(&transposed, &[0]).unwrap()), vec![6.0, 15.0]);
    assert_eq!(numbers(&s.sum::<Native>(&transposed, &[1]).unwrap()), vec![5.0, 7.0, 9.0]);
}

#[test]
fn sum_puts_an_element_where_its_other_coordinates_say() {
    // The element (i, j, k) is 100 i + 10 j + k.
    let mut vs = Vec::new();
    for i in 0..2 {
        for j in 0..3 {
            for k in 0..4 {
                vs.push((100 * i + 10 * j + k) as f64);
            }
        }
    }
    let s = storage(DType::U32, &vs);
    let l = contiguous(&[2, 3, 4], 0);
    let r = numbers(&s.sum::<Native>(&l, &[0, 2]).unwrap());
    let mut expected = vec![0.0; 3];
    for i in 0..2 {
        for j in 0..3 {
            for k in 0..4 {
                expected[j] += (100 * i + 10 * j + k) as f64;
            }
        }
    }
    assert_eq!(r, expected);
    assert_eq!(r, vec![412.0, 492.0, 572.0]);
}

#[test]
fn sum_does_not_depend_on_the_order_of_the_dimensions() {
    let vs: Vec<f64> = (0..24).map(|i| i as f64).collect();
    let s = storage(DType::F64, &vs);
    let l = contiguous(&[2, 3, 4], 0);
    let a = numbers(&s.sum::<Native>(&l, &[2, 0]).unwrap());
    let b = numbers(&s.sum::<Native>(&l, &[0, 2]).unwrap());
    assert_eq!(a, vec![60.0, 92.0, 124.0]);
    assert_eq!(a, b);
    for d in ALL {
        let s = storage(d, &vs);
        let a = s.sum::<Native>(&l, &[2, 0]).unwrap();
        let b = s.sum::<Native>(&l, &[0, 2]).unwrap();
        assert_eq!(a.dtype(), d);
        assert_eq!(numbers(&a), numbers(&b));
    }
}

#[test]
fn sums_add_up_to_the_total() {
    let vs: Vec<f64> = (0..24).map(|i| (i * i) as f64).collect();
    let s = storage(DType::U32, &vs);
    let l = contiguous(&[2, 3, 4], 0);
    let dims: [&[usize]; 5] = [&[], &[0], &[1], &[1, 2], &[0, 1, 2]];
    for d in dims {
        let r = numbers(&s.sum::<Native>(&l, d).unwrap());
        assert_eq!(r.iter().sum::<f64>(), 4324.0);
    }
}

#[test]
fn summing_the_sums_is_summing_over_all() {
    let vs: Vec<f64> = (0..24).map(|i| (i * i + 4294967000u64) as f64).collect();
    let s = storage(DType::U32, &vs);
    let l = contiguous(&[2, 3, 4], 0);
    let mid = s.sum::<Native>(&l, &[2]).unwrap();
    let twice = mid.sum::<Native>(&contiguous(&[2, 3, 1], 0), &[0]).unwrap();
    let once = s.sum::<Native>(&l, &[2, 0]).unwrap();
    assert_eq!(numbers(&once).len(), 3);
    assert_eq!(numbers(&twice), numbers(&once));
}

#[test]
fn sum_with_a_dimension_named_twice_divides_twice() {
    // The second shrinking takes the place in the sums for a place in the array.
    let s = storage(DType::U32, &[1.0, 2.0, 3.0, 4.0]);
    let l = contiguous(&[2, 2], 0);
    assert_eq!(numbers(&s.sum::<Native>(&l, &[0, 0]).unwrap()), vec![4.0, 6.0]);
    assert_eq!(numbers(&s.sum::<Native>(&l, &[1, 1]).unwrap()), vec![10.0, 0.0]);
}

#[test]
fn sum_of_u32_wraps() {
    let s = storage(DType::U32, &[4294967295.0, 2.0]);
    let l = contiguous(&[2], 0);
    assert_eq!(numbers(&s.sum::<Native>(&l, &[0]).unwrap()), vec![1.0]);
}

#[test]
fn sum_of_bf16_rounds_at_every_step() {
    // 256 + 1 is 256 in eight bits of precision.
    let s = storage(DType::BF16, &[256.0, 1.0, 1.0]);
    let l = contiguous(&[3], 0);
    assert_eq!(numbers(&s.sum::<Native>(&l, &[0]).unwrap()), vec![256.0]);
    let s = storage(DType::BF16, &[1.0, 1.0, 256.0]);
    assert_eq!(numbers(&s.sum::<Native>(&l, &[0]).unwrap()), vec![258.0]);
}

#[test]
fn sum_of_an_empty_array_is_zero() {
    let l = contiguous(&[0, 2], 0);
    for d in ALL {
        let s = storage(d, &[]);
        assert_eq!(numbers(&s.sum::<Native>(&l, &[0]).unwrap()), vec![0.0, 0.0]);
        assert_eq!(numbers(&s.sum::<Native>(&l, &[1]).unwrap()), Vec::<f64>::new());
    }
}

#[test]
fn divide_by_sum_over_the_last_dimension() {
    for d in FLOATS {
        let mut s = storage(d, &[1.0, 3.0, 4.0, 12.0]);
        s.divide_by_sum_over_dim::<Native>(&shape(&[2, 2]), 1).unwrap();
        assert_eq!(s.dtype(), d);
        assert_eq!(numbers(&s), vec![0.25, 0.75, 0.25, 0.75]);
    }
}

#[test]
fn divide_by_sum_over_an_inner_dimension() {
    for d in FLOATS {
        let mut s = storage(d, &[1.0, 2.0, 3.0, 6.0, 4.0, 8.0, 4.0, 8.0]);
        s.divide_by_sum_over_dim::<Native>(&shape(&[2, 2, 2]), 1).unwrap();
        assert_eq!(numbers(&s), vec![0.25, 0.25, 0.75, 0.75, 0.5, 0.5, 0.5, 0.5]);
    }
}

#[test]
fn divide_by_sum_over_the_first_dimension() {
    let mut s = storage(DType::F32, &[1.0, 2.0, 3.0, 6.0]);
    s.divide_by_sum_over_dim::<Native>(&shape(&[2, 2]), 0).unwrap();
    assert_eq!(numbers(&s), vec![0.25, 0.25, 0.75, 0.75]);
}

#[test]
fn divide_by_sum_does_not_depend_on_the_scale() {
    let vs = [0.1, 0.7, 1.3, 2.9];
    let scaled: Vec<f64> = vs.iter().map(|v| v * 1024.0).collect();
    let mut a = storage(DType::F64, &vs);
    let mut b = storage(DType::F64, &scaled);
    a.divide_by_sum_over_dim::<Native>(&shape(&[2, 2]), 0).unwrap();
    b.divide_by_sum_over_dim::<Native>(&shape(&[2, 2]), 0).unwrap();
    assert_eq!(numbers(&a)[0], 0.1 / (0.1 + 1.3));
    assert_eq!(numbers(&a), numbers(&b));
}

#[test]
fn divide_by_sum_leaves_what_stands_behind_the_array() {
    for d in FLOATS {
        let mut s = storage(d, &[1.0, 3.0, 7.0]);
        s.divide_by_sum_over_dim::<Native>(&shape(&[2]), 0).unwrap();
        assert_eq!(numbers(&s), vec![0.25, 0.75, 7.0]);
    }
}

#[test]
fn divide_by_sum_leaves_u32_as_it_is() {
    let mut s = storage(DType::U32, &[1.0, 3.0]);
    s.divide_by_sum_over_dim::<Native>(&shape(&[2]), 0).unwrap();
    assert_eq!(numbers(&s), vec![1.0, 3.0]);
    // Not even the shape has to fit.
    s.divide_by_sum_over_dim::<Native>(&shape(&[5]), 0).unwrap();
    assert_eq!(numbers(&s), vec![1.0, 3.0]);
}

#[test]
fn copy_strided_src_can_be_read_back() {
    let transposed = strided(&[3, 2], &[1, 3], 0);
    for d in ALL {
        let s = storage(d, &SIX);
        let mut dst = storage(d, &[9.0; 8]);
        s.copy_strided_src(&mut dst, 1, &transposed).unwrap();
        assert_eq!(numbers(&dst), vec![9.0, 1.0, 4.0, 2.0, 5.0, 3.0, 6.0, 9.0]);
        let back = dst.to_dtype::<Native>(&contiguous(&[3, 2], 1), d).unwrap();
        let direct = s.to_dtype::<Native>(&transposed, d).unwrap();
        assert_eq!(numbers(&back), numbers(&direct));
    }
}

#[test]
fn copy_strided_src_of_a_contiguous_array() {
    for d in ALL {
        let s = storage(d, &SIX);
        let mut dst = storage(d, &[9.0; 4]);
        s.copy_strided_src(&mut dst, 2, &contiguous(&[2], 3)).unwrap();
        assert_eq!(numbers(&dst), vec![9.0, 9.0, 4.0, 5.0]);
    }
}

#[test]
fn copy_strided_src_stops_at_the_end() {
    let transposed = strided(&[3, 2], &[1, 3], 0);
    let s = storage(DType::F32, &SIX);
    let mut dst = storage(DType::F32, &[9.0; 4]);
    s.copy_strided_src(&mut dst, 1, &transposed).unwrap();
    assert_eq!(numbers(&dst), vec![9.0, 1.0, 4.0, 2.0]);
    s.copy_strided_src(&mut dst, 7, &transposed).unwrap();
    assert_eq!(numbers(&dst), vec![9.0, 1.0, 4.0, 2.0]);
}

#[test]
fn copy_strided_src_names_the_types_that_differ() {
    let l = contiguous(&[1], 0);
    for d in ALL {
        for e in ALL {
            if d != e {
                let mut dst = storage(e, &[5.0]);
                match storage(d, &[3.0]).copy_strided_src(&mut dst, 0, &l) {
                    Err(Error::DTypeMismatchBinaryOp { lhs, rhs, op }) => {
                        assert_eq!((lhs, rhs, op), (d, e, "copy_strided"));
                    }
                    _ => panic!("no mismatch"),
                }
                assert_eq!(numbers(&dst), vec![5.0]);
            }
        }
    }
}

#[test]
fn where_cond_selects() {
    let l = contiguous(&[2, 2], 0);
    let transposed = strided(&[2, 2], &[1, 2], 0);
    let pred = storage(DType::U32, &[0.0, 1.0, 7.0, 0.0]);
    for d in ALL {
        let t = storage(d, &[1.0, 2.0, 3.0, 4.0]);
        let f = storage(d, &[5.0, 6.0, 7.0, 8.0]);
        let r = pred.where_cond(&l, &t, &l, &f, &l).unwrap();
        assert_eq!(r.dtype(), d);
        assert_eq!(numbers(&r), vec![5.0, 2.0, 3.0, 8.0]);
        let r = pred.where_cond(&l, &t, &transposed, &f, &l).unwrap();
        assert_eq!(numbers(&r), vec![5.0, 3.0, 2.0, 8.0]);
    }
}

#[test]
fn where_cond_with_a_constant_predicate() {
    let l = contiguous(&[2], 0);
    let t = storage(DType::F64, &[1.0, 2.0]);
    let f = storage(DType::F64, &[5.0, 6.0]);
    let yes = CpuStorage::ones_impl(&shape(&[2]), DType::U32);
    let no = CpuStorage::zeros_impl(&shape(&[2]), DType::U32);
    assert_eq!(numbers(&yes.where_cond(&l, &t, &l, &f, &l).unwrap()), vec![1.0, 2.0]);
    assert_eq!(numbers(&no.where_cond(&l, &t, &l, &f, &l).unwrap()), vec![5.0, 6.0]);
}

#[test]
fn where_cond_needs_a_u32_predicate_and_one_type() {
    let l = contiguous(&[1], 0);
    let one = storage(DType::U32, &[1.0]);
    let t = storage(DType::F32, &[1.0]);
    let f = storage(DType::BF16, &[2.0]);
    match one.where_cond(&l, &t, &l, &f, &l) {
        Err(Error::DTypeMismatchBinaryOp { lhs, rhs, op }) => {
            assert_eq!((lhs, rhs, op), (DType::F32, DType::BF16, "where_cond"));
        }
        _ => panic!("no mismatch"),
    }
    assert!(matches!(
        t.where_cond(&l, &t, &l, &f, &l),
        Err(Error::UnexpectedDType { expected: DType::U32, got: DType::F32 })
    ));
}

#[test]
fn embedding_selects_rows() {
    let ids = storage(DType::U32, &[2.0, 0.0, 2.0]);
    for d in ALL {
        let table = storage(d, &[9.0, 1.0, 2.0, 3.0, 4.0, 5.0, 6.0]);
        let r = ids.embedding(&contiguous(&[3], 0), &table, &contiguous(&[3, 2], 1)).unwrap();
        assert_eq!(r.dtype(), d);
        assert_eq!(numbers(&r), vec![5.0, 6.0, 1.0, 2.0, 5.0, 6.0]);
    }
}

#[test]
fn embedding_walks_strided_ids() {
    let ids = storage(DType::U32, &[0.0, 1.0, 2.0, 1.0]);
    let table = storage(DType::F32, &[10.0, 20.0, 30.0]);
    let transposed = strided(&[2, 2], &[1, 2], 0);
    let r = ids.embedding(&transposed, &table, &contiguous(&[3, 1], 0)).unwrap();
    assert_eq!(numbers(&r), vec![10.0, 30.0, 20.0, 20.0]);
}

#[test]
fn embedding_names_the_first_id_that_is_no_row() {
    let ids = storage(DType::U32, &[1.0, 5.0, 4.0]);
    for d in ALL {
        let table = storage(d, &SIX);
        match ids.embedding(&contiguous(&[3], 0), &table, &contiguous(&[3, 2], 0)) {
            Err(Error::InvalidIndex { index, vocab_size, op }) => {
                assert_eq!((index, vocab_size, op), (5, 3, "take"));
            }
            _ => panic!("no error"),
        }
    }
}

#[test]
fn embedding_needs_u32_ids_and_a_table() {
    let table = storage(DType::F32, &SIX);
    let l = contiguous(&[1], 0);
    assert!(matches!(
        table.embedding(&l, &table, &contiguous(&[3, 2], 0)),
        Err(Error::UnexpectedDType { expected: DType::U32, got: DType::F32 })
    ));
    let ids = storage(DType::U32, &[0.0]);
    match ids.embedding(&l, &table, &contiguous(&[1, 3, 2], 0)) {
        Err(Error::UnexpectedNumberOfDims { expected, got, shape }) => {
            assert_eq!((expected, got), (2, 3));
            assert_eq!(shape.dims, vec![1, 3, 2]);
        }
        _ => panic!("no error"),
    }
}

#[test]
fn matmul_of_two_matrices() {
    for d in [DType::F16, DType::F32, DType::F64] {
        let a = storage(d, &SIX);
        let b = storage(d, &SIX);
        let (la, lb) = (contiguous(&[2, 3], 0), contiguous(&[3, 2], 0));
        let r = a.matmul::<Schoolbook>(&b, (1, 2, 2, 3), &la, &lb).unwrap();
        assert_eq!(r.dtype(), d);
        assert_eq!(numbers(&r), vec![22.0, 28.0, 49.0, 64.0]);
    }
}

#[test]
fn matmul_of_a_transposed_matrix() {
    let a = storage(DType::F64, &SIX);
    let l = contiguous(&[2, 3], 0);
    let transposed = strided(&[3, 2], &[1, 3], 0);
    let r = a.matmul::<Schoolbook>(&a, (1, 2, 2, 3), &l, &transposed).unwrap();
    assert_eq!(numbers(&r), vec![14.0, 32.0, 32.0, 77.0]);
}

#[test]
fn matmul_of_batches() {
    for d in [DType::F16, DType::F32, DType::F64] {
        let a = storage(d, &[0.0, 1.0, 2.0, 3.0, 4.0]);
        let b = storage(d, &[10.0, 20.0, 30.0, 40.0]);
        let (la, lb) = (contiguous(&[2, 1, 2], 1), contiguous(&[2, 2, 1], 0));
        let r = a.matmul::<Schoolbook>(&b, (2, 1, 1, 2), &la, &lb).unwrap();
        assert_eq!(numbers(&r), vec![50.0, 250.0]);
    }
}

#[test]
fn a_batch_is_the_concatenation_of_its_products() {
    let vs: Vec<f64> = (0..13).map(|i| i as f64).collect();
    let a = storage(DType::F64, &vs);
    let (la, lb) = (contiguous(&[3, 2, 2], 1), contiguous(&[3, 2, 1], 2));
    let batch = a.matmul::<Schoolbook>(&a, (3, 2, 1, 2), &la, &lb).unwrap();
    let mut joined = Vec::new();
    for s in 0..3 {
        let (l1, r1) = (contiguous(&[1, 2, 2], 1 + 4 * s), contiguous(&[1, 2, 1], 2 + 2 * s));
        let one = a.matmul::<Schoolbook>(&a, (1, 2, 1, 2), &l1, &r1).unwrap();
        joined.extend(numbers(&one));
    }
    assert_eq!(numbers(&batch), vec![8.0, 18.0, 50.0, 68.0, 124.0, 150.0]);
    assert_eq!(numbers(&batch), joined);
    let none = a.matmul::<Schoolbook>(&a, (0, 2, 1, 2), &la, &lb).unwrap();
    assert_eq!(numbers(&none), Vec::<f64>::new());
}

#[test]
fn matmul_destination_starts_as_zeros() {
    for d in [DType::F16, DType::F32, DType::F64] {
        let a = storage(d, &[1.0, 2.0]);
        let (la, lb) = (contiguous(&[2, 1], 0), contiguous(&[1, 2], 0));
        let r = a.matmul::<Silent>(&a, (1, 2, 2, 1), &la, &lb).unwrap();
        assert_eq!(numbers(&r), vec![0.0; 4]);
    }
}

#[test]
fn matmul_needs_contiguous_batches() {
    let a = storage(DType::F32, &[1.0; 8]);
    let gapped = strided(&[2, 1, 2], &[4, 2, 1], 0);
    let l = contiguous(&[2, 2, 1], 0);
    assert!(matches!(
        a.matmul::<Schoolbook>(&a, (2, 1, 1, 2), &gapped, &l),
        Err(Error::UnexpectedStriding)
    ));
    let four = contiguous(&[1, 2, 1, 2], 0);
    let four_rhs = contiguous(&[1, 2, 2, 1], 0);
    assert!(matches!(
        a.matmul::<Schoolbook>(&a, (2, 1, 1, 2), &four, &four_rhs),
        Err(Error::UnexpectedStriding)
    ));
}

#[test]
fn matmul_needs_one_type_that_has_products() {
    let l = contiguous(&[1, 1], 0);
    for d in ALL {
        for e in ALL {
            let r = storage(d, &[3.0]).matmul::<Schoolbook>(&storage(e, &[2.0]), (1, 1, 1, 1), &l, &l);
            if d == e && d != DType::U32 && d != DType::BF16 {
                assert_eq!(numbers(&r.unwrap()), vec![6.0]);
            } else {
                match r {
                    Err(Error::DTypeMismatchBinaryOp { lhs, rhs, op }) => {
                        assert_eq!((lhs, rhs, op), (d, e, "matmul"));
                    }
                    _ => panic!("no mismatch"),
                }
            }
        }
    }
}
