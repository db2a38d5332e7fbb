//! Element types, conversions and element-wise operations on storages.
use cpu_storage::error::{DType, Error};
use cpu_storage::layout::Layout;
use cpu_storage::numbers::{FloatOps, BF16, F16, F32, F64};
use cpu_storage::op::{BinaryOp, UnaryOp};
use cpu_storage::shape::Shape;
use cpu_storage::storage::CpuStorage;

/// The conversions and the arithmetic of the machine.
struct Native;

fn f32_of(v: F32) -> f32 {
    f32::from_bits(v.bits)
}

fn f64_of(v: F64) -> f64 {
    f64::from_bits(v.bits)
}

fn bf16_of(v: BF16) -> half::bf16 {
    half::bf16::from_bits(v.bits)
}

fn f16_of(v: F16) -> half::f16 {
    half::f16::from_bits(v.bits)
}

fn to_bf16(v: half::bf16) -> BF16 {
    BF16 { bits: v.to_bits() }
}

fn to_f16(v: half::f16) -> F16 {
    F16 { bits: v.to_bits() }
}

fn to_f32(v: f32) -> F32 {
    F32 { bits: v.to_bits() }
}

fn to_f64(v: f64) -> F64 {
    F64 { bits: v.to_bits() }
}

impl FloatOps for Native {
    fn bf16_from_f32(v: F32) -> BF16 {
        to_bf16(half::bf16::from_f32(f32_of(v)))
    }
    fn bf16_from_f64(v: F64) -> BF16 {
        to_bf16(half::bf16::from_f64(f64_of(v)))
    }
    fn bf16_to_f32(v: BF16) -> F32 {
        to_f32(bf16_of(v).to_f32())
    }
    fn bf16_to_f64(v: BF16) -> F64 {
        to_f64(bf16_of(v).to_f64())
    }
    fn f16_from_f32(v: F32) -> F16 {
        to_f16(half::f16::from_f32(f32_of(v)))
    }
    fn f16_from_f64(v: F64) -> F16 {
        to_f16(half::f16::from_f64(f64_of(v)))
    }
    fn f16_to_f32(v: F16) -> F32 {
        to_f32(f16_of(v).to_f32())
    }
    fn f16_to_f64(v: F16) -> F64 {
        to_f64(f16_of(v).to_f64())
    }
    fn f32_from_u32(v: u32) -> F32 {
        to_f32(v as f32)
    }
    fn f32_from_f64(v: F64) -> F32 {
        to_f32(f64_of(v) as f32)
    }
    fn f64_from_u32(v: u32) -> F64 {
        to_f64(v as f64)
    }
    fn f64_from_f32(v: F32) -> F64 {
        to_f64(f32_of(v) as f64)
    }
    fn u32_from_f32(v: F32) -> u32 {
        f32_of(v) as u32
    }
    fn u32_from_f64(v: F64) -> u32 {
        f64_of(v) as u32
    }
    fn f16_add(a: F16, b: F16) -> F16 {
        to_f16(f16_of(a) + f16_of(b))
    }
    fn f16_mul(a: F16, b: F16) -> F16 {
        to_f16(f16_of(a) * f16_of(b))
    }
    fn f16_div(a: F16, b: F16) -> F16 {
        to_f16(f16_of(a) / f16_of(b))
    }
    fn f32_add(a: F32, b: F32) -> F32 {
        to_f32(f32_of(a) + f32_of(b))
    }
    fn f32_mul(a: F32, b: F32) -> F32 {
        to_f32(f32_of(a) * f32_of(b))
    }
    fn f32_div(a: F32, b: F32) -> F32 {
        to_f32(f32_of(a) / f32_of(b))
    }
    fn f64_add(a: F64, b: F64) -> F64 {
        to_f64(f64_of(a) + f64_of(b))
    }
    fn f64_mul(a: F64, b: F64) -> F64 {
        to_f64(f64_of(a) * f64_of(b))
    }
    fn f64_div(a: F64, b: F64) -> F64 {
        to_f64(f64_of(a) / f64_of(b))
    }
}

/// A storage of the given element type with the given numbers.
fn storage(dtype: DType, vs: &[f64]) -> CpuStorage {
    match dtype {
        DType::U32 => CpuStorage::U32(vs.iter().map(|&v| v as u32).collect()),
        DType::BF16 => CpuStorage::BF16(vs.iter().map(|&v| to_bf16(half::bf16::from_f64(v))).collect()),
        DType::F16 => CpuStorage::F16(vs.iter().map(|&v| to_f16(half::f16::from_f64(v))).collect()),
        DType::F32 => CpuStorage::F32(vs.iter().map(|&v| to_f32(v as f32)).collect()),
        DType::F64 => CpuStorage::F64(vs.iter().map(|&v| to_f64(v)).collect()),
    }
}

/// The numbers that a storage holds.
fn numbers(s: &CpuStorage) -> Vec<f64> {
    match s {
        CpuStorage::U32(vs) => vs.iter().map(|&v| v as f64).collect(),
        CpuStorage::BF16(vs) => vs.iter().map(|&v| bf16_of(v).to_f64()).collect(),
        CpuStorage::F16(vs) => vs.iter().map(|&v| f16_of(v).to_f64()).collect(),
        CpuStorage::F32(vs) => vs.iter().map(|&v| f32_of(v) as f64).collect(),
        CpuStorage::F64(vs) => vs.iter().map(|&v| f64_of(v)).collect(),
    }
}

const ALL: [DType; 5] = [DType::U32, DType::BF16, DType::F16, DType::F32, DType::F64];

const FLOATS: [DType; 4] = [DType::BF16, DType::F16, DType::F32, DType::F64];

fn shape(dims: &[usize]) -> Shape {
    Shape::new(dims.to_vec()).unwrap()
}

fn contiguous(dims: &[usize], start_offset: usize) -> Layout {
    Layout::contiguous_with_offset(shape(dims), start_offset)
}

fn strided(dims: &[usize], stride: &[usize], start_offset: usize) -> Layout {
    Layout::new(shape(dims), stride.to_vec(), start_offset).unwrap()
}

/// Adds one.
struct Increment;

impl UnaryOp for Increment {
    fn map_bf16(v: BF16) -> BF16 {
        to_bf16(bf16_of(v) + half::bf16::ONE)
    }
    fn map_f16(v: F16) -> F16 {
        to_f16(f16_of(v) + half::f16::ONE)
    }
    fn map_f32(v: F32) -> F32 {
        to_f32(f32_of(v) + 1.0)
    }
    fn map_f64(v: F64) -> F64 {
        to_f64(f64_of(v) + 1.0)
    }
    fn map_u32(v: u32) -> u32 {
        v + 1
    }
}

/// Subtracts the second element from the first.
struct Minus;

impl BinaryOp for Minus {
    const NAME: &'static str = "minus";
    fn map_bf16(a: BF16, b: BF16) -> BF16 {
        to_bf16(bf16_of(a) - bf16_of(b))
    }
    fn map_f16(a: F16, b: F16) -> F16 {
        to_f16(f16_of(a) - f16_of(b))
    }
    fn map_f32(a: F32, b: F32) -> F32 {
        to_f32(f32_of(a) - f32_of(b))
    }
    fn map_f64(a: F64, b: F64) -> F64 {
        to_f64(f64_of(a) - f64_of(b))
    }
    fn map_u32(a: u32, b: u32) -> u32 {
        a - b
    }
}

#[test]
fn dtype_is_the_element_type() {
    for d in ALL {
        assert_eq!(storage(d, &[1.0, 2.0]).dtype(), d);
        assert_eq!(storage(d, &[]).dtype(), d);
    }
}

#[test]
fn as_slice_needs_the_element_type() {
    let s = storage(DType::F32, &[1.5, -2.0]);
    let vs = s.as_slice::<F32>().unwrap();
    assert_eq!(vs.len(), 2);
    assert_eq!(vs[0].bits, 1.5f32.to_bits());
    assert_eq!(vs[1].bits, (-2.0f32).to_bits());
    assert!(matches!(
        s.as_slice::<u32>(),
        Err(Error::UnexpectedDType { expected: DType::U32, got: DType::F32 })
    ));
    assert!(matches!(
        s.as_slice::<F64>(),
        Err(Error::UnexpectedDType { expected: DType::F64, got: DType::F32 })
    ));
    assert_eq!(storage(DType::U32, &[7.0]).as_slice::<u32>().unwrap(), &[7]);
    assert_eq!(storage(DType::BF16, &[1.0]).as_slice::<BF16>().unwrap()[0].bits, 0x3f80);
    assert_eq!(storage(DType::F16, &[1.0]).as_slice::<F16>().unwrap()[0].bits, 0x3c00);
    assert_eq!(storage(DType::F64, &[1.0]).as_slice::<F64>().unwrap()[0].bits, 1f64.to_bits());
    assert!(matches!(
        storage(DType::U32, &[7.0]).as_slice::<BF16>(),
        Err(Error::UnexpectedDType { expected: DType::BF16, got: DType::U32 })
    ));
    assert!(matches!(
        storage(DType::U32, &[7.0]).as_slice::<F16>(),
        Err(Error::UnexpectedDType { expected: DType::F16, got: DType::U32 })
    ));
    assert!(matches!(
        storage(DType::U32, &[7.0]).as_slice::<F32>(),
        Err(Error::UnexpectedDType { expected: DType::F32, got: DType::U32 })
    ));
}

#[test]
fn to_dtype_converts_every_pair_of_types() {
    let l = contiguous(&[3], 0);
    for from in ALL {
        for to in ALL {
            let s = storage(from, &[0.0, 1.0, 96.0]);
            let r = s.to_dtype::<Native>(&l, to).unwrap();
            assert_eq!(r.dtype(), to);
            assert_eq!(numbers(&r), vec![0.0, 1.0, 96.0]);
        }
    }
}

#[test]
fn to_dtype_drops_fractions_and_clamps() {
    let l = contiguous(&[4], 0);
    for from in FLOATS {
        let s = storage(from, &[2.75, -3.5, f64::NAN, f64::INFINITY]);
        let r = s.to_dtype::<Native>(&l, DType::U32).unwrap();
        assert_eq!(numbers(&r), vec![2.0, 0.0, 0.0, u32::MAX as f64]);
    }
}

#[test]
fn to_dtype_rounds() {
    let l = contiguous(&[1], 0);
    // 16777217 does not fit in the mantissa of a single.
    let s = storage(DType::U32, &[16777217.0]);
    assert_eq!(numbers(&s.to_dtype::<Native>(&l, DType::F32).unwrap()), vec![16777216.0]);
    assert_eq!(numbers(&s.to_dtype::<Native>(&l, DType::F64).unwrap()), vec![16777217.0]);
    assert_eq!(numbers(&s.to_dtype::<Native>(&l, DType::BF16).unwrap()), vec![16777216.0]);
    assert_eq!(numbers(&s.to_dtype::<Native>(&l, DType::F16).unwrap()), vec![f64::INFINITY]);
    let s = storage(DType::F64, &[0.1]);
    assert_eq!(numbers(&s.to_dtype::<Native>(&l, DType::F32).unwrap()), vec![0.1f32 as f64]);
    assert_eq!(numbers(&s.to_dtype::<Native>(&l, DType::BF16).unwrap()), vec![0.10009765625]);
    assert_eq!(numbers(&s.to_dtype::<Native>(&l, DType::F16).unwrap()), vec![0.0999755859375]);
}

#[test]
fn to_dtype_walks_strided_arrays_in_row_major_order() {
    let s = storage(DType::U32, &[9.0, 1.0, 2.0, 3.0, 4.0, 5.0, 6.0]);
    let transposed = strided(&[3, 2], &[1, 3], 1);
    let r = s.to_dtype::<Native>(&transposed, DType::F64).unwrap();
    assert_eq!(numbers(&r), vec![1.0, 4.0, 2.0, 5.0, 3.0, 6.0]);
}

#[test]
fn to_own_dtype_changes_nothing() {
    let l = contiguous(&[2, 2], 0);
    for d in ALL {
        let s = storage(d, &[3.0, 1.0, 4.0, 2.0]);
        let r = s.to_dtype::<Native>(&l, d).unwrap();
        assert_eq!(r.dtype(), d);
        assert_eq!(numbers(&r), numbers(&s));
    }
}

#[test]
fn converting_a_compact_copy_is_converting_the_array() {
    let transposed = strided(&[3, 2], &[1, 3], 1);
    for from in ALL {
        let s = storage(from, &[9.0, 1.0, 2.0, 3.0, 4.0, 5.0, 6.0]);
        let copy = s.to_dtype::<Native>(&transposed, from).unwrap();
        for to in ALL {
            let a = s.to_dtype::<Native>(&transposed, to).unwrap();
            let b = copy.to_dtype::<Native>(&contiguous(&[3, 2], 0), to).unwrap();
            assert_eq!(b.dtype(), to);
            assert_eq!(numbers(&a), vec![1.0, 4.0, 2.0, 5.0, 3.0, 6.0]);
            assert_eq!(numbers(&b), numbers(&a));
        }
    }
}

#[test]
fn conversion_to_a_wider_type_is_undone() {
    let l = contiguous(&[3], 0);
    let pairs = [
        (DType::U32, DType::F32, [0.0, 12345.0, 16777216.0]),
        (DType::U32, DType::F64, [0.0, 16777217.0, 4294967295.0]),
        (DType::BF16, DType::F32, [0.1, -1e-40, f64::INFINITY]),
        (DType::BF16, DType::F64, [0.1, -1e-40, f64::INFINITY]),
        (DType::F16, DType::F32, [0.1, -1e-7, 65504.0]),
        (DType::F16, DType::F64, [0.1, -1e-7, 65504.0]),
        (DType::F32, DType::F64, [0.1, -1e-40, 3e38]),
    ];
    for (from, to, vs) in pairs {
        let s = storage(from, &vs);
        let wide = s.to_dtype::<Native>(&l, to).unwrap();
        assert_eq!(wide.dtype(), to);
        let back = wide.to_dtype::<Native>(&l, from).unwrap();
        assert_eq!(back.dtype(), from);
        assert_eq!(numbers(&back), numbers(&s));
    }
}

#[test]
fn a_clone_holds_the_same_elements() {
    for d in ALL {
        let s = storage(d, &[3.0, 1.0, 4.0]);
        let c = s.clone();
        assert_eq!(c.dtype(), d);
        assert_eq!(numbers(&c), vec![3.0, 1.0, 4.0]);
    }
}

#[test]
fn affine_multiplies_then_adds() {
    let l = contiguous(&[3], 1);
    for d in ALL {
        let s = storage(d, &[100.0, 1.0, 2.0, 3.0]);
        let r = s.affine::<Native>(&l, to_f64(3.0), to_f64(5.0)).unwrap();
        assert_eq!(r.dtype(), d);
        assert_eq!(numbers(&r), vec![8.0, 11.0, 14.0]);
    }
}

#[test]
fn affine_converts_its_factors_to_the_element_type() {
    let l = contiguous(&[2], 0);
    let s = storage(DType::U32, &[10.0, 20.0]);
    // 2.9 becomes 2 and -1 becomes 0.
    let r = s.affine::<Native>(&l, to_f64(2.9), to_f64(-1.0)).unwrap();
    assert_eq!(numbers(&r), vec![20.0, 40.0]);
    let s = storage(DType::BF16, &[1.0, 2.0]);
    // One part in a thousand is lost in seven bits of mantissa.
    let r = s.affine::<Native>(&l, to_f64(1.001), to_f64(0.0)).unwrap();
    assert_eq!(numbers(&r), vec![1.0, 2.0]);
    let r = s.affine::<Native>(&l, to_f64(0.5), to_f64(256.0)).unwrap();
    assert_eq!(numbers(&r), vec![256.0, 256.0]);
}

#[test]
fn affine_of_u32_wraps() {
    let l = contiguous(&[2], 0);
    let s = storage(DType::U32, &[4294967295.0, 2147483648.0]);
    let r = s.affine::<Native>(&l, to_f64(2.0), to_f64(3.0)).unwrap();
    assert_eq!(numbers(&r), vec![1.0, 3.0]);
}

#[test]
fn affine_of_bf16_passes_on_what_is_not_a_number() {
    let l = contiguous(&[1], 0);
    let s = storage(DType::BF16, &[f64::NAN]);
    let r = s.affine::<Native>(&l, to_f64(1.0), to_f64(0.0)).unwrap();
    assert!(numbers(&r)[0].is_nan());
}

#[test]
fn unary_impl_applies_the_operation() {
    let transposed = strided(&[2, 2], &[1, 2], 0);
    for d in ALL {
        let s = storage(d, &[1.0, 2.0, 3.0, 4.0]);
        let r = s.unary_impl::<Increment>(&transposed).unwrap();
        assert_eq!(r.dtype(), d);
        assert_eq!(numbers(&r), vec![2.0, 4.0, 3.0, 5.0]);
    }
}

#[test]
fn mapping_a_copy_is_mapping_the_array() {
    let transposed = strided(&[2, 3], &[1, 2], 0);
    let s = storage(DType::U32, &[1.0, 2.0, 3.0, 4.0, 5.0, 6.0]);
    let mut copy = CpuStorage::zeros_impl(&shape(&[6]), DType::U32);
    s.copy_strided_src(&mut copy, 0, &transposed).unwrap();
    let l = contiguous(&[2, 3], 0);
    let a = s.unary_impl::<Increment>(&transposed).unwrap();
    let b = copy.unary_impl::<Increment>(&l).unwrap();
    assert_eq!(numbers(&a), vec![2.0, 4.0, 6.0, 3.0, 5.0, 7.0]);
    assert_eq!(numbers(&b), numbers(&a));
}

#[test]
fn mapping_twice_composes() {
    let transposed = strided(&[2, 2], &[1, 2], 0);
    let s = storage(DType::F64, &[1.0, 2.0, 3.0, 4.0]);
    let once = s.unary_impl::<Increment>(&transposed).unwrap();
    let twice = once.unary_impl::<Increment>(&contiguous(&[2, 2], 0)).unwrap();
    assert_eq!(numbers(&twice), vec![3.0, 5.0, 4.0, 6.0]);
}

#[test]
fn binary_impl_applies_the_operation_to_pairs() {
    let l = contiguous(&[2, 2], 0);
    let transposed = strided(&[2, 2], &[1, 2], 0);
    for d in ALL {
        let a = storage(d, &[10.0, 20.0, 30.0, 40.0]);
        let b = storage(d, &[1.0, 2.0, 3.0, 4.0]);
        let r = a.binary_impl::<Minus>(&b, &l, &l).unwrap();
        assert_eq!(r.dtype(), d);
        assert_eq!(numbers(&r), vec![9.0, 18.0, 27.0, 36.0]);
        let r = a.binary_impl::<Minus>(&b, &l, &transposed).unwrap();
        assert_eq!(numbers(&r), vec![9.0, 17.0, 28.0, 36.0]);
    }
}

#[test]
fn binary_impl_broadcasts_with_zero_strides() {
    let a = storage(DType::U32, &[10.0, 20.0, 30.0, 40.0]);
    let b = storage(DType::U32, &[1.0, 2.0]);
    let l = contiguous(&[2, 2], 0);
    let rows = strided(&[2, 2], &[0, 1], 0);
    let r = a.binary_impl::<Minus>(&b, &l, &rows).unwrap();
    assert_eq!(numbers(&r), vec![9.0, 18.0, 29.0, 38.0]);
}

#[test]
fn binary_impl_stops_at_the_end_of_the_shorter_array() {
    let a = storage(DType::U32, &[10.0, 20.0, 30.0]);
    let b = storage(DType::U32, &[1.0, 2.0]);
    let r = a.binary_impl::<Minus>(&b, &contiguous(&[3], 0), &contiguous(&[2], 0)).unwrap();
    assert_eq!(numbers(&r), vec![9.0, 18.0]);
}

#[test]
fn binary_impl_names_the_types_that_differ() {
    let l = contiguous(&[1], 0);
    for d in ALL {
        for e in ALL {
            let r = storage(d, &[3.0]).binary_impl::<Minus>(&storage(e, &[1.0]), &l, &l);
            if d == e {
                assert_eq!(numbers(&r.unwrap()), vec![2.0]);
            } else {
                match r {
                    Err(Error::DTypeMismatchBinaryOp { lhs, rhs, op }) => {
                        assert_eq!((lhs, rhs, op), (d, e, "minus"));
                    }
                    _ => panic!("no mismatch"),
                }
            }
        }
    }
}

#[test]
fn ones_and_zeros_have_the_shape_and_the_type() {
    for d in ALL {
        let ones = CpuStorage::ones_impl(&shape(&[2, 3]), d);
        assert_eq!(ones.dtype(), d);
        assert_eq!(numbers(&ones), vec![1.0; 6]);
        let zeros = CpuStorage::zeros_impl(&shape(&[2, 3]), d);
        assert_eq!(zeros.dtype(), d);
        assert_eq!(numbers(&zeros), vec![0.0; 6]);
        assert_eq!(numbers(&CpuStorage::ones_impl(&shape(&[]), d)), vec![1.0]);
        assert_eq!(numbers(&CpuStorage::zeros_impl(&shape(&[2, 0]), d)), Vec::<f64>::new());
    }
    match CpuStorage::zeros_impl(&shape(&[1]), DType::BF16) {
        CpuStorage::BF16(vs) => assert_eq!(vs[0].bits, 0),
        _ => panic!("another type"),
    }
    match CpuStorage::ones_impl(&shape(&[1]), DType::BF16) {
        CpuStorage::BF16(vs) => assert_eq!(vs[0].bits, 0x3f80),
        _ => panic!("another type"),
    }
}
