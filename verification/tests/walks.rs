//! Shapes, layouts and the walks over slices.
use cpu_storage::elementwise;
use cpu_storage::embedding;
use cpu_storage::error::Error;
use cpu_storage::layout::Layout;
use cpu_storage::matmul;
use cpu_storage::normalize;
use cpu_storage::numbers;
use cpu_storage::numbers::F64;
use cpu_storage::reduce;
use cpu_storage::shape::Shape;

fn shape(dims: &[usize]) -> Shape {
    Shape::new(dims.to_vec()).unwrap()
}

fn contiguous(dims: &[usize], start_offset: usize) -> Layout {
    Layout::contiguous_with_offset(shape(dims), start_offset)
}

fn strided(dims: &[usize], stride: &[usize], start_offset: usize) -> Layout {
    Layout::new(shape(dims), stride.to_vec(), start_offset).unwrap()
}

fn indices(l: &Layout) -> Vec<usize> {
    let mut it = l.strided_index();
    let mut out = Vec::new();
    while let Some(i) = it.next() {
        out.push(i);
    }
    assert_eq!(it.next(), None);
    out
}

#[test]
fn a_shape_counts_its_elements() {
    assert_eq!(shape(&[2, 3, 4]).elem_count(), 24);
    assert_eq!(shape(&[]).elem_count(), 1);
    assert_eq!(shape(&[2, 0]).elem_count(), 0);
    assert_eq!(shape(&[2, 3, 4]).rank(), 3);
    assert_eq!(shape(&[2, 3, 4]).stride_contiguous(), vec![12, 4, 1]);
    assert!(Shape::new(vec![usize::MAX, 2]).is_none());
    assert!(Shape::new(vec![usize::MAX, 0, 2]).is_none());
    assert!(Shape::new(vec![usize::MAX, 1]).is_some());
}

#[test]
fn a_shape_knows_its_contiguous_strides() {
    let s = shape(&[2, 3]);
    assert!(s.is_contiguous(&vec![3, 1]));
    assert!(!s.is_contiguous(&vec![1, 2]));
    assert!(!s.is_contiguous(&vec![3]));
}

#[test]
fn a_shape_of_two_dimensions_has_rows_and_columns() {
    assert!(matches!(shape(&[5, 7]).r2(), Ok((5, 7))));
    match shape(&[5]).r2() {
        Err(Error::UnexpectedNumberOfDims { expected, got, shape }) => {
            assert_eq!((expected, got, shape.dims), (2, 1, vec![5]));
        }
        _ => panic!("no error"),
    }
}

#[test]
fn a_layout_must_fit_in_memory() {
    assert!(Layout::new(shape(&[2]), vec![usize::MAX], 0).is_none());
    assert!(Layout::new(shape(&[2]), vec![1], usize::MAX - 1).is_none());
    assert!(Layout::new(shape(&[2]), vec![1], usize::MAX - 2).is_some());
    assert!(Layout::new(shape(&[2]), vec![1, 1], 0).is_none());
    assert!(Layout::new(shape(&[0]), vec![usize::MAX], 3).is_some());
}

#[test]
fn contiguous_offsets_of_a_contiguous_layout() {
    assert_eq!(contiguous(&[2, 3], 4).contiguous_offsets(), Some((4, 10)));
    assert_eq!(strided(&[3, 2], &[1, 3], 4).contiguous_offsets(), None);
    assert_eq!(contiguous(&[], 4).contiguous_offsets(), Some((4, 5)));
    assert!(contiguous(&[2, 3], 4).is_contiguous());
}

#[test]
fn a_layout_tells_whether_it_stands_in_a_storage() {
    let l = strided(&[3, 2], &[1, 3], 1);
    assert!(l.is_within(7));
    assert!(!l.is_within(6));
    assert!(contiguous(&[2], 4).is_within(6));
    assert!(!contiguous(&[2], 4).is_within(5));
    assert!(!contiguous(&[0], 4).is_within(3));
    assert!(strided(&[0, 2], &[9, 9], 4).is_within(3));
}

#[test]
fn the_walk_is_in_row_major_order() {
    assert_eq!(indices(&contiguous(&[2, 3], 4)), vec![4, 5, 6, 7, 8, 9]);
    assert_eq!(indices(&strided(&[3, 2], &[1, 3], 1)), vec![1, 4, 2, 5, 3, 6]);
    assert_eq!(indices(&strided(&[2, 2], &[0, 1], 0)), vec![0, 1, 0, 1]);
    assert_eq!(indices(&contiguous(&[], 2)), vec![2]);
    assert_eq!(indices(&contiguous(&[2, 0, 3], 2)), Vec::<usize>::new());
}

#[test]
fn the_walk_meets_every_coordinate() {
    let l = strided(&[2, 3, 2], &[7, 2, 40], 5);
    let mut expected = Vec::new();
    for i in 0..2 {
        for j in 0..3 {
            for k in 0..2 {
                expected.push(5 + 7 * i + 2 * j + 40 * k);
            }
        }
    }
    assert_eq!(indices(&l), expected);
}

#[test]
fn unary_map_walks_both_kinds_of_layouts() {
    let vs = [1u32, 2, 3, 4];
    assert_eq!(elementwise::unary_map(&vs, &contiguous(&[3], 1), |v: u32| v as u64 * 10), vec![20, 30, 40]);
    let l = strided(&[2, 2], &[1, 2], 0);
    assert_eq!(elementwise::unary_map(&vs, &l, |v: u32| v as u64 * 10), vec![10, 30, 20, 40]);
}

#[test]
fn binary_map_walks_pairs() {
    let (a, b) = ([10u32, 20, 30, 40], [1u32, 2, 3, 4]);
    let l = contiguous(&[2, 2], 0);
    let transposed = strided(&[2, 2], &[1, 2], 0);
    assert_eq!(elementwise::binary_map(&l, &l, &a, &b, |x: u32, y: u32| x - y), vec![9, 18, 27, 36]);
    assert_eq!(
        elementwise::binary_map(&transposed, &l, &a, &b, |x: u32, y: u32| x - y),
        vec![9, 28, 17, 36]
    );
}

#[test]
fn wcond_stops_at_the_end_of_the_shortest_array() {
    let l3 = contiguous(&[3], 0);
    let l2 = contiguous(&[2], 1);
    let r = elementwise::wcond(&[1, 0, 1], &l3, &[10, 20, 30], &l2, &[7, 8, 9], &l3);
    assert_eq!(r, vec![20, 8]);
    let every_other = strided(&[2], &[2], 0);
    let r = elementwise::wcond(&[1, 0, 1], &every_other, &[10, 20, 30], &l2, &[7, 8, 9], &l3);
    assert_eq!(r, vec![20, 30]);
}

#[test]
fn copy_strided_src_copies_slices() {
    let mut dst = [0u8; 5];
    elementwise::copy_strided_src_(&[1u8, 2, 3, 4], &mut dst, 1, &contiguous(&[2, 2], 0));
    assert_eq!(dst, [0, 1, 2, 3, 4]);
    elementwise::copy_strided_src_(&[5u8, 6, 7, 8], &mut dst, 3, &strided(&[2, 2], &[1, 2], 0));
    assert_eq!(dst, [0, 1, 2, 5, 7]);
}

#[test]
fn sort_keeps_the_items() {
    assert_eq!(reduce::sort(&vec![3, 1, 2, 1]), vec![1, 1, 2, 3]);
    assert_eq!(reduce::sort(&Vec::new()), Vec::<usize>::new());
}

#[test]
fn a_sum_lists_extents_and_strides_from_left_to_right() {
    let dims = vec![2, 3, 4];
    let sum = reduce::Sum::new(&dims, &[2, 0]);
    assert_eq!(sum.dst_shape.dims, vec![1, 3, 1]);
    assert_eq!(sum.sum_dims_and_stride, vec![(2, 12), (4, 1)]);
}

#[test]
fn a_prefix_of_a_layout_may_stand_in_a_storage() {
    let l = strided(&[3, 2], &[1, 3], 1);
    assert!(l.is_prefix_within(0, 0));
    assert!(l.is_prefix_within(1, 2));
    assert!(!l.is_prefix_within(2, 4));
    assert!(l.is_prefix_within(2, 5));
    assert!(l.is_prefix_within(6, 7));
}

#[test]
fn pairs_of_arrays_may_stand_in_storages() {
    let l = contiguous(&[4], 0);
    let short = strided(&[2], &[2], 0);
    assert!(elementwise::pair_is_within(&l, 4, &contiguous(&[2], 0), 2));
    assert!(!elementwise::pair_is_within(&l, 3, &contiguous(&[2], 0), 2));
    // A walk that is not over two slices reads only two elements of the longer array.
    assert!(elementwise::pair_is_within(&l, 2, &short, 3));
    assert!(!elementwise::pair_is_within(&l, 1, &short, 3));
    assert!(!elementwise::pair_is_within(&l, 2, &short, 2));
}

#[test]
fn selections_may_stand_in_storages() {
    let l = contiguous(&[2], 0);
    let gapped = strided(&[2], &[2], 0);
    assert!(elementwise::wcond_is_within(&[1, 0], &l, 2, &l, 2, &l));
    assert!(!elementwise::wcond_is_within(&[1, 0], &l, 1, &l, 2, &l));
    assert!(!elementwise::wcond_is_within(&[1], &l, 2, &l, 2, &l));
    // Only the selected elements are read.
    assert!(elementwise::wcond_is_within(&[1, 0], &l, 1, &gapped, 2, &l));
    assert!(!elementwise::wcond_is_within(&[0, 1], &l, 2, &gapped, 2, &l));
    assert!(!elementwise::wcond_is_within(&[0, 0], &l, 2, &gapped, 1, &l));
    assert!(!elementwise::wcond_is_within(&[1, 0], &gapped, 9, &l, 9, &l));
}

#[test]
fn copies_may_stand_in_storages() {
    let l = contiguous(&[2, 2], 0);
    assert!(elementwise::copy_is_within(4, 5, 1, &l));
    assert!(!elementwise::copy_is_within(4, 5, 2, &l));
    assert!(!elementwise::copy_is_within(3, 5, 1, &l));
    let transposed = strided(&[2, 2], &[1, 2], 0);
    assert!(elementwise::copy_is_within(4, 5, 3, &transposed));
    assert!(elementwise::copy_is_within(3, 2, 0, &transposed));
    assert!(!elementwise::copy_is_within(2, 2, 0, &transposed));
    assert!(elementwise::copy_is_within(0, 2, 2, &transposed));
}

#[test]
fn rows_may_stand_in_a_storage() {
    let l = contiguous(&[2], 0);
    assert!(embedding::rows_are_within(&[0, 1], &l, 3, 2, 1, 5));
    assert!(!embedding::rows_are_within(&[0, 1], &l, 3, 2, 2, 5));
    assert!(!embedding::rows_are_within(&[0], &l, 3, 2, 1, 5));
    // Nothing is read after the first number that is not one of a row.
    assert!(embedding::rows_are_within(&[3], &l, 3, 2, 1, 1));
    assert!(!embedding::rows_are_within(&[3], &l, 3, 2, 2, 1));
    assert!(!embedding::rows_are_within(&[1, 0], &l, 3, usize::MAX, 0, 5));
}

#[test]
fn matrices_may_stand_in_storages() {
    let (a, b) = (contiguous(&[2, 3], 0), contiguous(&[3, 2], 1));
    assert!(matmul::matmul_is_within((1, 2, 2, 3), &a, 6, &b, 7));
    assert!(!matmul::matmul_is_within((1, 2, 2, 3), &a, 5, &b, 7));
    assert!(!matmul::matmul_is_within((1, 2, 2, 3), &a, 6, &b, 6));
    assert!(!matmul::matmul_is_within((2, 2, 2, 3), &a, 6, &b, 7));
    assert!(!matmul::matmul_is_within((1, usize::MAX, 2, 3), &a, 6, &b, 7));
    let row = contiguous(&[3], 0);
    assert!(!matmul::matmul_is_within((1, 1, 2, 3), &row, 6, &b, 7));
    let (c, d) = (contiguous(&[2, 1, 2], 0), contiguous(&[2, 2, 1], 0));
    assert!(matmul::matmul_is_within((2, 1, 1, 2), &c, 4, &d, 4));
    assert!(!matmul::matmul_is_within((2, 1, 1, 2), &c, 3, &d, 4));
    // Other strides are refused before anything is read.
    let gapped = strided(&[2, 1, 2], &[4, 2, 1], 0);
    assert!(matmul::matmul_is_within((2, 1, 1, 2), &gapped, 0, &d, 4));
}

#[test]
fn a_sum_over_two_dimensions_fills_its_shape() {
    let l = contiguous(&[2, 3, 4], 0);
    let vs: Vec<u64> = (0..24).collect();
    let sum = reduce::Sum::new(&l.shape.dims, &[0, 2]);
    let r = sum.f(&vs, &l, 0u64, |a: u64, b: u64| a + b);
    assert_eq!(r, vec![60, 92, 124]);
}

#[test]
fn slices_are_divided_by_their_sums() {
    let mut vs = vec![1u32, 2, 3, 6, 100];
    let widen = |v: u32| F64 { bits: v as u64 };
    let plus = |a: F64, b: F64| F64 { bits: a.bits + b.bits };
    let narrow = |t: F64| t.bits as u32;
    let over = |v: u32, d: u32| 100 * v / d;
    normalize::divide_by_sums(&mut vs, 1, 2, 2, widen, plus, narrow, over);
    assert_eq!(vs, vec![25, 25, 75, 75, 100]);
}

#[test]
fn u32_arithmetic_is_modulo_two_to_the_32() {
    assert_eq!(numbers::u32_add(u32::MAX, 2), 1);
    assert_eq!(numbers::u32_add(3, 4), 7);
    assert_eq!(numbers::u32_mul(u32::MAX, u32::MAX), 1);
    assert_eq!(numbers::u32_mul(3, 4), 12);
}
