//! What the operations do, told by the coordinates of the elements: laws that hold of every result.
use vstd::arithmetic::div_mod::*;
use vstd::arithmetic::mul::*;
use vstd::prelude::*;

use crate::convert;
use crate::elementwise;
use crate::embedding;
use crate::embedding::Embedding;
use crate::error::{DType, Error};
use crate::layout;
use crate::layout::{Layout, StridedIndex};
use crate::matmul;
use crate::matmul::{Gemm, GemmCall};
use crate::normalize;
use crate::numbers;
use crate::numbers::{FloatOps, BF16, F16, F32, F64};
use crate::op::{BinaryOp, UnaryOp};
use crate::reduce;
use crate::reduce::Sum;
use crate::shape;
use crate::shape::Shape;
use crate::storage;
use crate::storage::{CpuStorage, WithDType};

verus! {

/// The number of elements is the product of the extents.
pub proof fn lemma_product(dims: Seq<usize>, d: usize)
    ensures
        shape::product(Seq::<usize>::empty()) == 1,
        shape::product(dims.push(d)) == shape::product(dims) * d,
{
    assert(dims.push(d).drop_last() =~= dims);
}

/// Neighbours along the last dimension of a row-major array stand next to each other, and those along
/// another dimension are as far apart as the dimension inside it is long.
pub proof fn lemma_row_major_stride(dims: Seq<usize>, d: int)
    requires
        0 <= d < dims.len(),
    ensures
        d == dims.len() - 1 ==> shape::row_major_stride(dims, d) == 1,
        d < dims.len() - 1 ==> shape::row_major_stride(dims, d) == dims[d + 1]
            * shape::row_major_stride(dims, d + 1),
{
    if d == dims.len() - 1 {
        assert(dims.skip(d + 1).len() == 0);
    } else {
        shape::lemma_product_skip(dims, d + 1);
    }
}

/// An offset is linear in the coordinates: each counts with the stride of its dimension.
pub proof fn lemma_offset_is_linear(coords: Seq<usize>, stride: Seq<usize>, d: int, v: usize)
    requires
        coords.len() == stride.len(),
        0 <= d < coords.len(),
    ensures
        layout::dot(coords.update(d, v), stride) == layout::dot(coords, stride) + (v - coords[d])
            * stride[d],
        (forall|i: int| 0 <= i < coords.len() ==> #[trigger] coords[i] == 0) ==> layout::dot(
            coords,
            stride,
        ) == 0,
    decreases coords.len(),
{
    let (c, s) = (coords.drop_last(), stride.drop_last());
    let last = coords.len() - 1;
    let new = coords.update(d, v);
    if d == last {
        assert(new.drop_last() =~= c);
        lemma_mul_is_distributive_sub_other_way(stride[d] as int, v as int, coords[d] as int);
        if c.len() > 0 {
            lemma_offset_is_linear(c, s, 0, c[0]);
        }
    } else {
        lemma_offset_is_linear(c, s, d, v);
        assert(new.drop_last() =~= c.update(d, v));
    }
    if forall|i: int| 0 <= i < coords.len() ==> #[trigger] coords[i] == 0 {
        assert forall|i: int| 0 <= i < c.len() implies #[trigger] c[i] == 0 by {
            assert(coords[i] == 0);
        }
        assert(coords[last] == 0);
        lemma_mul_basics(stride.last() as int);
    }
}

/// The place of an element in row-major order is linear in its coordinates: each counts with the
/// row-major stride of its dimension.
pub proof fn lemma_position_is_linear(dims: Seq<usize>, coords: Seq<usize>, d: int, v: usize)
    requires
        coords.len() == dims.len(),
        0 <= d < dims.len(),
    ensures
        layout::position(dims, coords.update(d, v)) == layout::position(dims, coords) + (v
            - coords[d]) * shape::row_major_stride(dims, d),
        (forall|i: int| 0 <= i < coords.len() ==> #[trigger] coords[i] == 0) ==> layout::position(
            dims,
            coords,
        ) == 0,
{
    let new = coords.update(d, v);
    let stride = shape::row_major_stride(dims, d) as int;
    reduce::lemma_split_at(dims, coords, d);
    reduce::lemma_split_at(dims, new, d);
    assert(new.take(d) =~= coords.take(d));
    assert(new.skip(d + 1) =~= coords.skip(d + 1));
    lemma_mul_is_distributive_sub_other_way(stride, v as int, coords[d] as int);
    if forall|i: int| 0 <= i < coords.len() ==> #[trigger] coords[i] == 0 {
        layout::lemma_origin(dims, coords, coords);
    }
}

/// The element of an array with the coordinates `c`.
pub open spec fn at<T>(vs: Seq<T>, l: Layout, c: Seq<usize>) -> T {
    vs[l.start_offset + layout::dot(c, l.stride@)]
}

/// `c` are the coordinates of an element.
pub open spec fn has(l: Layout, c: Seq<usize>) -> bool {
    &&& c.len() == l.shape.dims@.len()
    &&& forall|i: int| 0 <= i < c.len() ==> #[trigger] c[i] < l.shape.dims@[i]
}

/// The place in row-major order of the element with the coordinates `c`.
pub open spec fn place(l: Layout, c: Seq<usize>) -> int {
    layout::position(l.shape.dims@, c) as int
}

/// The element with the coordinates `c` is met at its place in row-major order, and every place is
/// that of one element.
pub proof fn lemma_walk<T>(vs: Seq<T>, l: Layout, c: Seq<usize>, k: nat)
    requires
        l.wf(),
        has(l, c),
    ensures
        0 <= place(l, c) < l.count(),
        elementwise::element(vs, l, place(l, c)) == vs[l.start_offset + layout::dot(c, l.stride@)],
        k < l.count() ==> has(l, layout::coords_of(l.shape.dims@, k)) && place(
            l,
            layout::coords_of(l.shape.dims@, k),
        ) == k,
        k == place(l, c) ==> layout::coords_of(l.shape.dims@, k) == c,
{
    let dims = l.shape.dims@;
    assert(layout::valid_coords(dims, c));
    layout::lemma_index_of_coords(l, c);
    if k < l.count() {
        layout::lemma_coords_of(dims, k);
        if k == place(l, c) {
            layout::lemma_position_injective(dims, layout::coords_of(dims, k), c);
        }
    }
}

/// A map takes the element with the coordinates `c` to the place of these coordinates.
pub proof fn lemma_mapped_at<T, U>(
    vs: Seq<T>,
    l: Layout,
    f: spec_fn(T, U) -> bool,
    out: Seq<U>,
    c: Seq<usize>,
)
    requires
        l.wf(),
        elementwise::mapped(vs, l, f, out),
        has(l, c),
    ensures
        out.len() == shape::product(l.shape.dims@),
        0 <= place(l, c) < out.len(),
        f(at(vs, l, c), out[place(l, c)]),
{
    lemma_walk(vs, l, c, 0);
}

/// A map over two arrays takes the elements with the coordinates `a` and `b`, if both are met at the
/// same place, to this place. It ends where the first of the arrays ends.
pub proof fn lemma_mapped2_at<T, U>(
    lhs: Seq<T>,
    lhs_l: Layout,
    rhs: Seq<T>,
    rhs_l: Layout,
    f: spec_fn(T, T, U) -> bool,
    out: Seq<U>,
    a: Seq<usize>,
    b: Seq<usize>,
)
    requires
        lhs_l.wf(),
        rhs_l.wf(),
        elementwise::mapped2(lhs, lhs_l, rhs, rhs_l, f, out),
        has(lhs_l, a),
        has(rhs_l, b),
        place(lhs_l, a) == place(rhs_l, b),
    ensures
        out.len() <= shape::product(lhs_l.shape.dims@),
        out.len() <= shape::product(rhs_l.shape.dims@),
        0 <= place(lhs_l, a) < out.len(),
        f(at(lhs, lhs_l, a), at(rhs, rhs_l, b), out[place(lhs_l, a)]),
{
    lemma_walk(lhs, lhs_l, a, 0);
    lemma_walk(rhs, rhs_l, b, 0);
}

/// A selection gives the element of `t` with the coordinates `b` where the predicate with the
/// coordinates `a`, which is met at the same place, is not zero, and the element of `f` with the
/// coordinates `c` where it is zero. It ends where the first of the arrays ends.
pub proof fn lemma_selection_at<T>(
    pred: Seq<u32>,
    layout: Layout,
    t: Seq<T>,
    layout_t: Layout,
    f: Seq<T>,
    layout_f: Layout,
    out: Seq<T>,
    a: Seq<usize>,
    b: Seq<usize>,
    c: Seq<usize>,
)
    requires
        layout.wf(),
        layout_t.wf(),
        layout_f.wf(),
        elementwise::selection(pred, layout, t, layout_t, f, layout_f, out),
        has(layout, a),
        has(layout_t, b),
        has(layout_f, c),
        place(layout, a) == place(layout_t, b),
        place(layout, a) == place(layout_f, c),
    ensures
        out.len() <= shape::product(layout.shape.dims@),
        out.len() <= shape::product(layout_t.shape.dims@),
        out.len() <= shape::product(layout_f.shape.dims@),
        0 <= place(layout, a) < out.len(),
        at(pred, layout, a) > 0 ==> out[place(layout, a)] == at(t, layout_t, b),
        at(pred, layout, a) == 0 ==> out[place(layout, a)] == at(f, layout_f, c),
{
    lemma_walk(pred, layout, a, 0);
    lemma_walk(t, layout_t, b, 0);
    lemma_walk(f, layout_f, c, 0);
}

/// The same, said of the places of the storages from which three contiguous arrays are read.
pub proof fn lemma_contiguous_selection<T>(
    pred: Seq<u32>,
    layout: Layout,
    t: Seq<T>,
    layout_t: Layout,
    f: Seq<T>,
    layout_f: Layout,
    out: Seq<T>,
    k: int,
)
    requires
        layout.contiguous(),
        layout_t.contiguous(),
        layout_f.contiguous(),
        elementwise::selection(pred, layout, t, layout_t, f, layout_f, out),
        0 <= k < out.len(),
    ensures
        pred[layout.start_offset + k] > 0 ==> out[k] == t[layout_t.start_offset + k],
        pred[layout.start_offset + k] == 0 ==> out[k] == f[layout_f.start_offset + k],
{
    layout::lemma_contiguous_end(layout);
    layout::lemma_contiguous_end(layout_t);
    layout::lemma_contiguous_end(layout_f);
    assert(layout.index(k) == layout.start_offset + k);
    assert(layout_t.index(k) == layout_t.start_offset + k);
    assert(layout_f.index(k) == layout_f.start_offset + k);
}

/// A selection by the opposite predicate from the exchanged arrays is the same.
pub proof fn lemma_opposite_selection<T>(
    pred: Seq<u32>,
    opposite: Seq<u32>,
    layout: Layout,
    t: Seq<T>,
    layout_t: Layout,
    f: Seq<T>,
    layout_f: Layout,
    out: Seq<T>,
)
    requires
        forall|k: int|
            0 <= k < out.len() ==> (#[trigger] elementwise::element(pred, layout, k) > 0) == (
            elementwise::element(opposite, layout, k) == 0),
    ensures
        elementwise::selection(pred, layout, t, layout_t, f, layout_f, out)
            <==> elementwise::selection(opposite, layout, f, layout_f, t, layout_t, out),
{
    let (p, q) = (pred, opposite);
    if elementwise::selection(p, layout, t, layout_t, f, layout_f, out) {
        assert forall|k: int| 0 <= k < out.len() implies #[trigger] out[k] == elementwise::selected(
            elementwise::element(q, layout, k),
            elementwise::element(f, layout_f, k),
            elementwise::element(t, layout_t, k),
        ) by {
            assert((elementwise::element(p, layout, k) > 0) == (elementwise::element(q, layout, k)
                == 0));
        }
    }
    if elementwise::selection(q, layout, f, layout_f, t, layout_t, out) {
        assert forall|k: int| 0 <= k < out.len() implies #[trigger] out[k] == elementwise::selected(
            elementwise::element(p, layout, k),
            elementwise::element(t, layout_t, k),
            elementwise::element(f, layout_f, k),
        ) by {
            assert((elementwise::element(p, layout, k) > 0) == (elementwise::element(q, layout, k)
                == 0));
        }
    }
}

/// A selection ends where the first of the three arrays ends.
pub proof fn lemma_selection_length<T>(
    pred: Seq<u32>,
    layout: Layout,
    t: Seq<T>,
    layout_t: Layout,
    f: Seq<T>,
    layout_f: Layout,
    out: Seq<T>,
)
    requires
        elementwise::selection(pred, layout, t, layout_t, f, layout_f, out),
    ensures
        out.len() <= shape::product(layout.shape.dims@),
        out.len() <= shape::product(layout_t.shape.dims@),
        out.len() <= shape::product(layout_f.shape.dims@),
        out.len() == shape::product(layout.shape.dims@) || out.len() == shape::product(
            layout_t.shape.dims@,
        ) || out.len() == shape::product(layout_f.shape.dims@),
{
}

/// A map over two arrays ends where the first of them ends.
pub proof fn lemma_mapped2_length<T, U>(
    lhs: Seq<T>,
    lhs_l: Layout,
    rhs: Seq<T>,
    rhs_l: Layout,
    f: spec_fn(T, T, U) -> bool,
    out: Seq<U>,
)
    requires
        elementwise::mapped2(lhs, lhs_l, rhs, rhs_l, f, out),
    ensures
        out.len() <= shape::product(lhs_l.shape.dims@),
        out.len() <= shape::product(rhs_l.shape.dims@),
        out.len() == shape::product(lhs_l.shape.dims@) || out.len() == shape::product(
            rhs_l.shape.dims@,
        ),
{
}

/// A copy puts the element with the coordinates `c` as many places behind `dst_offset` as its place
/// in row-major order says, if there is room.
pub proof fn lemma_copied_at<T>(
    src: Seq<T>,
    src_l: Layout,
    dst_offset: int,
    before: Seq<T>,
    after: Seq<T>,
    c: Seq<usize>,
)
    requires
        src_l.wf(),
        dst_offset >= 0,
        elementwise::copied(src, src_l, dst_offset, before, after),
        has(src_l, c),
        dst_offset + place(src_l, c) < before.len(),
    ensures
        after[dst_offset + place(src_l, c)] == at(src, src_l, c),
{
    lemma_walk(src, src_l, c, 0);
}

/// A copy changes nothing before `dst_offset` nor behind the elements that it copies.
pub proof fn lemma_copy_leaves<T>(
    src: Seq<T>,
    src_l: Layout,
    dst_offset: int,
    before: Seq<T>,
    after: Seq<T>,
)
    requires
        0 <= dst_offset,
        elementwise::copied(src, src_l, dst_offset, before, after),
    ensures
        after.len() == before.len(),
        dst_offset <= before.len() ==> after.take(dst_offset) == before.take(dst_offset),
        dst_offset + shape::product(src_l.shape.dims@) <= before.len() ==> after.skip(
            dst_offset + shape::product(src_l.shape.dims@),
        ) == before.skip(dst_offset + shape::product(src_l.shape.dims@)),
        dst_offset >= before.len() ==> after == before,
{
    let end = dst_offset + shape::product(src_l.shape.dims@);
    if dst_offset <= before.len() {
        assert(after.take(dst_offset) =~= before.take(dst_offset));
    }
    if end <= before.len() {
        assert(after.skip(end) =~= before.skip(end));
    }
    if dst_offset >= before.len() {
        assert(after =~= before);
    }
}

/// The ids of a selection of rows, in row-major order.
pub open spec fn listed(ids: Seq<u32>, ids_l: Layout) -> Seq<u32> {
    Seq::new(
        shape::product(ids_l.shape.dims@),
        |k: int| at(ids, ids_l, layout::coords_of(ids_l.shape.dims@, k as nat)),
    )
}

proof fn lemma_listed(ids: Seq<u32>, ids_l: Layout)
    requires
        ids_l.wf(),
    ensures
        forall|k: int|
            0 <= k < ids_l.count() ==> #[trigger] listed(ids, ids_l)[k] == elementwise::element(
                ids,
                ids_l,
                k,
            ),
{
    let dims = ids_l.shape.dims@;
    assert forall|k: int| 0 <= k < ids_l.count() implies #[trigger] listed(ids, ids_l)[k]
        == elementwise::element(ids, ids_l, k) by {
        layout::lemma_coords_of(dims, k as nat);
        lemma_walk(ids, ids_l, layout::coords_of(dims, k as nat), 0);
    }
}

/// Each row that a selection gives is the whole row of the table that its id names.
pub proof fn lemma_rows_are_rows<T>(
    ids: Seq<u32>,
    ids_l: Layout,
    hidden_size: usize,
    table: Seq<T>,
    start: int,
    out: Seq<T>,
    k: int,
)
    requires
        ids_l.wf(),
        0 <= start,
        embedding::rows(ids, ids_l, hidden_size, table, start, ids_l.count() as int, out),
        0 <= k < listed(ids, ids_l).len(),
        start + hidden_size * (listed(ids, ids_l)[k] + 1) <= table.len(),
    ensures
        out.len() == listed(ids, ids_l).len() * hidden_size,
        out.subrange(k * hidden_size, (k + 1) * hidden_size) == table.subrange(
            start + hidden_size * listed(ids, ids_l)[k],
            start + hidden_size * (listed(ids, ids_l)[k] + 1),
        ),
{
    lemma_listed(ids, ids_l);
    let n = ids_l.count() as int;
    let h = hidden_size as int;
    let id = listed(ids, ids_l)[k] as int;
    lemma_mul_is_distributive_add_other_way(h, k, 1);
    lemma_mul_is_distributive_add(h, id, 1);
    lemma_mul_basics(h);
    lemma_mul_nonnegative(k, h);
    lemma_mul_nonnegative(h, id);
    lemma_mul_inequality(k + 1, n, h);
    let (a, b) = (
        out.subrange(k * h, (k + 1) * h),
        table.subrange(start + h * id, start + h * (id + 1)),
    );
    assert forall|j: int| 0 <= j < h implies a[j] == b[j] by {
        assert(out[k * hidden_size + j] == table[start + hidden_size * elementwise::element(
            ids,
            ids_l,
            k,
        ) + j]);
    }
    assert(a =~= b);
}

/// The element `h` of the row that the id with the coordinates `a` selects is the element of the
/// table with the coordinates of this id and `h`.
pub proof fn lemma_row_element<T>(
    ids: Seq<u32>,
    ids_l: Layout,
    table: Seq<T>,
    table_l: Layout,
    out: Seq<T>,
    a: Seq<usize>,
    h: usize,
)
    requires
        ids_l.wf(),
        table_l.wf(),
        table_l.contiguous(),
        table_l.shape.dims@.len() == 2,
        embedding::rows(
            ids,
            ids_l,
            table_l.shape.dims@[1],
            table,
            table_l.start_offset as int,
            ids_l.count() as int,
            out,
        ),
        has(ids_l, a),
        at(ids, ids_l, a) < table_l.shape.dims@[0],
        h < table_l.shape.dims@[1],
    ensures
        out[place(ids_l, a) * table_l.shape.dims@[1] + h] == at(
            table,
            table_l,
            seq![at(ids, ids_l, a) as usize, h],
        ),
{
    lemma_walk(ids, ids_l, a, 0);
    let (dims, stride) = (table_l.shape.dims@, table_l.stride@);
    let id = at(ids, ids_l, a) as usize;
    let c = seq![id, h];
    lemma_row_major_stride(dims, 0);
    lemma_row_major_stride(dims, 1);
    assert(stride[0] == shape::row_major_stride(dims, 0));
    assert(stride[1] == shape::row_major_stride(dims, 1));
    lemma_mul_basics(dims[1] as int);
    lemma_dot_two(c, stride);
    lemma_mul_basics(h as int);
    lemma_mul_is_commutative(id as int, dims[1] as int);
    assert(out[place(ids_l, a) * dims[1] + h] == table[table_l.start_offset + dims[1]
        * elementwise::element(ids, ids_l, place(ids_l, a)) + h]);
}

/// The offset of an element of a matrix.
pub proof fn lemma_dot_two(c: Seq<usize>, s: Seq<usize>)
    requires
        c.len() == 2,
        s.len() == 2,
    ensures
        layout::dot(c, s) == c[0] * s[0] + c[1] * s[1],
{
    let (d, t) = (c.drop_last(), s.drop_last());
    assert(layout::dot(d.drop_last(), t.drop_last()) == 0);
    assert(layout::dot(d, t) == c[0] * s[0]);
}

/// The offset of an element of a batch of matrices.
pub proof fn lemma_dot_three(c: Seq<usize>, s: Seq<usize>)
    requires
        c.len() == 3,
        s.len() == 3,
    ensures
        layout::dot(c, s) == c[0] * s[0] + c[1] * s[1] + c[2] * s[2],
{
    lemma_dot_two(c.drop_last(), s.drop_last());
}

/// To select every row of a table in order is to copy it.
pub proof fn lemma_all_rows<T>(
    ids: Seq<u32>,
    ids_l: Layout,
    hidden_size: usize,
    table: Seq<T>,
    start: int,
    out: Seq<T>,
)
    requires
        ids_l.wf(),
        0 <= start,
        embedding::rows(ids, ids_l, hidden_size, table, start, ids_l.count() as int, out),
        forall|k: int| 0 <= k < listed(ids, ids_l).len() ==> #[trigger] listed(ids, ids_l)[k] == k,
        start + listed(ids, ids_l).len() * hidden_size <= table.len(),
    ensures
        out == table.subrange(start, start + listed(ids, ids_l).len() * hidden_size),
{
    lemma_listed(ids, ids_l);
    let h = hidden_size as int;
    let n = ids_l.count() as int;
    let whole = table.subrange(start, start + n * h);
    assert forall|i: int| 0 <= i < out.len() implies out[i] == whole[i] by {
        assert(h > 0) by (nonlinear_arith)
            requires
                0 <= i < n * h,
                h >= 0,
        ;
        let (k, j) = (i / h, i % h);
        lemma_fundamental_div_mod(i, h);
        lemma_mul_is_commutative(h, k);
        lemma_mul_is_commutative(n, h);
        lemma_multiply_divide_lt(i, h, n);
        lemma_div_pos_is_pos(i, h);
        assert(listed(ids, ids_l)[k] == k);
        assert(out[k * hidden_size + j] == table[start + hidden_size * elementwise::element(
            ids,
            ids_l,
            k,
        ) + j]);
    }
    assert(out =~= whole);
}

/// A selection of rows succeeds exactly if no id is too large, and otherwise fails with the first
/// one that is.
pub proof fn lemma_invalid_id(ids: Seq<u32>, ids_l: Layout, vocab_size: usize, e: Error)
    requires
        ids_l.wf(),
    ensures
        embedding::valid_before(ids, ids_l, vocab_size, ids_l.count() as int) <==> listed(
            ids,
            ids_l,
        ).filter(|id: u32| id >= vocab_size).len() == 0,
        embedding::first_invalid(ids, ids_l, vocab_size, e) ==> {
            let bad = listed(ids, ids_l).filter(|id: u32| id >= vocab_size);
            &&& bad.len() > 0
            &&& e == (Error::InvalidIndex { index: bad[0] as usize, vocab_size, op: "take" })
        },
{
    lemma_listed(ids, ids_l);
    let all = listed(ids, ids_l);
    let n = ids_l.count() as int;
    let p = |id: u32| id >= vocab_size;
    if embedding::valid_before(ids, ids_l, vocab_size, n) {
        assert forall|k: int| 0 <= k < all.len() implies !p(#[trigger] all[k]) by {
            assert(elementwise::element(ids, ids_l, k) < vocab_size);
        }
        lemma_filter_none(all, p);
    }
    if all.filter(p).len() == 0 {
        assert forall|k: int| 0 <= k < n implies #[trigger] elementwise::element(ids, ids_l, k)
            < vocab_size by {
            if p(all[k]) {
                lemma_filter_some(all, p, k);
            }
        }
    }
    if embedding::first_invalid(ids, ids_l, vocab_size, e) {
        let k = choose|k: int|
            {
                &&& 0 <= k < ids_l.count()
                &&& embedding::valid_before(ids, ids_l, vocab_size, k)
                &&& #[trigger] elementwise::element(ids, ids_l, k) >= vocab_size
                &&& e == (Error::InvalidIndex {
                    index: elementwise::element(ids, ids_l, k) as usize,
                    vocab_size,
                    op: "take",
                })
            };
        assert forall|j: int| 0 <= j < k implies !p(#[trigger] all[j]) by {
            assert(elementwise::element(ids, ids_l, j) < vocab_size);
        }
        lemma_filter_first(all, p, k);
    }
}

proof fn lemma_filter_none<A>(s: Seq<A>, p: spec_fn(A) -> bool)
    requires
        forall|i: int| 0 <= i < s.len() ==> !p(#[trigger] s[i]),
    ensures
        s.filter(p).len() == 0,
    decreases s.len(),
{
    reveal(Seq::filter);
    if s.len() > 0 {
        assert forall|i: int| 0 <= i < s.drop_last().len() implies !p(#[trigger] s.drop_last()[i]) by {
            assert(!p(s[i]));
        }
        lemma_filter_none(s.drop_last(), p);
        assert(!p(s[s.len() - 1]));
    }
}

proof fn lemma_filter_some<A>(s: Seq<A>, p: spec_fn(A) -> bool, k: int)
    requires
        0 <= k < s.len(),
        p(s[k]),
    ensures
        s.filter(p).len() > 0,
    decreases s.len(),
{
    reveal(Seq::filter);
    if k < s.len() - 1 {
        lemma_filter_some(s.drop_last(), p, k);
    }
}

proof fn lemma_filter_first<A>(s: Seq<A>, p: spec_fn(A) -> bool, k: int)
    requires
        0 <= k < s.len(),
        p(s[k]),
        forall|i: int| 0 <= i < k ==> !p(#[trigger] s[i]),
    ensures
        s.filter(p).len() > 0,
        s.filter(p)[0] == s[k],
    decreases s.len(),
{
    reveal(Seq::filter);
    let rest = s.drop_last();
    if k == s.len() - 1 {
        assert forall|i: int| 0 <= i < rest.len() implies !p(#[trigger] rest[i]) by {
            assert(!p(s[i]));
        }
        lemma_filter_none(rest, p);
    } else {
        assert forall|i: int| 0 <= i < k implies !p(#[trigger] rest[i]) by {
            assert(!p(s[i]));
        }
        lemma_filter_first(rest, p, k);
    }
}

/// The call that is made for one matrix product reads the entry in row `i` and column `p` of the left
/// matrix and the entry in row `p` and column `j` of the right matrix where the layouts say, and the
/// entry in row `i` and column `j` of the product has its row-major place.
pub proof fn lemma_call_of_matrices(
    mnk: (usize, usize, usize),
    lhs_l: Layout,
    rhs_l: Layout,
    i: usize,
    j: usize,
    p: usize,
)
    requires
        lhs_l.wf(),
        rhs_l.wf(),
        lhs_l.shape.dims@ == seq![mnk.0, mnk.2],
        rhs_l.shape.dims@ == seq![mnk.2, mnk.1],
    ensures
        ({
            let (m, n, k) = mnk;
            let call = matmul::batch_call(m, n, k, lhs_l, rhs_l, 0);
            &&& (call.m, call.n, call.k) == (m, n, k)
            &&& call.lhs_offset + i * call.lhs_rs + p * call.lhs_cs == lhs_l.start_offset
                + layout::dot(seq![i, p], lhs_l.stride@)
            &&& call.rhs_offset + p * call.rhs_rs + j * call.rhs_cs == rhs_l.start_offset
                + layout::dot(seq![p, j], rhs_l.stride@)
            &&& i * call.dst_rs + j * call.dst_cs == i * n + j
        }),
{
    let (m, n, k) = mnk;
    lemma_dot_two(seq![i, p], lhs_l.stride@);
    lemma_dot_two(seq![p, j], rhs_l.stride@);
    lemma_mul_basics(m * k);
    lemma_mul_basics(n * k);
    lemma_mul_basics(j as int);
}

/// The same of the call that is made for the matrices number `step` of two batches.
pub proof fn lemma_call_of_batches(
    bmnk: (usize, usize, usize, usize),
    lhs_l: Layout,
    rhs_l: Layout,
    step: usize,
    i: usize,
    j: usize,
    p: usize,
)
    requires
        lhs_l.wf(),
        rhs_l.wf(),
        lhs_l.shape.dims@ == seq![bmnk.0, bmnk.1, bmnk.3],
        rhs_l.shape.dims@ == seq![bmnk.0, bmnk.3, bmnk.2],
        matmul::batch_striding(
            lhs_l.stride@,
            rhs_l.stride@,
            bmnk.1 * bmnk.3,
            bmnk.2 * bmnk.3,
        ),
        step < bmnk.0,
        i < bmnk.1,
        j < bmnk.2,
        p < bmnk.3,
    ensures
        ({
            let (b, m, n, k) = bmnk;
            let call = matmul::batch_call(m, n, k, lhs_l, rhs_l, step as int);
            &&& (call.m, call.n, call.k) == (m, n, k)
            &&& call.lhs_offset + i * call.lhs_rs + p * call.lhs_cs == lhs_l.start_offset
                + layout::dot(seq![step, i, p], lhs_l.stride@)
            &&& call.rhs_offset + p * call.rhs_rs + j * call.rhs_cs == rhs_l.start_offset
                + layout::dot(seq![step, p, j], rhs_l.stride@)
            &&& i * call.dst_rs + j * call.dst_cs == i * n + j
        }),
{
    let (b, m, n, k) = bmnk;
    lemma_dot_three(seq![step, i, p], lhs_l.stride@);
    lemma_dot_three(seq![step, p, j], rhs_l.stride@);
    lemma_offset_fits(lhs_l, seq![step, i, p]);
    lemma_offset_fits(rhs_l, seq![step, p, j]);
    lemma_mul_nonnegative(i as int, lhs_l.stride@[1] as int);
    lemma_mul_nonnegative(p as int, lhs_l.stride@[2] as int);
    lemma_mul_nonnegative(p as int, rhs_l.stride@[1] as int);
    lemma_mul_nonnegative(j as int, rhs_l.stride@[2] as int);
    lemma_mul_nonnegative(step as int, lhs_l.stride@[0] as int);
    lemma_mul_nonnegative(step as int, rhs_l.stride@[0] as int);
    lemma_mul_basics(j as int);
}

proof fn lemma_offset_fits(l: Layout, c: Seq<usize>)
    requires
        l.wf(),
        has(l, c),
    ensures
        l.start_offset + layout::dot(c, l.stride@) <= usize::MAX,
{
    let k = layout::position(l.shape.dims@, c);
    layout::lemma_index_of_coords(l, c);
    layout::lemma_strided_offset_bound(l.shape.dims@, l.stride@, k);
}

/// A kernel multiplies matrices that stand in their storages: each entry that it hands out is, as far
/// as `view` tells, what `inner` makes of a row of the left matrix and a column of the right matrix.
pub open spec fn multiplies<T, V>(
    lhs: Seq<T>,
    rhs: Seq<T>,
    kernel: spec_fn(GemmCall, Seq<T>) -> bool,
    view: spec_fn(T) -> V,
    inner: spec_fn(Seq<T>, Seq<T>) -> V,
) -> bool {
    forall|call: GemmCall, out: Seq<T>, i: usize, j: usize|
        #![trigger kernel(call, out), i * call.dst_rs, j * call.dst_cs]
        kernel(call, out) && call.in_bounds(lhs.len() as int, rhs.len() as int) && i < call.m && j
            < call.n ==> 0 <= i * call.dst_rs + j * call.dst_cs
            < out.len() && view(out[i * call.dst_rs + j * call.dst_cs]) == inner(
            Seq::new(
                call.k as nat,
                |p: int| lhs[call.lhs_offset + i * call.lhs_rs + p * call.lhs_cs],
            ),
            Seq::new(
                call.k as nat,
                |p: int| rhs[call.rhs_offset + p * call.rhs_rs + j * call.rhs_cs],
            ),
        )
}

/// The entry in row `i` and column `j` of a product of two matrices comes from row `i` of the left
/// matrix and column `j` of the right matrix.
pub proof fn lemma_product_of_matrices<T, V>(
    mnk: (usize, usize, usize),
    lhs: Seq<T>,
    lhs_l: Layout,
    rhs: Seq<T>,
    rhs_l: Layout,
    zero: T,
    kernel: spec_fn(GemmCall, Seq<T>) -> bool,
    view: spec_fn(T) -> V,
    inner: spec_fn(Seq<T>, Seq<T>) -> V,
    dst: Seq<T>,
    i: usize,
    j: usize,
)
    requires
        lhs_l.wf(),
        rhs_l.wf(),
        lhs_l.shape.dims@ == seq![mnk.0, mnk.2],
        rhs_l.shape.dims@ == seq![mnk.2, mnk.1],
        matmul::matmul_within((1, mnk.0, mnk.1, mnk.2), lhs_l, lhs.len() as int, rhs_l, rhs.len() as int),
        matmul::batch_product((1, mnk.0, mnk.1, mnk.2), lhs_l, rhs_l, zero, kernel, dst),
        multiplies(lhs, rhs, kernel, view, inner),
        i < mnk.0,
        j < mnk.1,
    ensures
        dst.len() == mnk.0 * mnk.1,
        0 <= i * mnk.1 + j < dst.len(),
        view(dst[i * mnk.1 + j]) == inner(
            Seq::new(mnk.2 as nat, |p: int| at(lhs, lhs_l, seq![i, p as usize])),
            Seq::new(mnk.2 as nat, |p: int| at(rhs, rhs_l, seq![p as usize, j])),
        ),
{
    let (m, n, k) = mnk;
    let call = matmul::batch_call(m, n, k, lhs_l, rhs_l, 0);
    let row = Seq::new(k as nat, |p: int| at(lhs, lhs_l, seq![i, p as usize]));
    let column = Seq::new(k as nat, |p: int| at(rhs, rhs_l, seq![p as usize, j]));
    lemma_mul_basics(m * n);
    lemma_entry_of_block((1, m, n, k), lhs_l, rhs_l, zero, kernel, dst, 0, i, j);
    let out = choose|out: Seq<T>| #[trigger]
        kernel(call, out) && dst.subrange(0, m * n) == matmul::written(out, (m * n) as nat, zero);
    lemma_call_of_matrices(mnk, lhs_l, rhs_l, i, j, 0);
    assert(matmul::step_within(
        m,
        n,
        k,
        lhs_l,
        lhs.len() as int,
        rhs_l,
        rhs.len() as int,
        0,
    ));
    let (x, y) = (
        Seq::new(k as nat, |p: int| lhs[call.lhs_offset + i * call.lhs_rs + p * call.lhs_cs]),
        Seq::new(k as nat, |p: int| rhs[call.rhs_offset + p * call.rhs_rs + j * call.rhs_cs]),
    );
    assert forall|p: int| 0 <= p < k implies x[p] == row[p] && y[p] == column[p] by {
        lemma_call_of_matrices(mnk, lhs_l, rhs_l, i, j, p as usize);
    }
    assert(x =~= row);
    assert(y =~= column);
    assert(kernel(call, out));
    assert(view(out[i * call.dst_rs + j * call.dst_cs]) == inner(x, y));
    assert(dst[i * n + j] == dst.subrange(0, m * n)[i * n + j]);
}

/// The entry in row `i` and column `j` of product number `step` of two batches comes from row `i` of
/// the left matrix and column `j` of the right matrix with this number.
pub proof fn lemma_product_of_batches<T, V>(
    bmnk: (usize, usize, usize, usize),
    lhs: Seq<T>,
    lhs_l: Layout,
    rhs: Seq<T>,
    rhs_l: Layout,
    zero: T,
    kernel: spec_fn(GemmCall, Seq<T>) -> bool,
    view: spec_fn(T) -> V,
    inner: spec_fn(Seq<T>, Seq<T>) -> V,
    dst: Seq<T>,
    step: usize,
    i: usize,
    j: usize,
)
    requires
        lhs_l.wf(),
        rhs_l.wf(),
        lhs_l.shape.dims@ == seq![bmnk.0, bmnk.1, bmnk.3],
        rhs_l.shape.dims@ == seq![bmnk.0, bmnk.3, bmnk.2],
        matmul::batch_striding(
            lhs_l.stride@,
            rhs_l.stride@,
            bmnk.1 * bmnk.3,
            bmnk.2 * bmnk.3,
        ),
        matmul::matmul_within(bmnk, lhs_l, lhs.len() as int, rhs_l, rhs.len() as int),
        matmul::batch_product(bmnk, lhs_l, rhs_l, zero, kernel, dst),
        multiplies(lhs, rhs, kernel, view, inner),
        step < bmnk.0,
        i < bmnk.1,
        j < bmnk.2,
    ensures
        dst.len() == bmnk.0 * (bmnk.1 * bmnk.2),
        0 <= step * (bmnk.1 * bmnk.2) + i * bmnk.2 + j < dst.len(),
        view(dst[step * (bmnk.1 * bmnk.2) + i * bmnk.2 + j]) == inner(
            Seq::new(bmnk.3 as nat, |p: int| at(lhs, lhs_l, seq![step, i, p as usize])),
            Seq::new(bmnk.3 as nat, |p: int| at(rhs, rhs_l, seq![step, p as usize, j])),
        ),
{
    let (b, m, n, k) = bmnk;
    let call = matmul::batch_call(m, n, k, lhs_l, rhs_l, step as int);
    let row = Seq::new(k as nat, |p: int| at(lhs, lhs_l, seq![step, i, p as usize]));
    let column = Seq::new(k as nat, |p: int| at(rhs, rhs_l, seq![step, p as usize, j]));
    let start = step * (m * n);
    lemma_entry_of_block(bmnk, lhs_l, rhs_l, zero, kernel, dst, step as int, i, j);
    let out = choose|out: Seq<T>| #[trigger]
        kernel(call, out) && dst.subrange(start, start + m * n) == matmul::written(
            out,
            (m * n) as nat,
            zero,
        );
    assert(matmul::step_within(
        m,
        n,
        k,
        lhs_l,
        lhs.len() as int,
        rhs_l,
        rhs.len() as int,
        step as int,
    ));
    let (x, y) = (
        Seq::new(k as nat, |p: int| lhs[call.lhs_offset + i * call.lhs_rs + p * call.lhs_cs]),
        Seq::new(k as nat, |p: int| rhs[call.rhs_offset + p * call.rhs_rs + j * call.rhs_cs]),
    );
    assert forall|p: int| 0 <= p < k implies x[p] == row[p] && y[p] == column[p] by {
        lemma_call_of_batches(bmnk, lhs_l, rhs_l, step, i, j, p as usize);
    }
    assert(x =~= row);
    assert(y =~= column);
    lemma_mul_basics(j as int);
    assert(kernel(call, out));
    assert(view(out[i * call.dst_rs + j * call.dst_cs]) == inner(x, y));
    assert(dst[start + i * n + j] == dst.subrange(start, start + m * n)[i * n + j]);
}

/// The block of one step, and the place of an entry in it.
proof fn lemma_entry_of_block<T>(
    bmnk: (usize, usize, usize, usize),
    lhs_l: Layout,
    rhs_l: Layout,
    zero: T,
    kernel: spec_fn(GemmCall, Seq<T>) -> bool,
    dst: Seq<T>,
    step: int,
    i: usize,
    j: usize,
)
    requires
        matmul::batch_product(bmnk, lhs_l, rhs_l, zero, kernel, dst),
        0 <= step < bmnk.0,
        i < bmnk.1,
        j < bmnk.2,
    ensures
        0 <= i * bmnk.2 + j < bmnk.1 * bmnk.2,
        0 <= step * (bmnk.1 * bmnk.2),
        step * (bmnk.1 * bmnk.2) + bmnk.1 * bmnk.2 <= dst.len(),
        matmul::block_product(
            matmul::batch_call(bmnk.1, bmnk.2, bmnk.3, lhs_l, rhs_l, step),
            zero,
            kernel,
            dst.subrange(step * (bmnk.1 * bmnk.2), step * (bmnk.1 * bmnk.2) + bmnk.1 * bmnk.2),
        ),
{
    let (b, m, n, k) = bmnk;
    assert(0 <= i * n + j < m * n) by (nonlinear_arith)
        requires
            i + 1 <= m,
            j < n,
            0 <= i,
            0 <= j,
    ;
    let size = m * n;
    assert(0 <= step * size && step * size + size <= b * size) by (nonlinear_arith)
        requires
            0 <= step,
            step + 1 <= b,
            0 <= size,
    ;
}

/// The matrices of a batch must follow each other; single matrices may be strided at will, and there
/// are no batches of batches.
pub proof fn lemma_striding(lhs: Seq<usize>, rhs: Seq<usize>, a_skip: int, b_skip: int)
    ensures
        lhs.len() <= 2 ==> matmul::batch_striding(lhs, rhs, a_skip, b_skip),
        lhs.len() == 3 ==> (matmul::batch_striding(lhs, rhs, a_skip, b_skip) <==> lhs[0] == a_skip
            && rhs[0] == b_skip),
        lhs.len() > 3 ==> !matmul::batch_striding(lhs, rhs, a_skip, b_skip),
{
}

/// The places in row-major order of the elements whose coordinates are those of `c` in every dimension
/// but `sum_dims`.
pub open spec fn like(l: Layout, sum_dims: Seq<usize>, c: Seq<usize>) -> Seq<int> {
    Seq::new(shape::product(l.shape.dims@), |k: int| k).filter(
        |k: int|
            forall|i: int|
                0 <= i < l.shape.dims@.len() && !sum_dims.contains(i as usize)
                    ==> #[trigger] layout::coords_of(l.shape.dims@, k as nat)[i] == c[i],
    )
}

/// `small` are the extents `dims`, but one in each of the dimensions `sum_dims`.
pub open spec fn shrunk(dims: Seq<usize>, sum_dims: Seq<usize>, small: Seq<usize>) -> bool {
    &&& small.len() == dims.len()
    &&& forall|i: int|
        0 <= i < dims.len() ==> #[trigger] small[i] == if sum_dims.contains(i as usize) {
            1
        } else {
            dims[i]
        }
}

/// A fold whose step is a function, as far as `view` tells, is the fold of this function.
proof fn lemma_folds_function<A, T, V>(
    step: spec_fn(A, T, A) -> bool,
    view: spec_fn(A) -> V,
    g: spec_fn(V, T) -> V,
    init: A,
    xs: Seq<T>,
    r: A,
)
    requires
        reduce::folds(step, init, xs, r),
        forall|a: A, x: T, b: A| #[trigger] step(a, x, b) ==> view(b) == g(view(a), x),
    ensures
        view(r) == xs.fold_left(view(init), g),
    decreases xs.len(),
{
    if xs.len() > 0 {
        let p = choose|p: A|
            reduce::folds(step, init, xs.drop_last(), p) && #[trigger] step(p, xs.last(), r);
        lemma_folds_function(step, view, g, init, xs.drop_last(), p);
    }
}

/// The terms of one sum are the elements that a filter leaves of all places, in their order.
proof fn lemma_terms_filtered<T>(
    src: Seq<T>,
    l: Layout,
    pairs: Seq<(usize, usize)>,
    j: int,
    n: nat,
    p: spec_fn(int) -> bool,
)
    requires
        l.wf(),
        n <= l.count(),
        forall|k: nat| k < n ==> (#[trigger] reduce::cell(pairs, k) == j <==> p(k as int)),
    ensures
        reduce::terms(src, l, pairs, j, n) == Seq::new(n, |k: int| k).filter(p).map_values(
            |k: int| at(src, l, layout::coords_of(l.shape.dims@, k as nat)),
        ),
    decreases n,
{
    reveal(Seq::filter);
    let f = |k: int| at(src, l, layout::coords_of(l.shape.dims@, k as nat));
    let all = Seq::new(n, |k: int| k);
    if n == 0 {
        assert(reduce::terms(src, l, pairs, j, n) =~= all.filter(p).map_values(f));
    } else {
        let m = (n - 1) as nat;
        lemma_terms_filtered(src, l, pairs, j, m, p);
        assert(all.drop_last() =~= Seq::new(m, |k: int| k));
        layout::lemma_coords_of(l.shape.dims@, m);
        lemma_walk(src, l, layout::coords_of(l.shape.dims@, m), m);
        assert(reduce::cell(pairs, m) == j <==> p(m as int));
        assert(f(m as int) == elementwise::element(src, l, m as int));
        assert(reduce::terms(src, l, pairs, j, n) =~= all.filter(p).map_values(f));
    }
}

/// The sum with the coordinates `c` takes in, in row-major order, the elements with these coordinates
/// in the dimensions that are not summed over, and nothing else.
pub proof fn lemma_sum_at<T, V>(
    src: Seq<T>,
    l: Layout,
    sum_dims: Seq<usize>,
    small: Seq<usize>,
    zero: T,
    plus: spec_fn(T, T, T) -> bool,
    view: spec_fn(T) -> V,
    g: spec_fn(V, T) -> V,
    dst: Seq<T>,
    c: Seq<usize>,
)
    requires
        l.wf(),
        forall|i: int| 0 <= i < sum_dims.len() ==> #[trigger] sum_dims[i] < l.shape.dims@.len(),
        sum_dims.no_duplicates(),
        shrunk(l.shape.dims@, sum_dims, small),
        dst.len() == shape::product(reduce::reduced_dims(l.shape.dims@, sum_dims)),
        reduce::summed(
            src,
            l,
            reduce::sum_pairs(l.shape.dims@, reduce::sorted(sum_dims)),
            zero,
            plus,
            dst,
        ),
        forall|a: T, x: T, b: T| #[trigger] plus(a, x, b) ==> view(b) == g(view(a), x),
        c.len() == small.len(),
        forall|i: int| 0 <= i < c.len() ==> #[trigger] c[i] < small[i],
    ensures
        dst.len() == shape::product(small),
        0 <= layout::position(small, c) < dst.len(),
        view(dst[layout::position(small, c) as int]) == like(l, sum_dims, c).map_values(
            |k: int| at(src, l, layout::coords_of(l.shape.dims@, k as nat)),
        ).fold_left(view(zero), g),
{
    let dims = l.shape.dims@;
    let pairs = reduce::sum_pairs(dims, reduce::sorted(sum_dims));
    let p = |k: int|
        forall|i: int|
            0 <= i < dims.len() && !sum_dims.contains(i as usize) ==> #[trigger] layout::coords_of(
                dims,
                k as nat,
            )[i] == c[i];
    assert(small =~= reduce::reduced_dims(dims, sum_dims));
    layout::lemma_position_bound(small, c);
    let j = layout::position(small, c) as int;
    assert forall|k: nat| k < l.count() implies (#[trigger] reduce::cell(pairs, k) == j <==> p(
        k as int,
    )) by {
        let coords = layout::coords_of(dims, k);
        let z = reduce::zeroed(coords, sum_dims);
        layout::lemma_coords_of(dims, k);
        reduce::lemma_terms_of_sum(l, sum_dims, c, k);
        if p(k as int) {
            assert forall|i: int| 0 <= i < z.len() implies z[i] == c[i] by {
                assert(c[i] < small[i]);
                if !sum_dims.contains(i as usize) {
                    assert(layout::coords_of(dims, k)[i] == c[i]);
                }
            }
            assert(z =~= c);
        }
        if z == c {
            assert forall|i: int|
                0 <= i < dims.len() && !sum_dims.contains(i as usize) implies #[trigger]
            layout::coords_of(dims, k)[i] == c[i] by {
                assert(z[i] == c[i]);
            }
        }
    }
    lemma_terms_filtered(src, l, pairs, j, l.count(), p);
    lemma_folds_function(
        plus,
        view,
        g,
        zero,
        reduce::terms(src, l, pairs, j, l.count()),
        dst[j],
    );
    assert(like(l, sum_dims, c) == Seq::new(l.count(), |k: int| k).filter(p));
}

/// The elements of a row-major array whose coordinates are those of `c` but for the dimension `d`.
pub open spec fn line<T>(vs: Seq<T>, dims: Seq<usize>, d: int, c: Seq<usize>) -> Seq<T> {
    Seq::new(
        dims[d] as nat,
        |k: int| vs[layout::position(dims, c.update(d, k as usize)) as int],
    )
}

/// The element with the coordinates `c` is divided by the sum over the elements whose coordinates are
/// the same but for the dimension `d`, in ascending order, narrowed to the element type.
pub proof fn lemma_divided_at<T, V>(
    before: Seq<T>,
    after: Seq<T>,
    dims: Seq<usize>,
    d: int,
    fold: spec_fn(F64, T, F64) -> bool,
    narrow: spec_fn(F64, T) -> bool,
    quotient: spec_fn(T, T, T) -> bool,
    view: spec_fn(F64) -> V,
    g: spec_fn(V, T) -> V,
    c: Seq<usize>,
)
    requires
        0 <= d < dims.len(),
        shape::product(dims) <= before.len(),
        normalize::divided(
            before,
            after,
            shape::product(dims.take(d)),
            dims[d] as nat,
            shape::row_major_stride(dims, d),
            fold,
            narrow,
            quotient,
        ),
        forall|a: F64, x: T, b: F64| #[trigger] fold(a, x, b) ==> view(b) == g(view(a), x),
        c.len() == dims.len(),
        forall|i: int| 0 <= i < c.len() ==> #[trigger] c[i] < dims[i],
    ensures
        exists|s: F64, q: T|
            {
                &&& view(s) == line(before, dims, d, c).fold_left(view(F64 { bits: 0 }), g)
                &&& #[trigger] narrow(s, q)
                &&& quotient(
                    before[layout::position(dims, c) as int],
                    q,
                    after[layout::position(dims, c) as int],
                )
            },
{
    let (pre, per, post) = (
        shape::product(dims.take(d)),
        dims[d] as nat,
        shape::row_major_stride(dims, d),
    );
    assert(layout::valid_coords(dims, c));
    let (p, q) = (
        layout::position(dims.take(d), c.take(d)),
        layout::position(dims.skip(d + 1), c.skip(d + 1)),
    );
    normalize::lemma_place_of_coords(dims, c, d);
    assert(normalize::slice_divided(before, after, per, post, p, q, fold, narrow, quotient));
    let (xs, ys) = (
        normalize::slice(before, per, post, p, q),
        normalize::slice(after, per, post, p, q),
    );
    let (s, e) = choose|s: F64, e: T|
        {
            &&& reduce::folds(fold, F64 { bits: 0 }, xs, s)
            &&& #[trigger] narrow(s, e)
            &&& forall|k: int| 0 <= k < per ==> quotient(xs[k], e, #[trigger] ys[k])
        };
    lemma_folds_function(fold, view, g, F64 { bits: 0 }, xs, s);
    assert forall|k: int| 0 <= k < per implies xs[k] == line(before, dims, d, c)[k] by {
        let other = c.update(d, k as usize);
        assert(other.take(d) =~= c.take(d));
        assert(other.skip(d + 1) =~= c.skip(d + 1));
        assert forall|i: int| 0 <= i < other.len() implies #[trigger] other[i] < dims[i] by {
            assert(c[i] < dims[i]);
        }
        assert(layout::valid_coords(dims, other));
        normalize::lemma_place_of_coords(dims, other, d);
    }
    assert(xs =~= line(before, dims, d, c));
    let k = c[d] as int;
    assert(c[d] < dims[d]);
    assert(quotient(xs[k], e, ys[k]));
    assert(narrow(s, e));
}

/// The division leaves what stands behind the array as it was.
pub proof fn lemma_divided_leaves<T>(
    before: Seq<T>,
    after: Seq<T>,
    dims: Seq<usize>,
    d: int,
    fold: spec_fn(F64, T, F64) -> bool,
    narrow: spec_fn(F64, T) -> bool,
    quotient: spec_fn(T, T, T) -> bool,
)
    requires
        0 <= d < dims.len(),
        shape::product(dims) <= before.len(),
        normalize::divided(
            before,
            after,
            shape::product(dims.take(d)),
            dims[d] as nat,
            shape::row_major_stride(dims, d),
            fold,
            narrow,
            quotient,
        ),
    ensures
        after.len() == before.len(),
        after.skip(shape::product(dims) as int) == before.skip(shape::product(dims) as int),
{
    reduce::lemma_product_around(dims, d);
    assert(after.skip(shape::product(dims) as int) =~= before.skip(shape::product(dims) as int));
}

/// An operation on one array makes of the element with the coordinates `c` the element at its place.
pub proof fn lemma_unary_at<B: UnaryOp>(src: CpuStorage, l: Layout, out: CpuStorage, c: Seq<usize>)
    requires
        l.wf(),
        call_ensures(CpuStorage::unary_impl::<B>, (&src, &l), Ok::<CpuStorage, Error>(out)),
        has(l, c),
    ensures
        0 <= place(l, c) < out.len() == shape::product(l.shape.dims@),
        match (src, out) {
            (CpuStorage::U32(s), CpuStorage::U32(d)) => call_ensures(
                B::map_u32,
                (at(s@, l, c),),
                d@[place(l, c)],
            ),
            (CpuStorage::BF16(s), CpuStorage::BF16(d)) => call_ensures(
                B::map_bf16,
                (at(s@, l, c),),
                d@[place(l, c)],
            ),
            (CpuStorage::F16(s), CpuStorage::F16(d)) => call_ensures(
                B::map_f16,
                (at(s@, l, c),),
                d@[place(l, c)],
            ),
            (CpuStorage::F32(s), CpuStorage::F32(d)) => call_ensures(
                B::map_f32,
                (at(s@, l, c),),
                d@[place(l, c)],
            ),
            (CpuStorage::F64(s), CpuStorage::F64(d)) => call_ensures(
                B::map_f64,
                (at(s@, l, c),),
                d@[place(l, c)],
            ),
            _ => false,
        },
{
    match (src, out) {
        (CpuStorage::U32(s), CpuStorage::U32(d)) => {
            lemma_walk(s@, l, c, 0);
        },
        (CpuStorage::BF16(s), CpuStorage::BF16(d)) => {
            lemma_walk(s@, l, c, 0);
        },
        (CpuStorage::F16(s), CpuStorage::F16(d)) => {
            lemma_walk(s@, l, c, 0);
        },
        (CpuStorage::F32(s), CpuStorage::F32(d)) => {
            lemma_walk(s@, l, c, 0);
        },
        (CpuStorage::F64(s), CpuStorage::F64(d)) => {
            lemma_walk(s@, l, c, 0);
        },
        _ => {},
    }
}

/// An operation on two arrays makes of the elements with the coordinates `a` and `b`, if both are met
/// at the same place, the element at this place.
pub proof fn lemma_binary_at<B: BinaryOp>(
    lhs: CpuStorage,
    lhs_l: Layout,
    rhs: CpuStorage,
    rhs_l: Layout,
    out: CpuStorage,
    a: Seq<usize>,
    b: Seq<usize>,
)
    requires
        lhs_l.wf(),
        rhs_l.wf(),
        call_ensures(
            CpuStorage::binary_impl::<B>,
            (&lhs, &rhs, &lhs_l, &rhs_l),
            Ok::<CpuStorage, Error>(out),
        ),
        has(lhs_l, a),
        has(rhs_l, b),
        place(lhs_l, a) == place(rhs_l, b),
    ensures
        0 <= place(lhs_l, a) < out.len(),
        match (lhs, rhs, out) {
            (CpuStorage::U32(x), CpuStorage::U32(y), CpuStorage::U32(d)) => call_ensures(
                B::map_u32,
                (at(x@, lhs_l, a), at(y@, rhs_l, b)),
                d@[place(lhs_l, a)],
            ),
            (CpuStorage::BF16(x), CpuStorage::BF16(y), CpuStorage::BF16(d)) => call_ensures(
                B::map_bf16,
                (at(x@, lhs_l, a), at(y@, rhs_l, b)),
                d@[place(lhs_l, a)],
            ),
            (CpuStorage::F16(x), CpuStorage::F16(y), CpuStorage::F16(d)) => call_ensures(
                B::map_f16,
                (at(x@, lhs_l, a), at(y@, rhs_l, b)),
                d@[place(lhs_l, a)],
            ),
            (CpuStorage::F32(x), CpuStorage::F32(y), CpuStorage::F32(d)) => call_ensures(
                B::map_f32,
                (at(x@, lhs_l, a), at(y@, rhs_l, b)),
                d@[place(lhs_l, a)],
            ),
            (CpuStorage::F64(x), CpuStorage::F64(y), CpuStorage::F64(d)) => call_ensures(
                B::map_f64,
                (at(x@, lhs_l, a), at(y@, rhs_l, b)),
                d@[place(lhs_l, a)],
            ),
            _ => false,
        },
{
    match (lhs, rhs, out) {
        (CpuStorage::U32(x), CpuStorage::U32(y), CpuStorage::U32(d)) => {
            lemma_walk(x@, lhs_l, a, 0);
            lemma_walk(y@, rhs_l, b, 0);
        },
        (CpuStorage::BF16(x), CpuStorage::BF16(y), CpuStorage::BF16(d)) => {
            lemma_walk(x@, lhs_l, a, 0);
            lemma_walk(y@, rhs_l, b, 0);
        },
        (CpuStorage::F16(x), CpuStorage::F16(y), CpuStorage::F16(d)) => {
            lemma_walk(x@, lhs_l, a, 0);
            lemma_walk(y@, rhs_l, b, 0);
        },
        (CpuStorage::F32(x), CpuStorage::F32(y), CpuStorage::F32(d)) => {
            lemma_walk(x@, lhs_l, a, 0);
            lemma_walk(y@, rhs_l, b, 0);
        },
        (CpuStorage::F64(x), CpuStorage::F64(y), CpuStorage::F64(d)) => {
            lemma_walk(x@, lhs_l, a, 0);
            lemma_walk(y@, rhs_l, b, 0);
        },
        _ => {},
    }
}

/// The result of an operation on two arrays ends where the first of them ends.
pub proof fn lemma_binary_length<B: BinaryOp>(
    lhs: CpuStorage,
    lhs_l: Layout,
    rhs: CpuStorage,
    rhs_l: Layout,
    out: CpuStorage,
)
    requires
        call_ensures(
            CpuStorage::binary_impl::<B>,
            (&lhs, &rhs, &lhs_l, &rhs_l),
            Ok::<CpuStorage, Error>(out),
        ),
    ensures
        out.len() <= shape::product(lhs_l.shape.dims@),
        out.len() <= shape::product(rhs_l.shape.dims@),
        out.len() == shape::product(lhs_l.shape.dims@) || out.len() == shape::product(
            rhs_l.shape.dims@,
        ),
{
}

/// The element of `t` with the coordinates `b` is selected where the predicate with the coordinates
/// `a` is not zero, and the element of `f` with the coordinates `c` where it is zero.
pub proof fn lemma_where_at(
    pred: Vec<u32>,
    layout: Layout,
    t: CpuStorage,
    layout_t: Layout,
    f: CpuStorage,
    layout_f: Layout,
    out: CpuStorage,
    a: Seq<usize>,
    b: Seq<usize>,
    c: Seq<usize>,
)
    requires
        layout.wf(),
        layout_t.wf(),
        layout_f.wf(),
        call_ensures(
            CpuStorage::where_cond,
            (&CpuStorage::U32(pred), &layout, &t, &layout_t, &f, &layout_f),
            Ok::<CpuStorage, Error>(out),
        ),
        has(layout, a),
        has(layout_t, b),
        has(layout_f, c),
        place(layout, a) == place(layout_t, b),
        place(layout, a) == place(layout_f, c),
    ensures
        0 <= place(layout, a) < out.len(),
        match (t, f, out) {
            (CpuStorage::U32(x), CpuStorage::U32(y), CpuStorage::U32(d)) => {
                &&& at(pred@, layout, a) > 0 ==> d@[place(layout, a)] == at(x@, layout_t, b)
                &&& at(pred@, layout, a) == 0 ==> d@[place(layout, a)] == at(y@, layout_f, c)
            },
            (CpuStorage::BF16(x), CpuStorage::BF16(y), CpuStorage::BF16(d)) => {
                &&& at(pred@, layout, a) > 0 ==> d@[place(layout, a)] == at(x@, layout_t, b)
                &&& at(pred@, layout, a) == 0 ==> d@[place(layout, a)] == at(y@, layout_f, c)
            },
            (CpuStorage::F16(x), CpuStorage::F16(y), CpuStorage::F16(d)) => {
                &&& at(pred@, layout, a) > 0 ==> d@[place(layout, a)] == at(x@, layout_t, b)
                &&& at(pred@, layout, a) == 0 ==> d@[place(layout, a)] == at(y@, layout_f, c)
            },
            (CpuStorage::F32(x), CpuStorage::F32(y), CpuStorage::F32(d)) => {
                &&& at(pred@, layout, a) > 0 ==> d@[place(layout, a)] == at(x@, layout_t, b)
                &&& at(pred@, layout, a) == 0 ==> d@[place(layout, a)] == at(y@, layout_f, c)
            },
            (CpuStorage::F64(x), CpuStorage::F64(y), CpuStorage::F64(d)) => {
                &&& at(pred@, layout, a) > 0 ==> d@[place(layout, a)] == at(x@, layout_t, b)
                &&& at(pred@, layout, a) == 0 ==> d@[place(layout, a)] == at(y@, layout_f, c)
            },
            _ => false,
        },
{
    match (t, f, out) {
        (CpuStorage::U32(x), CpuStorage::U32(y), CpuStorage::U32(d)) => {
            lemma_selection_at(pred@, layout, x@, layout_t, y@, layout_f, d@, a, b, c);
        },
        (CpuStorage::BF16(x), CpuStorage::BF16(y), CpuStorage::BF16(d)) => {
            lemma_selection_at(pred@, layout, x@, layout_t, y@, layout_f, d@, a, b, c);
        },
        (CpuStorage::F16(x), CpuStorage::F16(y), CpuStorage::F16(d)) => {
            lemma_selection_at(pred@, layout, x@, layout_t, y@, layout_f, d@, a, b, c);
        },
        (CpuStorage::F32(x), CpuStorage::F32(y), CpuStorage::F32(d)) => {
            lemma_selection_at(pred@, layout, x@, layout_t, y@, layout_f, d@, a, b, c);
        },
        (CpuStorage::F64(x), CpuStorage::F64(y), CpuStorage::F64(d)) => {
            lemma_selection_at(pred@, layout, x@, layout_t, y@, layout_f, d@, a, b, c);
        },
        _ => {},
    }
}

/// The result of a selection ends where the first of the three arrays ends.
pub proof fn lemma_where_length(
    pred: Vec<u32>,
    layout: Layout,
    t: CpuStorage,
    layout_t: Layout,
    f: CpuStorage,
    layout_f: Layout,
    out: CpuStorage,
)
    requires
        call_ensures(
            CpuStorage::where_cond,
            (&CpuStorage::U32(pred), &layout, &t, &layout_t, &f, &layout_f),
            Ok::<CpuStorage, Error>(out),
        ),
    ensures
        out.len() <= shape::product(layout.shape.dims@),
        out.len() <= shape::product(layout_t.shape.dims@),
        out.len() <= shape::product(layout_f.shape.dims@),
        out.len() == shape::product(layout.shape.dims@) || out.len() == shape::product(
            layout_t.shape.dims@,
        ) || out.len() == shape::product(layout_f.shape.dims@),
{
}

/// A copy puts the element with the coordinates `c` at its place behind `dst_offset`, if there is
/// room.
pub proof fn lemma_copy_at(
    src: CpuStorage,
    src_l: Layout,
    dst_offset: int,
    before: CpuStorage,
    after: CpuStorage,
    c: Seq<usize>,
)
    requires
        src_l.wf(),
        0 <= dst_offset,
        storage::copied(src, src_l, dst_offset, before, after),
        has(src_l, c),
        dst_offset + place(src_l, c) < before.len(),
    ensures
        match (src, before, after) {
            (CpuStorage::U32(s), CpuStorage::U32(x), CpuStorage::U32(y)) => y@[dst_offset + place(
                src_l,
                c,
            )] == at(s@, src_l, c),
            (CpuStorage::BF16(s), CpuStorage::BF16(x), CpuStorage::BF16(y)) => y@[dst_offset + place(
                src_l,
                c,
            )] == at(s@, src_l, c),
            (CpuStorage::F16(s), CpuStorage::F16(x), CpuStorage::F16(y)) => y@[dst_offset + place(
                src_l,
                c,
            )] == at(s@, src_l, c),
            (CpuStorage::F32(s), CpuStorage::F32(x), CpuStorage::F32(y)) => y@[dst_offset + place(
                src_l,
                c,
            )] == at(s@, src_l, c),
            (CpuStorage::F64(s), CpuStorage::F64(x), CpuStorage::F64(y)) => y@[dst_offset + place(
                src_l,
                c,
            )] == at(s@, src_l, c),
            _ => false,
        },
{
    match (src, before, after) {
        (CpuStorage::U32(s), CpuStorage::U32(x), CpuStorage::U32(y)) => {
            lemma_copied_at(s@, src_l, dst_offset, x@, y@, c);
        },
        (CpuStorage::BF16(s), CpuStorage::BF16(x), CpuStorage::BF16(y)) => {
            lemma_copied_at(s@, src_l, dst_offset, x@, y@, c);
        },
        (CpuStorage::F16(s), CpuStorage::F16(x), CpuStorage::F16(y)) => {
            lemma_copied_at(s@, src_l, dst_offset, x@, y@, c);
        },
        (CpuStorage::F32(s), CpuStorage::F32(x), CpuStorage::F32(y)) => {
            lemma_copied_at(s@, src_l, dst_offset, x@, y@, c);
        },
        (CpuStorage::F64(s), CpuStorage::F64(x), CpuStorage::F64(y)) => {
            lemma_copied_at(s@, src_l, dst_offset, x@, y@, c);
        },
        _ => {},
    }
}

/// A copy leaves all other places as they were.
pub proof fn lemma_copy_elsewhere(
    src: CpuStorage,
    src_l: Layout,
    dst_offset: int,
    before: CpuStorage,
    after: CpuStorage,
    i: int,
)
    requires
        0 <= dst_offset,
        storage::copied(src, src_l, dst_offset, before, after),
        0 <= i < before.len(),
        i < dst_offset || i >= dst_offset + shape::product(src_l.shape.dims@),
    ensures
        after.len() == before.len(),
        match (before, after) {
            (CpuStorage::U32(x), CpuStorage::U32(y)) => y@[i] == x@[i],
            (CpuStorage::BF16(x), CpuStorage::BF16(y)) => y@[i] == x@[i],
            (CpuStorage::F16(x), CpuStorage::F16(y)) => y@[i] == x@[i],
            (CpuStorage::F32(x), CpuStorage::F32(y)) => y@[i] == x@[i],
            (CpuStorage::F64(x), CpuStorage::F64(y)) => y@[i] == x@[i],
            _ => false,
        },
{
}

/// A conversion makes of the element with the coordinates `c` the element at its place: by the
/// machine's own conversion between the two types, or by way of single precision where one of them is
/// a half-width type and the other a `u32` or the other half-width type.
pub proof fn lemma_convert_at<N: FloatOps>(
    src: CpuStorage,
    l: Layout,
    dtype: DType,
    out: CpuStorage,
    c: Seq<usize>,
)
    requires
        l.wf(),
        call_ensures(CpuStorage::to_dtype::<N>, (&src, &l, dtype), Ok::<CpuStorage, Error>(out)),
        has(l, c),
    ensures
        0 <= place(l, c) < out.len() == shape::product(l.shape.dims@),
        match (dtype, out) {
            (DType::U32, CpuStorage::U32(_)) => true,
            (DType::BF16, CpuStorage::BF16(_)) => true,
            (DType::F16, CpuStorage::F16(_)) => true,
            (DType::F32, CpuStorage::F32(_)) => true,
            (DType::F64, CpuStorage::F64(_)) => true,
            _ => false,
        },
        match (src, out) {
            (CpuStorage::U32(s), CpuStorage::U32(d)) => d@[place(l, c)] == at(s@, l, c),
            (CpuStorage::U32(s), CpuStorage::BF16(d)) => exists|w: F32| #[trigger]
                call_ensures(N::f32_from_u32, (at(s@, l, c),), w) && call_ensures(
                    N::bf16_from_f32,
                    (w,),
                    d@[place(l, c)],
                ),
            (CpuStorage::U32(s), CpuStorage::F16(d)) => exists|w: F32| #[trigger]
                call_ensures(N::f32_from_u32, (at(s@, l, c),), w) && call_ensures(
                    N::f16_from_f32,
                    (w,),
                    d@[place(l, c)],
                ),
            (CpuStorage::U32(s), CpuStorage::F32(d)) => call_ensures(
                N::f32_from_u32,
                (at(s@, l, c),),
                d@[place(l, c)],
            ),
            (CpuStorage::U32(s), CpuStorage::F64(d)) => call_ensures(
                N::f64_from_u32,
                (at(s@, l, c),),
                d@[place(l, c)],
            ),
            (CpuStorage::BF16(s), CpuStorage::U32(d)) => exists|w: F32| #[trigger]
                call_ensures(N::bf16_to_f32, (at(s@, l, c),), w) && call_ensures(
                    N::u32_from_f32,
                    (w,),
                    d@[place(l, c)],
                ),
            (CpuStorage::BF16(s), CpuStorage::BF16(d)) => d@[place(l, c)] == at(s@, l, c),
            (CpuStorage::BF16(s), CpuStorage::F16(d)) => exists|w: F32| #[trigger]
                call_ensures(N::bf16_to_f32, (at(s@, l, c),), w) && call_ensures(
                    N::f16_from_f32,
                    (w,),
                    d@[place(l, c)],
                ),
            (CpuStorage::BF16(s), CpuStorage::F32(d)) => call_ensures(
                N::bf16_to_f32,
                (at(s@, l, c),),
                d@[place(l, c)],
            ),
            (CpuStorage::BF16(s), CpuStorage::F64(d)) => call_ensures(
                N::bf16_to_f64,
                (at(s@, l, c),),
                d@[place(l, c)],
            ),
            (CpuStorage::F16(s), CpuStorage::U32(d)) => exists|w: F32| #[trigger]
                call_ensures(N::f16_to_f32, (at(s@, l, c),), w) && call_ensures(
                    N::u32_from_f32,
                    (w,),
                    d@[place(l, c)],
                ),
            (CpuStorage::F16(s), CpuStorage::BF16(d)) => exists|w: F32| #[trigger]
                call_ensures(N::f16_to_f32, (at(s@, l, c),), w) && call_ensures(
                    N::bf16_from_f32,
                    (w,),
                    d@[place(l, c)],
                ),
            (CpuStorage::F16(s), CpuStorage::F16(d)) => d@[place(l, c)] == at(s@, l, c),
            (CpuStorage::F16(s), CpuStorage::F32(d)) => call_ensures(
                N::f16_to_f32,
                (at(s@, l, c),),
                d@[place(l, c)],
            ),
            (CpuStorage::F16(s), CpuStorage::F64(d)) => call_ensures(
                N::f16_to_f64,
                (at(s@, l, c),),
                d@[place(l, c)],
            ),
            (CpuStorage::F32(s), CpuStorage::U32(d)) => call_ensures(
                N::u32_from_f32,
                (at(s@, l, c),),
                d@[place(l, c)],
            ),
            (CpuStorage::F32(s), CpuStorage::BF16(d)) => call_ensures(
                N::bf16_from_f32,
                (at(s@, l, c),),
                d@[place(l, c)],
            ),
            (CpuStorage::F32(s), CpuStorage::F16(d)) => call_ensures(
                N::f16_from_f32,
                (at(s@, l, c),),
                d@[place(l, c)],
            ),
            (CpuStorage::F32(s), CpuStorage::F32(d)) => d@[place(l, c)] == at(s@, l, c),
            (CpuStorage::F32(s), CpuStorage::F64(d)) => call_ensures(
                N::f64_from_f32,
                (at(s@, l, c),),
                d@[place(l, c)],
            ),
            (CpuStorage::F64(s), CpuStorage::U32(d)) => call_ensures(
                N::u32_from_f64,
                (at(s@, l, c),),
                d@[place(l, c)],
            ),
            (CpuStorage::F64(s), CpuStorage::BF16(d)) => call_ensures(
                N::bf16_from_f64,
                (at(s@, l, c),),
                d@[place(l, c)],
            ),
            (CpuStorage::F64(s), CpuStorage::F16(d)) => call_ensures(
                N::f16_from_f64,
                (at(s@, l, c),),
                d@[place(l, c)],
            ),
            (CpuStorage::F64(s), CpuStorage::F32(d)) => call_ensures(
                N::f32_from_f64,
                (at(s@, l, c),),
                d@[place(l, c)],
            ),
            (CpuStorage::F64(s), CpuStorage::F64(d)) => d@[place(l, c)] == at(s@, l, c),
        },
{
    let k = place(l, c);
    match (src, out) {
        (CpuStorage::U32(s), CpuStorage::BF16(d)) => {
            lemma_walk(s@, l, c, 0);
            assert(convert::u32_to_bf16::<N>(at(s@, l, c), d@[k]));
        },
        (CpuStorage::U32(s), CpuStorage::F16(d)) => {
            lemma_walk(s@, l, c, 0);
            assert(convert::u32_to_f16::<N>(at(s@, l, c), d@[k]));
        },
        (CpuStorage::BF16(s), CpuStorage::F16(d)) => {
            lemma_walk(s@, l, c, 0);
            assert(convert::bf16_to_f16::<N>(at(s@, l, c), d@[k]));
        },
        (CpuStorage::F16(s), CpuStorage::BF16(d)) => {
            lemma_walk(s@, l, c, 0);
            assert(convert::f16_to_bf16::<N>(at(s@, l, c), d@[k]));
        },
        (CpuStorage::BF16(s), CpuStorage::U32(d)) => {
            lemma_walk(s@, l, c, 0);
            assert(convert::bf16_to_u32::<N>(at(s@, l, c), d@[k]));
        },
        (CpuStorage::F16(s), CpuStorage::U32(d)) => {
            lemma_walk(s@, l, c, 0);
            assert(convert::f16_to_u32::<N>(at(s@, l, c), d@[k]));
        },
        (CpuStorage::U32(s), _) => lemma_walk(s@, l, c, 0),
        (CpuStorage::BF16(s), _) => lemma_walk(s@, l, c, 0),
        (CpuStorage::F16(s), _) => lemma_walk(s@, l, c, 0),
        (CpuStorage::F32(s), _) => lemma_walk(s@, l, c, 0),
        (CpuStorage::F64(s), _) => lemma_walk(s@, l, c, 0),
    }
}

/// Multiplying by `scale` and adding `shift` makes of the element with the coordinates `c` the element
/// at its place. Both factors are converted to the element type first.
pub proof fn lemma_affine_at<N: FloatOps>(
    src: CpuStorage,
    l: Layout,
    scale: F64,
    shift: F64,
    out: CpuStorage,
    c: Seq<usize>,
)
    requires
        l.wf(),
        call_ensures(CpuStorage::affine::<N>, (&src, &l, scale, shift), Ok::<CpuStorage, Error>(out)),
        has(l, c),
    ensures
        0 <= place(l, c) < out.len() == shape::product(l.shape.dims@),
        match (src, out) {
            (CpuStorage::U32(s), CpuStorage::U32(d)) => exists|x: u32, y: u32|
                {
                    &&& #[trigger] call_ensures(N::u32_from_f64, (scale,), x)
                    &&& #[trigger] call_ensures(N::u32_from_f64, (shift,), y)
                    &&& d@[place(l, c)] as int == (at(s@, l, c) * x + y) % 0x1_0000_0000
                },
            (CpuStorage::BF16(s), CpuStorage::BF16(d)) => exists|x: BF16, y: BF16|
                {
                    &&& #[trigger] call_ensures(N::bf16_from_f64, (scale,), x)
                    &&& #[trigger] call_ensures(N::bf16_from_f64, (shift,), y)
                    &&& d@[place(l, c)]@ == numbers::bf16_sum(
                        numbers::bf16_product(at(s@, l, c)@, x@),
                        y@,
                    )
                },
            (CpuStorage::F16(s), CpuStorage::F16(d)) => exists|x: F16, y: F16, w: F16|
                {
                    &&& #[trigger] call_ensures(N::f16_from_f64, (scale,), x)
                    &&& #[trigger] call_ensures(N::f16_from_f64, (shift,), y)
                    &&& #[trigger] call_ensures(N::f16_mul, (at(s@, l, c), x), w)
                    &&& call_ensures(N::f16_add, (w, y), d@[place(l, c)])
                },
            (CpuStorage::F32(s), CpuStorage::F32(d)) => exists|x: F32, y: F32, w: F32|
                {
                    &&& #[trigger] call_ensures(N::f32_from_f64, (scale,), x)
                    &&& #[trigger] call_ensures(N::f32_from_f64, (shift,), y)
                    &&& #[trigger] call_ensures(N::f32_mul, (at(s@, l, c), x), w)
                    &&& call_ensures(N::f32_add, (w, y), d@[place(l, c)])
                },
            (CpuStorage::F64(s), CpuStorage::F64(d)) => exists|w: F64|
                {
                    &&& #[trigger] call_ensures(N::f64_mul, (at(s@, l, c), scale), w)
                    &&& call_ensures(N::f64_add, (w, shift), d@[place(l, c)])
                },
            _ => false,
        },
{
    match (src, out) {
        (CpuStorage::U32(s), CpuStorage::U32(d)) => {
            lemma_walk(s@, l, c, 0);
            let (x, y) = choose|x: u32, y: u32|
                {
                    &&& #[trigger] call_ensures(N::u32_from_f64, (scale,), x)
                    &&& #[trigger] call_ensures(N::u32_from_f64, (shift,), y)
                    &&& elementwise::mapped(
                        s@,
                        l,
                        |v: u32, u: u32| u == numbers::wrap_u32(v * x + y),
                        d@,
                    )
                };
            assert(call_ensures(N::u32_from_f64, (scale,), x));
            assert(call_ensures(N::u32_from_f64, (shift,), y));
            assert(d@[place(l, c)] == numbers::wrap_u32(at(s@, l, c) * x + y));
        },
        (CpuStorage::BF16(s), CpuStorage::BF16(d)) => {
            lemma_walk(s@, l, c, 0);
            let (x, y) = choose|x: BF16, y: BF16|
                {
                    &&& #[trigger] call_ensures(N::bf16_from_f64, (scale,), x)
                    &&& #[trigger] call_ensures(N::bf16_from_f64, (shift,), y)
                    &&& elementwise::mapped(
                        s@,
                        l,
                        |v: BF16, u: BF16| u@ == numbers::bf16_sum(numbers::bf16_product(v@, x@), y@),
                        d@,
                    )
                };
            assert(call_ensures(N::bf16_from_f64, (scale,), x));
            assert(call_ensures(N::bf16_from_f64, (shift,), y));
            assert(d@[place(l, c)]@ == numbers::bf16_sum(
                numbers::bf16_product(at(s@, l, c)@, x@),
                y@,
            ));
        },
        (CpuStorage::F16(s), CpuStorage::F16(d)) => {
            lemma_walk(s@, l, c, 0);
            let (x, y) = choose|x: F16, y: F16|
                {
                    &&& #[trigger] call_ensures(N::f16_from_f64, (scale,), x)
                    &&& #[trigger] call_ensures(N::f16_from_f64, (shift,), y)
                    &&& elementwise::mapped(
                        s@,
                        l,
                        |v: F16, u: F16|
                            exists|w: F16| #[trigger]
                                call_ensures(N::f16_mul, (v, x), w) && call_ensures(
                                    N::f16_add,
                                    (w, y),
                                    u,
                                ),
                        d@,
                    )
                };
            assert(call_ensures(N::f16_from_f64, (scale,), x));
            assert(call_ensures(N::f16_from_f64, (shift,), y));
            let rel = |v: F16, u: F16|
                exists|w: F16| #[trigger]
                    call_ensures(N::f16_mul, (v, x), w) && call_ensures(N::f16_add, (w, y), u);
            assert(elementwise::mapped(s@, l, rel, d@));
            assert(rel(at(s@, l, c), d@[place(l, c)]));
            assert(exists|w: F16| #[trigger]
                call_ensures(N::f16_mul, (at(s@, l, c), x), w) && call_ensures(
                    N::f16_add,
                    (w, y),
                    d@[place(l, c)],
                ));
        },
        (CpuStorage::F32(s), CpuStorage::F32(d)) => {
            lemma_walk(s@, l, c, 0);
            let (x, y) = choose|x: F32, y: F32|
                {
                    &&& #[trigger] call_ensures(N::f32_from_f64, (scale,), x)
                    &&& #[trigger] call_ensures(N::f32_from_f64, (shift,), y)
                    &&& elementwise::mapped(
                        s@,
                        l,
                        |v: F32, u: F32|
                            exists|w: F32| #[trigger]
                                call_ensures(N::f32_mul, (v, x), w) && call_ensures(
                                    N::f32_add,
                                    (w, y),
                                    u,
                                ),
                        d@,
                    )
                };
            assert(call_ensures(N::f32_from_f64, (scale,), x));
            assert(call_ensures(N::f32_from_f64, (shift,), y));
            let rel = |v: F32, u: F32|
                exists|w: F32| #[trigger]
                    call_ensures(N::f32_mul, (v, x), w) && call_ensures(N::f32_add, (w, y), u);
            assert(elementwise::mapped(s@, l, rel, d@));
            assert(rel(at(s@, l, c), d@[place(l, c)]));
            assert(exists|w: F32| #[trigger]
                call_ensures(N::f32_mul, (at(s@, l, c), x), w) && call_ensures(
                    N::f32_add,
                    (w, y),
                    d@[place(l, c)],
                ));
        },
        (CpuStorage::F64(s), CpuStorage::F64(d)) => {
            lemma_walk(s@, l, c, 0);
            let rel = |v: F64, u: F64|
                exists|w: F64| #[trigger]
                    call_ensures(N::f64_mul, (v, scale), w) && call_ensures(
                        N::f64_add,
                        (w, shift),
                        u,
                    );
            assert(elementwise::mapped(s@, l, rel, d@));
            assert(rel(at(s@, l, c), d@[place(l, c)]));
            assert(exists|w: F64| #[trigger]
                call_ensures(N::f64_mul, (at(s@, l, c), scale), w) && call_ensures(
                    N::f64_add,
                    (w, shift),
                    d@[place(l, c)],
                ));
        },
        _ => {},
    }
}

/// Each row that an embedding gives is the whole row of the table that its id names.
pub proof fn lemma_embedding_rows(
    ids: Vec<u32>,
    ids_l: Layout,
    table: CpuStorage,
    table_l: Layout,
    out: CpuStorage,
    k: int,
)
    requires
        ids_l.wf(),
        table_l.shape.dims@.len() == 2,
        call_ensures(
            CpuStorage::embedding,
            (&CpuStorage::U32(ids), &ids_l, &table, &table_l),
            Ok::<CpuStorage, Error>(out),
        ),
        0 <= k < listed(ids@, ids_l).len(),
        table_l.start_offset + table_l.shape.dims@[1] * (listed(ids@, ids_l)[k] + 1) <= table.len(),
    ensures
        out.len() == listed(ids@, ids_l).len() * table_l.shape.dims@[1],
        match (table, out) {
            (CpuStorage::U32(v), CpuStorage::U32(d)) => d@.subrange(
                k * table_l.shape.dims@[1],
                (k + 1) * table_l.shape.dims@[1],
            ) == v@.subrange(
                table_l.start_offset + table_l.shape.dims@[1] * listed(ids@, ids_l)[k],
                table_l.start_offset + table_l.shape.dims@[1] * (listed(ids@, ids_l)[k] + 1),
            ),
            (CpuStorage::BF16(v), CpuStorage::BF16(d)) => d@.subrange(
                k * table_l.shape.dims@[1],
                (k + 1) * table_l.shape.dims@[1],
            ) == v@.subrange(
                table_l.start_offset + table_l.shape.dims@[1] * listed(ids@, ids_l)[k],
                table_l.start_offset + table_l.shape.dims@[1] * (listed(ids@, ids_l)[k] + 1),
            ),
            (CpuStorage::F16(v), CpuStorage::F16(d)) => d@.subrange(
                k * table_l.shape.dims@[1],
                (k + 1) * table_l.shape.dims@[1],
            ) == v@.subrange(
                table_l.start_offset + table_l.shape.dims@[1] * listed(ids@, ids_l)[k],
                table_l.start_offset + table_l.shape.dims@[1] * (listed(ids@, ids_l)[k] + 1),
            ),
            (CpuStorage::F32(v), CpuStorage::F32(d)) => d@.subrange(
                k * table_l.shape.dims@[1],
                (k + 1) * table_l.shape.dims@[1],
            ) == v@.subrange(
                table_l.start_offset + table_l.shape.dims@[1] * listed(ids@, ids_l)[k],
                table_l.start_offset + table_l.shape.dims@[1] * (listed(ids@, ids_l)[k] + 1),
            ),
            (CpuStorage::F64(v), CpuStorage::F64(d)) => d@.subrange(
                k * table_l.shape.dims@[1],
                (k + 1) * table_l.shape.dims@[1],
            ) == v@.subrange(
                table_l.start_offset + table_l.shape.dims@[1] * listed(ids@, ids_l)[k],
                table_l.start_offset + table_l.shape.dims@[1] * (listed(ids@, ids_l)[k] + 1),
            ),
            _ => false,
        },
{
    match (table, out) {
        (CpuStorage::U32(v), CpuStorage::U32(d)) => {
            lemma_rows_are_rows(ids@, ids_l, table_l.shape.dims@[1], v@, table_l.start_offset as int, d@, k);
        },
        (CpuStorage::BF16(v), CpuStorage::BF16(d)) => {
            lemma_rows_are_rows(ids@, ids_l, table_l.shape.dims@[1], v@, table_l.start_offset as int, d@, k);
        },
        (CpuStorage::F16(v), CpuStorage::F16(d)) => {
            lemma_rows_are_rows(ids@, ids_l, table_l.shape.dims@[1], v@, table_l.start_offset as int, d@, k);
        },
        (CpuStorage::F32(v), CpuStorage::F32(d)) => {
            lemma_rows_are_rows(ids@, ids_l, table_l.shape.dims@[1], v@, table_l.start_offset as int, d@, k);
        },
        (CpuStorage::F64(v), CpuStorage::F64(d)) => {
            lemma_rows_are_rows(ids@, ids_l, table_l.shape.dims@[1], v@, table_l.start_offset as int, d@, k);
        },
        _ => {},
    }
}

/// An embedding has as many rows as there are ids.
pub proof fn lemma_embedding_length(
    ids: Vec<u32>,
    ids_l: Layout,
    table: CpuStorage,
    table_l: Layout,
    out: CpuStorage,
)
    requires
        table_l.shape.dims@.len() == 2,
        call_ensures(
            CpuStorage::embedding,
            (&CpuStorage::U32(ids), &ids_l, &table, &table_l),
            Ok::<CpuStorage, Error>(out),
        ),
    ensures
        out.elem_type() == table.elem_type(),
        out.len() == shape::product(ids_l.shape.dims@) * table_l.shape.dims@[1],
{
}

/// Every element of a storage of ones is one, and there are as many as the shape has.
pub proof fn lemma_ones(dims: Shape, dtype: DType, s: CpuStorage, i: int)
    requires
        call_ensures(CpuStorage::ones_impl, (&dims, dtype), s),
        0 <= i < s.len(),
    ensures
        s.len() == shape::product(dims.dims@),
        match (dtype, s) {
            (DType::U32, CpuStorage::U32(v)) => v@[i] == 1,
            (DType::BF16, CpuStorage::BF16(v)) => v@[i].bits == 0x3f80,
            (DType::F16, CpuStorage::F16(v)) => v@[i].bits == 0x3c00,
            (DType::F32, CpuStorage::F32(v)) => v@[i].bits == 0x3f80_0000,
            (DType::F64, CpuStorage::F64(v)) => v@[i].bits == 0x3ff0_0000_0000_0000,
            _ => false,
        },
{
    match s {
        CpuStorage::U32(v) => assert(v@[i] == v@[i]),
        CpuStorage::BF16(v) => assert(v@[i] == v@[i]),
        CpuStorage::F16(v) => assert(v@[i] == v@[i]),
        CpuStorage::F32(v) => assert(v@[i] == v@[i]),
        CpuStorage::F64(v) => assert(v@[i] == v@[i]),
    }
}

/// Every element of a storage of zeros is zero, and there are as many as the shape has.
pub proof fn lemma_zeros(dims: Shape, dtype: DType, s: CpuStorage, i: int)
    requires
        call_ensures(CpuStorage::zeros_impl, (&dims, dtype), s),
        0 <= i < s.len(),
    ensures
        s.len() == shape::product(dims.dims@),
        match (dtype, s) {
            (DType::U32, CpuStorage::U32(v)) => v@[i] == 0,
            (DType::BF16, CpuStorage::BF16(v)) => v@[i].bits == 0,
            (DType::F16, CpuStorage::F16(v)) => v@[i].bits == 0,
            (DType::F32, CpuStorage::F32(v)) => v@[i].bits == 0,
            (DType::F64, CpuStorage::F64(v)) => v@[i].bits == 0,
            _ => false,
        },
{
    match s {
        CpuStorage::U32(v) => assert(v@[i] == v@[i]),
        CpuStorage::BF16(v) => assert(v@[i] == v@[i]),
        CpuStorage::F16(v) => assert(v@[i] == v@[i]),
        CpuStorage::F32(v) => assert(v@[i] == v@[i]),
        CpuStorage::F64(v) => assert(v@[i] == v@[i]),
    }
}

/// What a storage is: its element type, its length and its elements are those of its vector.
pub proof fn lemma_storage(
    u: Vec<u32>,
    b: Vec<BF16>,
    h: Vec<F16>,
    s: Vec<F32>,
    d: Vec<F64>,
)
    ensures
        CpuStorage::U32(u).elem_type() == DType::U32,
        CpuStorage::BF16(b).elem_type() == DType::BF16,
        CpuStorage::F16(h).elem_type() == DType::F16,
        CpuStorage::F32(s).elem_type() == DType::F32,
        CpuStorage::F64(d).elem_type() == DType::F64,
        CpuStorage::U32(u).len() == u@.len(),
        CpuStorage::BF16(b).len() == b@.len(),
        CpuStorage::F16(h).len() == h@.len(),
        CpuStorage::F32(s).len() == s@.len(),
        CpuStorage::F64(d).len() == d@.len(),
        <u32 as WithDType>::elements(CpuStorage::U32(u)) == Some(u@),
        <BF16 as WithDType>::elements(CpuStorage::BF16(b)) == Some(b@),
        <F16 as WithDType>::elements(CpuStorage::F16(h)) == Some(h@),
        <F32 as WithDType>::elements(CpuStorage::F32(s)) == Some(s@),
        <F64 as WithDType>::elements(CpuStorage::F64(d)) == Some(d@),
{
}

/// Storages with the same elements have the same type and, of every type, the same elements.
pub proof fn lemma_same_elements(a: CpuStorage, b: CpuStorage)
    requires
        a.same_elements(b),
    ensures
        a.elem_type() == b.elem_type(),
        <u32 as WithDType>::elements(a) == <u32 as WithDType>::elements(b),
        <BF16 as WithDType>::elements(a) == <BF16 as WithDType>::elements(b),
        <F16 as WithDType>::elements(a) == <F16 as WithDType>::elements(b),
        <F32 as WithDType>::elements(a) == <F32 as WithDType>::elements(b),
        <F64 as WithDType>::elements(a) == <F64 as WithDType>::elements(b),
{
}

/// Numbers modulo 2^32.
pub proof fn lemma_wrap(x: int)
    ensures
        0 <= numbers::wrap_u32(x) < 0x1_0000_0000,
        (x - numbers::wrap_u32(x)) % 0x1_0000_0000 == 0,
{
}

/// The view of a number tells all bit patterns apart but those that are not a number: these have every
/// bit of the exponent set and some bit of the mantissa.
pub proof fn lemma_views(a: BF16, b: BF16, c: F16, d: F16, e: F32, f: F32, g: F64, h: F64)
    ensures
        a@ == b@ <==> a.bits == b.bits || (a.bits % 0x8000 > 0x7f80 && b.bits % 0x8000 > 0x7f80),
        c@ == d@ <==> c.bits == d.bits || (c.bits % 0x8000 > 0x7c00 && d.bits % 0x8000 > 0x7c00),
        e@ == f@ <==> e.bits == f.bits || (e.bits % 0x8000_0000 > 0x7f80_0000 && f.bits
            % 0x8000_0000 > 0x7f80_0000),
        g@ == h@ <==> g.bits == h.bits || (g.bits % 0x8000_0000_0000_0000
            > 0x7ff0_0000_0000_0000 && h.bits % 0x8000_0000_0000_0000 > 0x7ff0_0000_0000_0000),
{
}

/// The elements whose coordinates are those of `c` in every dimension but `sum_dims`, in row-major
/// order.
pub open spec fn summands<T>(
    src: Seq<T>,
    l: Layout,
    sum_dims: Seq<usize>,
    c: Seq<usize>,
) -> Seq<T> {
    like(l, sum_dims, c).map_values(
        |k: int| at(src, l, layout::coords_of(l.shape.dims@, k as nat)),
    )
}

proof fn lemma_fold_modulo(xs: Seq<u32>)
    ensures
        xs.fold_left(0int, |a: int, x: u32| (a + x) % 0x1_0000_0000) == xs.fold_left(
            0int,
            |a: int, x: u32| a + x,
        ) % 0x1_0000_0000,
    decreases xs.len(),
{
    if xs.len() > 0 {
        lemma_fold_modulo(xs.drop_last());
        lemma_add_mod_noop(
            xs.drop_last().fold_left(0int, |a: int, x: u32| a + x),
            xs.last() as int,
            0x1_0000_0000,
        );
        lemma_small_mod(xs.last() as nat, 0x1_0000_0000);
    }
}

/// The sum of `u32` numbers with the coordinates `c` is, modulo 2^32, the sum of the elements with
/// these coordinates in the dimensions that are not summed over.
pub proof fn lemma_u32_sum_at<N: FloatOps>(
    s: Vec<u32>,
    l: Layout,
    sum_dims: &[usize],
    small: Seq<usize>,
    d: Vec<u32>,
    c: Seq<usize>,
)
    requires
        l.wf(),
        forall|i: int| 0 <= i < sum_dims@.len() ==> #[trigger] sum_dims@[i] < l.shape.dims@.len(),
        sum_dims@.no_duplicates(),
        shrunk(l.shape.dims@, sum_dims@, small),
        c.len() == small.len(),
        forall|i: int| 0 <= i < c.len() ==> #[trigger] c[i] < small[i],
        call_ensures(
            CpuStorage::sum::<N>,
            (&CpuStorage::U32(s), &l, sum_dims),
            Ok::<CpuStorage, Error>(CpuStorage::U32(d)),
        ),
    ensures
        d@.len() == shape::product(small),
        0 <= layout::position(small, c) < d@.len(),
        d@[layout::position(small, c) as int] as int == summands(s@, l, sum_dims@, c).fold_left(
            0int,
            |a: int, x: u32| a + x,
        ) % 0x1_0000_0000,
{
    lemma_sum_at(
        s@,
        l,
        sum_dims@,
        small,
        0,
        |a: u32, b: u32, r: u32| r == numbers::wrap_u32(a + b),
        |v: u32| v as int,
        |a: int, x: u32| (a + x) % 0x1_0000_0000,
        d@,
        c,
    );
    lemma_fold_modulo(summands(s@, l, sum_dims@, c));
}

/// The sum of `BF16` numbers with the coordinates `c` takes in, in row-major order, the elements with
/// these coordinates in the dimensions that are not summed over.
pub proof fn lemma_bf16_sum_at<N: FloatOps>(
    s: Vec<BF16>,
    l: Layout,
    sum_dims: &[usize],
    small: Seq<usize>,
    d: Vec<BF16>,
    c: Seq<usize>,
)
    requires
        l.wf(),
        forall|i: int| 0 <= i < sum_dims@.len() ==> #[trigger] sum_dims@[i] < l.shape.dims@.len(),
        sum_dims@.no_duplicates(),
        shrunk(l.shape.dims@, sum_dims@, small),
        c.len() == small.len(),
        forall|i: int| 0 <= i < c.len() ==> #[trigger] c[i] < small[i],
        call_ensures(
            CpuStorage::sum::<N>,
            (&CpuStorage::BF16(s), &l, sum_dims),
            Ok::<CpuStorage, Error>(CpuStorage::BF16(d)),
        ),
    ensures
        d@.len() == shape::product(small),
        0 <= layout::position(small, c) < d@.len(),
        d@[layout::position(small, c) as int]@ == summands(s@, l, sum_dims@, c).fold_left(
            Some(0u16),
            |a: Option<u16>, x: BF16| numbers::bf16_sum(a, x@),
        ),
{
    lemma_sum_at(
        s@,
        l,
        sum_dims@,
        small,
        BF16 { bits: 0 },
        |a: BF16, b: BF16, r: BF16| r@ == numbers::bf16_sum(a@, b@),
        |v: BF16| v@,
        |a: Option<u16>, x: BF16| numbers::bf16_sum(a, x@),
        d@,
        c,
    );
}

/// The sum of `F16` numbers with the coordinates `c` takes in, in row-major order, the elements with
/// these coordinates in the dimensions that are not summed over; `plus` is what the addition does.
pub proof fn lemma_f16_sum_at<N: FloatOps>(
    s: Vec<F16>,
    l: Layout,
    sum_dims: &[usize],
    small: Seq<usize>,
    plus: spec_fn(Option<u16>, Option<u16>) -> Option<u16>,
    d: Vec<F16>,
    c: Seq<usize>,
)
    requires
        l.wf(),
        forall|i: int| 0 <= i < sum_dims@.len() ==> #[trigger] sum_dims@[i] < l.shape.dims@.len(),
        sum_dims@.no_duplicates(),
        shrunk(l.shape.dims@, sum_dims@, small),
        c.len() == small.len(),
        forall|i: int| 0 <= i < c.len() ==> #[trigger] c[i] < small[i],
        call_ensures(
            CpuStorage::sum::<N>,
            (&CpuStorage::F16(s), &l, sum_dims),
            Ok::<CpuStorage, Error>(CpuStorage::F16(d)),
        ),
        forall|a: F16, x: F16, b: F16| #[trigger]
            call_ensures(N::f16_add, (a, x), b) ==> b@ == plus(a@, x@),
    ensures
        d@.len() == shape::product(small),
        0 <= layout::position(small, c) < d@.len(),
        d@[layout::position(small, c) as int]@ == summands(s@, l, sum_dims@, c).fold_left(
            Some(0u16),
            |a: Option<u16>, x: F16| plus(a, x@),
        ),
{
    lemma_sum_at(
        s@,
        l,
        sum_dims@,
        small,
        F16 { bits: 0 },
        |a: F16, b: F16, r: F16| call_ensures(N::f16_add, (a, b), r),
        |v: F16| v@,
        |a: Option<u16>, x: F16| plus(a, x@),
        d@,
        c,
    );
}

/// The sum of `F32` numbers with the coordinates `c` takes in, in row-major order, the elements with
/// these coordinates in the dimensions that are not summed over; `plus` is what the addition does.
pub proof fn lemma_f32_sum_at<N: FloatOps>(
    s: Vec<F32>,
    l: Layout,
    sum_dims: &[usize],
    small: Seq<usize>,
    plus: spec_fn(Option<u32>, Option<u32>) -> Option<u32>,
    d: Vec<F32>,
    c: Seq<usize>,
)
    requires
        l.wf(),
        forall|i: int| 0 <= i < sum_dims@.len() ==> #[trigger] sum_dims@[i] < l.shape.dims@.len(),
        sum_dims@.no_duplicates(),
        shrunk(l.shape.dims@, sum_dims@, small),
        c.len() == small.len(),
        forall|i: int| 0 <= i < c.len() ==> #[trigger] c[i] < small[i],
        call_ensures(
            CpuStorage::sum::<N>,
            (&CpuStorage::F32(s), &l, sum_dims),
            Ok::<CpuStorage, Error>(CpuStorage::F32(d)),
        ),
        forall|a: F32, x: F32, b: F32| #[trigger]
            call_ensures(N::f32_add, (a, x), b) ==> b@ == plus(a@, x@),
    ensures
        d@.len() == shape::product(small),
        0 <= layout::position(small, c) < d@.len(),
        d@[layout::position(small, c) as int]@ == summands(s@, l, sum_dims@, c).fold_left(
            Some(0u32),
            |a: Option<u32>, x: F32| plus(a, x@),
        ),
{
    lemma_sum_at(
        s@,
        l,
        sum_dims@,
        small,
        F32 { bits: 0 },
        |a: F32, b: F32, r: F32| call_ensures(N::f32_add, (a, b), r),
        |v: F32| v@,
        |a: Option<u32>, x: F32| plus(a, x@),
        d@,
        c,
    );
}

/// The sum of `F64` numbers with the coordinates `c` takes in, in row-major order, the elements with
/// these coordinates in the dimensions that are not summed over; `plus` is what the addition does.
pub proof fn lemma_f64_sum_at<N: FloatOps>(
    s: Vec<F64>,
    l: Layout,
    sum_dims: &[usize],
    small: Seq<usize>,
    plus: spec_fn(Option<u64>, Option<u64>) -> Option<u64>,
    d: Vec<F64>,
    c: Seq<usize>,
)
    requires
        l.wf(),
        forall|i: int| 0 <= i < sum_dims@.len() ==> #[trigger] sum_dims@[i] < l.shape.dims@.len(),
        sum_dims@.no_duplicates(),
        shrunk(l.shape.dims@, sum_dims@, small),
        c.len() == small.len(),
        forall|i: int| 0 <= i < c.len() ==> #[trigger] c[i] < small[i],
        call_ensures(
            CpuStorage::sum::<N>,
            (&CpuStorage::F64(s), &l, sum_dims),
            Ok::<CpuStorage, Error>(CpuStorage::F64(d)),
        ),
        forall|a: F64, x: F64, b: F64| #[trigger]
            call_ensures(N::f64_add, (a, x), b) ==> b@ == plus(a@, x@),
    ensures
        d@.len() == shape::product(small),
        0 <= layout::position(small, c) < d@.len(),
        d@[layout::position(small, c) as int]@ == summands(s@, l, sum_dims@, c).fold_left(
            Some(0u64),
            |a: Option<u64>, x: F64| plus(a, x@),
        ),
{
    lemma_sum_at(
        s@,
        l,
        sum_dims@,
        small,
        F64 { bits: 0 },
        |a: F64, b: F64, r: F64| call_ensures(N::f64_add, (a, b), r),
        |v: F64| v@,
        |a: Option<u64>, x: F64| plus(a, x@),
        d@,
        c,
    );
}

/// The `BF16` number with the coordinates `c` is divided by the sum, in double precision and ascending
/// order, of the numbers whose coordinates are the same but for the dimension `dim`; what stands
/// behind the array is as it was.
pub proof fn lemma_bf16_divided_at<N: FloatOps>(
    s: Vec<BF16>,
    e: Vec<BF16>,
    dims: Seq<usize>,
    dim: int,
    plus: spec_fn(Option<u64>, Option<u64>) -> Option<u64>,
    widen: spec_fn(BF16) -> Option<u64>,
    c: Seq<usize>,
)
    requires
        0 <= dim < dims.len(),
        shape::product(dims) <= s@.len(),
        storage::divided::<N>(CpuStorage::BF16(s), CpuStorage::BF16(e), dims, dim),
        forall|a: F64, x: F64, b: F64| #[trigger]
            call_ensures(N::f64_add, (a, x), b) ==> b@ == plus(a@, x@),
        forall|x: BF16, w: F64| #[trigger]
            call_ensures(N::bf16_to_f64, (x,), w) ==> w@ == widen(x),
        c.len() == dims.len(),
        forall|i: int| 0 <= i < c.len() ==> #[trigger] c[i] < dims[i],
    ensures
        e@.len() == s@.len(),
        e@.skip(shape::product(dims) as int) == s@.skip(shape::product(dims) as int),
        exists|t: F64, q: BF16|
            {
                &&& t@ == line(s@, dims, dim, c).fold_left(
                    Some(0u64),
                    |a: Option<u64>, x: BF16| plus(a, widen(x)),
                )
                &&& #[trigger] call_ensures(N::bf16_from_f64, (t,), q)
                &&& e@[layout::position(dims, c) as int]@ == numbers::bf16_quotient(s@[layout::position(dims, c) as int]@, q@)
            },
{
    let fold = |a: F64, x: BF16, b: F64|
            exists|w: F64| #[trigger]
                call_ensures(N::bf16_to_f64, (x,), w) && call_ensures(N::f64_add, (a, w), b);
    let narrow = |t: F64, x: BF16| call_ensures(N::bf16_from_f64, (t,), x);
    let quotient = |x: BF16, y: BF16, r: BF16| r@ == numbers::bf16_quotient(x@, y@);
    let g = |a: Option<u64>, x: BF16| plus(a, widen(x));
    let view = |v: F64| v@;
    assert forall|a: F64, x: BF16, b: F64| #[trigger] fold(a, x, b) implies view(b) == g(view(a), x) by {}
    lemma_divided_at(s@, e@, dims, dim, fold, narrow, quotient, view, g, c);
    lemma_divided_leaves(s@, e@, dims, dim, fold, narrow, quotient);
    let (t, q) = choose|t: F64, q: BF16|
        {
            &&& view(t) == line(s@, dims, dim, c).fold_left(view(F64 { bits: 0 }), g)
            &&& #[trigger] narrow(t, q)
            &&& quotient(
                s@[layout::position(dims, c) as int],
                q,
                e@[layout::position(dims, c) as int],
            )
        };
    assert(narrow(t, q));
    assert(quotient(
        s@[layout::position(dims, c) as int],
        q,
        e@[layout::position(dims, c) as int],
    ));
}

/// The `F16` number with the coordinates `c` is divided by the sum, in double precision and ascending
/// order, of the numbers whose coordinates are the same but for the dimension `dim`; what stands
/// behind the array is as it was.
pub proof fn lemma_f16_divided_at<N: FloatOps>(
    s: Vec<F16>,
    e: Vec<F16>,
    dims: Seq<usize>,
    dim: int,
    plus: spec_fn(Option<u64>, Option<u64>) -> Option<u64>,
    widen: spec_fn(F16) -> Option<u64>,
    c: Seq<usize>,
)
    requires
        0 <= dim < dims.len(),
        shape::product(dims) <= s@.len(),
        storage::divided::<N>(CpuStorage::F16(s), CpuStorage::F16(e), dims, dim),
        forall|a: F64, x: F64, b: F64| #[trigger]
            call_ensures(N::f64_add, (a, x), b) ==> b@ == plus(a@, x@),
        forall|x: F16, w: F64| #[trigger]
            call_ensures(N::f16_to_f64, (x,), w) ==> w@ == widen(x),
        c.len() == dims.len(),
        forall|i: int| 0 <= i < c.len() ==> #[trigger] c[i] < dims[i],
    ensures
        e@.len() == s@.len(),
        e@.skip(shape::product(dims) as int) == s@.skip(shape::product(dims) as int),
        exists|t: F64, q: F16|
            {
                &&& t@ == line(s@, dims, dim, c).fold_left(
                    Some(0u64),
                    |a: Option<u64>, x: F16| plus(a, widen(x)),
                )
                &&& #[trigger] call_ensures(N::f16_from_f64, (t,), q)
                &&& call_ensures(
                    N::f16_div,
                    (s@[layout::position(dims, c) as int], q),
                    e@[layout::position(dims, c) as int],
                )
            },
{
    let fold = |a: F64, x: F16, b: F64|
            exists|w: F64| #[trigger]
                call_ensures(N::f16_to_f64, (x,), w) && call_ensures(N::f64_add, (a, w), b);
    let narrow = |t: F64, x: F16| call_ensures(N::f16_from_f64, (t,), x);
    let quotient = |x: F16, y: F16, r: F16| call_ensures(N::f16_div, (x, y), r);
    let g = |a: Option<u64>, x: F16| plus(a, widen(x));
    let view = |v: F64| v@;
    assert forall|a: F64, x: F16, b: F64| #[trigger] fold(a, x, b) implies view(b) == g(view(a), x) by {}
    lemma_divided_at(s@, e@, dims, dim, fold, narrow, quotient, view, g, c);
    lemma_divided_leaves(s@, e@, dims, dim, fold, narrow, quotient);
    let (t, q) = choose|t: F64, q: F16|
        {
            &&& view(t) == line(s@, dims, dim, c).fold_left(view(F64 { bits: 0 }), g)
            &&& #[trigger] narrow(t, q)
            &&& quotient(
                s@[layout::position(dims, c) as int],
                q,
                e@[layout::position(dims, c) as int],
            )
        };
    assert(narrow(t, q));
    assert(quotient(
        s@[layout::position(dims, c) as int],
        q,
        e@[layout::position(dims, c) as int],
    ));
}

/// The `F32` number with the coordinates `c` is divided by the sum, in double precision and ascending
/// order, of the numbers whose coordinates are the same but for the dimension `dim`; what stands
/// behind the array is as it was.
pub proof fn lemma_f32_divided_at<N: FloatOps>(
    s: Vec<F32>,
    e: Vec<F32>,
    dims: Seq<usize>,
    dim: int,
    plus: spec_fn(Option<u64>, Option<u64>) -> Option<u64>,
    widen: spec_fn(F32) -> Option<u64>,
    c: Seq<usize>,
)
    requires
        0 <= dim < dims.len(),
        shape::product(dims) <= s@.len(),
        storage::divided::<N>(CpuStorage::F32(s), CpuStorage::F32(e), dims, dim),
        forall|a: F64, x: F64, b: F64| #[trigger]
            call_ensures(N::f64_add, (a, x), b) ==> b@ == plus(a@, x@),
        forall|x: F32, w: F64| #[trigger]
            call_ensures(N::f64_from_f32, (x,), w) ==> w@ == widen(x),
        c.len() == dims.len(),
        forall|i: int| 0 <= i < c.len() ==> #[trigger] c[i] < dims[i],
    ensures
        e@.len() == s@.len(),
        e@.skip(shape::product(dims) as int) == s@.skip(shape::product(dims) as int),
        exists|t: F64, q: F32|
            {
                &&& t@ == line(s@, dims, dim, c).fold_left(
                    Some(0u64),
                    |a: Option<u64>, x: F32| plus(a, widen(x)),
                )
                &&& #[trigger] call_ensures(N::f32_from_f64, (t,), q)
                &&& call_ensures(
                    N::f32_div,
                    (s@[layout::position(dims, c) as int], q),
                    e@[layout::position(dims, c) as int],
                )
            },
{
    let fold = |a: F64, x: F32, b: F64|
            exists|w: F64| #[trigger]
                call_ensures(N::f64_from_f32, (x,), w) && call_ensures(N::f64_add, (a, w), b);
    let narrow = |t: F64, x: F32| call_ensures(N::f32_from_f64, (t,), x);
    let quotient = |x: F32, y: F32, r: F32| call_ensures(N::f32_div, (x, y), r);
    let g = |a: Option<u64>, x: F32| plus(a, widen(x));
    let view = |v: F64| v@;
    assert forall|a: F64, x: F32, b: F64| #[trigger] fold(a, x, b) implies view(b) == g(view(a), x) by {}
    lemma_divided_at(s@, e@, dims, dim, fold, narrow, quotient, view, g, c);
    lemma_divided_leaves(s@, e@, dims, dim, fold, narrow, quotient);
    let (t, q) = choose|t: F64, q: F32|
        {
            &&& view(t) == line(s@, dims, dim, c).fold_left(view(F64 { bits: 0 }), g)
            &&& #[trigger] narrow(t, q)
            &&& quotient(
                s@[layout::position(dims, c) as int],
                q,
                e@[layout::position(dims, c) as int],
            )
        };
    assert(narrow(t, q));
    assert(quotient(
        s@[layout::position(dims, c) as int],
        q,
        e@[layout::position(dims, c) as int],
    ));
}

/// The `F64` number with the coordinates `c` is divided by the sum, in double precision and ascending
/// order, of the numbers whose coordinates are the same but for the dimension `dim`; what stands
/// behind the array is as it was.
pub proof fn lemma_f64_divided_at<N: FloatOps>(
    s: Vec<F64>,
    e: Vec<F64>,
    dims: Seq<usize>,
    dim: int,
    plus: spec_fn(Option<u64>, Option<u64>) -> Option<u64>,
    c: Seq<usize>,
)
    requires
        0 <= dim < dims.len(),
        shape::product(dims) <= s@.len(),
        storage::divided::<N>(CpuStorage::F64(s), CpuStorage::F64(e), dims, dim),
        forall|a: F64, x: F64, b: F64| #[trigger]
            call_ensures(N::f64_add, (a, x), b) ==> b@ == plus(a@, x@),
        c.len() == dims.len(),
        forall|i: int| 0 <= i < c.len() ==> #[trigger] c[i] < dims[i],
    ensures
        e@.len() == s@.len(),
        e@.skip(shape::product(dims) as int) == s@.skip(shape::product(dims) as int),
        exists|t: F64|
            {
                &&& t@ == line(s@, dims, dim, c).fold_left(
                    Some(0u64),
                    |a: Option<u64>, x: F64| plus(a, x@),
                )
                &&& #[trigger] call_ensures(
                    N::f64_div,
                    (s@[layout::position(dims, c) as int], t),
                    e@[layout::position(dims, c) as int],
                )
            },
{
    let fold = |a: F64, x: F64, b: F64| call_ensures(N::f64_add, (a, x), b);
    let narrow = |t: F64, x: F64| x == t;
    let quotient = |x: F64, y: F64, r: F64| call_ensures(N::f64_div, (x, y), r);
    let g = |a: Option<u64>, x: F64| plus(a, x@);
    let view = |v: F64| v@;
    assert forall|a: F64, x: F64, b: F64| #[trigger] fold(a, x, b) implies view(b) == g(view(a), x) by {}
    lemma_divided_at(s@, e@, dims, dim, fold, narrow, quotient, view, g, c);
    lemma_divided_leaves(s@, e@, dims, dim, fold, narrow, quotient);
    let (t, q) = choose|t: F64, q: F64|
        {
            &&& view(t) == line(s@, dims, dim, c).fold_left(view(F64 { bits: 0 }), g)
            &&& #[trigger] narrow(t, q)
            &&& quotient(
                s@[layout::position(dims, c) as int],
                q,
                e@[layout::position(dims, c) as int],
            )
        };
    assert(narrow(t, q));
    assert(quotient(
        s@[layout::position(dims, c) as int],
        q,
        e@[layout::position(dims, c) as int],
    ));
}

/// The division leaves `u32` numbers as they are.
pub proof fn lemma_u32_divided<N: FloatOps>(
    s: Vec<u32>,
    e: CpuStorage,
    dims: Seq<usize>,
    dim: int,
)
    requires
        storage::divided::<N>(CpuStorage::U32(s), e, dims, dim),
    ensures
        <u32 as WithDType>::elements(e) == Some(s@),
{
}

/// What `K` hands out is, as far as `view` tells, what `inner` makes of the rows of the left matrix
/// and the columns of the right matrix.
pub open spec fn multiplies_f16<K: Gemm, V>(
    view: spec_fn(F16) -> V,
    inner: spec_fn(Seq<F16>, Seq<F16>) -> V,
) -> bool {
    forall|x: &[F16], y: &[F16], call: GemmCall, o: Vec<F16>, i: usize, j: usize|
        #![trigger call_ensures(K::gemm_f16, (x, y, call), o), i * call.dst_rs, j * call.dst_cs]
        call_ensures(K::gemm_f16, (x, y, call), o) && call.in_bounds(
            x@.len() as int,
            y@.len() as int,
        ) && i < call.m && j < call.n ==> 0 <= i * call.dst_rs + j * call.dst_cs < o@.len() && view(
            o@[i * call.dst_rs + j * call.dst_cs],
        ) == inner(
            Seq::new(
                call.k as nat,
                |p: int| x@[call.lhs_offset + i * call.lhs_rs + p * call.lhs_cs],
            ),
            Seq::new(
                call.k as nat,
                |p: int| y@[call.rhs_offset + p * call.rhs_rs + j * call.rhs_cs],
            ),
        )
}

proof fn lemma_multiplies_f16<K: Gemm, V>(
    a: Seq<F16>,
    b: Seq<F16>,
    view: spec_fn(F16) -> V,
    inner: spec_fn(Seq<F16>, Seq<F16>) -> V,
)
    requires
        multiplies_f16::<K, V>(view, inner),
    ensures
        multiplies(
            a,
            b,
            |c: GemmCall, block: Seq<F16>|
                exists|x: &[F16], y: &[F16], o: Vec<F16>|
                    {
                        &&& x@ == a
                        &&& y@ == b
                        &&& #[trigger] call_ensures(K::gemm_f16, (x, y, c), o)
                        &&& o@ == block
                    },
            view,
            inner,
        ),
{
    let kernel = |c: GemmCall, block: Seq<F16>|
        exists|x: &[F16], y: &[F16], o: Vec<F16>|
            {
                &&& x@ == a
                &&& y@ == b
                &&& #[trigger] call_ensures(K::gemm_f16, (x, y, c), o)
                &&& o@ == block
            };
    assert forall|call: GemmCall, out: Seq<F16>, i: usize, j: usize|
        #![trigger kernel(call, out), i * call.dst_rs, j * call.dst_cs]
        kernel(call, out) && call.in_bounds(a.len() as int, b.len() as int) && i < call.m && j
            < call.n implies 0 <= i * call.dst_rs + j * call.dst_cs < out.len() && view(
        out[i * call.dst_rs + j * call.dst_cs],
    ) == inner(
        Seq::new(
            call.k as nat,
            |p: int| a[call.lhs_offset + i * call.lhs_rs + p * call.lhs_cs],
        ),
        Seq::new(
            call.k as nat,
            |p: int| b[call.rhs_offset + p * call.rhs_rs + j * call.rhs_cs],
        ),
    ) by {
        let (x, y, o) = choose|x: &[F16], y: &[F16], o: Vec<F16>|
            {
                &&& x@ == a
                &&& y@ == b
                &&& #[trigger] call_ensures(K::gemm_f16, (x, y, call), o)
                &&& o@ == out
            };
        assert(call_ensures(K::gemm_f16, (x, y, call), o));
    }
}

/// The entry in row `i` and column `j` of the product of two matrices of `F16` numbers is what `inner`
/// makes of row `i` of the left matrix and column `j` of the right matrix.
pub proof fn lemma_f16_product<K: Gemm, V>(
    a: Vec<F16>,
    a_l: Layout,
    b: Vec<F16>,
    b_l: Layout,
    mnk: (usize, usize, usize),
    d: Vec<F16>,
    view: spec_fn(F16) -> V,
    inner: spec_fn(Seq<F16>, Seq<F16>) -> V,
    i: usize,
    j: usize,
)
    requires
        a_l.wf(),
        b_l.wf(),
        a_l.shape.dims@ == seq![mnk.0, mnk.2],
        b_l.shape.dims@ == seq![mnk.2, mnk.1],
        matmul::matmul_within(
            (1, mnk.0, mnk.1, mnk.2),
            a_l,
            a@.len() as int,
            b_l,
            b@.len() as int,
        ),
        call_ensures(
            CpuStorage::matmul::<K>,
            (
                &CpuStorage::F16(a),
                &CpuStorage::F16(b),
                (1usize, mnk.0, mnk.1, mnk.2),
                &a_l,
                &b_l,
            ),
            Ok::<CpuStorage, Error>(CpuStorage::F16(d)),
        ),
        multiplies_f16::<K, V>(view, inner),
        i < mnk.0,
        j < mnk.1,
    ensures
        d@.len() == mnk.0 * mnk.1,
        0 <= i * mnk.1 + j < d@.len(),
        view(d@[i * mnk.1 + j]) == inner(
            Seq::new(mnk.2 as nat, |p: int| at(a@, a_l, seq![i, p as usize])),
            Seq::new(mnk.2 as nat, |p: int| at(b@, b_l, seq![p as usize, j])),
        ),
{
    lemma_multiplies_f16::<K, V>(a@, b@, view, inner);
    let kernel = |c: GemmCall, block: Seq<F16>|
        exists|x: &[F16], y: &[F16], o: Vec<F16>|
            {
                &&& x@ == a@
                &&& y@ == b@
                &&& #[trigger] call_ensures(K::gemm_f16, (x, y, c), o)
                &&& o@ == block
            };
    lemma_product_of_matrices(
        mnk,
        a@,
        a_l,
        b@,
        b_l,
        F16 { bits: 0 },
        kernel,
        view,
        inner,
        d@,
        i,
        j,
    );
}

/// The entry in row `i` and column `j` of product number `step` of two batches of matrices of `F16`
/// numbers is what `inner` makes of row `i` of the left matrix and column `j` of the right matrix.
pub proof fn lemma_f16_batch_product<K: Gemm, V>(
    a: Vec<F16>,
    a_l: Layout,
    b: Vec<F16>,
    b_l: Layout,
    bmnk: (usize, usize, usize, usize),
    d: Vec<F16>,
    view: spec_fn(F16) -> V,
    inner: spec_fn(Seq<F16>, Seq<F16>) -> V,
    step: usize,
    i: usize,
    j: usize,
)
    requires
        a_l.wf(),
        b_l.wf(),
        a_l.shape.dims@ == seq![bmnk.0, bmnk.1, bmnk.3],
        b_l.shape.dims@ == seq![bmnk.0, bmnk.3, bmnk.2],
        matmul::batch_striding(a_l.stride@, b_l.stride@, bmnk.1 * bmnk.3, bmnk.2 * bmnk.3),
        matmul::matmul_within(bmnk, a_l, a@.len() as int, b_l, b@.len() as int),
        call_ensures(
            CpuStorage::matmul::<K>,
            (
                &CpuStorage::F16(a),
                &CpuStorage::F16(b),
                bmnk,
                &a_l,
                &b_l,
            ),
            Ok::<CpuStorage, Error>(CpuStorage::F16(d)),
        ),
        multiplies_f16::<K, V>(view, inner),
        step < bmnk.0,
        i < bmnk.1,
        j < bmnk.2,
    ensures
        d@.len() == bmnk.0 * (bmnk.1 * bmnk.2),
        0 <= step * (bmnk.1 * bmnk.2) + i * bmnk.2 + j < d@.len(),
        view(d@[step * (bmnk.1 * bmnk.2) + i * bmnk.2 + j]) == inner(
            Seq::new(bmnk.3 as nat, |p: int| at(a@, a_l, seq![step, i, p as usize])),
            Seq::new(bmnk.3 as nat, |p: int| at(b@, b_l, seq![step, p as usize, j])),
        ),
{
    lemma_multiplies_f16::<K, V>(a@, b@, view, inner);
    let kernel = |c: GemmCall, block: Seq<F16>|
        exists|x: &[F16], y: &[F16], o: Vec<F16>|
            {
                &&& x@ == a@
                &&& y@ == b@
                &&& #[trigger] call_ensures(K::gemm_f16, (x, y, c), o)
                &&& o@ == block
            };
    lemma_product_of_batches(
        bmnk,
        a@,
        a_l,
        b@,
        b_l,
        F16 { bits: 0 },
        kernel,
        view,
        inner,
        d@,
        step,
        i,
        j,
    );
}

/// What `K` hands out is, as far as `view` tells, what `inner` makes of the rows of the left matrix
/// and the columns of the right matrix.
pub open spec fn multiplies_f32<K: Gemm, V>(
    view: spec_fn(F32) -> V,
    inner: spec_fn(Seq<F32>, Seq<F32>) -> V,
) -> bool {
    forall|x: &[F32], y: &[F32], call: GemmCall, o: Vec<F32>, i: usize, j: usize|
        #![trigger call_ensures(K::gemm_f32, (x, y, call), o), i * call.dst_rs, j * call.dst_cs]
        call_ensures(K::gemm_f32, (x, y, call), o) && call.in_bounds(
            x@.len() as int,
            y@.len() as int,
        ) && i < call.m && j < call.n ==> 0 <= i * call.dst_rs + j * call.dst_cs < o@.len() && view(
            o@[i * call.dst_rs + j * call.dst_cs],
        ) == inner(
            Seq::new(
                call.k as nat,
                |p: int| x@[call.lhs_offset + i * call.lhs_rs + p * call.lhs_cs],
            ),
            Seq::new(
                call.k as nat,
                |p: int| y@[call.rhs_offset + p * call.rhs_rs + j * call.rhs_cs],
            ),
        )
}

proof fn lemma_multiplies_f32<K: Gemm, V>(
    a: Seq<F32>,
    b: Seq<F32>,
    view: spec_fn(F32) -> V,
    inner: spec_fn(Seq<F32>, Seq<F32>) -> V,
)
    requires
        multiplies_f32::<K, V>(view, inner),
    ensures
        multiplies(
            a,
            b,
            |c: GemmCall, block: Seq<F32>|
                exists|x: &[F32], y: &[F32], o: Vec<F32>|
                    {
                        &&& x@ == a
                        &&& y@ == b
                        &&& #[trigger] call_ensures(K::gemm_f32, (x, y, c), o)
                        &&& o@ == block
                    },
            view,
            inner,
        ),
{
    let kernel = |c: GemmCall, block: Seq<F32>|
        exists|x: &[F32], y: &[F32], o: Vec<F32>|
            {
                &&& x@ == a
                &&& y@ == b
                &&& #[trigger] call_ensures(K::gemm_f32, (x, y, c), o)
                &&& o@ == block
            };
    assert forall|call: GemmCall, out: Seq<F32>, i: usize, j: usize|
        #![trigger kernel(call, out), i * call.dst_rs, j * call.dst_cs]
        kernel(call, out) && call.in_bounds(a.len() as int, b.len() as int) && i < call.m && j
            < call.n implies 0 <= i * call.dst_rs + j * call.dst_cs < out.len() && view(
        out[i * call.dst_rs + j * call.dst_cs],
    ) == inner(
        Seq::new(
            call.k as nat,
            |p: int| a[call.lhs_offset + i * call.lhs_rs + p * call.lhs_cs],
        ),
        Seq::new(
            call.k as nat,
            |p: int| b[call.rhs_offset + p * call.rhs_rs + j * call.rhs_cs],
        ),
    ) by {
        let (x, y, o) = choose|x: &[F32], y: &[F32], o: Vec<F32>|
            {
                &&& x@ == a
                &&& y@ == b
                &&& #[trigger] call_ensures(K::gemm_f32, (x, y, call), o)
                &&& o@ == out
            };
        assert(call_ensures(K::gemm_f32, (x, y, call), o));
    }
}

/// The entry in row `i` and column `j` of the product of two matrices of `F32` numbers is what `inner`
/// makes of row `i` of the left matrix and column `j` of the right matrix.
pub proof fn lemma_f32_product<K: Gemm, V>(
    a: Vec<F32>,
    a_l: Layout,
    b: Vec<F32>,
    b_l: Layout,
    mnk: (usize, usize, usize),
    d: Vec<F32>,
    view: spec_fn(F32) -> V,
    inner: spec_fn(Seq<F32>, Seq<F32>) -> V,
    i: usize,
    j: usize,
)
    requires
        a_l.wf(),
        b_l.wf(),
        a_l.shape.dims@ == seq![mnk.0, mnk.2],
        b_l.shape.dims@ == seq![mnk.2, mnk.1],
        matmul::matmul_within(
            (1, mnk.0, mnk.1, mnk.2),
            a_l,
            a@.len() as int,
            b_l,
            b@.len() as int,
        ),
        call_ensures(
            CpuStorage::matmul::<K>,
            (
                &CpuStorage::F32(a),
                &CpuStorage::F32(b),
                (1usize, mnk.0, mnk.1, mnk.2),
                &a_l,
                &b_l,
            ),
            Ok::<CpuStorage, Error>(CpuStorage::F32(d)),
        ),
        multiplies_f32::<K, V>(view, inner),
        i < mnk.0,
        j < mnk.1,
    ensures
        d@.len() == mnk.0 * mnk.1,
        0 <= i * mnk.1 + j < d@.len(),
        view(d@[i * mnk.1 + j]) == inner(
            Seq::new(mnk.2 as nat, |p: int| at(a@, a_l, seq![i, p as usize])),
            Seq::new(mnk.2 as nat, |p: int| at(b@, b_l, seq![p as usize, j])),
        ),
{
    lemma_multiplies_f32::<K, V>(a@, b@, view, inner);
    let kernel = |c: GemmCall, block: Seq<F32>|
        exists|x: &[F32], y: &[F32], o: Vec<F32>|
            {
                &&& x@ == a@
                &&& y@ == b@
                &&& #[trigger] call_ensures(K::gemm_f32, (x, y, c), o)
                &&& o@ == block
            };
    lemma_product_of_matrices(
        mnk,
        a@,
        a_l,
        b@,
        b_l,
        F32 { bits: 0 },
        kernel,
        view,
        inner,
        d@,
        i,
        j,
    );
}

/// The entry in row `i` and column `j` of product number `step` of two batches of matrices of `F32`
/// numbers is what `inner` makes of row `i` of the left matrix and column `j` of the right matrix.
pub proof fn lemma_f32_batch_product<K: Gemm, V>(
    a: Vec<F32>,
    a_l: Layout,
    b: Vec<F32>,
    b_l: Layout,
    bmnk: (usize, usize, usize, usize),
    d: Vec<F32>,
    view: spec_fn(F32) -> V,
    inner: spec_fn(Seq<F32>, Seq<F32>) -> V,
    step: usize,
    i: usize,
    j: usize,
)
    requires
        a_l.wf(),
        b_l.wf(),
        a_l.shape.dims@ == seq![bmnk.0, bmnk.1, bmnk.3],
        b_l.shape.dims@ == seq![bmnk.0, bmnk.3, bmnk.2],
        matmul::batch_striding(a_l.stride@, b_l.stride@, bmnk.1 * bmnk.3, bmnk.2 * bmnk.3),
        matmul::matmul_within(bmnk, a_l, a@.len() as int, b_l, b@.len() as int),
        call_ensures(
            CpuStorage::matmul::<K>,
            (
                &CpuStorage::F32(a),
                &CpuStorage::F32(b),
                bmnk,
                &a_l,
                &b_l,
            ),
            Ok::<CpuStorage, Error>(CpuStorage::F32(d)),
        ),
        multiplies_f32::<K, V>(view, inner),
        step < bmnk.0,
        i < bmnk.1,
        j < bmnk.2,
    ensures
        d@.len() == bmnk.0 * (bmnk.1 * bmnk.2),
        0 <= step * (bmnk.1 * bmnk.2) + i * bmnk.2 + j < d@.len(),
        view(d@[step * (bmnk.1 * bmnk.2) + i * bmnk.2 + j]) == inner(
            Seq::new(bmnk.3 as nat, |p: int| at(a@, a_l, seq![step, i, p as usize])),
            Seq::new(bmnk.3 as nat, |p: int| at(b@, b_l, seq![step, p as usize, j])),
        ),
{
    lemma_multiplies_f32::<K, V>(a@, b@, view, inner);
    let kernel = |c: GemmCall, block: Seq<F32>|
        exists|x: &[F32], y: &[F32], o: Vec<F32>|
            {
                &&& x@ == a@
                &&& y@ == b@
                &&& #[trigger] call_ensures(K::gemm_f32, (x, y, c), o)
                &&& o@ == block
            };
    lemma_product_of_batches(
        bmnk,
        a@,
        a_l,
        b@,
        b_l,
        F32 { bits: 0 },
        kernel,
        view,
        inner,
        d@,
        step,
        i,
        j,
    );
}

/// What `K` hands out is, as far as `view` tells, what `inner` makes of the rows of the left matrix
/// and the columns of the right matrix.
pub open spec fn multiplies_f64<K: Gemm, V>(
    view: spec_fn(F64) -> V,
    inner: spec_fn(Seq<F64>, Seq<F64>) -> V,
) -> bool {
    forall|x: &[F64], y: &[F64], call: GemmCall, o: Vec<F64>, i: usize, j: usize|
        #![trigger call_ensures(K::gemm_f64, (x, y, call), o), i * call.dst_rs, j * call.dst_cs]
        call_ensures(K::gemm_f64, (x, y, call), o) && call.in_bounds(
            x@.len() as int,
            y@.len() as int,
        ) && i < call.m && j < call.n ==> 0 <= i * call.dst_rs + j * call.dst_cs < o@.len() && view(
            o@[i * call.dst_rs + j * call.dst_cs],
        ) == inner(
            Seq::new(
                call.k as nat,
                |p: int| x@[call.lhs_offset + i * call.lhs_rs + p * call.lhs_cs],
            ),
            Seq::new(
                call.k as nat,
                |p: int| y@[call.rhs_offset + p * call.rhs_rs + j * call.rhs_cs],
            ),
        )
}

proof fn lemma_multiplies_f64<K: Gemm, V>(
    a: Seq<F64>,
    b: Seq<F64>,
    view: spec_fn(F64) -> V,
    inner: spec_fn(Seq<F64>, Seq<F64>) -> V,
)
    requires
        multiplies_f64::<K, V>(view, inner),
    ensures
        multiplies(
            a,
            b,
            |c: GemmCall, block: Seq<F64>|
                exists|x: &[F64], y: &[F64], o: Vec<F64>|
                    {
                        &&& x@ == a
                        &&& y@ == b
                        &&& #[trigger] call_ensures(K::gemm_f64, (x, y, c), o)
                        &&& o@ == block
                    },
            view,
            inner,
        ),
{
    let kernel = |c: GemmCall, block: Seq<F64>|
        exists|x: &[F64], y: &[F64], o: Vec<F64>|
            {
                &&& x@ == a
                &&& y@ == b
                &&& #[trigger] call_ensures(K::gemm_f64, (x, y, c), o)
                &&& o@ == block
            };
    assert forall|call: GemmCall, out: Seq<F64>, i: usize, j: usize|
        #![trigger kernel(call, out), i * call.dst_rs, j * call.dst_cs]
        kernel(call, out) && call.in_bounds(a.len() as int, b.len() as int) && i < call.m && j
            < call.n implies 0 <= i * call.dst_rs + j * call.dst_cs < out.len() && view(
        out[i * call.dst_rs + j * call.dst_cs],
    ) == inner(
        Seq::new(
            call.k as nat,
            |p: int| a[call.lhs_offset + i * call.lhs_rs + p * call.lhs_cs],
        ),
        Seq::new(
            call.k as nat,
            |p: int| b[call.rhs_offset + p * call.rhs_rs + j * call.rhs_cs],
        ),
    ) by {
        let (x, y, o) = choose|x: &[F64], y: &[F64], o: Vec<F64>|
            {
                &&& x@ == a
                &&& y@ == b
                &&& #[trigger] call_ensures(K::gemm_f64, (x, y, call), o)
                &&& o@ == out
            };
        assert(call_ensures(K::gemm_f64, (x, y, call), o));
    }
}

/// The entry in row `i` and column `j` of the product of two matrices of `F64` numbers is what `inner`
/// makes of row `i` of the left matrix and column `j` of the right matrix.
pub proof fn lemma_f64_product<K: Gemm, V>(
    a: Vec<F64>,
    a_l: Layout,
    b: Vec<F64>,
    b_l: Layout,
    mnk: (usize, usize, usize),
    d: Vec<F64>,
    view: spec_fn(F64) -> V,
    inner: spec_fn(Seq<F64>, Seq<F64>) -> V,
    i: usize,
    j: usize,
)
    requires
        a_l.wf(),
        b_l.wf(),
        a_l.shape.dims@ == seq![mnk.0, mnk.2],
        b_l.shape.dims@ == seq![mnk.2, mnk.1],
        matmul::matmul_within(
            (1, mnk.0, mnk.1, mnk.2),
            a_l,
            a@.len() as int,
            b_l,
            b@.len() as int,
        ),
        call_ensures(
            CpuStorage::matmul::<K>,
            (
                &CpuStorage::F64(a),
                &CpuStorage::F64(b),
                (1usize, mnk.0, mnk.1, mnk.2),
                &a_l,
                &b_l,
            ),
            Ok::<CpuStorage, Error>(CpuStorage::F64(d)),
        ),
        multiplies_f64::<K, V>(view, inner),
        i < mnk.0,
        j < mnk.1,
    ensures
        d@.len() == mnk.0 * mnk.1,
        0 <= i * mnk.1 + j < d@.len(),
        view(d@[i * mnk.1 + j]) == inner(
            Seq::new(mnk.2 as nat, |p: int| at(a@, a_l, seq![i, p as usize])),
            Seq::new(mnk.2 as nat, |p: int| at(b@, b_l, seq![p as usize, j])),
        ),
{
    lemma_multiplies_f64::<K, V>(a@, b@, view, inner);
    let kernel = |c: GemmCall, block: Seq<F64>|
        exists|x: &[F64], y: &[F64], o: Vec<F64>|
            {
                &&& x@ == a@
                &&& y@ == b@
                &&& #[trigger] call_ensures(K::gemm_f64, (x, y, c), o)
                &&& o@ == block
            };
    lemma_product_of_matrices(
        mnk,
        a@,
        a_l,
        b@,
        b_l,
        F64 { bits: 0 },
        kernel,
        view,
        inner,
        d@,
        i,
        j,
    );
}

/// The entry in row `i` and column `j` of product number `step` of two batches of matrices of `F64`
/// numbers is what `inner` makes of row `i` of the left matrix and column `j` of the right matrix.
pub proof fn lemma_f64_batch_product<K: Gemm, V>(
    a: Vec<F64>,
    a_l: Layout,
    b: Vec<F64>,
    b_l: Layout,
    bmnk: (usize, usize, usize, usize),
    d: Vec<F64>,
    view: spec_fn(F64) -> V,
    inner: spec_fn(Seq<F64>, Seq<F64>) -> V,
    step: usize,
    i: usize,
    j: usize,
)
    requires
        a_l.wf(),
        b_l.wf(),
        a_l.shape.dims@ == seq![bmnk.0, bmnk.1, bmnk.3],
        b_l.shape.dims@ == seq![bmnk.0, bmnk.3, bmnk.2],
        matmul::batch_striding(a_l.stride@, b_l.stride@, bmnk.1 * bmnk.3, bmnk.2 * bmnk.3),
        matmul::matmul_within(bmnk, a_l, a@.len() as int, b_l, b@.len() as int),
        call_ensures(
            CpuStorage::matmul::<K>,
            (
                &CpuStorage::F64(a),
                &CpuStorage::F64(b),
                bmnk,
                &a_l,
                &b_l,
            ),
            Ok::<CpuStorage, Error>(CpuStorage::F64(d)),
        ),
        multiplies_f64::<K, V>(view, inner),
        step < bmnk.0,
        i < bmnk.1,
        j < bmnk.2,
    ensures
        d@.len() == bmnk.0 * (bmnk.1 * bmnk.2),
        0 <= step * (bmnk.1 * bmnk.2) + i * bmnk.2 + j < d@.len(),
        view(d@[step * (bmnk.1 * bmnk.2) + i * bmnk.2 + j]) == inner(
            Seq::new(bmnk.3 as nat, |p: int| at(a@, a_l, seq![step, i, p as usize])),
            Seq::new(bmnk.3 as nat, |p: int| at(b@, b_l, seq![step, p as usize, j])),
        ),
{
    lemma_multiplies_f64::<K, V>(a@, b@, view, inner);
    let kernel = |c: GemmCall, block: Seq<F64>|
        exists|x: &[F64], y: &[F64], o: Vec<F64>|
            {
                &&& x@ == a@
                &&& y@ == b@
                &&& #[trigger] call_ensures(K::gemm_f64, (x, y, c), o)
                &&& o@ == block
            };
    lemma_product_of_batches(
        bmnk,
        a@,
        a_l,
        b@,
        b_l,
        F64 { bits: 0 },
        kernel,
        view,
        inner,
        d@,
        step,
        i,
        j,
    );
}

/// A storage of no elements has the type that was asked for, too.
pub proof fn lemma_constant_types(dims: Shape, dtype: DType, ones: CpuStorage, zeros: CpuStorage)
    requires
        call_ensures(CpuStorage::ones_impl, (&dims, dtype), ones),
        call_ensures(CpuStorage::zeros_impl, (&dims, dtype), zeros),
    ensures
        ones.elem_type() == dtype,
        zeros.elem_type() == dtype,
        ones.len() == shape::product(dims.dims@),
        zeros.len() == shape::product(dims.dims@),
{
}

/// `dtype` names the type of the elements.
pub proof fn lemma_dtype(s: CpuStorage, r: DType)
    requires
        call_ensures(CpuStorage::dtype, (&s,), r),
    ensures
        match s {
            CpuStorage::U32(_) => r == DType::U32,
            CpuStorage::BF16(_) => r == DType::BF16,
            CpuStorage::F16(_) => r == DType::F16,
            CpuStorage::F32(_) => r == DType::F32,
            CpuStorage::F64(_) => r == DType::F64,
        },
{
}

/// A storage of `u32` elements can be read as such, and no other storage can.
pub proof fn lemma_as_slice_u32(s: CpuStorage, r: Result<&[u32], Error>)
    requires
        call_ensures(CpuStorage::as_slice::<u32>, (&s,), r),
    ensures
        match s {
            CpuStorage::U32(v) => r matches Ok(x) && x@ == v@,
            _ => r == Err::<&[u32], Error>(
                Error::UnexpectedDType { expected: DType::U32, got: s.elem_type() },
            ),
        },
{
    storage::lemma_dtypes();
}

/// A storage of `BF16` elements can be read as such, and no other storage can.
pub proof fn lemma_as_slice_bf16(s: CpuStorage, r: Result<&[BF16], Error>)
    requires
        call_ensures(CpuStorage::as_slice::<BF16>, (&s,), r),
    ensures
        match s {
            CpuStorage::BF16(v) => r matches Ok(x) && x@ == v@,
            _ => r == Err::<&[BF16], Error>(
                Error::UnexpectedDType { expected: DType::BF16, got: s.elem_type() },
            ),
        },
{
    storage::lemma_dtypes();
}

/// A storage of `F16` elements can be read as such, and no other storage can.
pub proof fn lemma_as_slice_f16(s: CpuStorage, r: Result<&[F16], Error>)
    requires
        call_ensures(CpuStorage::as_slice::<F16>, (&s,), r),
    ensures
        match s {
            CpuStorage::F16(v) => r matches Ok(x) && x@ == v@,
            _ => r == Err::<&[F16], Error>(
                Error::UnexpectedDType { expected: DType::F16, got: s.elem_type() },
            ),
        },
{
    storage::lemma_dtypes();
}

/// A storage of `F32` elements can be read as such, and no other storage can.
pub proof fn lemma_as_slice_f32(s: CpuStorage, r: Result<&[F32], Error>)
    requires
        call_ensures(CpuStorage::as_slice::<F32>, (&s,), r),
    ensures
        match s {
            CpuStorage::F32(v) => r matches Ok(x) && x@ == v@,
            _ => r == Err::<&[F32], Error>(
                Error::UnexpectedDType { expected: DType::F32, got: s.elem_type() },
            ),
        },
{
    storage::lemma_dtypes();
}

/// A storage of `F64` elements can be read as such, and no other storage can.
pub proof fn lemma_as_slice_f64(s: CpuStorage, r: Result<&[F64], Error>)
    requires
        call_ensures(CpuStorage::as_slice::<F64>, (&s,), r),
    ensures
        match s {
            CpuStorage::F64(v) => r matches Ok(x) && x@ == v@,
            _ => r == Err::<&[F64], Error>(
                Error::UnexpectedDType { expected: DType::F64, got: s.elem_type() },
            ),
        },
{
    storage::lemma_dtypes();
}

/// Conversions, sums, affine maps and operations on one array always succeed, and all but conversions
/// keep the element type.
pub proof fn lemma_outcomes<N: FloatOps, U: UnaryOp>(
    s: CpuStorage,
    l: Layout,
    dtype: DType,
    sum_dims: &[usize],
    scale: F64,
    shift: F64,
    converted: Result<CpuStorage, Error>,
    summed: Result<CpuStorage, Error>,
    scaled: Result<CpuStorage, Error>,
    mapped: Result<CpuStorage, Error>,
)
    requires
        call_ensures(CpuStorage::to_dtype::<N>, (&s, &l, dtype), converted),
        call_ensures(CpuStorage::sum::<N>, (&s, &l, sum_dims), summed),
        call_ensures(CpuStorage::affine::<N>, (&s, &l, scale, shift), scaled),
        call_ensures(CpuStorage::unary_impl::<U>, (&s, &l), mapped),
    ensures
        converted matches Ok(out) && out.elem_type() == dtype && out.len() == shape::product(
            l.shape.dims@,
        ),
        summed matches Ok(out) && out.elem_type() == s.elem_type(),
        scaled matches Ok(out) && out.elem_type() == s.elem_type() && out.len() == shape::product(
            l.shape.dims@,
        ),
        mapped matches Ok(out) && out.elem_type() == s.elem_type() && out.len() == shape::product(
            l.shape.dims@,
        ),
{
}

/// An operation on two arrays succeeds exactly if their types are the same.
pub proof fn lemma_binary_outcome<B: BinaryOp>(
    lhs: CpuStorage,
    lhs_l: Layout,
    rhs: CpuStorage,
    rhs_l: Layout,
    r: Result<CpuStorage, Error>,
)
    requires
        call_ensures(CpuStorage::binary_impl::<B>, (&lhs, &rhs, &lhs_l, &rhs_l), r),
    ensures
        lhs.elem_type() == rhs.elem_type() ==> (r matches Ok(out) && out.elem_type()
            == lhs.elem_type()),
        lhs.elem_type() != rhs.elem_type() ==> r == Err::<CpuStorage, Error>(
            Error::DTypeMismatchBinaryOp {
                lhs: lhs.elem_type(),
                rhs: rhs.elem_type(),
                op: B::NAME,
            },
        ),
{
}

/// A selection succeeds exactly if its predicate holds `u32` numbers and both arrays have the same
/// type.
pub proof fn lemma_where_outcome(
    pred: CpuStorage,
    layout: Layout,
    t: CpuStorage,
    layout_t: Layout,
    f: CpuStorage,
    layout_f: Layout,
    r: Result<CpuStorage, Error>,
)
    requires
        call_ensures(
            CpuStorage::where_cond,
            (&pred, &layout, &t, &layout_t, &f, &layout_f),
            r,
        ),
    ensures
        pred.elem_type() != DType::U32 ==> r == Err::<CpuStorage, Error>(
            Error::UnexpectedDType { expected: DType::U32, got: pred.elem_type() },
        ),
        pred.elem_type() == DType::U32 && t.elem_type() != f.elem_type() ==> r == Err::<
            CpuStorage,
            Error,
        >(
            Error::DTypeMismatchBinaryOp {
                lhs: t.elem_type(),
                rhs: f.elem_type(),
                op: "where_cond",
            },
        ),
        pred.elem_type() == DType::U32 && t.elem_type() == f.elem_type() ==> (r matches Ok(out)
            && out.elem_type() == t.elem_type()),
{
}

/// An embedding succeeds exactly if its ids are `u32` numbers, its table has two dimensions, and no id
/// is too large; otherwise it fails with the first of these that does not hold.
pub proof fn lemma_embedding_outcome(
    ids: CpuStorage,
    ids_l: Layout,
    table: CpuStorage,
    table_l: Layout,
    r: Result<CpuStorage, Error>,
)
    requires
        ids_l.wf(),
        call_ensures(CpuStorage::embedding, (&ids, &ids_l, &table, &table_l), r),
    ensures
        match ids {
            CpuStorage::U32(v) => if table_l.shape.dims@.len() != 2 {
                r matches Err(Error::UnexpectedNumberOfDims { expected, got, shape }) && expected
                    == 2 && got == table_l.shape.dims@.len() && shape.dims@
                    == table_l.shape.dims@
            } else {
                let vocab_size = table_l.shape.dims@[0];
                let bad = listed(v@, ids_l).filter(|id: u32| id >= vocab_size);
                if bad.len() == 0 {
                    r matches Ok(out) && out.elem_type() == table.elem_type()
                } else {
                    r == Err::<CpuStorage, Error>(
                        Error::InvalidIndex { index: bad[0] as usize, vocab_size, op: "take" },
                    )
                }
            },
            _ => r == Err::<CpuStorage, Error>(
                Error::UnexpectedDType { expected: DType::U32, got: ids.elem_type() },
            ),
        },
{
    if let CpuStorage::U32(v) = ids {
        if table_l.shape.dims@.len() == 2 {
            let vocab_size = table_l.shape.dims@[0];
            if let Err(e) = r {
                lemma_invalid_id(v@, ids_l, vocab_size, e);
            } else {
                lemma_invalid_id(v@, ids_l, vocab_size, Error::UnexpectedStriding);
            }
        }
    }
}

/// A matrix product succeeds exactly if both sides have the same type, which is `F16`, `F32` or `F64`,
/// and the matrices of a batch follow each other.
pub proof fn lemma_matmul_outcome<K: Gemm>(
    a: CpuStorage,
    a_l: Layout,
    b: CpuStorage,
    b_l: Layout,
    bmnk: (usize, usize, usize, usize),
    r: Result<CpuStorage, Error>,
)
    requires
        call_ensures(CpuStorage::matmul::<K>, (&a, &b, bmnk, &a_l, &b_l), r),
    ensures
        match (a, b) {
            (CpuStorage::F16(_), CpuStorage::F16(_)) | (
                CpuStorage::F32(_),
                CpuStorage::F32(_),
            ) | (CpuStorage::F64(_), CpuStorage::F64(_)) => {
                let rank = a_l.stride@.len();
                if rank <= 2 || (rank == 3 && a_l.stride@[0] == bmnk.1 * bmnk.3 && b_l.stride@[0]
                    == bmnk.2 * bmnk.3) {
                    r matches Ok(out) && out.elem_type() == a.elem_type() && out.len() == bmnk.0 * (
                    bmnk.1 * bmnk.2)
                } else {
                    r == Err::<CpuStorage, Error>(Error::UnexpectedStriding)
                }
            },
            _ => r == Err::<CpuStorage, Error>(
                Error::DTypeMismatchBinaryOp {
                    lhs: a.elem_type(),
                    rhs: b.elem_type(),
                    op: "matmul",
                },
            ),
        },
{
}

/// A copy succeeds exactly if both storages have the same type, and changes nothing if it fails.
pub proof fn lemma_copy_outcome(
    src: CpuStorage,
    dst_offset: usize,
    src_l: Layout,
    r: Result<(), Error>,
)
    ensures
        forall|dst: &mut CpuStorage| #[trigger]
            call_ensures(CpuStorage::copy_strided_src, (&src, dst, dst_offset, &src_l), r)
                ==> if src.elem_type() == (*dst).elem_type() {
                r is Ok && storage::copied(src, src_l, dst_offset as int, *dst, *final(dst))
            } else {
                *final(dst) == *dst && r == Err::<(), Error>(
                    Error::DTypeMismatchBinaryOp {
                        lhs: src.elem_type(),
                        rhs: (*dst).elem_type(),
                        op: "copy_strided",
                    },
                )
            },
{
}

/// A division by sums always succeeds.
pub proof fn lemma_divide_outcome<N: FloatOps>(dims: Shape, dim: usize, r: Result<(), Error>)
    ensures
        forall|s: &mut CpuStorage| #[trigger]
            call_ensures(CpuStorage::divide_by_sum_over_dim::<N>, (s, &dims, dim), r) ==> r is Ok
                && storage::divided::<N>(*s, *final(s), dims.dims@, dim as int),
{
}

/// `unary_map` applies `f` to the element with the coordinates `c`.
pub proof fn lemma_unary_map_at<T: Copy, U: Copy, F: Fn(T) -> U>(
    vs: &[T],
    l: Layout,
    f: F,
    r: Vec<U>,
    c: Seq<usize>,
)
    requires
        l.wf(),
        call_ensures(elementwise::unary_map::<T, U, F>, (vs, &l, f), r),
        has(l, c),
    ensures
        0 <= place(l, c) < r@.len() == shape::product(l.shape.dims@),
        call_ensures(f, (at(vs@, l, c),), r@[place(l, c)]),
{
    lemma_mapped_at(vs@, l, |v: T, u: U| call_ensures(f, (v,), u), r@, c);
}

/// `binary_map` applies `f` to the elements with the coordinates `a` and `b`, if both are met at the
/// same place.
pub proof fn lemma_binary_map_at<T: Copy, F: Fn(T, T) -> T>(
    lhs_l: Layout,
    rhs_l: Layout,
    lhs: &[T],
    rhs: &[T],
    f: F,
    r: Vec<T>,
    a: Seq<usize>,
    b: Seq<usize>,
)
    requires
        lhs_l.wf(),
        rhs_l.wf(),
        call_ensures(elementwise::binary_map::<T, F>, (&lhs_l, &rhs_l, lhs, rhs, f), r),
        has(lhs_l, a),
        has(rhs_l, b),
        place(lhs_l, a) == place(rhs_l, b),
    ensures
        r@.len() <= shape::product(lhs_l.shape.dims@),
        r@.len() <= shape::product(rhs_l.shape.dims@),
        0 <= place(lhs_l, a) < r@.len(),
        call_ensures(f, (at(lhs@, lhs_l, a), at(rhs@, rhs_l, b)), r@[place(lhs_l, a)]),
{
    lemma_mapped2_at(
        lhs@,
        lhs_l,
        rhs@,
        rhs_l,
        |x: T, y: T, u: T| call_ensures(f, (x, y), u),
        r@,
        a,
        b,
    );
}

/// `wcond` gives the element of `t` with the coordinates `b` where the predicate with the coordinates
/// `a` is not zero, and the element of `f` with the coordinates `c` where it is zero.
pub proof fn lemma_wcond_at<T: Copy>(
    pred: &[u32],
    layout: Layout,
    t: &[T],
    layout_t: Layout,
    f: &[T],
    layout_f: Layout,
    r: Vec<T>,
    a: Seq<usize>,
    b: Seq<usize>,
    c: Seq<usize>,
)
    requires
        layout.wf(),
        layout_t.wf(),
        layout_f.wf(),
        call_ensures(
            elementwise::wcond::<T>,
            (pred, &layout, t, &layout_t, f, &layout_f),
            r,
        ),
        has(layout, a),
        has(layout_t, b),
        has(layout_f, c),
        place(layout, a) == place(layout_t, b),
        place(layout, a) == place(layout_f, c),
    ensures
        r@.len() <= shape::product(layout.shape.dims@),
        r@.len() <= shape::product(layout_t.shape.dims@),
        r@.len() <= shape::product(layout_f.shape.dims@),
        0 <= place(layout, a) < r@.len(),
        at(pred@, layout, a) > 0 ==> r@[place(layout, a)] == at(t@, layout_t, b),
        at(pred@, layout, a) == 0 ==> r@[place(layout, a)] == at(f@, layout_f, c),
{
    lemma_selection_at(pred@, layout, t@, layout_t, f@, layout_f, r@, a, b, c);
}

/// `copy_strided_src_` puts the element with the coordinates `c` at its place behind `dst_offset`, if
/// there is room, and changes no place that is not that of an element.
pub proof fn lemma_copy_strided_src_at<T: Copy>(
    src: &[T],
    dst_offset: usize,
    src_l: Layout,
    c: Seq<usize>,
    i: int,
)
    requires
        src_l.wf(),
        has(src_l, c),
        i < dst_offset || i >= dst_offset + shape::product(src_l.shape.dims@),
    ensures
        forall|dst: &mut [T]| #[trigger]
            call_ensures(elementwise::copy_strided_src_::<T>, (src, dst, dst_offset, &src_l), ())
                ==> {
                &&& final(dst)@.len() == dst@.len()
                &&& dst_offset + place(src_l, c) < dst@.len() ==> final(dst)@[dst_offset + place(
                    src_l,
                    c,
                )] == at(src@, src_l, c)
                &&& 0 <= i < dst@.len() ==> final(dst)@[i] == dst@[i]
            },
{
    lemma_walk(src@, src_l, c, 0);
}

/// The rows that `Embedding::f` gives are the whole rows of the table that the ids name, and it fails
/// with the first id that is too large.
pub proof fn lemma_embedding_f<T: Copy>(
    rows: Embedding<'_>,
    vs: &[T],
    l: Layout,
    r: Result<Vec<T>, Error>,
    k: int,
)
    requires
        rows.ids_l.wf(),
        call_ensures(Embedding::f::<T>, (&rows, vs, &l), r),
        0 <= k < listed(rows.ids@, *rows.ids_l).len(),
        r is Ok ==> l.start_offset + rows.hidden_size * (listed(rows.ids@, *rows.ids_l)[k] + 1)
            <= vs@.len(),
    ensures
        ({
            let ids = listed(rows.ids@, *rows.ids_l);
            let bad = ids.filter(|id: u32| id >= rows.vocab_size);
            let h = rows.hidden_size;
            match r {
                Ok(out) => {
                    &&& bad.len() == 0
                    &&& out@.len() == ids.len() * h
                    &&& out@.subrange(k * h, (k + 1) * h) == vs@.subrange(
                        l.start_offset + h * ids[k],
                        l.start_offset + h * (ids[k] + 1),
                    )
                },
                Err(e) => bad.len() > 0 && e == (Error::InvalidIndex {
                    index: bad[0] as usize,
                    vocab_size: rows.vocab_size,
                    op: "take",
                }),
            }
        }),
{
    match r {
        Ok(out) => {
            lemma_invalid_id(
                rows.ids@,
                *rows.ids_l,
                rows.vocab_size,
                Error::UnexpectedStriding,
            );
            lemma_rows_are_rows(
                rows.ids@,
                *rows.ids_l,
                rows.hidden_size,
                vs@,
                l.start_offset as int,
                out@,
                k,
            );
        },
        Err(e) => {
            lemma_invalid_id(rows.ids@, *rows.ids_l, rows.vocab_size, e);
        },
    }
}

/// The sums that `Sum::f` gives take in, in row-major order, the elements with the coordinates of the
/// sum in the dimensions that are not summed over.
pub proof fn lemma_sum_f<T: Copy, F: Fn(T, T) -> T, V>(
    dims: Vec<usize>,
    sum_dims: &[usize],
    sum: Sum,
    src: &[T],
    l: Layout,
    zero: T,
    plus: F,
    view: spec_fn(T) -> V,
    g: spec_fn(V, T) -> V,
    r: Vec<T>,
    c: Seq<usize>,
)
    requires
        l.wf(),
        l.shape.dims@ == dims@,
        forall|i: int| 0 <= i < sum_dims@.len() ==> #[trigger] sum_dims@[i] < dims@.len(),
        sum_dims@.no_duplicates(),
        call_ensures(Sum::new, (&dims, sum_dims), sum),
        call_ensures(Sum::f::<T, F>, (&sum, src, &l, zero, plus), r),
        forall|a: T, x: T, b: T| #[trigger]
            call_ensures(plus, (a, x), b) ==> view(b) == g(view(a), x),
        shrunk(dims@, sum_dims@, sum.dst_shape.dims@),
        c.len() == dims@.len(),
        forall|i: int| 0 <= i < c.len() ==> #[trigger] c[i] < sum.dst_shape.dims@[i],
    ensures
        0 <= layout::position(sum.dst_shape.dims@, c) < r@.len() == shape::product(
            sum.dst_shape.dims@,
        ),
        view(r@[layout::position(sum.dst_shape.dims@, c) as int]) == summands(
            src@,
            l,
            sum_dims@,
            c,
        ).fold_left(view(zero), g),
{
    lemma_sum_at(
        src@,
        l,
        sum_dims@,
        sum.dst_shape.dims@,
        zero,
        |a: T, b: T, s: T| call_ensures(plus, (a, b), s),
        view,
        g,
        r@,
        c,
    );
}

/// The shape that `Sum::new` gives the sums has the extents of the array, but one in each of the
/// dimensions summed over.
pub proof fn lemma_sum_shape(dims: Vec<usize>, sum_dims: &[usize], sum: Sum)
    requires
        call_ensures(Sum::new, (&dims, sum_dims), sum),
    ensures
        shrunk(dims@, sum_dims@, sum.dst_shape.dims@),
{
}

/// `matmul` gives, in row `i` and column `j` of product number `step`, what `inner` makes of row `i` of
/// the left matrix and column `j` of the right matrix.
pub proof fn lemma_matmul_at<T: Copy, G: Fn(&[T], &[T], GemmCall) -> Vec<T>, V>(
    lhs: &[T],
    rhs: &[T],
    bmnk: (usize, usize, usize, usize),
    lhs_l: Layout,
    rhs_l: Layout,
    zero: T,
    kernel: G,
    view: spec_fn(T) -> V,
    inner: spec_fn(Seq<T>, Seq<T>) -> V,
    dst: Vec<T>,
    step: usize,
    i: usize,
    j: usize,
)
    requires
        lhs_l.wf(),
        rhs_l.wf(),
        ({
            let (b, m, n, k) = bmnk;
            ||| lhs_l.shape.dims@ == seq![b, m, k] && rhs_l.shape.dims@ == seq![b, k, n]
            ||| b == 1 && lhs_l.shape.dims@ == seq![m, k] && rhs_l.shape.dims@ == seq![k, n]
        }),
        matmul::matmul_within(bmnk, lhs_l, lhs@.len() as int, rhs_l, rhs@.len() as int),
        call_ensures(
            matmul::matmul::<T, G>,
            (lhs, rhs, bmnk, &lhs_l, &rhs_l, zero, kernel),
            Ok::<Vec<T>, Error>(dst),
        ),
        multiplies(
            lhs@,
            rhs@,
            |c: GemmCall, out: Seq<T>|
                exists|block: Vec<T>| #[trigger]
                    call_ensures(kernel, (lhs, rhs, c), block) && block@ == out,
            view,
            inner,
        ),
        step < bmnk.0,
        i < bmnk.1,
        j < bmnk.2,
    ensures
        dst@.len() == bmnk.0 * (bmnk.1 * bmnk.2),
        0 <= step * (bmnk.1 * bmnk.2) + i * bmnk.2 + j < dst@.len(),
        lhs_l.shape.dims@.len() == 3 ==> view(
            dst@[step * (bmnk.1 * bmnk.2) + i * bmnk.2 + j],
        ) == inner(
            Seq::new(bmnk.3 as nat, |p: int| at(lhs@, lhs_l, seq![step, i, p as usize])),
            Seq::new(bmnk.3 as nat, |p: int| at(rhs@, rhs_l, seq![step, p as usize, j])),
        ),
        lhs_l.shape.dims@.len() == 2 ==> view(dst@[i * bmnk.2 + j]) == inner(
            Seq::new(bmnk.3 as nat, |p: int| at(lhs@, lhs_l, seq![i, p as usize])),
            Seq::new(bmnk.3 as nat, |p: int| at(rhs@, rhs_l, seq![p as usize, j])),
        ),
{
    let (b, m, n, k) = bmnk;
    let relation = |c: GemmCall, out: Seq<T>|
        exists|block: Vec<T>| #[trigger]
            call_ensures(kernel, (lhs, rhs, c), block) && block@ == out;
    lemma_entry_of_block(bmnk, lhs_l, rhs_l, zero, relation, dst@, step as int, i, j);
    if lhs_l.shape.dims@.len() == 3 {
        lemma_product_of_batches(
            bmnk,
            lhs@,
            lhs_l,
            rhs@,
            rhs_l,
            zero,
            relation,
            view,
            inner,
            dst@,
            step,
            i,
            j,
        );
    } else {
        lemma_product_of_matrices(
            (m, n, k),
            lhs@,
            lhs_l,
            rhs@,
            rhs_l,
            zero,
            relation,
            view,
            inner,
            dst@,
            i,
            j,
        );
    }
}

/// The call for each step of a batch, whatever the extents: the matrices start `step` times their size
/// behind the first, and the last two strides are those of rows and columns.
pub proof fn lemma_call(
    m: usize,
    n: usize,
    k: usize,
    lhs_l: Layout,
    rhs_l: Layout,
    step: int,
)
    requires
        lhs_l.stride@.len() >= 2,
        0 <= lhs_l.start_offset + step * (m * k) <= usize::MAX,
        0 <= rhs_l.start_offset + step * (n * k) <= usize::MAX,
    ensures
        ({
            let call = matmul::batch_call(m, n, k, lhs_l, rhs_l, step);
            let rank = lhs_l.stride@.len() as int;
            &&& call.lhs_offset == lhs_l.start_offset + step * (m * k)
            &&& call.rhs_offset == rhs_l.start_offset + step * (n * k)
            &&& call.lhs_rs == lhs_l.stride@[rank - 2]
            &&& call.lhs_cs == lhs_l.stride@[rank - 1]
            &&& call.rhs_rs == rhs_l.stride@[rank - 2]
            &&& call.rhs_cs == rhs_l.stride@[rank - 1]
        }),
{
}

/// Entries that a kernel does not hand out are zero.
pub proof fn lemma_missing_entries<T>(
    bmnk: (usize, usize, usize, usize),
    lhs_l: Layout,
    rhs_l: Layout,
    zero: T,
    kernel: spec_fn(GemmCall, Seq<T>) -> bool,
    dst: Seq<T>,
    known: int,
    step: int,
    i: int,
)
    requires
        matmul::batch_product(bmnk, lhs_l, rhs_l, zero, kernel, dst),
        forall|call: GemmCall, out: Seq<T>| #[trigger] kernel(call, out) ==> out.len() <= known,
        0 <= step < bmnk.0,
        known <= i < bmnk.1 * bmnk.2,
        0 <= i,
    ensures
        dst[step * (bmnk.1 * bmnk.2) + i] == zero,
{
    let (b, m, n, k) = bmnk;
    let size = m * n;
    assert(m > 0 && n > 0) by (nonlinear_arith)
        requires
            0 <= i < m * n,
            m >= 0,
            n >= 0,
    ;
    lemma_entry_of_block(bmnk, lhs_l, rhs_l, zero, kernel, dst, step, 0, 0);
    let block = dst.subrange(step * size, step * size + size);
    assert(block[i] == dst[step * size + i]);
}

/// The sums of an array with some dimensions named twice: each place takes in, in row-major order, the
/// elements that the dimensions, shrunk from left to right, take there.
pub proof fn lemma_sum_at_place<T, V>(
    src: Seq<T>,
    l: Layout,
    pairs: Seq<(usize, usize)>,
    zero: T,
    plus: spec_fn(T, T, T) -> bool,
    view: spec_fn(T) -> V,
    g: spec_fn(V, T) -> V,
    dst: Seq<T>,
    j: int,
)
    requires
        l.wf(),
        reduce::summed(src, l, pairs, zero, plus, dst),
        forall|a: T, x: T, b: T| #[trigger] plus(a, x, b) ==> view(b) == g(view(a), x),
        0 <= j < dst.len(),
    ensures
        view(dst[j]) == Seq::new(shape::product(l.shape.dims@), |k: int| k).filter(
            |k: int| reduce::cell(pairs, k as nat) == j,
        ).map_values(
            |k: int| at(src, l, layout::coords_of(l.shape.dims@, k as nat)),
        ).fold_left(view(zero), g),
{
    lemma_terms_filtered(src, l, pairs, j, l.count(), |k: int| reduce::cell(pairs, k as nat) == j);
    lemma_folds_function(
        plus,
        view,
        g,
        zero,
        reduce::terms(src, l, pairs, j, l.count()),
        dst[j],
    );
}

/// To shrink one more dimension: its coordinate is taken out of the place.
pub proof fn lemma_shrink(dims: Seq<usize>, order: Seq<usize>, d: usize, i: nat)
    requires
        shape::span(dims) <= usize::MAX,
        d < dims.len(),
    ensures
        reduce::cell(reduce::sum_pairs(dims, Seq::empty()), i) == i,
        reduce::cell(reduce::sum_pairs(dims, order.push(d)), i) == {
            let k = reduce::cell(reduce::sum_pairs(dims, order), i);
            let stride = shape::row_major_stride(dims, d as int);
            k / stride / (dims[d as int] as nat) * stride + k % stride
        },
{
    let (a, b) = (reduce::sum_pairs(dims, order), reduce::sum_pairs(dims, order.push(d)));
    assert(b.drop_last() =~= a);
    assert(dims.subrange(d + 1, dims.len() as int) =~= dims.skip(d + 1));
    shape::lemma_product_of_run_le_span(dims, d + 1, dims.len() as int);
}

/// Dimensions are shrunk from left to right.
pub proof fn lemma_sorted_dims(xs: Seq<usize>, i: int, j: int)
    requires
        0 <= i <= j < reduce::sorted(xs).len(),
    ensures
        reduce::sorted(xs)[i] <= reduce::sorted(xs)[j],
        reduce::sorted(xs).to_multiset() == xs.to_multiset(),
{
    reduce::lemma_sorted(xs);
}

/// `sort` puts the items in ascending order.
pub proof fn lemma_sort(xs: Vec<usize>, r: Vec<usize>, i: int, j: int)
    requires
        call_ensures(reduce::sort, (&xs,), r),
        0 <= i <= j < r@.len(),
    ensures
        r@[i] <= r@[j],
        r@.to_multiset() == xs@.to_multiset(),
{
}

/// `divide_by_sums` divides the element number `k` of the slice with the outer position `p` and the
/// inner position `q` by the sum over this slice.
pub proof fn lemma_divide_by_sums_at<
    T: Copy,
    W: Fn(T) -> F64,
    A: Fn(F64, F64) -> F64,
    N: Fn(F64) -> T,
    D: Fn(T, T) -> T,
    V,
>(
    pre: usize,
    per: usize,
    post: usize,
    widen: W,
    plus: A,
    narrow: N,
    over: D,
    view: spec_fn(F64) -> V,
    g: spec_fn(V, T) -> V,
    p: usize,
    k: usize,
    q: usize,
)
    requires
        p < pre,
        k < per,
        q < post,
        forall|a: F64, x: T, w: F64, b: F64| #[trigger]
            call_ensures(widen, (x,), w) && #[trigger] call_ensures(plus, (a, w), b) ==> view(b)
                == g(view(a), x),
    ensures
        forall|vs: &mut Vec<T>| #[trigger]
            call_ensures(
                normalize::divide_by_sums::<T, W, A, N, D>,
                (vs, pre, per, post, widen, plus, narrow, over),
                (),
            ) ==> {
                let at = p * (per * post) + (k * post + q);
                &&& final(vs)@.len() == (*vs)@.len()
                &&& forall|i: int|
                    pre * (per * post) <= i < (*vs)@.len() ==> #[trigger] final(vs)@[i] == (*vs)@[i]
                &&& exists|s: F64, d: T|
                    {
                        &&& view(s) == Seq::new(
                            per as nat,
                            |t: int| (*vs)@[p * (per * post) + (t * post + q)],
                        ).fold_left(view(F64 { bits: 0 }), g)
                        &&& #[trigger] call_ensures(narrow, (s,), d)
                        &&& call_ensures(over, ((*vs)@[at], d), final(vs)@[at])
                    }
            },
{
    let fold = |a: F64, x: T, b: F64|
        exists|w: F64| #[trigger] call_ensures(widen, (x,), w) && call_ensures(plus, (a, w), b);
    let narrowed = |s: F64, d: T| call_ensures(narrow, (s,), d);
    let quotient = |x: T, d: T, r: T| call_ensures(over, (x, d), r);
    let (n_per, n_post) = (per as nat, post as nat);
    assert forall|vs: &mut Vec<T>| #[trigger]
        call_ensures(
            normalize::divide_by_sums::<T, W, A, N, D>,
            (vs, pre, per, post, widen, plus, narrow, over),
            (),
        ) implies {
        let at = p * (per * post) + (k * post + q);
        &&& final(vs)@.len() == (*vs)@.len()
        &&& forall|i: int|
            pre * (per * post) <= i < (*vs)@.len() ==> #[trigger] final(vs)@[i] == (*vs)@[i]
        &&& exists|s: F64, d: T|
            {
                &&& view(s) == Seq::new(
                    per as nat,
                    |t: int| (*vs)@[p * (per * post) + (t * post + q)],
                ).fold_left(view(F64 { bits: 0 }), g)
                &&& #[trigger] call_ensures(narrow, (s,), d)
                &&& call_ensures(over, ((*vs)@[at], d), final(vs)@[at])
            }
    } by {
        let (before, after) = ((*vs)@, final(vs)@);
        assert(normalize::divided(
            before,
            after,
            pre as nat,
            n_per,
            n_post,
            fold,
            narrowed,
            quotient,
        ));
        assert(normalize::slice_divided(
            before,
            after,
            n_per,
            n_post,
            p as nat,
            q as nat,
            fold,
            narrowed,
            quotient,
        ));
        let xs = normalize::slice(before, n_per, n_post, p as nat, q as nat);
        let ys = normalize::slice(after, n_per, n_post, p as nat, q as nat);
        let (s, d) = choose|s: F64, d: T|
            {
                &&& reduce::folds(fold, F64 { bits: 0 }, xs, s)
                &&& #[trigger] narrowed(s, d)
                &&& forall|k: int| 0 <= k < per ==> quotient(xs[k], d, #[trigger] ys[k])
            };
        lemma_folds_function(fold, view, g, F64 { bits: 0 }, xs, s);
        assert(xs =~= Seq::new(
            per as nat,
            |t: int| before[p * (per * post) + (t * post + q)],
        ));
        assert(narrowed(s, d));
        assert(quotient(xs[k as int], d, ys[k as int]));
    }
}

/// The walk over an array hands out, each time, the index of the next element in row-major order.
pub proof fn lemma_next(l: Layout, r: Option<usize>)
    requires
        l.wf(),
    ensures
        forall|it: &mut StridedIndex<'_>| #[trigger]
            call_ensures(StridedIndex::next, (it,), r) && *(*it).layout == l ==> {
                &&& *final(it).layout == l
                &&& r is Some <==> (*it).taken() < shape::product(l.shape.dims@)
                &&& r matches Some(i) ==> final(it).taken() == (*it).taken() + 1 && i
                    == l.start_offset + layout::dot(
                    layout::coords_of(l.shape.dims@, (*it).taken()),
                    l.stride@,
                )
            },
{
    assert forall|it: &mut StridedIndex<'_>| #[trigger]
        call_ensures(StridedIndex::next, (it,), r) && *(*it).layout == l implies {
        &&& *final(it).layout == l
        &&& r is Some <==> (*it).taken() < shape::product(l.shape.dims@)
        &&& r matches Some(i) ==> final(it).taken() == (*it).taken() + 1 && i == l.start_offset
            + layout::dot(layout::coords_of(l.shape.dims@, (*it).taken()), l.stride@)
    } by {
        let k = (*it).taken();
        if r is Some {
            layout::lemma_coords_of(l.shape.dims@, k);
            layout::lemma_index_of_coords(l, layout::coords_of(l.shape.dims@, k));
        }
    }
}

/// An array with elements stands in a storage exactly if each of its elements does.
pub proof fn lemma_within(l: Layout, len: int)
    requires
        l.wf(),
        l.count() > 0,
    ensures
        l.within(len) <==> (forall|c: Seq<usize>| #[trigger]
            has(l, c) ==> l.start_offset + layout::dot(c, l.stride@) < len),
{
    let dims = l.shape.dims@;
    if l.within(len) {
        assert forall|c: Seq<usize>| #[trigger] has(l, c) implies l.start_offset + layout::dot(
            c,
            l.stride@,
        ) < len by {
            layout::lemma_element_within(l, len, c);
        }
    }
    if forall|c: Seq<usize>| #[trigger]
        has(l, c) ==> l.start_offset + layout::dot(c, l.stride@) < len {
        assert forall|k: int| 0 <= k < l.count() implies #[trigger] l.index(k) < len by {
            let c = layout::coords_of(dims, k as nat);
            layout::lemma_coords_of(dims, k as nat);
            layout::lemma_index_of_coords(l, c);
            assert(has(l, c));
        }
        if l.contiguous() {
            layout::lemma_contiguous_end(l);
            assert(l.index(l.count() - 1) < len);
        }
    }
}

/// Arrays that stand in their storages can be walked together, selected from, and copied where there
/// is room.
pub proof fn lemma_within_is_enough(
    pred: Seq<u32>,
    a: Layout,
    b: Layout,
    b_len: nat,
    c: Layout,
    c_len: nat,
    dst_len: nat,
    dst_offset: int,
)
    requires
        a.within(pred.len() as int),
        b.within(b_len as int),
        c.within(c_len as int),
    ensures
        elementwise::pair_within(b, b_len, c, c_len),
        elementwise::wcond_within(pred, a, b_len, b, c_len, c),
        dst_offset + b.count() <= dst_len ==> elementwise::copy_within(
            b_len,
            dst_len,
            dst_offset,
            b,
        ),
{
    if a.contiguous() {
        layout::lemma_contiguous_end(a);
    }
    if b.contiguous() {
        layout::lemma_contiguous_end(b);
    }
    if c.contiguous() {
        layout::lemma_contiguous_end(c);
    }
}

/// Extents fit if the product of those that are not zero does.
pub proof fn lemma_span(dims: Seq<usize>, i: int)
    requires
        0 <= i < dims.len(),
    ensures
        (forall|j: int| 0 <= j < dims.len() ==> #[trigger] dims[j] > 0) ==> shape::span(dims)
            == shape::product(dims),
        shape::span(dims.update(i, 0)) == shape::span(dims.update(i, 1)),
{
    if forall|j: int| 0 <= j < dims.len() ==> #[trigger] dims[j] > 0 {
        assert(shape::at_least_one(dims) =~= dims);
    }
    assert(shape::at_least_one(dims.update(i, 0)) =~= shape::at_least_one(dims.update(i, 1)));
}

/// An array ends behind the element with the largest coordinates.
pub proof fn lemma_end(l: Layout, c: Seq<usize>)
    requires
        l.wf(),
        l.count() > 0,
        c.len() == l.shape.dims@.len(),
        forall|i: int| 0 <= i < c.len() ==> #[trigger] c[i] == l.shape.dims@[i] - 1,
    ensures
        l.end() == l.start_offset + layout::dot(c, l.stride@) + 1,
{
    lemma_last_dot(l.shape.dims@, l.stride@, c);
}

proof fn lemma_last_dot(dims: Seq<usize>, stride: Seq<usize>, c: Seq<usize>)
    requires
        stride.len() == dims.len(),
        c.len() == dims.len(),
        forall|i: int| 0 <= i < c.len() ==> #[trigger] c[i] == dims[i] - 1,
    ensures
        layout::dot(c, stride) == layout::last_offset(dims, stride),
    decreases dims.len(),
{
    if dims.len() > 0 {
        let (d, s, e) = (dims.drop_last(), stride.drop_last(), c.drop_last());
        assert forall|i: int| 0 <= i < e.len() implies #[trigger] e[i] == d[i] - 1 by {
            assert(c[i] == dims[i] - 1);
        }
        lemma_last_dot(d, s, e);
        assert(c[c.len() - 1] == dims[dims.len() - 1] - 1);
        lemma_mul_nonnegative(c.last() as int, stride.last() as int);
    }
}

/// The elements that the dimensions `sum_dims`, shrunk from left to right, take to the place `j`, in
/// row-major order.
pub open spec fn summands_at<T>(src: Seq<T>, l: Layout, sum_dims: Seq<usize>, j: int) -> Seq<T> {
    let pairs = reduce::sum_pairs(l.shape.dims@, reduce::sorted(sum_dims));
    Seq::new(shape::product(l.shape.dims@), |k: int| k).filter(
        |k: int| reduce::cell(pairs, k as nat) == j,
    ).map_values(|k: int| at(src, l, layout::coords_of(l.shape.dims@, k as nat)))
}

/// The sum of `u32` numbers at the place `j`, also where a dimension is named twice.
pub proof fn lemma_u32_sum_at_place<N: FloatOps>(
    s: Vec<u32>,
    l: Layout,
    sum_dims: &[usize],
    d: Vec<u32>,
    j: int,
)
    requires
        l.wf(),
        call_ensures(
            CpuStorage::sum::<N>,
            (&CpuStorage::U32(s), &l, sum_dims),
            Ok::<CpuStorage, Error>(CpuStorage::U32(d)),
        ),
        0 <= j < d@.len(),
    ensures
        d@[j] as int == summands_at(s@, l, sum_dims@, j).fold_left(0int, |a: int, x: u32| a + x)
            % 0x1_0000_0000,
{
    lemma_sum_at_place(
        s@,
        l,
        reduce::sum_pairs(l.shape.dims@, reduce::sorted(sum_dims@)),
        0,
        |a: u32, b: u32, r: u32| r == numbers::wrap_u32(a + b),
        |v: u32| v as int,
        |a: int, x: u32| (a + x) % 0x1_0000_0000,
        d@,
        j,
    );
    lemma_fold_modulo(summands_at(s@, l, sum_dims@, j));
}

/// The sum of `BF16` numbers at the place `j`, also where a dimension is named twice.
pub proof fn lemma_bf16_sum_at_place<N: FloatOps>(
    s: Vec<BF16>,
    l: Layout,
    sum_dims: &[usize],
    d: Vec<BF16>,
    j: int,
)
    requires
        l.wf(),
        call_ensures(
            CpuStorage::sum::<N>,
            (&CpuStorage::BF16(s), &l, sum_dims),
            Ok::<CpuStorage, Error>(CpuStorage::BF16(d)),
        ),
        0 <= j < d@.len(),
    ensures
        d@[j]@ == summands_at(s@, l, sum_dims@, j).fold_left(
            Some(0u16),
            |a: Option<u16>, x: BF16| numbers::bf16_sum(a, x@),
        ),
{
    lemma_sum_at_place(
        s@,
        l,
        reduce::sum_pairs(l.shape.dims@, reduce::sorted(sum_dims@)),
        BF16 { bits: 0 },
        |a: BF16, b: BF16, r: BF16| r@ == numbers::bf16_sum(a@, b@),
        |v: BF16| v@,
        |a: Option<u16>, x: BF16| numbers::bf16_sum(a, x@),
        d@,
        j,
    );
}

/// The sum of `F16` numbers at the place `j`, also where a dimension is named twice.
pub proof fn lemma_f16_sum_at_place<N: FloatOps>(
    s: Vec<F16>,
    l: Layout,
    sum_dims: &[usize],
    plus: spec_fn(Option<u16>, Option<u16>) -> Option<u16>,
    d: Vec<F16>,
    j: int,
)
    requires
        l.wf(),
        call_ensures(
            CpuStorage::sum::<N>,
            (&CpuStorage::F16(s), &l, sum_dims),
            Ok::<CpuStorage, Error>(CpuStorage::F16(d)),
        ),
        forall|a: F16, x: F16, b: F16| #[trigger]
            call_ensures(N::f16_add, (a, x), b) ==> b@ == plus(a@, x@),
        0 <= j < d@.len(),
    ensures
        d@[j]@ == summands_at(s@, l, sum_dims@, j).fold_left(
            Some(0u16),
            |a: Option<u16>, x: F16| plus(a, x@),
        ),
{
    lemma_sum_at_place(
        s@,
        l,
        reduce::sum_pairs(l.shape.dims@, reduce::sorted(sum_dims@)),
        F16 { bits: 0 },
        |a: F16, b: F16, r: F16| call_ensures(N::f16_add, (a, b), r),
        |v: F16| v@,
        |a: Option<u16>, x: F16| plus(a, x@),
        d@,
        j,
    );
}

/// The sum of `F32` numbers at the place `j`, also where a dimension is named twice.
pub proof fn lemma_f32_sum_at_place<N: FloatOps>(
    s: Vec<F32>,
    l: Layout,
    sum_dims: &[usize],
    plus: spec_fn(Option<u32>, Option<u32>) -> Option<u32>,
    d: Vec<F32>,
    j: int,
)
    requires
        l.wf(),
        call_ensures(
            CpuStorage::sum::<N>,
            (&CpuStorage::F32(s), &l, sum_dims),
            Ok::<CpuStorage, Error>(CpuStorage::F32(d)),
        ),
        forall|a: F32, x: F32, b: F32| #[trigger]
            call_ensures(N::f32_add, (a, x), b) ==> b@ == plus(a@, x@),
        0 <= j < d@.len(),
    ensures
        d@[j]@ == summands_at(s@, l, sum_dims@, j).fold_left(
            Some(0u32),
            |a: Option<u32>, x: F32| plus(a, x@),
        ),
{
    lemma_sum_at_place(
        s@,
        l,
        reduce::sum_pairs(l.shape.dims@, reduce::sorted(sum_dims@)),
        F32 { bits: 0 },
        |a: F32, b: F32, r: F32| call_ensures(N::f32_add, (a, b), r),
        |v: F32| v@,
        |a: Option<u32>, x: F32| plus(a, x@),
        d@,
        j,
    );
}

/// The sum of `F64` numbers at the place `j`, also where a dimension is named twice.
pub proof fn lemma_f64_sum_at_place<N: FloatOps>(
    s: Vec<F64>,
    l: Layout,
    sum_dims: &[usize],
    plus: spec_fn(Option<u64>, Option<u64>) -> Option<u64>,
    d: Vec<F64>,
    j: int,
)
    requires
        l.wf(),
        call_ensures(
            CpuStorage::sum::<N>,
            (&CpuStorage::F64(s), &l, sum_dims),
            Ok::<CpuStorage, Error>(CpuStorage::F64(d)),
        ),
        forall|a: F64, x: F64, b: F64| #[trigger]
            call_ensures(N::f64_add, (a, x), b) ==> b@ == plus(a@, x@),
        0 <= j < d@.len(),
    ensures
        d@[j]@ == summands_at(s@, l, sum_dims@, j).fold_left(
            Some(0u64),
            |a: Option<u64>, x: F64| plus(a, x@),
        ),
{
    lemma_sum_at_place(
        s@,
        l,
        reduce::sum_pairs(l.shape.dims@, reduce::sorted(sum_dims@)),
        F64 { bits: 0 },
        |a: F64, b: F64, r: F64| call_ensures(N::f64_add, (a, b), r),
        |v: F64| v@,
        |a: Option<u64>, x: F64| plus(a, x@),
        d@,
        j,
    );
}

/// There is a sum for each element of an array with the extents of the source, but one in each of the
/// dimensions summed over.
pub proof fn lemma_sum_length<N: FloatOps>(
    s: CpuStorage,
    l: Layout,
    sum_dims: &[usize],
    small: Seq<usize>,
    out: CpuStorage,
)
    requires
        call_ensures(CpuStorage::sum::<N>, (&s, &l, sum_dims), Ok::<CpuStorage, Error>(out)),
        shrunk(l.shape.dims@, sum_dims@, small),
    ensures
        out.len() == shape::product(small),
{
    assert(small =~= reduce::reduced_dims(l.shape.dims@, sum_dims@));
}

/// Each block of a product of `F16` matrices is what `K` hands out for its step, zero where that ends.
pub proof fn lemma_f16_blocks<K: Gemm>(
    a: Vec<F16>,
    a_l: Layout,
    b: Vec<F16>,
    b_l: Layout,
    bmnk: (usize, usize, usize, usize),
    d: Vec<F16>,
    step: int,
    x: int,
)
    requires
        call_ensures(
            CpuStorage::matmul::<K>,
            (&CpuStorage::F16(a), &CpuStorage::F16(b), bmnk, &a_l, &b_l),
            Ok::<CpuStorage, Error>(CpuStorage::F16(d)),
        ),
        0 <= step < bmnk.0,
        0 <= x < bmnk.1 * bmnk.2,
    ensures
        exists|p: &[F16], q: &[F16], o: Vec<F16>|
            {
                &&& p@ == a@
                &&& q@ == b@
                &&& #[trigger] call_ensures(
                    K::gemm_f16,
                    (p, q, matmul::batch_call(bmnk.1, bmnk.2, bmnk.3, a_l, b_l, step)),
                    o,
                )
                &&& d@[step * (bmnk.1 * bmnk.2) + x] == if x < o@.len() {
                    o@[x]
                } else {
                    F16 { bits: 0 }
                }
            },
{
    let (_, m, n, k) = bmnk;
    let size = m * n;
    let call = matmul::batch_call(m, n, k, a_l, b_l, step);
    let kernel = |c: GemmCall, block: Seq<F16>|
        exists|p: &[F16], q: &[F16], o: Vec<F16>|
            {
                &&& p@ == a@
                &&& q@ == b@
                &&& #[trigger] call_ensures(K::gemm_f16, (p, q, c), o)
                &&& o@ == block
            };
    assert(m > 0 && n > 0) by (nonlinear_arith)
        requires
            0 <= x < m * n,
            m >= 0,
            n >= 0,
    ;
    lemma_entry_of_block(bmnk, a_l, b_l, F16 { bits: 0 }, kernel, d@, step, 0, 0);
    let block = d@.subrange(step * size, step * size + size);
    let out = choose|out: Seq<F16>| #[trigger]
        kernel(call, out) && block == matmul::written(out, size as nat, F16 { bits: 0 });
    let (p, q, o) = choose|p: &[F16], q: &[F16], o: Vec<F16>|
        {
            &&& p@ == a@
            &&& q@ == b@
            &&& #[trigger] call_ensures(K::gemm_f16, (p, q, call), o)
            &&& o@ == out
        };
    assert(call_ensures(K::gemm_f16, (p, q, call), o));
    assert(block[x] == d@[step * size + x]);
}

/// Each block of a product of `F32` matrices is what `K` hands out for its step, zero where that ends.
pub proof fn lemma_f32_blocks<K: Gemm>(
    a: Vec<F32>,
    a_l: Layout,
    b: Vec<F32>,
    b_l: Layout,
    bmnk: (usize, usize, usize, usize),
    d: Vec<F32>,
    step: int,
    x: int,
)
    requires
        call_ensures(
            CpuStorage::matmul::<K>,
            (&CpuStorage::F32(a), &CpuStorage::F32(b), bmnk, &a_l, &b_l),
            Ok::<CpuStorage, Error>(CpuStorage::F32(d)),
        ),
        0 <= step < bmnk.0,
        0 <= x < bmnk.1 * bmnk.2,
    ensures
        exists|p: &[F32], q: &[F32], o: Vec<F32>|
            {
                &&& p@ == a@
                &&& q@ == b@
                &&& #[trigger] call_ensures(
                    K::gemm_f32,
                    (p, q, matmul::batch_call(bmnk.1, bmnk.2, bmnk.3, a_l, b_l, step)),
                    o,
                )
                &&& d@[step * (bmnk.1 * bmnk.2) + x] == if x < o@.len() {
                    o@[x]
                } else {
                    F32 { bits: 0 }
                }
            },
{
    let (_, m, n, k) = bmnk;
    let size = m * n;
    let call = matmul::batch_call(m, n, k, a_l, b_l, step);
    let kernel = |c: GemmCall, block: Seq<F32>|
        exists|p: &[F32], q: &[F32], o: Vec<F32>|
            {
                &&& p@ == a@
                &&& q@ == b@
                &&& #[trigger] call_ensures(K::gemm_f32, (p, q, c), o)
                &&& o@ == block
            };
    assert(m > 0 && n > 0) by (nonlinear_arith)
        requires
            0 <= x < m * n,
            m >= 0,
            n >= 0,
    ;
    lemma_entry_of_block(bmnk, a_l, b_l, F32 { bits: 0 }, kernel, d@, step, 0, 0);
    let block = d@.subrange(step * size, step * size + size);
    let out = choose|out: Seq<F32>| #[trigger]
        kernel(call, out) && block == matmul::written(out, size as nat, F32 { bits: 0 });
    let (p, q, o) = choose|p: &[F32], q: &[F32], o: Vec<F32>|
        {
            &&& p@ == a@
            &&& q@ == b@
            &&& #[trigger] call_ensures(K::gemm_f32, (p, q, call), o)
            &&& o@ == out
        };
    assert(call_ensures(K::gemm_f32, (p, q, call), o));
    assert(block[x] == d@[step * size + x]);
}

/// Each block of a product of `F64` matrices is what `K` hands out for its step, zero where that ends.
pub proof fn lemma_f64_blocks<K: Gemm>(
    a: Vec<F64>,
    a_l: Layout,
    b: Vec<F64>,
    b_l: Layout,
    bmnk: (usize, usize, usize, usize),
    d: Vec<F64>,
    step: int,
    x: int,
)
    requires
        call_ensures(
            CpuStorage::matmul::<K>,
            (&CpuStorage::F64(a), &CpuStorage::F64(b), bmnk, &a_l, &b_l),
            Ok::<CpuStorage, Error>(CpuStorage::F64(d)),
        ),
        0 <= step < bmnk.0,
        0 <= x < bmnk.1 * bmnk.2,
    ensures
        exists|p: &[F64], q: &[F64], o: Vec<F64>|
            {
                &&& p@ == a@
                &&& q@ == b@
                &&& #[trigger] call_ensures(
                    K::gemm_f64,
                    (p, q, matmul::batch_call(bmnk.1, bmnk.2, bmnk.3, a_l, b_l, step)),
                    o,
                )
                &&& d@[step * (bmnk.1 * bmnk.2) + x] == if x < o@.len() {
                    o@[x]
                } else {
                    F64 { bits: 0 }
                }
            },
{
    let (_, m, n, k) = bmnk;
    let size = m * n;
    let call = matmul::batch_call(m, n, k, a_l, b_l, step);
    let kernel = |c: GemmCall, block: Seq<F64>|
        exists|p: &[F64], q: &[F64], o: Vec<F64>|
            {
                &&& p@ == a@
                &&& q@ == b@
                &&& #[trigger] call_ensures(K::gemm_f64, (p, q, c), o)
                &&& o@ == block
            };
    assert(m > 0 && n > 0) by (nonlinear_arith)
        requires
            0 <= x < m * n,
            m >= 0,
            n >= 0,
    ;
    lemma_entry_of_block(bmnk, a_l, b_l, F64 { bits: 0 }, kernel, d@, step, 0, 0);
    let block = d@.subrange(step * size, step * size + size);
    let out = choose|out: Seq<F64>| #[trigger]
        kernel(call, out) && block == matmul::written(out, size as nat, F64 { bits: 0 });
    let (p, q, o) = choose|p: &[F64], q: &[F64], o: Vec<F64>|
        {
            &&& p@ == a@
            &&& q@ == b@
            &&& #[trigger] call_ensures(K::gemm_f64, (p, q, call), o)
            &&& o@ == out
        };
    assert(call_ensures(K::gemm_f64, (p, q, call), o));
    assert(block[x] == d@[step * size + x]);
}

} // verus!
