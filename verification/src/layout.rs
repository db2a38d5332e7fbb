//! Strided layouts: where the elements of an array stand in its storage, and the walk over them.
use vstd::arithmetic::div_mod::*;
use vstd::arithmetic::mul::*;
use vstd::prelude::*;

use crate::shape;
use crate::shape::Shape;

verus! {

/// The distance from the first element of an array to its `k`-th element in row-major order.
pub open spec fn strided_offset(dims: Seq<usize>, stride: Seq<usize>, k: nat) -> nat
    decreases dims.len(),
{
    if dims.len() == 0 {
        0
    } else {
        let d = dims.last() as nat;
        strided_offset(dims.drop_last(), stride.drop_last(), k / d) + (k % d)
            * stride.last() as nat
    }
}

/// The distance from the first element of an array to its last element.
pub open spec fn last_offset(dims: Seq<usize>, stride: Seq<usize>) -> nat
    decreases dims.len(),
{
    if dims.len() == 0 {
        0
    } else {
        last_offset(dims.drop_last(), stride.drop_last()) + ((dims.last() - 1) * stride.last()) as nat
    }
}

/// The place in row-major order of the element with the coordinates `coords`.
pub open spec fn position(dims: Seq<usize>, coords: Seq<usize>) -> nat
    decreases dims.len(),
{
    if dims.len() == 0 {
        0
    } else {
        position(dims.drop_last(), coords.drop_last()) * dims.last() as nat + coords.last() as nat
    }
}

/// Whether `coords` are the coordinates of an element of an array with the extents `dims`.
pub open spec fn valid_coords(dims: Seq<usize>, coords: Seq<usize>) -> bool {
    &&& coords.len() == dims.len()
    &&& forall|i: int| 0 <= i < dims.len() ==> #[trigger] coords[i] < dims[i]
}

/// The sum of `coords[i] * stride[i]`.
pub open spec fn dot(coords: Seq<usize>, stride: Seq<usize>) -> nat
    decreases coords.len(),
{
    if coords.len() == 0 {
        0
    } else {
        dot(coords.drop_last(), stride.drop_last()) + coords.last() as nat * stride.last() as nat
    }
}

/// Where the elements of an array stand in its storage: strides are counted in elements.
#[derive(Debug)]
pub struct Layout {
    pub shape: Shape,
    pub stride: Vec<usize>,
    pub start_offset: usize,
}

impl Layout {
    /// There is a stride for each dimension, and every index into the storage, as well as the
    /// number of elements, fits in a `usize`.
    pub open spec fn wf(self) -> bool {
        &&& self.shape.wf()
        &&& self.stride@.len() == self.shape.dims@.len()
        &&& self.end() <= usize::MAX
    }

    /// The number of elements.
    pub open spec fn count(self) -> nat {
        self.shape.count()
    }

    /// The index into the storage of the `k`-th element in row-major order.
    pub open spec fn index(self, k: int) -> int {
        self.start_offset + strided_offset(self.shape.dims@, self.stride@, k as nat)
    }

    /// One more than the largest index into the storage; the start offset for an empty array.
    pub open spec fn end(self) -> int {
        if self.count() == 0 {
            self.start_offset as int
        } else {
            self.start_offset + last_offset(self.shape.dims@, self.stride@) + 1
        }
    }

    /// The elements stand one after the other in row-major order.
    pub open spec fn contiguous(self) -> bool {
        shape::contiguous_stride(self.shape.dims@, self.stride@)
    }

    /// The first `n` elements stand in a storage of `len` elements.
    pub open spec fn prefix_within(self, n: int, len: int) -> bool {
        forall|k: int| 0 <= k < n ==> #[trigger] self.index(k) < len
    }

    /// The array stands in a storage of `len` elements. A contiguous array is taken as a slice, so
    /// that its start counts even if it is empty.
    pub open spec fn within(self, len: int) -> bool {
        if self.contiguous() {
            self.start_offset + self.count() <= len
        } else {
            self.prefix_within(self.count() as int, len)
        }
    }

    /// The layout with the given strides and start, or `None` if an index into the storage does
    /// not fit in a `usize` or the numbers of extents and strides differ.
    pub fn new(shape: Shape, stride: Vec<usize>, start_offset: usize) -> (r: Option<Layout>)
        requires
            shape.wf(),
        ensures
            r is Some <==> (Layout { shape, stride, start_offset }).wf(),
            r matches Some(l) ==> l == (Layout { shape, stride, start_offset }),
    {
        if shape.rank() != stride.len() {
            return None;
        }
        let layout = Layout { shape, stride, start_offset };
        if layout.shape.elem_count() == 0 {
            return Some(layout);
        }
        proof {
            shape::lemma_product_positive(layout.shape.dims@);
        }
        let n: usize = layout.stride.len();
        let mut end: usize = start_offset;
        let ghost (dims, strides) = (layout.shape.dims@, layout.stride@);
        assert(dims.take(0).len() == 0);
        for i in 0..n
            invariant
                n == layout.stride@.len(),
                n == layout.shape.dims@.len(),
                layout.count() > 0,
                layout == (Layout { shape, stride, start_offset }),
                dims == layout.shape.dims@,
                strides == layout.stride@,
                layout.shape.wf(),
                forall|j: int| 0 <= j < n ==> #[trigger] dims[j] > 0,
                end == start_offset + last_offset(dims.take(i as int), strides.take(i as int)),
        {
            proof {
                let (d1, s1) = (dims.take(i + 1), strides.take(i + 1));
                assert(d1.drop_last() =~= dims.take(i as int));
                assert(s1.drop_last() =~= strides.take(i as int));
                assert(dims[i as int] > 0);
                lemma_last_offset_prefix(dims, strides, i + 1);
                lemma_mul_nonnegative(dims[i as int] - 1, strides[i as int] as int);
            }
            let extent: usize = layout.shape.dims[i] - 1;
            match extent.checked_mul(layout.stride[i]) {
                None => {
                    return None;
                },
                Some(x) => match end.checked_add(x) {
                    None => {
                        return None;
                    },
                    Some(e) => {
                        end = e;
                    },
                },
            }
        }
        assert(dims.take(n as int) =~= dims);
        assert(strides.take(n as int) =~= strides);
        if end == usize::MAX {
            None
        } else {
            Some(layout)
        }
    }

    /// The row-major layout of `shape` that starts at `start_offset`.
    pub fn contiguous_with_offset(shape: Shape, start_offset: usize) -> (r: Layout)
        requires
            shape.wf(),
            start_offset + shape.count() <= usize::MAX,
        ensures
            r.wf(),
            r.contiguous(),
            r.shape == shape,
            r.start_offset == start_offset,
    {
        let stride = shape.stride_contiguous();
        proof {
            let (dims, strides) = (shape.dims@, stride@);
            if shape::product(dims) > 0 {
                shape::lemma_product_positive(dims);
                lemma_last_offset(dims, strides);
                lemma_contiguous_offset(dims, strides, (shape::product(dims) - 1) as nat);
            }
        }
        Layout { shape, stride, start_offset }
    }

    /// The extents, outermost dimension first.
    pub fn dims(&self) -> (r: &Vec<usize>)
        ensures
            r@ == self.shape.dims@,
    {
        &self.shape.dims
    }

    /// Whether the elements stand one after the other in row-major order.
    pub fn is_contiguous(&self) -> (r: bool)
        requires
            self.wf(),
        ensures
            r == self.contiguous(),
    {
        self.shape.is_contiguous(&self.stride)
    }

    /// The range of the storage that a contiguous array takes up, `None` for another layout.
    pub fn contiguous_offsets(&self) -> (r: Option<(usize, usize)>)
        requires
            self.wf(),
        ensures
            match r {
                Some((from, to)) => self.contiguous() && from == self.start_offset && to
                    == self.start_offset + self.count(),
                None => !self.contiguous(),
            },
    {
        if self.is_contiguous() {
            proof {
                lemma_contiguous_end(*self);
            }
            Some((self.start_offset, self.start_offset + self.shape.elem_count()))
        } else {
            None
        }
    }

    /// Whether the array stands in a storage of `len` elements.
    pub fn is_within(&self, len: usize) -> (r: bool)
        requires
            self.wf(),
        ensures
            r == self.within(len as int),
    {
        if let Some((_, to)) = self.contiguous_offsets() {
            return to <= len;
        }
        let n: usize = self.shape.elem_count();
        if n == 0 {
            return true;
        }
        proof {
            shape::lemma_product_positive(self.shape.dims@);
            assert forall|k: int| 0 <= k < n implies #[trigger] self.index(k) <= self.end() - 1 by {
                lemma_strided_offset_bound(self.shape.dims@, self.stride@, k as nat);
            }
            lemma_last_offset(self.shape.dims@, self.stride@);
            assert(self.index(n - 1) == self.end() - 1);
        }
        self.last_index() < len
    }

    /// The index into the storage of the last element.
    fn last_index(&self) -> (r: usize)
        requires
            self.wf(),
            self.count() > 0,
        ensures
            r == self.end() - 1,
    {
        let n: usize = self.stride.len();
        let mut last: usize = self.start_offset;
        let ghost (dims, strides) = (self.shape.dims@, self.stride@);
        proof {
            shape::lemma_product_positive(dims);
            assert(dims.take(0).len() == 0);
        }
        for i in 0..n
            invariant
                n == self.stride@.len(),
                self.wf(),
                self.count() > 0,
                dims == self.shape.dims@,
                strides == self.stride@,
                forall|j: int| 0 <= j < n ==> #[trigger] dims[j] > 0,
                last == self.start_offset + last_offset(dims.take(i as int), strides.take(i as int)),
        {
            proof {
                let (d1, s1) = (dims.take(i + 1), strides.take(i + 1));
                assert(d1.drop_last() =~= dims.take(i as int));
                assert(s1.drop_last() =~= strides.take(i as int));
                assert(dims[i as int] > 0);
                lemma_last_offset_prefix(dims, strides, i + 1);
                lemma_mul_nonnegative(dims[i as int] - 1, strides[i as int] as int);
            }
            last = last + (self.shape.dims[i] - 1) * self.stride[i];
        }
        assert(dims.take(n as int) =~= dims);
        assert(strides.take(n as int) =~= strides);
        last
    }

    /// Whether the first `n` elements stand in a storage of `len` elements.
    pub fn is_prefix_within(&self, n: usize, len: usize) -> (r: bool)
        requires
            self.wf(),
            n <= self.count(),
        ensures
            r == self.prefix_within(n as int, len as int),
    {
        let mut it = self.strided_index();
        let mut k: usize = 0;
        while k < n
            invariant
                it.wf(),
                it.layout == self,
                it.taken() == k <= n <= self.count(),
                forall|j: int| 0 <= j < k ==> #[trigger] self.index(j) < len,
            decreases n - k,
        {
            if let Some(i) = it.next() {
                assert(i == self.index(k as int));
                if i >= len {
                    return false;
                }
            }
            k = k + 1;
        }
        true
    }

    /// The walk over the indices into the storage, in row-major order.
    pub fn strided_index(&self) -> (r: StridedIndex<'_>)
        requires
            self.wf(),
        ensures
            r.wf(),
            r.layout == self,
            r.taken() == 0,
    {
        let n: usize = self.stride.len();
        let mut multi_index: Vec<usize> = Vec::new();
        for i in 0..n
            invariant
                multi_index@.len() == i,
                forall|j: int| 0 <= j < i ==> multi_index@[j] == 0,
        {
            multi_index.push(0);
        }
        let next_storage_index: Option<usize> = if self.shape.elem_count() == 0 {
            None
        } else {
            Some(self.start_offset)
        };
        proof {
            shape::lemma_product_positive(self.shape.dims@);
            lemma_origin(self.shape.dims@, self.stride@, multi_index@);
        }
        StridedIndex { next_storage_index, multi_index, layout: self }
    }
}

/// A walk over the indices into the storage of the elements of a layout, in row-major order.
#[derive(Debug)]
pub struct StridedIndex<'a> {
    pub next_storage_index: Option<usize>,
    pub multi_index: Vec<usize>,
    pub layout: &'a Layout,
}

impl<'a> StridedIndex<'a> {
    /// The layout is well-formed and, unless the walk is at its end, the multi-index holds the
    /// coordinates of the next element and the storage index is theirs.
    pub open spec fn wf(self) -> bool {
        &&& self.layout.wf()
        &&& match self.next_storage_index {
            Some(i) => {
                &&& valid_coords(self.layout.shape.dims@, self.multi_index@)
                &&& i == self.layout.start_offset + dot(self.multi_index@, self.layout.stride@)
            },
            None => true,
        }
    }

    /// The number of indices that the walk has handed out.
    pub open spec fn taken(self) -> nat {
        match self.next_storage_index {
            Some(_) => position(self.layout.shape.dims@, self.multi_index@),
            None => self.layout.count(),
        }
    }

    /// The index of the next element, or `None` at the end of the walk.
    pub fn next(&mut self) -> (r: Option<usize>)
        requires
            old(self).wf(),
        ensures
            final(self).wf(),
            final(self).layout == old(self).layout,
            match r {
                Some(i) => {
                    &&& old(self).taken() < old(self).layout.count()
                    &&& i == old(self).layout.index(old(self).taken() as int)
                    &&& final(self).taken() == old(self).taken() + 1
                },
                None => {
                    &&& old(self).taken() == old(self).layout.count()
                    &&& final(self).taken() == old(self).taken()
                },
            },
    {
        let storage_index: usize = match self.next_storage_index {
            None => {
                return None;
            },
            Some(i) => i,
        };
        let ghost dims = self.layout.shape.dims@;
        let ghost stride = self.layout.stride@;
        let ghost before = self.multi_index@;
        let ghost start = self.layout.start_offset as int;
        let n: usize = self.multi_index.len();
        proof {
            lemma_position_bound(dims, before);
            lemma_offset_of_position(dims, stride, before);
            assert(before.take(n as int) =~= before);
            assert(stride.take(n as int) =~= stride);
        }
        let mut updated: bool = false;
        let mut next: usize = storage_index;
        let mut i: usize = n;
        while i > 0 && !updated
            invariant
                i <= n,
                n == dims.len(),
                n == stride.len(),
                valid_coords(dims, before),
                self.layout == old(self).layout,
                self.layout.wf(),
                dims == self.layout.shape.dims@,
                stride == self.layout.stride@,
                start == self.layout.start_offset,
                self.multi_index@.len() == n,
                !updated ==> {
                    &&& next == start + dot(before.take(i as int), stride.take(i as int))
                    &&& forall|j: int| 0 <= j < i ==> self.multi_index@[j] == before[j]
                    &&& forall|j: int| i <= j < n ==> self.multi_index@[j] == 0
                    &&& forall|j: int| i <= j < n ==> before[j] + 1 == #[trigger] dims[j]
                },
                updated ==> {
                    &&& valid_coords(dims, self.multi_index@)
                    &&& next == start + dot(self.multi_index@, stride)
                    &&& position(dims, self.multi_index@) == position(dims, before) + 1
                },
            decreases i, !updated as int,
        {
            let ghost was = self.multi_index@;
            proof {
                let (c, s) = (before.take(i as int), stride.take(i as int));
                assert(c.drop_last() =~= before.take(i - 1));
                assert(s.drop_last() =~= stride.take(i - 1));
                lemma_mul_nonnegative(c.last() as int, s.last() as int);
                assert(before[i - 1] < dims[i - 1]);
            }
            i = i - 1;
            let next_i: usize = self.multi_index[i] + 1;
            if next_i < self.layout.shape.dims[i] {
                self.multi_index.set(i, next_i);
                proof {
                    let now = self.multi_index@;
                    lemma_increment(dims, before, now, i as int);
                    lemma_dot_increment(before, now, stride, i as int);
                    assert forall|j: int| 0 <= j < n implies #[trigger] now[j] < dims[j] by {
                        assert(before[j] < dims[j]);
                    }
                    lemma_offset_of_position(dims, stride, now);
                    lemma_position_bound(dims, now);
                    lemma_strided_offset_bound(dims, stride, position(dims, now));
                }
                updated = true;
                next = next + self.layout.stride[i];
            } else {
                next = next - self.multi_index[i] * self.layout.stride[i];
                self.multi_index.set(i, 0);
            }
        }
        proof {
            if !updated {
                lemma_last_position(dims, before);
            }
        }
        self.next_storage_index =
        if updated {
            Some(next)
        } else {
            None
        };
        Some(storage_index)
    }
}

/// The last offset is a sum of non-negative parts.
pub proof fn lemma_last_offset_prefix(dims: Seq<usize>, stride: Seq<usize>, i: int)
    requires
        stride.len() == dims.len(),
        0 <= i <= dims.len(),
        forall|j: int| 0 <= j < dims.len() ==> #[trigger] dims[j] > 0,
    ensures
        last_offset(dims.take(i), stride.take(i)) <= last_offset(dims, stride),
    decreases dims.len(),
{
    if i == dims.len() {
        assert(dims.take(i) =~= dims);
        assert(stride.take(i) =~= stride);
    } else {
        let (d, s) = (dims.drop_last(), stride.drop_last());
        assert forall|j: int| 0 <= j < d.len() implies #[trigger] d[j] > 0 by {
            assert(dims[j] > 0);
        }
        lemma_last_offset_prefix(d, s, i);
        assert(d.take(i) =~= dims.take(i));
        assert(s.take(i) =~= stride.take(i));
        assert(dims[dims.len() - 1] > 0);
        lemma_mul_nonnegative(dims.last() - 1, stride.last() as int);
    }
}

/// No element stands behind the last one.
pub proof fn lemma_strided_offset_bound(dims: Seq<usize>, stride: Seq<usize>, k: nat)
    requires
        stride.len() == dims.len(),
        k < shape::product(dims),
    ensures
        strided_offset(dims, stride, k) <= last_offset(dims, stride),
    decreases dims.len(),
{
    if dims.len() > 0 {
        let d = dims.last() as nat;
        let p = shape::product(dims.drop_last());
        shape::lemma_product_positive(dims);
        assert(dims[dims.len() - 1] > 0);
        lemma_mul_is_commutative(d as int, p as int);
        lemma_multiply_divide_lt(k as int, d as int, p as int);
        lemma_div_pos_is_pos(k as int, d as int);
        lemma_strided_offset_bound(dims.drop_last(), stride.drop_last(), k / d);
        lemma_mul_inequality((k % d) as int, d - 1, stride.last() as int);
    }
}

/// The last element in row-major order stands at the last offset.
pub proof fn lemma_last_offset(dims: Seq<usize>, stride: Seq<usize>)
    requires
        stride.len() == dims.len(),
        shape::product(dims) > 0,
    ensures
        strided_offset(dims, stride, (shape::product(dims) - 1) as nat) == last_offset(dims, stride),
    decreases dims.len(),
{
    if dims.len() > 0 {
        let d = dims.last() as nat;
        let p = shape::product(dims.drop_last());
        shape::lemma_product_positive(dims);
        shape::lemma_product_positive(dims.drop_last());
        assert(dims[dims.len() - 1] > 0);
        assert forall|j: int| 0 <= j < dims.drop_last().len() implies #[trigger] dims.drop_last()[j]
            > 0 by {
            assert(dims[j] > 0);
        }
        lemma_last_offset(dims.drop_last(), stride.drop_last());
        assert(p * d - 1 == (p - 1) * d + (d - 1)) by (nonlinear_arith);
        lemma_fundamental_div_mod_converse(p * d - 1, d as int, p - 1, d - 1);
    }
}

/// The position of valid coordinates is below the number of elements.
pub proof fn lemma_position_bound(dims: Seq<usize>, coords: Seq<usize>)
    requires
        valid_coords(dims, coords),
    ensures
        position(dims, coords) < shape::product(dims),
    decreases dims.len(),
{
    if dims.len() > 0 {
        let (d, c) = (dims.drop_last(), coords.drop_last());
        assert forall|i: int| 0 <= i < d.len() implies #[trigger] c[i] < d[i] by {
            assert(coords[i] < dims[i]);
        }
        lemma_position_bound(d, c);
        assert(coords[dims.len() - 1] < dims[dims.len() - 1]);
        let (p, q, m, x) = (position(d, c), shape::product(d), coords.last() as nat, dims.last() as nat);
        assert(p * x + m < q * x) by (nonlinear_arith)
            requires
                p < q,
                m < x,
        ;
    }
}

/// The element with the coordinates `coords` stands at their inner product with the strides.
pub proof fn lemma_offset_of_position(dims: Seq<usize>, stride: Seq<usize>, coords: Seq<usize>)
    requires
        valid_coords(dims, coords),
        stride.len() == dims.len(),
    ensures
        strided_offset(dims, stride, position(dims, coords)) == dot(coords, stride),
    decreases dims.len(),
{
    if dims.len() > 0 {
        let (d, s, c) = (dims.drop_last(), stride.drop_last(), coords.drop_last());
        assert forall|i: int| 0 <= i < d.len() implies #[trigger] c[i] < d[i] by {
            assert(coords[i] < dims[i]);
        }
        lemma_offset_of_position(d, s, c);
        assert(coords[dims.len() - 1] < dims[dims.len() - 1]);
        lemma_fundamental_div_mod_converse(
            position(dims, coords) as int,
            dims.last() as int,
            position(d, c) as int,
            coords.last() as int,
        );
    }
}

/// The first element has the position and the offset zero.
pub proof fn lemma_origin(dims: Seq<usize>, stride: Seq<usize>, coords: Seq<usize>)
    requires
        coords.len() == dims.len(),
        stride.len() == dims.len(),
        forall|i: int| 0 <= i < coords.len() ==> coords[i] == 0,
    ensures
        position(dims, coords) == 0,
        dot(coords, stride) == 0,
    decreases dims.len(),
{
    if dims.len() > 0 {
        lemma_origin(dims.drop_last(), stride.drop_last(), coords.drop_last());
        lemma_mul_basics(dims.last() as int);
        lemma_mul_basics(stride.last() as int);
    }
}

/// Counting up: a coordinate grows by one while all later ones go from their last value to zero.
proof fn lemma_increment(dims: Seq<usize>, before: Seq<usize>, after: Seq<usize>, i: int)
    requires
        0 <= i < dims.len(),
        before.len() == dims.len(),
        after.len() == dims.len(),
        forall|j: int| 0 <= j < i ==> after[j] == before[j],
        after[i] == before[i] + 1,
        forall|j: int| i < j < dims.len() ==> after[j] == 0,
        forall|j: int| i < j < dims.len() ==> before[j] + 1 == #[trigger] dims[j],
    ensures
        position(dims, after) == position(dims, before) + 1,
    decreases dims.len(),
{
    let (d, b, a) = (dims.drop_last(), before.drop_last(), after.drop_last());
    if i == dims.len() - 1 {
        assert(a =~= b);
    } else {
        assert forall|j: int| i < j < d.len() implies b[j] + 1 == #[trigger] d[j] by {
            assert(before[j] + 1 == dims[j]);
        }
        lemma_increment(d, b, a, i);
        assert(before[dims.len() - 1] + 1 == dims[dims.len() - 1]);
        lemma_mul_is_distributive_add_other_way(
            dims.last() as int,
            position(d, b) as int,
            1,
        );
    }
}

proof fn lemma_dot_increment(before: Seq<usize>, after: Seq<usize>, stride: Seq<usize>, i: int)
    requires
        0 <= i < stride.len(),
        before.len() == stride.len(),
        after.len() == stride.len(),
        forall|j: int| 0 <= j < i ==> after[j] == before[j],
        after[i] == before[i] + 1,
        forall|j: int| i < j < stride.len() ==> after[j] == 0,
    ensures
        dot(after, stride) == dot(before.take(i + 1), stride.take(i + 1)) + stride[i],
    decreases stride.len(),
{
    let (b, a, s) = (before.drop_last(), after.drop_last(), stride.drop_last());
    if i == stride.len() - 1 {
        assert(a =~= b);
        assert(before.take(i + 1) =~= before);
        assert(stride.take(i + 1) =~= stride);
        lemma_mul_is_distributive_add_other_way(stride.last() as int, before.last() as int, 1);
    } else {
        lemma_dot_increment(b, a, s, i);
        assert(b.take(i + 1) =~= before.take(i + 1));
        assert(s.take(i + 1) =~= stride.take(i + 1));
        lemma_mul_basics(stride.last() as int);
    }
}

proof fn lemma_last_position(dims: Seq<usize>, coords: Seq<usize>)
    requires
        coords.len() == dims.len(),
        forall|j: int| 0 <= j < dims.len() ==> coords[j] + 1 == #[trigger] dims[j],
    ensures
        position(dims, coords) + 1 == shape::product(dims),
    decreases dims.len(),
{
    if dims.len() > 0 {
        let (d, c) = (dims.drop_last(), coords.drop_last());
        assert forall|j: int| 0 <= j < d.len() implies c[j] + 1 == #[trigger] d[j] by {
            assert(coords[j] + 1 == dims[j]);
        }
        lemma_last_position(d, c);
        assert(coords[dims.len() - 1] + 1 == dims[dims.len() - 1]);
        lemma_mul_is_distributive_add_other_way(dims.last() as int, position(d, c) as int, 1);
    }
}

/// With row-major strides that are `c` times too large, so are the offsets.
proof fn lemma_scaled_contiguous_offset(dims: Seq<usize>, stride: Seq<usize>, c: nat, k: nat)
    requires
        stride.len() == dims.len(),
        forall|i: int|
            0 <= i < dims.len() ==> stride[i] == #[trigger] shape::row_major_stride(dims, i) * c,
        k < shape::product(dims),
    ensures
        strided_offset(dims, stride, k) == k * c,
    decreases dims.len(),
{
    if dims.len() > 0 {
        let (d, s, x) = (dims.drop_last(), stride.drop_last(), dims.last() as nat);
        let last = dims.len() - 1;
        shape::lemma_product_positive(dims);
        assert(dims[last] > 0);
        assert forall|i: int| 0 <= i < d.len() implies s[i] == #[trigger] shape::row_major_stride(d, i) * (
        x * c) by {
            assert(stride[i] == shape::row_major_stride(dims, i) * c);
            assert(dims.skip(i + 1).drop_last() =~= d.skip(i + 1));
            lemma_mul_is_associative(shape::row_major_stride(d, i) as int, x as int, c as int);
        }
        lemma_mul_is_commutative(x as int, shape::product(d) as int);
        lemma_multiply_divide_lt(k as int, x as int, shape::product(d) as int);
        lemma_div_pos_is_pos(k as int, x as int);
        lemma_scaled_contiguous_offset(d, s, x * c, k / x);
        assert(stride[last] == shape::row_major_stride(dims, last) * c);
        assert(shape::row_major_stride(dims, last) == 1);
        lemma_mul_basics(c as int);
        assert(stride.last() == c);
        lemma_fundamental_div_mod(k as int, x as int);
        let (q, r) = (k / x, k % x);
        assert(q * (x * c) + r * c == (x * q + r) * c) by (nonlinear_arith);
    } else {
        lemma_mul_basics(c as int);
    }
}

/// In a contiguous layout the `k`-th element stands `k` places behind the first one.
pub proof fn lemma_contiguous_offset(dims: Seq<usize>, stride: Seq<usize>, k: nat)
    requires
        shape::contiguous_stride(dims, stride),
        k < shape::product(dims),
    ensures
        strided_offset(dims, stride, k) == k,
{
    lemma_scaled_contiguous_offset(dims, stride, 1, k);
}

/// A contiguous array ends as many places behind its start as it has elements.
pub proof fn lemma_contiguous_end(l: Layout)
    requires
        l.contiguous(),
    ensures
        l.end() == l.start_offset + l.count(),
        forall|k: int| 0 <= k < l.count() ==> #[trigger] l.index(k) == l.start_offset + k,
{
    let (dims, stride) = (l.shape.dims@, l.stride@);
    if shape::product(dims) > 0 {
        lemma_last_offset(dims, stride);
        lemma_contiguous_offset(dims, stride, (shape::product(dims) - 1) as nat);
    }
    assert forall|k: int| 0 <= k < l.count() implies #[trigger] l.index(k) == l.start_offset + k by {
        lemma_contiguous_offset(dims, stride, k as nat);
    }
}

/// The coordinates of the `k`-th element in row-major order.
pub open spec fn coords_of(dims: Seq<usize>, k: nat) -> Seq<usize>
    decreases dims.len(),
{
    if dims.len() == 0 {
        Seq::empty()
    } else {
        let d = dims.last() as nat;
        coords_of(dims.drop_last(), k / d).push((k % d) as usize)
    }
}

/// Every place in row-major order is that of an element: the walk over an array leaves out none.
pub proof fn lemma_coords_of(dims: Seq<usize>, k: nat)
    requires
        k < shape::product(dims),
    ensures
        valid_coords(dims, coords_of(dims, k)),
        position(dims, coords_of(dims, k)) == k,
    decreases dims.len(),
{
    if dims.len() > 0 {
        let (d, x) = (dims.drop_last(), dims.last() as nat);
        let p = shape::product(d);
        shape::lemma_product_positive(dims);
        assert(dims[dims.len() - 1] > 0);
        lemma_mul_is_commutative(x as int, p as int);
        lemma_multiply_divide_lt(k as int, x as int, p as int);
        lemma_div_pos_is_pos(k as int, x as int);
        lemma_coords_of(d, k / x);
        lemma_fundamental_div_mod(k as int, x as int);
        lemma_mul_is_commutative(x as int, (k / x) as int);
        let c = coords_of(dims, k);
        assert(c.drop_last() =~= coords_of(d, k / x));
        assert forall|i: int| 0 <= i < dims.len() implies #[trigger] c[i] < dims[i] by {
            if i < d.len() {
                assert(coords_of(d, k / x)[i] < d[i]);
            }
        }
    }
}

/// Two elements of an array never have the same place in row-major order.
pub proof fn lemma_position_injective(dims: Seq<usize>, a: Seq<usize>, b: Seq<usize>)
    requires
        valid_coords(dims, a),
        valid_coords(dims, b),
        position(dims, a) == position(dims, b),
    ensures
        a == b,
    decreases dims.len(),
{
    if dims.len() > 0 {
        let (d, x) = (dims.drop_last(), dims.last() as int);
        let (a0, b0) = (a.drop_last(), b.drop_last());
        assert forall|i: int| 0 <= i < d.len() implies #[trigger] a0[i] < d[i] by {
            assert(a[i] < dims[i]);
        }
        assert forall|i: int| 0 <= i < d.len() implies #[trigger] b0[i] < d[i] by {
            assert(b[i] < dims[i]);
        }
        let last = dims.len() - 1;
        assert(a[last] < dims[last] && b[last] < dims[last]);
        let k = position(dims, a) as int;
        lemma_fundamental_div_mod_converse(k, x, position(d, a0) as int, a.last() as int);
        lemma_fundamental_div_mod_converse(k, x, position(d, b0) as int, b.last() as int);
        lemma_position_injective(d, a0, b0);
        assert(a =~= a0.push(a.last()));
        assert(b =~= b0.push(b.last()));
    } else {
        assert(a =~= b);
    }
}

/// The place of an element in row-major order, seen from dimension `d`: the outer coordinates give
/// the block, the inner ones the place in it.
pub proof fn lemma_position_split(dims: Seq<usize>, coords: Seq<usize>, d: int)
    requires
        coords.len() == dims.len(),
        0 <= d <= dims.len(),
    ensures
        position(dims, coords) == position(dims.take(d), coords.take(d)) * shape::product(
            dims.skip(d),
        ) + position(dims.skip(d), coords.skip(d)),
    decreases dims.len(),
{
    let outer = position(dims.take(d), coords.take(d));
    if d == dims.len() {
        assert(dims.take(d) =~= dims);
        assert(coords.take(d) =~= coords);
        lemma_mul_basics(outer as int);
    } else {
        let (e, c) = (dims.drop_last(), coords.drop_last());
        lemma_position_split(e, c, d);
        assert(e.take(d) =~= dims.take(d));
        assert(c.take(d) =~= coords.take(d));
        assert(e.skip(d) =~= dims.skip(d).drop_last());
        assert(c.skip(d) =~= coords.skip(d).drop_last());
        let (p, q, x) = (shape::product(e.skip(d)), position(e.skip(d), c.skip(d)), dims.last() as nat);
        assert(dims.skip(d).last() == dims.last());
        assert(coords.skip(d).last() == coords.last());
        assert((outer * p + q) * x == outer * (p * x) + q * x) by (nonlinear_arith);
    }
}

/// The element with the coordinates `coords` stands where the strides say.
pub proof fn lemma_index_of_coords(l: Layout, coords: Seq<usize>)
    requires
        l.wf(),
        valid_coords(l.shape.dims@, coords),
    ensures
        position(l.shape.dims@, coords) < l.count(),
        l.index(position(l.shape.dims@, coords) as int) == l.start_offset + dot(coords, l.stride@),
{
    lemma_position_bound(l.shape.dims@, coords);
    lemma_offset_of_position(l.shape.dims@, l.stride@, coords);
}

/// Every element of an array that stands in a storage has its place in it.
pub proof fn lemma_element_within(l: Layout, len: int, coords: Seq<usize>)
    requires
        l.wf(),
        l.within(len),
        valid_coords(l.shape.dims@, coords),
    ensures
        l.start_offset + dot(coords, l.stride@) < len,
        l.start_offset + dot(coords, l.stride@) < l.end(),
{
    let k = position(l.shape.dims@, coords);
    lemma_index_of_coords(l, coords);
    lemma_strided_offset_bound(l.shape.dims@, l.stride@, k);
    if l.contiguous() {
        lemma_contiguous_end(l);
    }
    assert(l.index(k as int) < len);
}

} // verus!
