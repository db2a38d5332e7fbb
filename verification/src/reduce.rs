//! Sums over some dimensions of an array.
use vstd::arithmetic::div_mod::*;
use vstd::arithmetic::mul::*;
use vstd::prelude::*;

use crate::elementwise;
use crate::layout;
use crate::layout::Layout;
use crate::numbers;
use crate::shape;
use crate::shape::Shape;

verus! {

/// `r` is what `step` can make of `init` when it takes in the items of `xs` one after the other.
pub open spec fn folds<A, T>(step: spec_fn(A, T, A) -> bool, init: A, xs: Seq<T>, r: A) -> bool
    decreases xs.len(),
{
    if xs.len() == 0 {
        r == init
    } else {
        exists|p: A|
            folds(step, init, xs.drop_last(), p) && #[trigger] step(p, xs.last(), r)
    }
}

/// What one step of a fold allows, another one may allow too.
pub proof fn lemma_folds_weaken<A, T>(
    strong: spec_fn(A, T, A) -> bool,
    weak: spec_fn(A, T, A) -> bool,
    init: A,
    xs: Seq<T>,
    r: A,
)
    requires
        folds(strong, init, xs, r),
        forall|a: A, x: T, b: A| #[trigger] strong(a, x, b) ==> weak(a, x, b),
    ensures
        folds(weak, init, xs, r),
    decreases xs.len(),
{
    if xs.len() > 0 {
        let p = choose|p: A|
            folds(strong, init, xs.drop_last(), p) && #[trigger] strong(p, xs.last(), r);
        lemma_folds_weaken(strong, weak, init, xs.drop_last(), p);
    }
}

/// A fold takes in one more item.
pub proof fn lemma_folds_push<A, T>(
    step: spec_fn(A, T, A) -> bool,
    init: A,
    xs: Seq<T>,
    p: A,
    x: T,
    r: A,
)
    requires
        folds(step, init, xs, p),
        step(p, x, r),
    ensures
        folds(step, init, xs.push(x), r),
{
    assert(xs.push(x).drop_last() =~= xs);
    assert(step(p, xs.push(x).last(), r));
}

/// The items of `xs` do not fall from one to the next.
pub open spec fn ascending(xs: Seq<usize>) -> bool {
    forall|i: int, j: int| 0 <= i <= j < xs.len() ==> xs[i] <= xs[j]
}

/// `ys` holds the items of `xs` in ascending order.
pub open spec fn sorts(xs: Seq<usize>, ys: Seq<usize>) -> bool {
    ascending(ys) && ys.to_multiset() == xs.to_multiset()
}

/// The items of `xs` in ascending order.
pub open spec fn sorted(xs: Seq<usize>) -> Seq<usize> {
    choose|ys: Seq<usize>| sorts(xs, ys)
}

/// There is only one ascending order of the same items.
pub proof fn lemma_sorts_unique(xs: Seq<usize>, ys: Seq<usize>)
    requires
        ascending(xs),
        ascending(ys),
        xs.to_multiset() == ys.to_multiset(),
    ensures
        xs == ys,
    decreases xs.len(),
{
    xs.to_multiset_ensures();
    ys.to_multiset_ensures();
    assert(xs.len() == ys.len());
    if xs.len() > 0 {
        let n = xs.len() - 1;
        assert(ys.to_multiset().count(xs[n]) > 0);
        assert(xs.to_multiset().count(ys[n]) > 0);
        assert(ys.contains(xs[n]) && xs.contains(ys[n]));
        assert(xs[n] == ys[n]);
        assert(xs.drop_last() =~= xs.remove(n));
        assert(ys.drop_last() =~= ys.remove(n));
        lemma_sorts_unique(xs.drop_last(), ys.drop_last());
        assert(xs =~= xs.drop_last().push(xs[n]));
        assert(ys =~= ys.drop_last().push(ys[n]));
    } else {
        assert(xs =~= ys);
    }
}

/// The items of `xs` in ascending order.
pub fn sort(xs: &Vec<usize>) -> (r: Vec<usize>)
    ensures
        sorts(xs@, r@),
        r@ == sorted(xs@),
{
    let mut r: Vec<usize> = Vec::new();
    let n: usize = xs.len();
    assert(xs@.take(0) =~= r@);
    for i in 0..n
        invariant
            n == xs@.len(),
            r@.len() == i,
            sorts(xs@.take(i as int), r@),
    {
        let x: usize = xs[i];
        let mut j: usize = i;
        while j > 0 && r[j - 1] > x
            invariant
                j <= i,
                i == r@.len(),
                ascending(r@),
                forall|k: int| j <= k < i ==> r@[k] > x,
            decreases j,
        {
            j = j - 1;
        }
        let ghost before = r@;
        r.insert(j, x);
        proof {
            assert(r@ == before.insert(j as int, x));
            assert(xs@.take(i + 1) =~= xs@.take(i as int).push(x));
            xs@.take(i as int).to_multiset_ensures();
            vstd::seq_lib::to_multiset_insert(before, j as int, x);
            assert(ascending(r@)) by {
                assert forall|a: int, b: int| 0 <= a <= b < r@.len() implies r@[a] <= r@[b] by {
                    if a < j && b >= j && b == j {
                        assert(before[a] <= before[j - 1]);
                    } else if a < j && b > j {
                        assert(before[a] <= before[b - 1]);
                    } else if a > j {
                        assert(before[a - 1] <= before[b - 1]);
                    } else if b < j {
                        assert(before[a] <= before[b]);
                    }
                }
            }
        }
    }
    assert(xs@.take(n as int) =~= xs@);
    proof {
        assert(sorts(xs@, r@));
        assert(sorts(xs@, sorted(xs@)));
        lemma_sorts_unique(r@, sorted(xs@));
    }
    r
}

/// Where the place `i` of an array goes when the dimension with the extent `dim` and the row-major
/// stride `stride` shrinks to one.
pub open spec fn shrunk_index(i: nat, dim: nat, stride: nat) -> nat {
    i / stride / dim * stride + i % stride
}

/// Where the place `i` of an array goes when several dimensions shrink to one, first to last. Each
/// is given by its extent and its row-major stride.
pub open spec fn cell(pairs: Seq<(usize, usize)>, i: nat) -> nat
    decreases pairs.len(),
{
    if pairs.len() == 0 {
        i
    } else {
        shrunk_index(
            cell(pairs.drop_last(), i),
            pairs.last().0 as nat,
            pairs.last().1 as nat,
        )
    }
}

/// Those of the first `n` elements of an array that go to the place `j`, in row-major order.
pub open spec fn terms<T>(
    src: Seq<T>,
    l: Layout,
    pairs: Seq<(usize, usize)>,
    j: int,
    n: nat,
) -> Seq<T>
    decreases n,
{
    if n == 0 {
        Seq::empty()
    } else {
        let before = terms(src, l, pairs, j, (n - 1) as nat);
        if cell(pairs, (n - 1) as nat) == j {
            before.push(elementwise::element(src, l, n - 1))
        } else {
            before
        }
    }
}

/// Each place of `dst` holds the sum, as `add` relates it to its operands, of the elements that go
/// there.
pub open spec fn summed<T>(
    src: Seq<T>,
    l: Layout,
    pairs: Seq<(usize, usize)>,
    zero: T,
    add: spec_fn(T, T, T) -> bool,
    dst: Seq<T>,
) -> bool {
    forall|j: int|
        0 <= j < dst.len() ==> folds(
            add,
            zero,
            terms(src, l, pairs, j, l.count()),
            #[trigger] dst[j],
        )
}

/// What one addition allows, another one may allow too.
pub proof fn lemma_summed_weaken<T>(
    src: Seq<T>,
    l: Layout,
    pairs: Seq<(usize, usize)>,
    zero: T,
    strong: spec_fn(T, T, T) -> bool,
    weak: spec_fn(T, T, T) -> bool,
    dst: Seq<T>,
)
    requires
        summed(src, l, pairs, zero, strong, dst),
        forall|a: T, x: T, b: T| #[trigger] strong(a, x, b) ==> weak(a, x, b),
    ensures
        summed(src, l, pairs, zero, weak, dst),
{
    assert forall|j: int| 0 <= j < dst.len() implies folds(
        weak,
        zero,
        terms(src, l, pairs, j, l.count()),
        #[trigger] dst[j],
    ) by {
        lemma_folds_weaken(strong, weak, zero, terms(src, l, pairs, j, l.count()), dst[j]);
    }
}

/// A vector of `n` copies of `x`.
pub fn filled<T: Copy>(x: T, n: usize) -> (r: Vec<T>)
    ensures
        r@.len() == n,
        forall|i: int| 0 <= i < n ==> r@[i] == x,
{
    let mut r: Vec<T> = Vec::new();
    for i in 0..n
        invariant
            r@.len() == i,
            forall|j: int| 0 <= j < i ==> r@[j] == x,
    {
        r.push(x);
    }
    r
}

/// A dimension does not move a place backwards, and does not leave it behind, when it shrinks.
proof fn lemma_shrunk_index(i: nat, dim: nat, stride: nat, outer: nat)
    requires
        dim > 0,
        stride > 0,
    ensures
        shrunk_index(i, dim, stride) <= i,
        i < outer * (dim * stride) ==> shrunk_index(i, dim, stride) < outer * stride,
{
    let (q, r) = (i / stride, i % stride);
    lemma_fundamental_div_mod(i as int, stride as int);
    lemma_div_is_ordered_by_denominator(q as int, 1, dim as int);
    lemma_div_basics(q as int);
    lemma_div_pos_is_pos(i as int, stride as int);
    lemma_div_pos_is_pos(q as int, dim as int);
    let p = q / dim;
    lemma_mul_inequality(p as int, q as int, stride as int);
    lemma_mul_is_commutative(q as int, stride as int);
    if i < outer * (dim * stride) {
        lemma_mul_is_associative(outer as int, dim as int, stride as int);
        lemma_mul_is_commutative((outer * dim) as int, stride as int);
        lemma_multiply_divide_lt(i as int, stride as int, (outer * dim) as int);
        lemma_mul_is_commutative(outer as int, dim as int);
        lemma_multiply_divide_lt(q as int, dim as int, outer as int);
        assert(p * stride + r < outer * stride) by (nonlinear_arith)
            requires
                p + 1 <= outer,
                r < stride,
        ;
    }
}

/// A sum over some dimensions of an array: the shape of the sums, and the extents and row-major
/// strides of the dimensions that shrink to one.
#[derive(Debug)]
pub struct Sum {
    pub dst_shape: Shape,
    pub sum_dims_and_stride: Vec<(usize, usize)>,
}

/// The extents of the sums over the dimensions `sum_dims`.
pub open spec fn reduced_dims(dims: Seq<usize>, sum_dims: Seq<usize>) -> Seq<usize> {
    Seq::new(
        dims.len(),
        |i: int|
            if sum_dims.contains(i as usize) {
                1usize
            } else {
                dims[i]
            },
    )
}

/// The extents and row-major strides of the dimensions `order`.
pub open spec fn sum_pairs(dims: Seq<usize>, order: Seq<usize>) -> Seq<(usize, usize)> {
    Seq::new(
        order.len(),
        |i: int|
            (dims[order[i] as int], shape::row_major_stride(dims, order[i] as int) as usize),
    )
}

impl Sum {
    /// Every place of an array of `count` elements goes to a place of the sums.
    pub open spec fn fits(self, count: nat) -> bool {
        &&& self.dst_shape.wf()
        &&& count > 0 ==> forall|i: int|
            0 <= i < self.sum_dims_and_stride@.len() ==> (
            #[trigger] self.sum_dims_and_stride@[i]).0 > 0 && self.sum_dims_and_stride@[i].1 > 0
        &&& forall|k: nat|
            k < count ==> #[trigger] cell(self.sum_dims_and_stride@, k) < self.dst_shape.count()
    }

    /// The sum over the dimensions `sum_dims` of an array with the extents `dims`. A dimension that is
    /// named twice is shrunk twice.
    pub fn new(dims: &Vec<usize>, sum_dims: &[usize]) -> (r: Sum)
        requires
            shape::span(dims@) <= usize::MAX,
            forall|i: int| 0 <= i < sum_dims@.len() ==> #[trigger] sum_dims@[i] < dims@.len(),
        ensures
            r.dst_shape.dims@ == reduced_dims(dims@, sum_dims@),
            r.sum_dims_and_stride@ == sum_pairs(dims@, sorted(sum_dims@)),
            r.fits(shape::product(dims@)),
    {
        let rank: usize = dims.len();
        let mut dst_dims: Vec<usize> = dims.clone();
        let mut unsorted: Vec<usize> = Vec::new();
        let n: usize = sum_dims.len();
        assert(reduced_dims(dims@, sum_dims@.take(0)) =~= dims@);
        for i in 0..n
            invariant
                n == sum_dims@.len(),
                rank == dims@.len(),
                forall|j: int| 0 <= j < sum_dims@.len() ==> #[trigger] sum_dims@[j] < dims@.len(),
                dst_dims@ == reduced_dims(dims@, sum_dims@.take(i as int)),
                unsorted@ == sum_dims@.take(i as int),
        {
            assert(sum_dims@[i as int] < dims@.len());
            dst_dims.set(sum_dims[i], 1);
            unsorted.push(sum_dims[i]);
            proof {
                assert(sum_dims@.take(i + 1) =~= sum_dims@.take(i as int).push(sum_dims@[i as int]));
                lemma_reduced_dims_push(dims@, sum_dims@.take(i as int), sum_dims@[i as int]);
            }
        }
        assert(sum_dims@.take(n as int) =~= sum_dims@);
        let order: Vec<usize> = sort(&unsorted);
        proof {
            lemma_sorts_contains(sum_dims@, order@);
        }
        let mut pairs: Vec<(usize, usize)> = Vec::new();
        for i in 0..n
            invariant
                n == order@.len(),
                rank == dims@.len(),
                shape::span(dims@) <= usize::MAX,
                forall|j: int| 0 <= j < order@.len() ==> #[trigger] order@[j] < dims@.len(),
                pairs@ == sum_pairs(dims@, order@).take(i as int),
        {
            let d: usize = order[i];
            proof {
                assert(dims@.subrange(d + 1, rank as int) =~= dims@.skip(d + 1));
                shape::lemma_product_of_run_le_span(dims@, d + 1, rank as int);
            }
            pairs.push((dims[d], shape::product_of_run(dims, d + 1, rank)));
            assert(pairs@ =~= sum_pairs(dims@, order@).take(i + 1));
        }
        assert(sum_pairs(dims@, order@).take(n as int) =~= sum_pairs(dims@, order@));
        proof {
            assert(reduced_dims(dims@, sum_dims@) =~= reduced_dims(dims@, order@));
            lemma_reduced_span(dims@, order@);
            assert forall|k: nat| k < shape::product(dims@) implies #[trigger] cell(pairs@, k)
                < shape::product(dst_dims@) by {
                lemma_cell_bound(dims@, order@, order@.len() as int, k);
                assert(order@.take(order@.len() as int) =~= order@);
            }
            if shape::product(dims@) > 0 {
                lemma_pairs_positive(dims@, order@);
            }
        }
        Sum { dst_shape: Shape { dims: dst_dims }, sum_dims_and_stride: pairs }
    }

    /// Sums the elements of an array with `plus`, starting from `zero`.
    pub fn f<T: Copy, F: Fn(T, T) -> T>(
        &self,
        src: &[T],
        src_layout: &Layout,
        zero: T,
        plus: F,
    ) -> (r: Vec<T>)
        requires
            src_layout.wf(),
            src_layout.prefix_within(src_layout.count() as int, src@.len() as int),
            self.fits(src_layout.count()),
            forall|a: T, b: T| call_requires(plus, (a, b)),
        ensures
            r@.len() == self.dst_shape.count(),
            summed(
                src@,
                *src_layout,
                self.sum_dims_and_stride@,
                zero,
                |a: T, b: T, s: T| call_ensures(plus, (a, b), s),
                r@,
            ),
    {
        let mut dst: Vec<T> = filled(zero, self.dst_shape.elem_count());
        let ghost pairs = self.sum_dims_and_stride@;
        let ghost step = |a: T, b: T, s: T| call_ensures(plus, (a, b), s);
        let ghost n = src_layout.count();
        proof {
            shape::lemma_product_le_span(src_layout.shape.dims@);
        }
        let mut it = src_layout.strided_index();
        let mut unstr_index: usize = 0;
        let mut done: bool = false;
        while !done
            invariant
                it.wf(),
                it.layout == src_layout,
                n == src_layout.count(),
                n <= usize::MAX,
                src_layout.prefix_within(n as int, src@.len() as int),
                self.fits(n),
                pairs == self.sum_dims_and_stride@,
                step == (|a: T, b: T, s: T| call_ensures(plus, (a, b), s)),
                forall|a: T, b: T| call_requires(plus, (a, b)),
                it.taken() == unstr_index <= n,
                done ==> unstr_index == n,
                dst@.len() == self.dst_shape.count(),
                forall|j: int|
                    0 <= j < dst@.len() ==> folds(
                        step,
                        zero,
                        terms(src@, *src_layout, pairs, j, unstr_index as nat),
                        #[trigger] dst@[j],
                    ),
            decreases n - unstr_index, !done as int,
        {
            match it.next() {
                Some(src_index) => {
                    let dst_index: usize = self.cell_of(unstr_index);
                    assert(src_index == src_layout.index(unstr_index as int));
                    let x: T = src[src_index];
                    let ghost before = dst@;
                    let s: T = plus(dst[dst_index], x);
                    dst.set(dst_index, s);
                    proof {
                        assert forall|j: int| 0 <= j < dst@.len() implies folds(
                            step,
                            zero,
                            terms(src@, *src_layout, pairs, j, (unstr_index + 1) as nat),
                            #[trigger] dst@[j],
                        ) by {
                            let ts = terms(src@, *src_layout, pairs, j, unstr_index as nat);
                            assert(folds(step, zero, ts, before[j]));
                            if j == dst_index {
                                assert(step(before[j], x, s));
                                lemma_folds_push(step, zero, ts, before[j], x, s);
                            }
                        }
                    }
                    unstr_index = unstr_index + 1;
                },
                None => {
                    done = true;
                },
            }
        }
        dst
    }

    /// The place of the sums to which the place `i` of the array goes.
    fn cell_of(&self, i: usize) -> (r: usize)
        requires
            forall|j: int|
                0 <= j < self.sum_dims_and_stride@.len() ==> (
                #[trigger] self.sum_dims_and_stride@[j]).0 > 0 && self.sum_dims_and_stride@[j].1
                    > 0,
        ensures
            r == cell(self.sum_dims_and_stride@, i as nat),
    {
        let n: usize = self.sum_dims_and_stride.len();
        let mut dst_index: usize = i;
        let ghost pairs = self.sum_dims_and_stride@;
        for j in 0..n
            invariant
                n == pairs.len(),
                pairs == self.sum_dims_and_stride@,
                forall|j: int| 0 <= j < pairs.len() ==> (#[trigger] pairs[j]).0 > 0 && pairs[j].1 > 0,
                dst_index == cell(pairs.take(j as int), i as nat),
        {
            let (dim, stride) = self.sum_dims_and_stride[j];
            let pre: usize = dst_index / stride;
            let post: usize = dst_index % stride;
            proof {
                assert(pairs[j as int] == (dim, stride));
                assert(pairs.take(j + 1).drop_last() =~= pairs.take(j as int));
                lemma_shrunk_index(dst_index as nat, dim as nat, stride as nat, 0);
                lemma_div_pos_is_pos(pre as int, dim as int);
                lemma_mul_nonnegative(pre as int / dim as int, stride as int);
            }
            dst_index = (pre / dim) * stride + post;
        }
        assert(pairs.take(n as int) =~= pairs);
        dst_index
    }
}

/// The same items are in a sequence and in its ascending order.
pub proof fn lemma_sorts_contains(xs: Seq<usize>, ys: Seq<usize>)
    requires
        sorts(xs, ys),
    ensures
        ys.len() == xs.len(),
        forall|x: usize| xs.contains(x) <==> ys.contains(x),
        forall|i: int| 0 <= i < ys.len() ==> xs.contains(#[trigger] ys[i]),
{
    xs.to_multiset_ensures();
    ys.to_multiset_ensures();
    assert forall|x: usize| xs.contains(x) <==> ys.contains(x) by {
        assert(xs.to_multiset().count(x) > 0 <==> xs.contains(x));
        assert(ys.to_multiset().count(x) > 0 <==> ys.contains(x));
    }
    assert forall|i: int| 0 <= i < ys.len() implies xs.contains(#[trigger] ys[i]) by {
        assert(ys.contains(ys[i]));
    }
}

proof fn lemma_reduced_dims_push(dims: Seq<usize>, sum_dims: Seq<usize>, d: usize)
    requires
        d < dims.len() <= usize::MAX,
    ensures
        reduced_dims(dims, sum_dims.push(d)) == reduced_dims(dims, sum_dims).update(d as int, 1),
{
    let s = sum_dims.push(d);
    assert(s.last() == d);
    assert forall|x: usize| s.contains(x) <==> sum_dims.contains(x) || x == d by {
        if sum_dims.contains(x) {
            let i = choose|i: int| 0 <= i < sum_dims.len() && sum_dims[i] == x;
            assert(s[i] == x);
        }
        if x == d {
            assert(s[s.len() - 1] == x);
        }
    }
    assert(reduced_dims(dims, s) =~= reduced_dims(dims, sum_dims).update(d as int, 1));
}

/// Shrinking dimensions does not enlarge the span.
proof fn lemma_reduced_span(dims: Seq<usize>, sum_dims: Seq<usize>)
    ensures
        shape::span(reduced_dims(dims, sum_dims)) <= shape::span(dims),
    decreases dims.len(),
{
    let small = reduced_dims(dims, sum_dims);
    if dims.len() > 0 {
        let (a, b) = (shape::at_least_one(small), shape::at_least_one(dims));
        lemma_reduced_span(dims.drop_last(), sum_dims);
        assert(a.drop_last() =~= shape::at_least_one(
            reduced_dims(dims.drop_last(), sum_dims),
        ));
        assert(b.drop_last() =~= shape::at_least_one(dims.drop_last()));
        lemma_mul_upper_bound(
            shape::product(a.drop_last()) as int,
            shape::product(b.drop_last()) as int,
            a.last() as int,
            b.last() as int,
        );
    } else {
        assert(shape::at_least_one(small) =~= shape::at_least_one(dims));
    }
}

proof fn lemma_pairs_positive(dims: Seq<usize>, order: Seq<usize>)
    requires
        shape::product(dims) > 0,
        shape::span(dims) <= usize::MAX,
        forall|i: int| 0 <= i < order.len() ==> #[trigger] order[i] < dims.len(),
    ensures
        forall|i: int|
            0 <= i < order.len() ==> (#[trigger] sum_pairs(dims, order)[i]).0 > 0 && sum_pairs(
                dims,
                order,
            )[i].1 > 0,
{
    shape::lemma_product_positive(dims);
    assert forall|i: int| 0 <= i < order.len() implies (#[trigger] sum_pairs(dims, order)[i]).0 > 0
        && sum_pairs(dims, order)[i].1 > 0 by {
        let d = order[i] as int;
        assert(dims[d] > 0);
        let rest = dims.skip(d + 1);
        assert forall|j: int| 0 <= j < rest.len() implies #[trigger] rest[j] > 0 by {
            assert(dims[d + 1 + j] > 0);
        }
        shape::lemma_product_ge_one(rest);
        assert(dims.subrange(d + 1, dims.len() as int) =~= rest);
        shape::lemma_product_of_run_le_span(dims, d + 1, dims.len() as int);
    }
}

/// The extents around the dimension `d`.
pub proof fn lemma_product_around(dims: Seq<usize>, d: int)
    requires
        0 <= d < dims.len(),
    ensures
        shape::product(dims) == shape::product(dims.take(d)) * (dims[d] as nat
            * shape::row_major_stride(dims, d)),
{
    assert(dims =~= dims.take(d) + dims.skip(d));
    shape::lemma_product_concat(dims.take(d), dims.skip(d));
    shape::lemma_product_skip(dims, d);
}

/// The first `m` dimensions of `order` take every place of the array to a place of the sums over
/// them.
proof fn lemma_cell_bound(dims: Seq<usize>, order: Seq<usize>, m: int, k: nat)
    requires
        0 <= m <= order.len(),
        ascending(order),
        dims.len() <= usize::MAX,
        forall|i: int| 0 <= i < order.len() ==> #[trigger] order[i] < dims.len(),
        k < shape::product(dims),
        shape::span(dims) <= usize::MAX,
    ensures
        cell(sum_pairs(dims, order).take(m), k) < shape::product(
            reduced_dims(dims, order.take(m)),
        ),
    decreases m,
{
    if m == 0 {
        assert(reduced_dims(dims, order.take(0)) =~= dims);
    } else {
        lemma_cell_bound(dims, order, m - 1, k);
        let pairs = sum_pairs(dims, order).take(m);
        assert(pairs.drop_last() =~= sum_pairs(dims, order).take(m - 1));
        let was = reduced_dims(dims, order.take(m - 1));
        let d = order[m - 1] as int;
        assert(order.take(m) =~= order.take(m - 1).push(order[m - 1]));
        lemma_reduced_dims_push(dims, order.take(m - 1), order[m - 1]);
        let now = was.update(d, 1);
        let i = cell(pairs.drop_last(), k);
        let (dim, stride) = (dims[d] as nat, shape::row_major_stride(dims, d));
        lemma_pairs_positive(dims, order);
        assert(sum_pairs(dims, order)[m - 1].0 > 0);
        assert(dims.subrange(d + 1, dims.len() as int) =~= dims.skip(d + 1));
        shape::lemma_product_of_run_le_span(dims, d + 1, dims.len() as int);
        lemma_shrunk_index(i, dim, stride, shape::product(was.take(d)));
        if order.take(m - 1).contains(order[m - 1]) {
            assert(now =~= was);
        } else {
            let done = order.take(m - 1);
            assert(was.skip(d + 1) =~= dims.skip(d + 1)) by {
                assert forall|j: int| d < j < dims.len() implies was[j] == dims[j] by {
                    if done.contains(j as usize) {
                        let x = choose|x: int| 0 <= x < done.len() && done[x] == j as usize;
                        assert(order[x] <= order[m - 1]);
                    }
                }
            }
            lemma_product_around(was, d);
            lemma_product_around(now, d);
            assert(now.take(d) =~= was.take(d));
            assert(now.skip(d + 1) =~= was.skip(d + 1));
            lemma_mul_basics(stride as int);
        }
    }
}

/// Every sequence has an ascending order.
pub proof fn lemma_sorted(xs: Seq<usize>)
    ensures
        sorts(xs, sorted(xs)),
{
    let leq = |a: usize, b: usize| a <= b;
    let ys = xs.sort_by(leq);
    xs.lemma_sort_by_ensures(leq);
    assert(ascending(ys)) by {
        assert forall|i: int, j: int| 0 <= i <= j < ys.len() implies ys[i] <= ys[j] by {
            if i < j {
                assert(leq(ys[i], ys[j]));
            }
        }
    }
    assert(sorts(xs, ys));
}

/// `coords` with zeros in the dimensions `sum_dims`.
pub open spec fn zeroed(coords: Seq<usize>, sum_dims: Seq<usize>) -> Seq<usize> {
    Seq::new(
        coords.len(),
        |i: int|
            if sum_dims.contains(i as usize) {
                0usize
            } else {
                coords[i]
            },
    )
}

proof fn lemma_zeroed_push(coords: Seq<usize>, sum_dims: Seq<usize>, d: usize)
    requires
        d < coords.len() <= usize::MAX,
    ensures
        zeroed(coords, sum_dims.push(d)) == zeroed(coords, sum_dims).update(d as int, 0),
{
    let s = sum_dims.push(d);
    assert forall|x: usize| s.contains(x) <==> sum_dims.contains(x) || x == d by {
        if sum_dims.contains(x) {
            let i = choose|i: int| 0 <= i < sum_dims.len() && sum_dims[i] == x;
            assert(s[i] == x);
        }
        if x == d {
            assert(s[s.len() - 1] == x);
        }
    }
    assert(zeroed(coords, s) =~= zeroed(coords, sum_dims).update(d as int, 0));
}

proof fn lemma_zeroed_valid(dims: Seq<usize>, sum_dims: Seq<usize>, coords: Seq<usize>)
    requires
        layout::valid_coords(dims, coords),
    ensures
        layout::valid_coords(reduced_dims(dims, sum_dims), zeroed(coords, sum_dims)),
{
    let (r, z) = (reduced_dims(dims, sum_dims), zeroed(coords, sum_dims));
    assert forall|i: int| 0 <= i < r.len() implies #[trigger] z[i] < r[i] by {
        assert(coords[i] < dims[i]);
    }
}

/// The place of an element when the dimension `d` shrinks to one.
proof fn lemma_shrunk_position(dims: Seq<usize>, coords: Seq<usize>, d: int)
    requires
        0 <= d < dims.len(),
        layout::valid_coords(dims, coords),
    ensures
        shrunk_index(
            layout::position(dims, coords),
            dims[d] as nat,
            shape::row_major_stride(dims, d),
        ) == layout::position(dims.update(d, 1), coords.update(d, 0)),
{
    let (now, zero) = (dims.update(d, 1), coords.update(d, 0));
    let (dim, stride) = (dims[d] as nat, shape::row_major_stride(dims, d));
    let outer = layout::position(dims.take(d), coords.take(d));
    let inner = layout::position(dims.skip(d + 1), coords.skip(d + 1));
    let c = coords[d] as nat;
    lemma_split_at(dims, coords, d);
    lemma_split_at(now, zero, d);
    assert(now.take(d) =~= dims.take(d));
    assert(zero.take(d) =~= coords.take(d));
    assert(now.skip(d + 1) =~= dims.skip(d + 1));
    assert(zero.skip(d + 1) =~= coords.skip(d + 1));
    assert forall|i: int| 0 <= i < dims.skip(d + 1).len() implies #[trigger] coords.skip(d + 1)[i]
        < dims.skip(d + 1)[i] by {
        assert(coords[d + 1 + i] < dims[d + 1 + i]);
    }
    layout::lemma_position_bound(dims.skip(d + 1), coords.skip(d + 1));
    let i = layout::position(dims, coords) as int;
    assert(i == (outer * dim + c) * stride + inner) by (nonlinear_arith)
        requires
            i == outer * (dim * stride) + (c * stride + inner),
    ;
    lemma_fundamental_div_mod_converse(i, stride as int, (outer * dim + c) as int, inner as int);
    lemma_fundamental_div_mod_converse(
        (outer * dim + c) as int,
        dim as int,
        outer as int,
        c as int,
    );
    lemma_mul_basics(stride as int);
}

/// The place of an element, seen from dimension `d`.
pub proof fn lemma_split_at(dims: Seq<usize>, coords: Seq<usize>, d: int)
    requires
        0 <= d < dims.len(),
        coords.len() == dims.len(),
    ensures
        layout::position(dims, coords) == layout::position(dims.take(d), coords.take(d)) * (
        dims[d] as nat * shape::row_major_stride(dims, d)) + (coords[d] as nat
            * shape::row_major_stride(dims, d) + layout::position(
            dims.skip(d + 1),
            coords.skip(d + 1),
        )),
{
    layout::lemma_position_split(dims, coords, d);
    let (e, c) = (dims.skip(d), coords.skip(d));
    layout::lemma_position_split(e, c, 1);
    shape::lemma_product_skip(dims, d);
    assert(e.skip(1) =~= dims.skip(d + 1));
    assert(c.skip(1) =~= coords.skip(d + 1));
    assert(e.take(1).drop_last().len() == 0);
    assert(layout::position(e.take(1).drop_last(), c.take(1).drop_last()) == 0);
    assert(e.take(1).last() == dims[d]);
    assert(c.take(1).last() == coords[d]);
    lemma_mul_basics(dims[d] as int);
    assert(layout::position(e.take(1), c.take(1)) == coords[d]);
}

/// The first `m` dimensions of `order` shrink to one.
proof fn lemma_cell_prefix(dims: Seq<usize>, order: Seq<usize>, m: int, coords: Seq<usize>)
    requires
        0 <= m <= order.len(),
        ascending(order),
        order.no_duplicates(),
        dims.len() <= usize::MAX,
        forall|i: int| 0 <= i < order.len() ==> #[trigger] order[i] < dims.len(),
        shape::span(dims) <= usize::MAX,
        layout::valid_coords(dims, coords),
    ensures
        cell(sum_pairs(dims, order).take(m), layout::position(dims, coords)) == layout::position(
            reduced_dims(dims, order.take(m)),
            zeroed(coords, order.take(m)),
        ),
    decreases m,
{
    if m == 0 {
        assert(reduced_dims(dims, order.take(0)) =~= dims);
        assert(zeroed(coords, order.take(0)) =~= coords);
    } else {
        lemma_cell_prefix(dims, order, m - 1, coords);
        let pairs = sum_pairs(dims, order).take(m);
        assert(pairs.drop_last() =~= sum_pairs(dims, order).take(m - 1));
        let done = order.take(m - 1);
        let (was, at) = (reduced_dims(dims, done), zeroed(coords, done));
        let d = order[m - 1] as int;
        assert(order.take(m) =~= done.push(order[m - 1]));
        lemma_reduced_dims_push(dims, done, order[m - 1]);
        lemma_zeroed_push(coords, done, order[m - 1]);
        lemma_zeroed_valid(dims, done, coords);
        assert forall|j: int| d <= j < dims.len() implies was[j] == dims[j] by {
            if done.contains(j as usize) {
                let x = choose|x: int| 0 <= x < done.len() && done[x] == j as usize;
                assert(order[x] <= order[m - 1]);
                assert(order[x] != order[m - 1]);
            }
        }
        assert(was.skip(d + 1) =~= dims.skip(d + 1));
        assert(dims.subrange(d + 1, dims.len() as int) =~= dims.skip(d + 1));
        shape::lemma_product_of_run_le_span(dims, d + 1, dims.len() as int);
        lemma_shrunk_position(was, at, d);
    }
}

/// The sum over some dimensions, none named twice, puts the element with the coordinates `coords` in
/// the place of the sums with these coordinates, but zero in the dimensions summed over.
pub proof fn lemma_cell_of_coords(l: Layout, sum_dims: Seq<usize>, coords: Seq<usize>)
    requires
        l.wf(),
        forall|i: int| 0 <= i < sum_dims.len() ==> #[trigger] sum_dims[i] < l.shape.dims@.len(),
        sum_dims.no_duplicates(),
        layout::valid_coords(l.shape.dims@, coords),
    ensures
        layout::valid_coords(reduced_dims(l.shape.dims@, sum_dims), zeroed(coords, sum_dims)),
        cell(
            sum_pairs(l.shape.dims@, sorted(sum_dims)),
            layout::position(l.shape.dims@, coords),
        ) == layout::position(reduced_dims(l.shape.dims@, sum_dims), zeroed(coords, sum_dims)),
{
    let dims = l.shape.dims@;
    assert(dims.len() == l.shape.dims.len());
    let order = sorted(sum_dims);
    lemma_sorted(sum_dims);
    lemma_sorts_contains(sum_dims, order);
    assert(order.no_duplicates()) by {
        sum_dims.lemma_multiset_has_no_duplicates();
        order.lemma_multiset_has_no_duplicates_conv();
    }
    lemma_cell_prefix(dims, order, order.len() as int, coords);
    assert(sum_pairs(dims, order).take(order.len() as int) =~= sum_pairs(dims, order));
    assert(order.take(order.len() as int) =~= order);
    assert(reduced_dims(dims, order) =~= reduced_dims(dims, sum_dims));
    assert(zeroed(coords, order) =~= zeroed(coords, sum_dims));
    lemma_zeroed_valid(dims, sum_dims, coords);
}

/// The sum with the coordinates `c` is made up of the elements with these coordinates in the
/// dimensions that are not summed over.
pub proof fn lemma_terms_of_sum(l: Layout, sum_dims: Seq<usize>, c: Seq<usize>, k: nat)
    requires
        l.wf(),
        forall|i: int| 0 <= i < sum_dims.len() ==> #[trigger] sum_dims[i] < l.shape.dims@.len(),
        sum_dims.no_duplicates(),
        layout::valid_coords(reduced_dims(l.shape.dims@, sum_dims), c),
        k < l.count(),
    ensures
        cell(sum_pairs(l.shape.dims@, sorted(sum_dims)), k) == layout::position(
            reduced_dims(l.shape.dims@, sum_dims),
            c,
        ) <==> zeroed(layout::coords_of(l.shape.dims@, k), sum_dims) == c,
{
    let coords = layout::coords_of(l.shape.dims@, k);
    let (small, z) = (reduced_dims(l.shape.dims@, sum_dims), zeroed(coords, sum_dims));
    layout::lemma_coords_of(l.shape.dims@, k);
    lemma_cell_of_coords(l, sum_dims, coords);
    if layout::position(small, z) == layout::position(small, c) {
        layout::lemma_position_injective(small, z, c);
    }
}

/// Two elements are added to the same sum exactly if their coordinates agree in every dimension that
/// is not summed over.
pub proof fn lemma_same_cell(l: Layout, sum_dims: Seq<usize>, a: Seq<usize>, b: Seq<usize>)
    requires
        l.wf(),
        forall|i: int| 0 <= i < sum_dims.len() ==> #[trigger] sum_dims[i] < l.shape.dims@.len(),
        sum_dims.no_duplicates(),
        layout::valid_coords(l.shape.dims@, a),
        layout::valid_coords(l.shape.dims@, b),
    ensures
        cell(sum_pairs(l.shape.dims@, sorted(sum_dims)), layout::position(l.shape.dims@, a)) == cell(
            sum_pairs(l.shape.dims@, sorted(sum_dims)),
            layout::position(l.shape.dims@, b),
        ) <==> (forall|i: int|
            0 <= i < l.shape.dims@.len() && !sum_dims.contains(i as usize) ==> #[trigger] a[i] == b[i]),
{
    let dims = l.shape.dims@;
    lemma_cell_of_coords(l, sum_dims, a);
    lemma_cell_of_coords(l, sum_dims, b);
    let (za, zb, small) = (zeroed(a, sum_dims), zeroed(b, sum_dims), reduced_dims(dims, sum_dims));
    if layout::position(small, za) == layout::position(small, zb) {
        layout::lemma_position_injective(small, za, zb);
        assert forall|i: int|
            0 <= i < dims.len() && !sum_dims.contains(i as usize) implies #[trigger] a[i] == b[i] by {
            assert(za[i] == zb[i]);
        }
    }
    if forall|i: int|
        0 <= i < dims.len() && !sum_dims.contains(i as usize) ==> #[trigger] a[i] == b[i] {
        assert forall|i: int| 0 <= i < dims.len() implies za[i] == zb[i] by {
            if !sum_dims.contains(i as usize) {
                assert(a[i] == b[i]);
            }
        }
        assert(za =~= zb);
    }
}

/// The order in which the dimensions are named does not matter for a sum.
pub proof fn lemma_sum_order(dims: Seq<usize>, a: Seq<usize>, b: Seq<usize>)
    requires
        a.to_multiset() == b.to_multiset(),
    ensures
        reduced_dims(dims, a) == reduced_dims(dims, b),
        sum_pairs(dims, sorted(a)) == sum_pairs(dims, sorted(b)),
{
    lemma_sorted(a);
    lemma_sorted(b);
    lemma_sorts_unique(sorted(a), sorted(b));
    lemma_sorts_contains(a, sorted(a));
    lemma_sorts_contains(b, sorted(b));
    assert(reduced_dims(dims, a) =~= reduced_dims(dims, b));
}

/// The sum of numbers.
pub open spec fn total(xs: Seq<u32>) -> nat
    decreases xs.len(),
{
    if xs.len() == 0 {
        0
    } else {
        total(xs.drop_last()) + xs.last() as nat
    }
}

/// A sum of `u32` numbers is their total modulo 2^32.
pub proof fn lemma_u32_sum(xs: Seq<u32>, r: u32)
    requires
        folds(|a: u32, b: u32, s: u32| s == numbers::wrap_u32(a + b), 0, xs, r),
    ensures
        r == numbers::wrap_u32(total(xs) as int),
    decreases xs.len(),
{
    if xs.len() > 0 {
        let step = |a: u32, b: u32, s: u32| s == numbers::wrap_u32(a + b);
        let p = choose|p: u32|
            folds(step, 0, xs.drop_last(), p) && #[trigger] step(p, xs.last(), r);
        lemma_u32_sum(xs.drop_last(), p);
        lemma_add_mod_noop_right(
            xs.last() as int,
            total(xs.drop_last()) as int,
            0x1_0000_0000,
        );
    }
}

/// The first `n` elements of an array in row-major order.
pub open spec fn elements<T>(src: Seq<T>, l: Layout, n: nat) -> Seq<T> {
    Seq::new(n, |k: int| elementwise::element(src, l, k))
}

/// The sum of the totals of the first `m` places of the sums over the first `n` elements.
pub open spec fn grand_total(
    src: Seq<u32>,
    l: Layout,
    pairs: Seq<(usize, usize)>,
    m: nat,
    n: nat,
) -> nat
    decreases m,
{
    if m == 0 {
        0
    } else {
        grand_total(src, l, pairs, (m - 1) as nat, n) + total(
            terms(src, l, pairs, m - 1, n),
        )
    }
}

/// One more element adds to the place that it goes to.
proof fn lemma_grand_total_step(
    src: Seq<u32>,
    l: Layout,
    pairs: Seq<(usize, usize)>,
    m: nat,
    n: nat,
)
    requires
        n > 0,
    ensures
        grand_total(src, l, pairs, m, n) == grand_total(src, l, pairs, m, (n - 1) as nat) + if cell(
            pairs,
            (n - 1) as nat,
        ) < m {
            elementwise::element(src, l, n - 1) as nat
        } else {
            0
        },
    decreases m,
{
    if m > 0 {
        lemma_grand_total_step(src, l, pairs, (m - 1) as nat, n);
        let before = terms(src, l, pairs, m - 1, (n - 1) as nat);
        let x = elementwise::element(src, l, n - 1);
        assert(before.push(x).drop_last() =~= before);
    }
}

/// Every element goes to exactly one of the sums: their totals make up the total of the array.
pub proof fn lemma_grand_total(
    src: Seq<u32>,
    l: Layout,
    pairs: Seq<(usize, usize)>,
    m: nat,
    n: nat,
)
    requires
        forall|k: nat| k < n ==> #[trigger] cell(pairs, k) < m,
    ensures
        grand_total(src, l, pairs, m, n) == total(elements(src, l, n)),
    decreases n,
{
    if n > 0 {
        lemma_grand_total(src, l, pairs, m, (n - 1) as nat);
        lemma_grand_total_step(src, l, pairs, m, n);
        assert(cell(pairs, (n - 1) as nat) < m);
        assert(elements(src, l, n).drop_last() =~= elements(src, l, (n - 1) as nat));
    } else {
        lemma_grand_total_zero(src, l, pairs, m);
    }
}

proof fn lemma_grand_total_zero(src: Seq<u32>, l: Layout, pairs: Seq<(usize, usize)>, m: nat)
    ensures
        grand_total(src, l, pairs, m, 0) == 0,
    decreases m,
{
    if m > 0 {
        lemma_grand_total_zero(src, l, pairs, (m - 1) as nat);
    }
}

/// The sums of an array of `u32` numbers add up, modulo 2^32, to the total of the array.
pub proof fn lemma_u32_sums_add_up(
    src: Seq<u32>,
    l: Layout,
    sum_dims: Seq<usize>,
    dst: Seq<u32>,
)
    requires
        l.wf(),
        forall|i: int| 0 <= i < sum_dims.len() ==> #[trigger] sum_dims[i] < l.shape.dims@.len(),
        dst.len() == shape::product(reduced_dims(l.shape.dims@, sum_dims)),
        summed(
            src,
            l,
            sum_pairs(l.shape.dims@, sorted(sum_dims)),
            0,
            |a: u32, b: u32, r: u32| r == numbers::wrap_u32(a + b),
            dst,
        ),
    ensures
        numbers::wrap_u32(total(dst) as int) == numbers::wrap_u32(
            total(elements(src, l, l.count())) as int,
        ),
{
    let dims = l.shape.dims@;
    let order = sorted(sum_dims);
    let pairs = sum_pairs(dims, order);
    lemma_sorted(sum_dims);
    lemma_sorts_contains(sum_dims, order);
    assert(dims.len() == l.shape.dims.len());
    assert(reduced_dims(dims, sum_dims) =~= reduced_dims(dims, order));
    assert forall|k: nat| k < l.count() implies #[trigger] cell(pairs, k) < dst.len() by {
        lemma_cell_bound(dims, order, order.len() as int, k);
        assert(order.take(order.len() as int) =~= order);
        assert(pairs.take(order.len() as int) =~= pairs);
    }
    lemma_grand_total(src, l, pairs, dst.len(), l.count());
    lemma_wrapped_totals(src, l, pairs, dst, dst.len());
    assert(dst.take(dst.len() as int) =~= dst);
}

proof fn lemma_wrapped_totals(
    src: Seq<u32>,
    l: Layout,
    pairs: Seq<(usize, usize)>,
    dst: Seq<u32>,
    m: nat,
)
    requires
        m <= dst.len(),
        summed(
            src,
            l,
            pairs,
            0,
            |a: u32, b: u32, r: u32| r == numbers::wrap_u32(a + b),
            dst,
        ),
    ensures
        total(dst.take(m as int)) as int % 0x1_0000_0000 == grand_total(src, l, pairs, m, l.count())
            as int % 0x1_0000_0000,
    decreases m,
{
    if m > 0 {
        lemma_wrapped_totals(src, l, pairs, dst, (m - 1) as nat);
        let ts = terms(src, l, pairs, m - 1, l.count());
        assert(folds(
            |a: u32, b: u32, r: u32| r == numbers::wrap_u32(a + b),
            0,
            ts,
            dst[m - 1],
        ));
        lemma_u32_sum(ts, dst[m - 1]);
        assert(dst.take(m as int).drop_last() =~= dst.take(m - 1));
        let (a, b) = (total(dst.take(m - 1)) as int, dst[m - 1] as int);
        let (c, d) = (grand_total(src, l, pairs, (m - 1) as nat, l.count()) as int, total(ts) as int);
        lemma_add_mod_noop(a, b, 0x1_0000_0000);
        lemma_add_mod_noop(c, d, 0x1_0000_0000);
        lemma_mod_twice(d, 0x1_0000_0000);
    }
}

/// Every sequence of `u32` numbers has one sum.
proof fn lemma_u32_sum_exists(xs: Seq<u32>)
    ensures
        folds(
            |a: u32, b: u32, s: u32| s == numbers::wrap_u32(a + b),
            0,
            xs,
            numbers::wrap_u32(total(xs) as int),
        ),
    decreases xs.len(),
{
    if xs.len() > 0 {
        let step = |a: u32, b: u32, s: u32| s == numbers::wrap_u32(a + b);
        let p = numbers::wrap_u32(total(xs.drop_last()) as int);
        lemma_u32_sum_exists(xs.drop_last());
        lemma_add_mod_noop_right(xs.last() as int, total(xs.drop_last()) as int, 0x1_0000_0000);
        assert(step(p, xs.last(), numbers::wrap_u32(total(xs) as int)));
    }
}

/// The sum of the totals of those of the first `m` places that go on to the place `j`.
spec fn gathered(
    src: Seq<u32>,
    l: Layout,
    first: Seq<(usize, usize)>,
    second: Seq<(usize, usize)>,
    j: int,
    m: nat,
    n: nat,
) -> nat
    decreases m,
{
    if m == 0 {
        0
    } else {
        gathered(src, l, first, second, j, (m - 1) as nat, n) + if cell(second, (m - 1) as nat) == j {
            total(terms(src, l, first, m - 1, n))
        } else {
            0
        }
    }
}

proof fn lemma_gathered_zero(
    src: Seq<u32>,
    l: Layout,
    first: Seq<(usize, usize)>,
    second: Seq<(usize, usize)>,
    j: int,
    m: nat,
)
    ensures
        gathered(src, l, first, second, j, m, 0) == 0,
    decreases m,
{
    if m > 0 {
        lemma_gathered_zero(src, l, first, second, j, (m - 1) as nat);
    }
}

proof fn lemma_gathered_step(
    src: Seq<u32>,
    l: Layout,
    first: Seq<(usize, usize)>,
    second: Seq<(usize, usize)>,
    j: int,
    m: nat,
    n: nat,
)
    requires
        n > 0,
    ensures
        gathered(src, l, first, second, j, m, n) == gathered(
            src,
            l,
            first,
            second,
            j,
            m,
            (n - 1) as nat,
        ) + if cell(first, (n - 1) as nat) < m && cell(second, cell(first, (n - 1) as nat)) == j {
            elementwise::element(src, l, n - 1) as nat
        } else {
            0
        },
    decreases m,
{
    if m > 0 {
        lemma_gathered_step(src, l, first, second, j, (m - 1) as nat, n);
        let before = terms(src, l, first, m - 1, (n - 1) as nat);
        let x = elementwise::element(src, l, n - 1);
        assert(before.push(x).drop_last() =~= before);
    }
}

/// To go on from place to place is to go there at once.
proof fn lemma_gathered(
    src: Seq<u32>,
    l: Layout,
    first: Seq<(usize, usize)>,
    second: Seq<(usize, usize)>,
    both: Seq<(usize, usize)>,
    j: int,
    m: nat,
    n: nat,
)
    requires
        forall|k: nat| k < n ==> #[trigger] cell(first, k) < m,
        forall|k: nat| k < n ==> #[trigger] cell(both, k) == cell(second, cell(first, k)),
    ensures
        gathered(src, l, first, second, j, m, n) == total(terms(src, l, both, j, n)),
    decreases n,
{
    if n == 0 {
        lemma_gathered_zero(src, l, first, second, j, m);
    } else {
        lemma_gathered(src, l, first, second, both, j, m, (n - 1) as nat);
        lemma_gathered_step(src, l, first, second, j, m, n);
        assert(cell(first, (n - 1) as nat) < m);
        assert(cell(both, (n - 1) as nat) == cell(second, cell(first, (n - 1) as nat)));
        let before = terms(src, l, both, j, (n - 1) as nat);
        let x = elementwise::element(src, l, n - 1);
        assert(before.push(x).drop_last() =~= before);
    }
}

/// The sums over the sums, before the last reduction modulo 2^32.
proof fn lemma_wrapped_gathered(
    src: Seq<u32>,
    l: Layout,
    first: Seq<(usize, usize)>,
    mid: Seq<u32>,
    mid_l: Layout,
    second: Seq<(usize, usize)>,
    j: int,
    m: nat,
)
    requires
        m <= mid.len(),
        summed(
            src,
            l,
            first,
            0,
            |a: u32, b: u32, r: u32| r == numbers::wrap_u32(a + b),
            mid,
        ),
        forall|k: int| 0 <= k < m ==> #[trigger] mid_l.index(k) == k,
    ensures
        total(terms(mid, mid_l, second, j, m)) as int % 0x1_0000_0000 == gathered(
            src,
            l,
            first,
            second,
            j,
            m,
            l.count(),
        ) as int % 0x1_0000_0000,
    decreases m,
{
    if m > 0 {
        lemma_wrapped_gathered(src, l, first, mid, mid_l, second, j, (m - 1) as nat);
        let ts = terms(src, l, first, m - 1, l.count());
        let before = terms(mid, mid_l, second, j, (m - 1) as nat);
        assert(mid_l.index(m - 1) == m - 1);
        assert(folds(
            |a: u32, b: u32, r: u32| r == numbers::wrap_u32(a + b),
            0,
            ts,
            mid[m - 1],
        ));
        lemma_u32_sum(ts, mid[m - 1]);
        assert(before.push(mid[m - 1]).drop_last() =~= before);
        let g = gathered(src, l, first, second, j, (m - 1) as nat, l.count()) as int;
        lemma_add_mod_noop(total(before) as int, mid[m - 1] as int, 0x1_0000_0000);
        lemma_add_mod_noop(g, total(ts) as int, 0x1_0000_0000);
        lemma_mod_twice(total(ts) as int, 0x1_0000_0000);
    }
}

proof fn lemma_contains_either(a: Seq<usize>, b: Seq<usize>)
    ensures
        forall|x: usize| (a + b).contains(x) <==> a.contains(x) || b.contains(x),
{
    let ab = a + b;
    assert forall|x: usize| ab.contains(x) <==> a.contains(x) || b.contains(x) by {
        if a.contains(x) {
            let i = choose|i: int| 0 <= i < a.len() && a[i] == x;
            assert(ab[i] == x);
        }
        if b.contains(x) {
            let i = choose|i: int| 0 <= i < b.len() && b[i] == x;
            assert(ab[a.len() + i] == x);
        }
        if ab.contains(x) {
            let i = choose|i: int| 0 <= i < ab.len() && ab[i] == x;
            if i < a.len() {
                assert(a[i] == x);
            } else {
                assert(b[i - a.len()] == x);
            }
        }
    }
}

/// Shrinking some dimensions and then others is shrinking all of them.
proof fn lemma_shrink_again(l: Layout, mid_l: Layout, a: Seq<usize>, b: Seq<usize>, k: nat)
    requires
        l.wf(),
        mid_l.wf(),
        mid_l.shape.dims@ == reduced_dims(l.shape.dims@, a),
        forall|i: int| 0 <= i < a.len() ==> #[trigger] a[i] < l.shape.dims@.len(),
        forall|i: int| 0 <= i < b.len() ==> #[trigger] b[i] < l.shape.dims@.len(),
        (a + b).no_duplicates(),
        k < l.count(),
    ensures
        cell(sum_pairs(l.shape.dims@, sorted(a)), k) < mid_l.count(),
        cell(sum_pairs(l.shape.dims@, sorted(a + b)), k) == cell(
            sum_pairs(mid_l.shape.dims@, sorted(b)),
            cell(sum_pairs(l.shape.dims@, sorted(a)), k),
        ),
{
    let (dims, small, ab) = (l.shape.dims@, mid_l.shape.dims@, a + b);
    assert forall|i: int| 0 <= i < ab.len() implies #[trigger] ab[i] < dims.len() by {
        if i < a.len() {
            assert(ab[i] == a[i]);
        } else {
            assert(ab[i] == b[i - a.len()]);
        }
    }
    assert(a.no_duplicates()) by {
        assert forall|i: int, j: int| 0 <= i < a.len() && 0 <= j < a.len() && i != j implies a[i]
            != a[j] by {
            assert(ab[i] == a[i] && ab[j] == a[j]);
        }
    }
    assert(b.no_duplicates()) by {
        assert forall|i: int, j: int| 0 <= i < b.len() && 0 <= j < b.len() && i != j implies b[i]
            != b[j] by {
            assert(ab[a.len() + i] == b[i] && ab[a.len() + j] == b[j]);
        }
    }
    lemma_contains_either(a, b);
    let coords = layout::coords_of(dims, k);
    layout::lemma_coords_of(dims, k);
    lemma_cell_of_coords(l, a, coords);
    lemma_cell_of_coords(l, ab, coords);
    layout::lemma_position_bound(small, zeroed(coords, a));
    lemma_cell_of_coords(mid_l, b, zeroed(coords, a));
    assert(reduced_dims(small, b) =~= reduced_dims(dims, ab));
    assert(zeroed(zeroed(coords, a), b) =~= zeroed(coords, ab));
}

/// To sum an array of `u32` numbers over some dimensions, and the sums over others, is to sum it over
/// all of them.
pub proof fn lemma_sum_of_sums(
    src: Seq<u32>,
    l: Layout,
    a: Seq<usize>,
    mid: Seq<u32>,
    mid_l: Layout,
    b: Seq<usize>,
    out: Seq<u32>,
)
    requires
        l.wf(),
        forall|i: int| 0 <= i < a.len() ==> #[trigger] a[i] < l.shape.dims@.len(),
        forall|i: int| 0 <= i < b.len() ==> #[trigger] b[i] < l.shape.dims@.len(),
        (a + b).no_duplicates(),
        mid.len() == shape::product(reduced_dims(l.shape.dims@, a)),
        summed(
            src,
            l,
            sum_pairs(l.shape.dims@, sorted(a)),
            0,
            |x: u32, y: u32, r: u32| r == numbers::wrap_u32(x + y),
            mid,
        ),
        mid_l.wf(),
        mid_l.contiguous(),
        mid_l.start_offset == 0,
        mid_l.shape.dims@ == reduced_dims(l.shape.dims@, a),
        summed(
            mid,
            mid_l,
            sum_pairs(mid_l.shape.dims@, sorted(b)),
            0,
            |x: u32, y: u32, r: u32| r == numbers::wrap_u32(x + y),
            out,
        ),
    ensures
        reduced_dims(mid_l.shape.dims@, b) == reduced_dims(l.shape.dims@, a + b),
        summed(
            src,
            l,
            sum_pairs(l.shape.dims@, sorted(a + b)),
            0,
            |x: u32, y: u32, r: u32| r == numbers::wrap_u32(x + y),
            out,
        ),
{
    let step = |x: u32, y: u32, r: u32| r == numbers::wrap_u32(x + y);
    let dims = l.shape.dims@;
    let first = sum_pairs(dims, sorted(a));
    let second = sum_pairs(mid_l.shape.dims@, sorted(b));
    let both = sum_pairs(dims, sorted(a + b));
    let (n, m) = (l.count(), mid.len());
    layout::lemma_contiguous_end(mid_l);
    lemma_contains_either(a, b);
    assert(reduced_dims(mid_l.shape.dims@, b) =~= reduced_dims(dims, a + b));
    assert forall|k: nat| k < n implies #[trigger] cell(first, k) < m by {
        lemma_shrink_again(l, mid_l, a, b, k);
    }
    assert forall|k: nat| k < n implies #[trigger] cell(both, k) == cell(
        second,
        cell(first, k),
    ) by {
        lemma_shrink_again(l, mid_l, a, b, k);
    }
    assert forall|j: int| 0 <= j < out.len() implies folds(
        step,
        0,
        terms(src, l, both, j, n),
        #[trigger] out[j],
    ) by {
        let ts = terms(mid, mid_l, second, j, m);
        assert(folds(step, 0, ts, out[j]));
        lemma_u32_sum(ts, out[j]);
        lemma_wrapped_gathered(src, l, first, mid, mid_l, second, j, m);
        lemma_gathered(src, l, first, second, both, j, m, n);
        lemma_u32_sum_exists(terms(src, l, both, j, n));
    }
}

/// A fold whose step is a function, up to what `view` tells apart, has one result.
pub proof fn lemma_folds_unique<A, T, V>(
    step: spec_fn(A, T, A) -> bool,
    view: spec_fn(A) -> V,
    init: A,
    xs: Seq<T>,
    r: A,
    s: A,
)
    requires
        folds(step, init, xs, r),
        folds(step, init, xs, s),
        forall|a: A, b: A, x: T, c: A, d: A|
            view(a) == view(b) && #[trigger] step(a, x, c) && #[trigger] step(b, x, d) ==> view(c)
                == view(d),
    ensures
        view(r) == view(s),
    decreases xs.len(),
{
    if xs.len() > 0 {
        let p = choose|p: A|
            folds(step, init, xs.drop_last(), p) && #[trigger] step(p, xs.last(), r);
        let q = choose|q: A|
            folds(step, init, xs.drop_last(), q) && #[trigger] step(q, xs.last(), s);
        lemma_folds_unique(step, view, init, xs.drop_last(), p, q);
    }
}

/// Sums whose addition is a function, up to what `view` tells apart, have one result.
pub proof fn lemma_summed_unique<T, V>(
    src: Seq<T>,
    l: Layout,
    pairs: Seq<(usize, usize)>,
    zero: T,
    plus: spec_fn(T, T, T) -> bool,
    view: spec_fn(T) -> V,
    r: Seq<T>,
    s: Seq<T>,
)
    requires
        summed(src, l, pairs, zero, plus, r),
        summed(src, l, pairs, zero, plus, s),
        r.len() == s.len(),
        forall|a: T, b: T, x: T, c: T, d: T|
            view(a) == view(b) && #[trigger] plus(a, x, c) && #[trigger] plus(b, x, d) ==> view(c)
                == view(d),
    ensures
        forall|j: int| 0 <= j < r.len() ==> view(#[trigger] r[j]) == view(s[j]),
{
    assert forall|j: int| 0 <= j < r.len() implies view(#[trigger] r[j]) == view(s[j]) by {
        let ts = terms(src, l, pairs, j, l.count());
        assert(folds(plus, zero, ts, r[j]));
        assert(folds(plus, zero, ts, s[j]));
        lemma_folds_unique(plus, view, zero, ts, r[j], s[j]);
    }
}

/// Every intermediate result of a fold is one of `ok`.
pub open spec fn folds_within<A, T>(
    step: spec_fn(A, T, A) -> bool,
    init: A,
    xs: Seq<T>,
    ok: spec_fn(A) -> bool,
) -> bool {
    forall|n: int, r: A|
        0 <= n <= xs.len() && #[trigger] folds(step, init, xs.take(n), r) ==> ok(r)
}

/// A relation between two sequences that each step of a fold keeps, as long as its results are `ok`,
/// holds between the results.
pub proof fn lemma_folds_related<A, T>(
    step: spec_fn(A, T, A) -> bool,
    init: A,
    xs: Seq<T>,
    ys: Seq<T>,
    r: A,
    s: A,
    ok: spec_fn(A) -> bool,
    rel: spec_fn(A, A) -> bool,
    items: spec_fn(T, T) -> bool,
)
    requires
        folds(step, init, xs, r),
        folds(step, init, ys, s),
        xs.len() == ys.len(),
        forall|i: int| 0 <= i < xs.len() ==> items(#[trigger] xs[i], ys[i]),
        folds_within(step, init, xs, ok),
        folds_within(step, init, ys, ok),
        rel(init, init),
        forall|a: A, b: A, x: T, y: T, c: A, d: A|
            rel(a, b) && items(x, y) && #[trigger] step(a, x, c) && #[trigger] step(b, y, d) && ok(c)
                && ok(d) ==> rel(c, d),
    ensures
        rel(r, s),
    decreases xs.len(),
{
    let n = xs.len() as int;
    if n > 0 {
        let (x, y) = (xs.drop_last(), ys.drop_last());
        let p = choose|p: A| folds(step, init, x, p) && #[trigger] step(p, xs.last(), r);
        let q = choose|q: A| folds(step, init, y, q) && #[trigger] step(q, ys.last(), s);
        assert forall|m: int, t: A|
            0 <= m <= x.len() && #[trigger] folds(step, init, x.take(m), t) implies ok(t) by {
            assert(x.take(m) =~= xs.take(m));
            assert(folds(step, init, xs.take(m), t));
        }
        assert forall|m: int, t: A|
            0 <= m <= y.len() && #[trigger] folds(step, init, y.take(m), t) implies ok(t) by {
            assert(y.take(m) =~= ys.take(m));
            assert(folds(step, init, ys.take(m), t));
        }
        assert forall|i: int| 0 <= i < x.len() implies items(#[trigger] x[i], y[i]) by {
            assert(items(xs[i], ys[i]));
        }
        lemma_folds_related(step, init, x, y, p, q, ok, rel, items);
        assert(xs.take(n) =~= xs && ys.take(n) =~= ys);
        assert(folds(step, init, xs.take(n), r) && folds(step, init, ys.take(n), s));
        assert(items(xs[n - 1], ys[n - 1]));
    }
}

} // verus!
