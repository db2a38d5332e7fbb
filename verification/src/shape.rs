//! Shapes: the extents of an array, and the products that count its elements.
use vstd::arithmetic::mul::*;
use vstd::prelude::*;

use crate::error::Error;

verus! {

/// The number of elements of an array with the extents `dims`.
pub open spec fn product(dims: Seq<usize>) -> nat
    decreases dims.len(),
{
    if dims.len() == 0 {
        1
    } else {
        product(dims.drop_last()) * dims.last() as nat
    }
}

/// The extents with every zero replaced by one.
pub open spec fn at_least_one(dims: Seq<usize>) -> Seq<usize> {
    Seq::new(
        dims.len(),
        |i: int|
            if dims[i] == 0 {
                1usize
            } else {
                dims[i]
            },
    )
}

/// The product of the non-zero extents: an upper bound for the product of any run of extents.
pub open spec fn span(dims: Seq<usize>) -> nat {
    product(at_least_one(dims))
}

/// The distance between neighbours along dimension `d` of a row-major array.
pub open spec fn row_major_stride(dims: Seq<usize>, d: int) -> nat {
    product(dims.skip(d + 1))
}

/// The extents of an array, outermost dimension first.
#[derive(Debug)]
pub struct Shape {
    pub dims: Vec<usize>,
}

impl Clone for Shape {
    fn clone(&self) -> (r: Self)
        ensures
            r.dims@ == self.dims@,
    {
        Shape { dims: self.dims.clone() }
    }
}

impl Shape {
    /// The product of any run of extents fits in a `usize`.
    pub open spec fn wf(self) -> bool {
        span(self.dims@) <= usize::MAX
    }

    /// The number of elements.
    pub open spec fn count(self) -> nat {
        product(self.dims@)
    }

    /// The shape with the extents `dims`, or `None` if the product of the non-zero extents does
    /// not fit in a `usize`.
    pub fn new(dims: Vec<usize>) -> (r: Option<Shape>)
        ensures
            r is Some <==> span(dims@) <= usize::MAX,
            r matches Some(s) ==> s.dims@ == dims@ && s.wf(),
    {
        let mut acc: usize = 1;
        let n: usize = dims.len();
        assert(at_least_one(dims@).take(0).len() == 0);
        for i in 0..n
            invariant
                n == dims@.len(),
                acc == product(at_least_one(dims@).take(i as int)),
        {
            let ghost ones = at_least_one(dims@);
            proof {
                assert(ones.take(i + 1).drop_last() =~= ones.take(i as int));
                lemma_product_ge_one(ones.skip(i + 1));
                assert(ones =~= ones.take(i + 1) + ones.skip(i + 1));
                lemma_product_concat(ones.take(i + 1), ones.skip(i + 1));
                lemma_mul_increases_by_positive(product(ones.take(i + 1)), product(ones.skip(i + 1)));
            }
            let d: usize = if dims[i] == 0 {
                1
            } else {
                dims[i]
            };
            assert(d == ones[i as int]);
            match acc.checked_mul(d) {
                None => {
                    return None;
                },
                Some(x) => {
                    acc = x;
                },
            }
        }
        assert(at_least_one(dims@).take(n as int) =~= at_least_one(dims@));
        Some(Shape { dims })
    }

    /// The number of dimensions.
    pub fn rank(&self) -> (r: usize)
        ensures
            r == self.dims@.len(),
    {
        self.dims.len()
    }

    /// The number of elements.
    pub fn elem_count(&self) -> (r: usize)
        requires
            self.wf(),
        ensures
            r == self.count(),
    {
        let n: usize = self.dims.len();
        proof {
            assert(self.dims@.subrange(0, n as int) =~= self.dims@);
        }
        product_of_run(&self.dims, 0, n)
    }

    /// The strides of a row-major array of this shape.
    pub fn stride_contiguous(&self) -> (r: Vec<usize>)
        requires
            self.wf(),
        ensures
            r@.len() == self.dims@.len(),
            forall|i: int| 0 <= i < r@.len() ==> r@[i] == #[trigger] row_major_stride(self.dims@, i),
    {
        let n: usize = self.dims.len();
        let mut r: Vec<usize> = Vec::new();
        for i in 0..n
            invariant
                n == self.dims@.len(),
                self.wf(),
                r@.len() == i,
                forall|j: int| 0 <= j < i ==> r@[j] == #[trigger] row_major_stride(self.dims@, j),
        {
            proof {
                assert(self.dims@.subrange(i + 1, n as int) =~= self.dims@.skip(i + 1));
            }
            let s: usize = product_of_run(&self.dims, i + 1, n);
            r.push(s);
        }
        r
    }

    /// Whether `stride` holds the strides of a row-major array of this shape.
    pub fn is_contiguous(&self, stride: &Vec<usize>) -> (r: bool)
        requires
            self.wf(),
        ensures
            r == contiguous_stride(self.dims@, stride@),
    {
        if self.dims.len() != stride.len() {
            return false;
        }
        let n: usize = self.dims.len();
        let mut acc: usize = 1;
        let mut i: usize = n;
        assert(self.dims@.skip(n as int).len() == 0);
        while i > 0
            invariant
                i <= n,
                n == self.dims@.len(),
                n == stride@.len(),
                self.wf(),
                acc == product(self.dims@.skip(i as int)),
                forall|j: int|
                    i <= j < n ==> stride@[j] == #[trigger] row_major_stride(self.dims@, j),
            decreases i,
        {
            i = i - 1;
            assert(acc == row_major_stride(self.dims@, i as int));
            if stride[i] != acc {
                return false;
            }
            proof {
                lemma_product_skip(self.dims@, i as int);
                assert(self.dims@.subrange(i as int, n as int) =~= self.dims@.skip(i as int));
                lemma_product_of_run_le_span(self.dims@, i as int, n as int);
                lemma_mul_is_commutative(acc as int, self.dims@[i as int] as int);
            }
            acc = acc * self.dims[i];
        }
        true
    }

    /// The two extents of a matrix, or an error for a shape of another rank.
    pub fn r2(&self) -> (r: Result<(usize, usize), Error>)
        ensures
            match r {
                Ok((a, b)) => self.dims@ == seq![a, b],
                Err(e) => self.dims@.len() != 2 && (e matches Error::UnexpectedNumberOfDims {
                    expected,
                    got,
                    shape,
                } && expected == 2 && got == self.dims@.len() && shape.dims@ == self.dims@),
            },
    {
        if self.dims.len() == 2 {
            assert(self.dims@ =~= seq![self.dims@[0], self.dims@[1]]);
            Ok((self.dims[0], self.dims[1]))
        } else {
            Err(
                Error::UnexpectedNumberOfDims {
                    expected: 2,
                    got: self.dims.len(),
                    shape: self.clone(),
                },
            )
        }
    }
}

/// Whether `stride` holds the strides of a row-major array with the extents `dims`.
pub open spec fn contiguous_stride(dims: Seq<usize>, stride: Seq<usize>) -> bool {
    &&& stride.len() == dims.len()
    &&& forall|i: int| 0 <= i < dims.len() ==> stride[i] == #[trigger] row_major_stride(dims, i)
}

/// The product of the extents `dims[from..to]`.
pub fn product_of_run(dims: &Vec<usize>, from: usize, to: usize) -> (r: usize)
    requires
        from <= to <= dims@.len(),
        span(dims@) <= usize::MAX,
    ensures
        r == product(dims@.subrange(from as int, to as int)),
{
    let mut acc: usize = 1;
    let mut i: usize = from;
    while i < to
        invariant
            from <= i <= to <= dims@.len(),
            span(dims@) <= usize::MAX,
            acc == product(dims@.subrange(from as int, i as int)),
        decreases to - i,
    {
        proof {
            assert(dims@.subrange(from as int, i + 1).drop_last() =~= dims@.subrange(
                from as int,
                i as int,
            ));
            lemma_product_of_run_le_span(dims@, from as int, i + 1);
        }
        acc = acc * dims[i];
        i = i + 1;
    }
    acc
}

pub proof fn lemma_product_concat(a: Seq<usize>, b: Seq<usize>)
    ensures
        product(a + b) == product(a) * product(b),
    decreases b.len(),
{
    if b.len() == 0 {
        assert(a + b =~= a);
        assert(product(b) == 1);
    } else {
        assert((a + b).drop_last() =~= a + b.drop_last());
        assert((a + b).last() == b.last());
        lemma_product_concat(a, b.drop_last());
        lemma_mul_is_associative(
            product(a) as int,
            product(b.drop_last()) as int,
            b.last() as int,
        );
    }
}

pub proof fn lemma_product_skip(dims: Seq<usize>, i: int)
    requires
        0 <= i < dims.len(),
    ensures
        product(dims.skip(i)) == dims[i] as nat * product(dims.skip(i + 1)),
{
    let one = seq![dims[i]];
    assert(dims.skip(i) =~= one + dims.skip(i + 1));
    lemma_product_concat(one, dims.skip(i + 1));
    assert(product(one.drop_last()) == 1);
    assert(product(one) == 1 * one.last() as nat);
}

/// A product is zero exactly if one of its factors is.
pub proof fn lemma_product_positive(dims: Seq<usize>)
    ensures
        product(dims) > 0 <==> (forall|i: int| 0 <= i < dims.len() ==> #[trigger] dims[i] > 0),
    decreases dims.len(),
{
    if dims.len() > 0 {
        let d = dims.last() as nat;
        let p = product(dims.drop_last());
        lemma_product_positive(dims.drop_last());
        assert(p * d > 0 <==> (p > 0 && d > 0)) by (nonlinear_arith);
        assert forall|i: int| 0 <= i < dims.drop_last().len() implies dims.drop_last()[i]
            == dims[i] by {}
        if p * d > 0 {
            assert forall|i: int| 0 <= i < dims.len() implies #[trigger] dims[i] > 0 by {
                if i < dims.len() - 1 {
                    assert(dims.drop_last()[i] > 0);
                }
            }
        } else if forall|i: int| 0 <= i < dims.len() ==> #[trigger] dims[i] > 0 {
            assert(dims[dims.len() - 1] > 0);
            assert forall|i: int| 0 <= i < dims.drop_last().len() implies #[trigger] dims.drop_last()[i]
                > 0 by {
                assert(dims[i] > 0);
            }
        }
    }
}

pub proof fn lemma_product_ge_one(dims: Seq<usize>)
    requires
        forall|i: int| 0 <= i < dims.len() ==> #[trigger] dims[i] > 0,
    ensures
        product(dims) >= 1,
{
    lemma_product_positive(dims);
}

pub proof fn lemma_mul_increases_by_positive(a: nat, b: nat)
    requires
        b >= 1,
    ensures
        a <= a * b,
        a <= b * a,
{
    assert(a <= a * b && a <= b * a) by (nonlinear_arith)
        requires
            b >= 1,
    ;
}

pub proof fn lemma_product_le_span(dims: Seq<usize>)
    ensures
        product(dims) <= span(dims),
        span(dims) >= 1,
    decreases dims.len(),
{
    let ones = at_least_one(dims);
    lemma_product_ge_one(ones);
    if dims.len() > 0 {
        lemma_product_le_span(dims.drop_last());
        assert(at_least_one(dims.drop_last()) =~= ones.drop_last());
        lemma_mul_upper_bound(
            product(dims.drop_last()) as int,
            product(ones.drop_last()) as int,
            dims.last() as int,
            ones.last() as int,
        );
    }
}

/// The product of a run of extents is bounded by the span of all of them.
pub proof fn lemma_product_of_run_le_span(dims: Seq<usize>, from: int, to: int)
    requires
        0 <= from <= to <= dims.len(),
    ensures
        product(dims.subrange(from, to)) <= span(dims),
        span(dims.subrange(from, to)) <= span(dims),
{
    let run = dims.subrange(from, to);
    let ones = at_least_one(dims);
    let (a, b, c) = (ones.take(from), ones.subrange(from, to), ones.skip(to));
    lemma_product_le_span(run);
    assert(at_least_one(run) =~= b);
    assert(ones =~= a + (b + c));
    lemma_product_concat(a, b + c);
    lemma_product_concat(b, c);
    lemma_product_ge_one(a);
    lemma_product_ge_one(c);
    lemma_mul_increases_by_positive(product(b), product(c));
    lemma_mul_increases_by_positive(product(b + c), product(a));
}

} // verus!
