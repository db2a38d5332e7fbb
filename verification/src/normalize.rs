//! The division of an array by its sums over one dimension.
use vstd::arithmetic::div_mod::*;
use vstd::arithmetic::mul::*;
use vstd::prelude::*;

use crate::layout;
use crate::numbers::F64;
use crate::reduce;
use crate::shape;

verus! {

/// The place of the `k`-th element of a slice along one dimension of a row-major array: the
/// dimension has the extent `per`, `post` elements lie between neighbours, and the slice is the one
/// with the outer position `p` and the inner position `q`.
pub open spec fn place(per: nat, post: nat, p: nat, k: nat, q: nat) -> nat {
    p * (per * post) + (k * post + q)
}

/// The elements of a slice.
pub open spec fn slice<T>(vs: Seq<T>, per: nat, post: nat, p: nat, q: nat) -> Seq<T> {
    Seq::new(per, |k: int| vs[place(per, post, p, k as nat, q) as int])
}

/// A slice of `after` holds the elements of the slice of `before`, each divided by the sum over
/// them: `fold` relates the sum to the elements, `narrow` the divisor to the sum, and `quotient` the
/// result to an element and the divisor.
pub open spec fn slice_divided<T>(
    before: Seq<T>,
    after: Seq<T>,
    per: nat,
    post: nat,
    p: nat,
    q: nat,
    fold: spec_fn(F64, T, F64) -> bool,
    narrow: spec_fn(F64, T) -> bool,
    quotient: spec_fn(T, T, T) -> bool,
) -> bool {
    exists|s: F64, d: T|
        {
            &&& reduce::folds(fold, F64 { bits: 0 }, slice(before, per, post, p, q), s)
            &&& #[trigger] narrow(s, d)
            &&& forall|k: int|
                0 <= k < per ==> quotient(
                    slice(before, per, post, p, q)[k],
                    d,
                    #[trigger] slice(after, per, post, p, q)[k],
                )
        }
}

/// Every slice along a dimension of the row-major array at the start of `before` is divided by the
/// sum over it; what stands behind the array is as it was.
pub open spec fn divided<T>(
    before: Seq<T>,
    after: Seq<T>,
    pre: nat,
    per: nat,
    post: nat,
    fold: spec_fn(F64, T, F64) -> bool,
    narrow: spec_fn(F64, T) -> bool,
    quotient: spec_fn(T, T, T) -> bool,
) -> bool {
    &&& after.len() == before.len()
    &&& forall|p: nat, q: nat|
        p < pre && q < post ==> #[trigger] slice_divided(
            before,
            after,
            per,
            post,
            p,
            q,
            fold,
            narrow,
            quotient,
        )
    &&& forall|i: int| pre * (per * post) <= i < after.len() ==> after[i] == before[i]
}

/// A place tells which slice it is in and where.
pub proof fn lemma_place(pre: nat, per: nat, post: nat, p: nat, k: nat, q: nat)
    requires
        p < pre,
        k < per,
        q < post,
    ensures
        place(per, post, p, k, q) < pre * (per * post),
        place(per, post, p, k, q) / (per * post) == p,
        place(per, post, p, k, q) % (per * post) / post == k,
        place(per, post, p, k, q) % (per * post) % post == q,
{
    let block = per * post;
    let inner = k * post + q;
    assert(inner < block) by (nonlinear_arith)
        requires
            inner == k * post + q,
            block == per * post,
            k + 1 <= per,
            q < post,
    ;
    assert(p * block + inner < pre * block) by (nonlinear_arith)
        requires
            p + 1 <= pre,
            inner < block,
    ;
    lemma_fundamental_div_mod_converse(
        place(per, post, p, k, q) as int,
        block as int,
        p as int,
        inner as int,
    );
    lemma_fundamental_div_mod_converse(inner as int, post as int, k as int, q as int);
}

/// A slice stays divided when the storage changes elsewhere.
proof fn lemma_slice_divided_frame<T>(
    before: Seq<T>,
    mid: Seq<T>,
    after: Seq<T>,
    per: nat,
    post: nat,
    p: nat,
    q: nat,
    fold: spec_fn(F64, T, F64) -> bool,
    narrow: spec_fn(F64, T) -> bool,
    quotient: spec_fn(T, T, T) -> bool,
)
    requires
        slice_divided(before, mid, per, post, p, q, fold, narrow, quotient),
        slice(mid, per, post, p, q) == slice(after, per, post, p, q),
    ensures
        slice_divided(before, after, per, post, p, q, fold, narrow, quotient),
{
}

/// What the parts of a division allow, others may allow too.
pub proof fn lemma_divided_weaken<T>(
    before: Seq<T>,
    after: Seq<T>,
    pre: nat,
    per: nat,
    post: nat,
    fold: spec_fn(F64, T, F64) -> bool,
    narrow: spec_fn(F64, T) -> bool,
    quotient: spec_fn(T, T, T) -> bool,
    fold2: spec_fn(F64, T, F64) -> bool,
    narrow2: spec_fn(F64, T) -> bool,
    quotient2: spec_fn(T, T, T) -> bool,
)
    requires
        divided(before, after, pre, per, post, fold, narrow, quotient),
        forall|a: F64, x: T, b: F64| #[trigger] fold(a, x, b) ==> fold2(a, x, b),
        forall|s: F64, d: T| #[trigger] narrow(s, d) ==> narrow2(s, d),
        forall|x: T, d: T, r: T| #[trigger] quotient(x, d, r) ==> quotient2(x, d, r),
    ensures
        divided(before, after, pre, per, post, fold2, narrow2, quotient2),
{
    assert forall|p: nat, q: nat| p < pre && q < post implies #[trigger] slice_divided(
        before,
        after,
        per,
        post,
        p,
        q,
        fold2,
        narrow2,
        quotient2,
    ) by {
        assert(slice_divided(before, after, per, post, p, q, fold, narrow, quotient));
        let xs = slice(before, per, post, p, q);
        let ys = slice(after, per, post, p, q);
        let (s, d) = choose|s: F64, d: T|
            {
                &&& reduce::folds(fold, F64 { bits: 0 }, xs, s)
                &&& #[trigger] narrow(s, d)
                &&& forall|k: int| 0 <= k < per ==> quotient(xs[k], d, #[trigger] ys[k])
            };
        reduce::lemma_folds_weaken(fold, fold2, F64 { bits: 0 }, xs, s);
        assert(narrow2(s, d));
        assert forall|k: int| 0 <= k < per implies quotient2(xs[k], d, #[trigger] ys[k]) by {
            assert(quotient(xs[k], d, ys[k]));
        }
    }
}

/// Divides every slice along a dimension of the row-major array at the start of `storage` by the
/// sum over it. The sum is taken in double precision.
pub fn divide_by_sums<
    T: Copy,
    W: Fn(T) -> F64,
    A: Fn(F64, F64) -> F64,
    N: Fn(F64) -> T,
    D: Fn(T, T) -> T,
>(storage: &mut Vec<T>, pre: usize, per: usize, post: usize, widen: W, plus: A, narrow: N, over: D)
    requires
        per * post <= usize::MAX,
        pre * (per * post) <= old(storage)@.len(),
        forall|x: T| call_requires(widen, (x,)),
        forall|a: F64, b: F64| call_requires(plus, (a, b)),
        forall|s: F64| call_requires(narrow, (s,)),
        forall|x: T, d: T| call_requires(over, (x, d)),
    ensures
        divided(
            old(storage)@,
            final(storage)@,
            pre as nat,
            per as nat,
            post as nat,
            |a: F64, x: T, b: F64|
                exists|w: F64| #[trigger]
                    call_ensures(widen, (x,), w) && call_ensures(plus, (a, w), b),
            |s: F64, d: T| call_ensures(narrow, (s,), d),
            |x: T, d: T, r: T| call_ensures(over, (x, d), r),
        ),
{
    let block: usize = per * post;
    let ghost before = storage@;
    let ghost total = pre * (per * post);
    let ghost (n_per, n_post) = (per as nat, post as nat);
    let ghost fold = |a: F64, x: T, b: F64|
        exists|w: F64| #[trigger] call_ensures(widen, (x,), w) && call_ensures(plus, (a, w), b);
    let ghost narrowed = |s: F64, d: T| call_ensures(narrow, (s,), d);
    let ghost quotient = |x: T, d: T, r: T| call_ensures(over, (x, d), r);
    let len: usize = storage.len();
    for pre_idx in 0..pre
        invariant
            block == per * post,
            total == pre * (per * post),
            n_per == per,
            n_post == post,
            total <= len,
            storage@.len() == len,
            before.len() == len,
            fold == (|a: F64, x: T, b: F64|
                exists|w: F64| #[trigger]
                    call_ensures(widen, (x,), w) && call_ensures(plus, (a, w), b)),
            narrowed == (|s: F64, d: T| call_ensures(narrow, (s,), d)),
            quotient == (|x: T, d: T, r: T| call_ensures(over, (x, d), r)),
            forall|x: T| call_requires(widen, (x,)),
            forall|a: F64, b: F64| call_requires(plus, (a, b)),
            forall|s: F64| call_requires(narrow, (s,)),
            forall|x: T, d: T| call_requires(over, (x, d)),
            forall|p: nat, q: nat|
                p < pre_idx && q < post ==> #[trigger] slice_divided(
                    before,
                    storage@,
                    n_per,
                    n_post,
                    p,
                    q,
                    fold,
                    narrowed,
                    quotient,
                ),
            forall|i: int| total <= i < len ==> storage@[i] == before[i],
            forall|i: nat|
                i < total && i / (n_per * n_post) >= pre_idx ==> #[trigger] storage@[i as int]
                    == before[i as int],
    {
        for post_idx in 0..post
            invariant
                block == per * post,
                total == pre * (per * post),
                n_per == per,
                n_post == post,
                total <= len,
                pre_idx < pre,
                storage@.len() == len,
                before.len() == len,
                fold == (|a: F64, x: T, b: F64|
                    exists|w: F64| #[trigger]
                        call_ensures(widen, (x,), w) && call_ensures(plus, (a, w), b)),
                narrowed == (|s: F64, d: T| call_ensures(narrow, (s,), d)),
                quotient == (|x: T, d: T, r: T| call_ensures(over, (x, d), r)),
                forall|x: T| call_requires(widen, (x,)),
                forall|a: F64, b: F64| call_requires(plus, (a, b)),
                forall|s: F64| call_requires(narrow, (s,)),
                forall|x: T, d: T| call_requires(over, (x, d)),
                forall|p: nat, q: nat|
                    q < post && (p < pre_idx || p == pre_idx && q < post_idx)
                        ==> #[trigger] slice_divided(
                        before,
                        storage@,
                        n_per,
                        n_post,
                        p,
                        q,
                        fold,
                        narrowed,
                        quotient,
                    ),
                forall|i: int| total <= i < len ==> storage@[i] == before[i],
                forall|i: nat|
                    i < total && (i / (n_per * n_post) > pre_idx || i / (n_per * n_post) == pre_idx
                        && i % (n_per * n_post) % n_post >= post_idx) ==> #[trigger] storage@[i as int]
                        == before[i as int],
        {
            let ghost start = storage@;
            let ghost (p, q) = (pre_idx as nat, post_idx as nat);
            let ghost xs = slice(before, n_per, n_post, p, q);
            let mut sum: F64 = F64 { bits: 0 };
            for k in 0..per
                invariant
                    block == per * post,
                    total == pre * (per * post),
                    n_per == per,
                    n_post == post,
                    total <= len,
                    p == pre_idx < pre,
                    q == post_idx < post,
                    storage@ == start,
                    start.len() == len,
                    forall|i: nat|
                        i < total && i / (n_per * n_post) == p && i % (n_per * n_post) % n_post == q
                            ==> #[trigger] start[i as int] == before[i as int],
                    xs == slice(before, n_per, n_post, p, q),
                    fold == (|a: F64, x: T, b: F64|
                        exists|w: F64| #[trigger]
                            call_ensures(widen, (x,), w) && call_ensures(plus, (a, w), b)),
                    forall|x: T| call_requires(widen, (x,)),
                    forall|a: F64, b: F64| call_requires(plus, (a, b)),
                    reduce::folds(fold, F64 { bits: 0 }, xs.take(k as int), sum),
            {
                proof {
                    lemma_place(pre as nat, n_per, n_post, p, k as nat, q);
                    assert(start[place(n_per, n_post, p, k as nat, q) as int] == xs[k as int]);
                    assert(xs.take(k + 1) =~= xs.take(k as int).push(xs[k as int]));
                }
                let i: usize = index_of(block, post, pre_idx, k, post_idx);
                let w: F64 = widen(storage[i]);
                let next: F64 = plus(sum, w);
                proof {
                    assert(call_ensures(widen, (xs[k as int],), w));
                    assert(fold(sum, xs[k as int], next));
                    reduce::lemma_folds_push(
                        fold,
                        F64 { bits: 0 },
                        xs.take(k as int),
                        sum,
                        xs[k as int],
                        next,
                    );
                }
                sum = next;
            }
            assert(xs.take(per as int) =~= xs);
            let d: T = narrow(sum);
            for k in 0..per
                invariant
                    block == per * post,
                    total == pre * (per * post),
                    n_per == per,
                    n_post == post,
                    total <= len,
                    p == pre_idx < pre,
                    q == post_idx < post,
                    storage@.len() == len,
                    start.len() == len,
                    forall|i: nat|
                        i < total && i / (n_per * n_post) == p && i % (n_per * n_post) % n_post == q
                            ==> #[trigger] start[i as int] == before[i as int],
                    xs == slice(before, n_per, n_post, p, q),
                    forall|x: T, d: T| call_requires(over, (x, d)),
                    forall|j: nat|
                        j < k ==> call_ensures(
                            over,
                            (xs[j as int], d),
                            storage@[#[trigger] place(n_per, n_post, p, j, q) as int],
                        ),
                    forall|i: int| total <= i < len ==> storage@[i] == start[i],
                    forall|i: nat|
                        i < total && (i / (n_per * n_post) != p || i % (n_per * n_post) % n_post
                            != q || i % (n_per * n_post) / n_post >= k)
                            ==> #[trigger] storage@[i as int] == start[i as int],
            {
                proof {
                    lemma_place(pre as nat, n_per, n_post, p, k as nat, q);
                    assert(start[place(n_per, n_post, p, k as nat, q) as int] == xs[k as int]);
                }
                let ghost was = storage@;
                let i: usize = index_of(block, post, pre_idx, k, post_idx);
                let r: T = over(storage[i], d);
                storage.set(i, r);
                proof {
                    assert forall|j: nat| j < k + 1 implies call_ensures(
                        over,
                        (xs[j as int], d),
                        storage@[#[trigger] place(n_per, n_post, p, j, q) as int],
                    ) by {
                        lemma_place(pre as nat, n_per, n_post, p, j, q);
                        if j < k {
                            assert(call_ensures(
                                over,
                                (xs[j as int], d),
                                was[place(n_per, n_post, p, j, q) as int],
                            ));
                        }
                    }
                }
            }
            proof {
                let ys = slice(storage@, n_per, n_post, p, q);
                assert forall|k: int| 0 <= k < per implies quotient(xs[k], d, #[trigger] ys[k]) by {
                    assert(ys[k] == storage@[place(n_per, n_post, p, k as nat, q) as int]);
                }
                assert(narrowed(sum, d));
                assert(slice_divided(
                    before,
                    storage@,
                    n_per,
                    n_post,
                    p,
                    q,
                    fold,
                    narrowed,
                    quotient,
                ));
                assert forall|p2: nat, q2: nat|
                    q2 < post && (p2 < pre_idx || p2 == pre_idx && q2
                        < post_idx) implies #[trigger] slice_divided(
                    before,
                    storage@,
                    n_per,
                    n_post,
                    p2,
                    q2,
                    fold,
                    narrowed,
                    quotient,
                ) by {
                    assert(slice_divided(
                        before,
                        start,
                        n_per,
                        n_post,
                        p2,
                        q2,
                        fold,
                        narrowed,
                        quotient,
                    ));
                    let (a, b) = (
                        slice(start, n_per, n_post, p2, q2),
                        slice(storage@, n_per, n_post, p2, q2),
                    );
                    assert forall|k: int| 0 <= k < per implies a[k] == b[k] by {
                        lemma_place(pre as nat, n_per, n_post, p2, k as nat, q2);
                    }
                    assert(a =~= b);
                    lemma_slice_divided_frame(
                        before,
                        start,
                        storage@,
                        n_per,
                        n_post,
                        p2,
                        q2,
                        fold,
                        narrowed,
                        quotient,
                    );
                }
            }
        }
        proof {
            assert forall|i: nat|
                i < total && i / (n_per * n_post) >= pre_idx + 1 implies #[trigger] storage@[i as int]
                == before[i as int] by {}
        }
    }
}

/// The place of the `k`-th element of a slice, where `block` elements have the same outer position.
fn index_of(block: usize, post: usize, p: usize, k: usize, q: usize) -> (r: usize)
    requires
        p * block + (k * post + q) <= usize::MAX,
    ensures
        r == p * block + (k * post + q),
{
    proof {
        lemma_mul_nonnegative(p as int, block as int);
        lemma_mul_nonnegative(k as int, post as int);
    }
    p * block + (k * post + q)
}

/// Every place of the array is in a slice.
pub proof fn lemma_slices_cover(pre: nat, per: nat, post: nat, i: nat)
    requires
        i < pre * (per * post),
    ensures
        i / (per * post) < pre,
        i % (per * post) / post < per,
        i % (per * post) % post < post,
        i == place(
            per,
            post,
            i / (per * post),
            i % (per * post) / post,
            i % (per * post) % post,
        ),
{
    let block = per * post;
    assert(per > 0 && post > 0 && block > 0) by (nonlinear_arith)
        requires
            i < pre * block,
            block == per * post,
    ;
    let inner = i % block;
    lemma_mul_is_commutative(pre as int, block as int);
    lemma_multiply_divide_lt(i as int, block as int, pre as int);
    lemma_mul_is_commutative(per as int, post as int);
    lemma_multiply_divide_lt(inner as int, post as int, per as int);
    lemma_fundamental_div_mod(i as int, block as int);
    lemma_fundamental_div_mod(inner as int, post as int);
    lemma_mul_is_commutative(block as int, (i / block) as int);
    lemma_mul_is_commutative(post as int, (inner / post) as int);
}

/// The element with the coordinates `coords` is in the slice along `d` that its other coordinates
/// give, and its coordinate along `d` is its place there.
pub proof fn lemma_place_of_coords(dims: Seq<usize>, coords: Seq<usize>, d: int)
    requires
        0 <= d < dims.len(),
        layout::valid_coords(dims, coords),
    ensures
        layout::position(dims.take(d), coords.take(d)) < shape::product(dims.take(d)),
        layout::position(dims.skip(d + 1), coords.skip(d + 1)) < shape::row_major_stride(dims, d),
        layout::position(dims, coords) == place(
            dims[d] as nat,
            shape::row_major_stride(dims, d),
            layout::position(dims.take(d), coords.take(d)),
            coords[d] as nat,
            layout::position(dims.skip(d + 1), coords.skip(d + 1)),
        ),
{
    reduce::lemma_split_at(dims, coords, d);
    let (e, c) = (dims.take(d), coords.take(d));
    assert forall|i: int| 0 <= i < e.len() implies #[trigger] c[i] < e[i] by {
        assert(coords[i] < dims[i]);
    }
    layout::lemma_position_bound(e, c);
    let (e, c) = (dims.skip(d + 1), coords.skip(d + 1));
    assert forall|i: int| 0 <= i < e.len() implies #[trigger] c[i] < e[i] by {
        assert(coords[d + 1 + i] < dims[d + 1 + i]);
    }
    layout::lemma_position_bound(e, c);
}

/// A relation between the elements of two arrays that additions keep, as long as their results are
/// `ok`, and that divisions cancel, is gone after both are divided by their sums.
pub proof fn lemma_relation_cancels(
    x: Seq<F64>,
    x_divided: Seq<F64>,
    y: Seq<F64>,
    y_divided: Seq<F64>,
    pre: nat,
    per: nat,
    post: nat,
    fold: spec_fn(F64, F64, F64) -> bool,
    narrow: spec_fn(F64, F64) -> bool,
    quotient: spec_fn(F64, F64, F64) -> bool,
    ok: spec_fn(F64) -> bool,
    rel: spec_fn(F64, F64) -> bool,
)
    requires
        pre * (per * post) <= x.len(),
        pre * (per * post) <= y.len(),
        divided(x, x_divided, pre, per, post, fold, narrow, quotient),
        divided(y, y_divided, pre, per, post, fold, narrow, quotient),
        forall|t: F64, d: F64| #[trigger] narrow(t, d) ==> d == t,
        forall|i: int| 0 <= i < pre * (per * post) ==> rel(#[trigger] x[i], y[i]),
        forall|p: nat, q: nat|
            p < pre && q < post ==> reduce::folds_within(
                fold,
                F64 { bits: 0 },
                #[trigger] slice(x, per, post, p, q),
                ok,
            ),
        forall|p: nat, q: nat|
            p < pre && q < post ==> reduce::folds_within(
                fold,
                F64 { bits: 0 },
                #[trigger] slice(y, per, post, p, q),
                ok,
            ),
        rel(F64 { bits: 0 }, F64 { bits: 0 }),
        forall|a: F64, b: F64, v: F64, w: F64, c: F64, d: F64|
            rel(a, b) && rel(v, w) && #[trigger] fold(a, v, c) && #[trigger] fold(b, w, d) && ok(c)
                && ok(d) ==> rel(c, d),
        forall|a: F64, b: F64, v: F64, w: F64, c: F64, d: F64|
            rel(a, b) && rel(v, w) && #[trigger] quotient(a, v, c) && #[trigger] quotient(b, w, d)
                ==> c@ == d@,
    ensures
        forall|i: int|
            0 <= i < pre * (per * post) ==> (#[trigger] x_divided[i])@ == y_divided[i]@,
{
    let zero = F64 { bits: 0 };
    assert forall|i: int| 0 <= i < pre * (per * post) implies (#[trigger] x_divided[i])@
        == y_divided[i]@ by {
        lemma_slices_cover(pre, per, post, i as nat);
        let block = per * post;
        let (p, k, q) = (i as nat / block, i as nat % block / post, i as nat % block % post);
        assert(per > 0 && post > 0 && block > 0) by (nonlinear_arith)
            requires
                i < pre * block,
                0 <= i,
                block == per * post,
        ;
        lemma_div_pos_is_pos(i, block as int);
        lemma_div_pos_is_pos(i % (block as int), post as int);
        assert(p < pre && k < per && q < post);
        let (xs, ys) = (slice(x, per, post, p, q), slice(y, per, post, p, q));
        let (us, vs) = (slice(x_divided, per, post, p, q), slice(y_divided, per, post, p, q));
        assert(slice_divided(x, x_divided, per, post, p, q, fold, narrow, quotient));
        assert(slice_divided(y, y_divided, per, post, p, q, fold, narrow, quotient));
        let (s, _) = choose|s: F64, d: F64|
            {
                &&& reduce::folds(fold, zero, xs, s)
                &&& #[trigger] narrow(s, d)
                &&& forall|k: int| 0 <= k < per ==> quotient(xs[k], d, #[trigger] us[k])
            };
        let (t, _) = choose|t: F64, d: F64|
            {
                &&& reduce::folds(fold, zero, ys, t)
                &&& #[trigger] narrow(t, d)
                &&& forall|k: int| 0 <= k < per ==> quotient(ys[k], d, #[trigger] vs[k])
            };
        assert forall|j: int| 0 <= j < xs.len() implies rel(#[trigger] xs[j], ys[j]) by {
            lemma_place(pre, per, post, p, j as nat, q);
            assert(rel(
                x[place(per, post, p, j as nat, q) as int],
                y[place(per, post, p, j as nat, q) as int],
            ));
        }
        reduce::lemma_folds_related(fold, zero, xs, ys, s, t, ok, rel, rel);
        assert(us[k as int] == x_divided[i] && vs[k as int] == y_divided[i]);
        assert(rel(xs[k as int], ys[k as int]));
        assert(quotient(xs[k as int], s, us[k as int]));
        assert(quotient(ys[k as int], t, vs[k as int]));
    }
}

} // verus!
