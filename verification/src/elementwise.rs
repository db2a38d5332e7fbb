//! Element-wise walks over strided arrays.
use vstd::prelude::*;

use crate::layout;
use crate::layout::Layout;

verus! {

/// The smaller of two numbers.
pub open spec fn min(a: nat, b: nat) -> nat {
    if a <= b {
        a
    } else {
        b
    }
}

/// The `k`-th element in row-major order of the array that stands in `vs` as `l` says.
pub open spec fn element<T>(vs: Seq<T>, l: Layout, k: int) -> T {
    vs[l.index(k)]
}

/// `out` holds, in row-major order, what `f` relates to the elements of an array.
pub open spec fn mapped<T, U>(
    vs: Seq<T>,
    l: Layout,
    f: spec_fn(T, U) -> bool,
    out: Seq<U>,
) -> bool {
    &&& out.len() == l.count()
    &&& forall|k: int| 0 <= k < out.len() ==> f(element(vs, l, k), #[trigger] out[k])
}

/// `out` holds, in row-major order, what `f` relates to the pairs of elements of two arrays, up to
/// the end of the shorter one.
pub open spec fn mapped2<T, U>(
    lhs: Seq<T>,
    lhs_l: Layout,
    rhs: Seq<T>,
    rhs_l: Layout,
    f: spec_fn(T, T, U) -> bool,
    out: Seq<U>,
) -> bool {
    &&& out.len() == min(lhs_l.count(), rhs_l.count())
    &&& forall|k: int|
        0 <= k < out.len() ==> f(
            element(lhs, lhs_l, k),
            element(rhs, rhs_l, k),
            #[trigger] out[k],
        )
}

/// What a walk over two arrays reads stands in their storages: two contiguous arrays are taken as
/// slices, else the walk stops at the end of the shorter array.
pub open spec fn pair_within(lhs_l: Layout, lhs_len: nat, rhs_l: Layout, rhs_len: nat) -> bool {
    if lhs_l.contiguous() && rhs_l.contiguous() {
        lhs_l.within(lhs_len as int) && rhs_l.within(rhs_len as int)
    } else {
        let n = min(lhs_l.count(), rhs_l.count()) as int;
        lhs_l.prefix_within(n, lhs_len as int) && rhs_l.prefix_within(n, rhs_len as int)
    }
}

/// The smaller of two numbers.
fn smaller(a: usize, b: usize) -> (r: usize)
    ensures
        r == min(a as nat, b as nat),
{
    if a <= b {
        a
    } else {
        b
    }
}

/// Whether what a walk over two arrays reads stands in their storages.
pub fn pair_is_within(lhs_l: &Layout, lhs_len: usize, rhs_l: &Layout, rhs_len: usize) -> (r: bool)
    requires
        lhs_l.wf(),
        rhs_l.wf(),
    ensures
        r == pair_within(*lhs_l, lhs_len as nat, *rhs_l, rhs_len as nat),
{
    if lhs_l.is_contiguous() && rhs_l.is_contiguous() {
        lhs_l.is_within(lhs_len) && rhs_l.is_within(rhs_len)
    } else {
        let n: usize = smaller(lhs_l.shape.elem_count(), rhs_l.shape.elem_count());
        lhs_l.is_prefix_within(n, lhs_len) && rhs_l.is_prefix_within(n, rhs_len)
    }
}

/// The element that a predicate selects: one of `t` where the predicate is not zero, else one of
/// `f`.
pub open spec fn selected<T>(p: u32, t: T, f: T) -> T {
    if p > 0 {
        t
    } else {
        f
    }
}

/// The number of elements that a selection has: it stops at the end of the shortest array.
pub open spec fn wcond_count(layout: Layout, layout_t: Layout, layout_f: Layout) -> nat {
    min(layout.count(), min(layout_t.count(), layout_f.count()))
}

/// What a selection reads stands in its storages: three contiguous arrays are taken as slices, else
/// only the predicate and the selected elements are read.
pub open spec fn wcond_within(
    pred: Seq<u32>,
    layout: Layout,
    t_len: nat,
    layout_t: Layout,
    f_len: nat,
    layout_f: Layout,
) -> bool {
    if layout.contiguous() && layout_t.contiguous() && layout_f.contiguous() {
        layout.within(pred.len() as int) && layout_t.within(t_len as int) && layout_f.within(
            f_len as int,
        )
    } else {
        let n = wcond_count(layout, layout_t, layout_f) as int;
        &&& layout.prefix_within(n, pred.len() as int)
        &&& forall|k: int|
            0 <= k < n && element(pred, layout, k) > 0 ==> #[trigger] layout_t.index(k) < t_len
        &&& forall|k: int|
            0 <= k < n && element(pred, layout, k) == 0 ==> #[trigger] layout_f.index(k) < f_len
    }
}

/// Whether what a selection reads stands in its storages.
pub fn wcond_is_within(
    pred: &[u32],
    layout: &Layout,
    t_len: usize,
    layout_t: &Layout,
    f_len: usize,
    layout_f: &Layout,
) -> (r: bool)
    requires
        layout.wf(),
        layout_t.wf(),
        layout_f.wf(),
    ensures
        r == wcond_within(pred@, *layout, t_len as nat, *layout_t, f_len as nat, *layout_f),
{
    if layout.is_contiguous() && layout_t.is_contiguous() && layout_f.is_contiguous() {
        return layout.is_within(pred.len()) && layout_t.is_within(t_len) && layout_f.is_within(
            f_len,
        );
    }
    let n: usize = smaller(
        layout.shape.elem_count(),
        smaller(layout_t.shape.elem_count(), layout_f.shape.elem_count()),
    );
    if !layout.is_prefix_within(n, pred.len()) {
        return false;
    }
    let mut it_p = layout.strided_index();
    let mut it_t = layout_t.strided_index();
    let mut it_f = layout_f.strided_index();
    let mut k: usize = 0;
    while k < n
        invariant
            it_p.wf(),
            it_t.wf(),
            it_f.wf(),
            it_p.layout == layout,
            it_t.layout == layout_t,
            it_f.layout == layout_f,
            it_p.taken() == k,
            it_t.taken() == k,
            it_f.taken() == k,
            k <= n == wcond_count(*layout, *layout_t, *layout_f),
            layout.prefix_within(n as int, pred@.len() as int),
            !(layout.contiguous() && layout_t.contiguous() && layout_f.contiguous()),
            forall|j: int|
                0 <= j < k && element(pred@, *layout, j) > 0 ==> #[trigger] layout_t.index(j)
                    < t_len,
            forall|j: int|
                0 <= j < k && element(pred@, *layout, j) == 0 ==> #[trigger] layout_f.index(j)
                    < f_len,
        decreases n - k,
    {
        if let (Some(i_p), Some(i_t), Some(i_f)) = (it_p.next(), it_t.next(), it_f.next()) {
            assert(i_p == layout.index(k as int));
            assert(i_t == layout_t.index(k as int));
            assert(i_f == layout_f.index(k as int));
            assert(element(pred@, *layout, k as int) == pred@[i_p as int]);
            if pred[i_p] > 0 {
                if i_t >= t_len {
                    return false;
                }
            } else if i_f >= f_len {
                return false;
            }
        }
        k = k + 1;
    }
    true
}

/// `out` holds the selected elements in row-major order.
pub open spec fn selection<T>(
    pred: Seq<u32>,
    layout: Layout,
    t: Seq<T>,
    layout_t: Layout,
    f: Seq<T>,
    layout_f: Layout,
    out: Seq<T>,
) -> bool {
    &&& out.len() == wcond_count(layout, layout_t, layout_f)
    &&& forall|k: int|
        0 <= k < out.len() ==> #[trigger] out[k] == selected(
            element(pred, layout, k),
            element(t, layout_t, k),
            element(f, layout_f, k),
        )
}

/// Selects from `t` where `pred` is not zero and from `f` where it is zero.
pub fn wcond<T: Copy>(
    pred: &[u32],
    layout: &Layout,
    t: &[T],
    layout_t: &Layout,
    f: &[T],
    layout_f: &Layout,
) -> (r: Vec<T>)
    requires
        layout.wf(),
        layout_t.wf(),
        layout_f.wf(),
        wcond_within(pred@, *layout, t@.len(), *layout_t, f@.len(), *layout_f),
    ensures
        selection(pred@, *layout, t@, *layout_t, f@, *layout_f, r@),
{
    let mut r: Vec<T> = Vec::new();
    match (
        layout.contiguous_offsets(),
        layout_t.contiguous_offsets(),
        layout_f.contiguous_offsets(),
    ) {
        (Some((o1, o2)), Some((o_t1, o_t2)), Some((o_f1, o_f2))) => {
            proof {
                layout::lemma_contiguous_end(*layout);
                layout::lemma_contiguous_end(*layout_t);
                layout::lemma_contiguous_end(*layout_f);
            }
            let mut k: usize = 0;
            while k < o2 - o1 && k < o_t2 - o_t1 && k < o_f2 - o_f1
                invariant
                    o1 == layout.start_offset,
                    o_t1 == layout_t.start_offset,
                    o_f1 == layout_f.start_offset,
                    o1 + layout.count() == o2 <= pred@.len(),
                    o_t1 + layout_t.count() == o_t2 <= t@.len(),
                    o_f1 + layout_f.count() == o_f2 <= f@.len(),
                    forall|j: int|
                        0 <= j < layout.count() ==> #[trigger] layout.index(j) == o1 + j,
                    forall|j: int|
                        0 <= j < layout_t.count() ==> #[trigger] layout_t.index(j) == o_t1 + j,
                    forall|j: int|
                        0 <= j < layout_f.count() ==> #[trigger] layout_f.index(j) == o_f1 + j,
                    k == r@.len(),
                    k <= wcond_count(*layout, *layout_t, *layout_f),
                    forall|j: int|
                        0 <= j < k ==> #[trigger] r@[j] == selected(
                            element(pred@, *layout, j),
                            element(t@, *layout_t, j),
                            element(f@, *layout_f, j),
                        ),
                decreases o2 - o1 - k,
            {
                assert(layout.index(k as int) == o1 + k);
                assert(layout_t.index(k as int) == o_t1 + k);
                assert(layout_f.index(k as int) == o_f1 + k);
                r.push(
                    if pred[o1 + k] > 0 {
                        t[o_t1 + k]
                    } else {
                        f[o_f1 + k]
                    },
                );
                k = k + 1;
            }
        },
        _ => {
            let mut it_p = layout.strided_index();
            let mut it_t = layout_t.strided_index();
            let mut it_f = layout_f.strided_index();
            let ghost n = wcond_count(*layout, *layout_t, *layout_f) as int;
            let mut done: bool = false;
            while !done
                invariant
                    it_p.wf(),
                    it_t.wf(),
                    it_f.wf(),
                    it_p.layout == layout,
                    it_t.layout == layout_t,
                    it_f.layout == layout_f,
                    n == wcond_count(*layout, *layout_t, *layout_f),
                    layout.prefix_within(n, pred@.len() as int),
                    forall|k: int|
                        0 <= k < n && element(pred@, *layout, k) > 0
                            ==> #[trigger] layout_t.index(k) < t@.len(),
                    forall|k: int|
                        0 <= k < n && element(pred@, *layout, k) == 0
                            ==> #[trigger] layout_f.index(k) < f@.len(),
                    !done ==> it_p.taken() == r@.len() && it_t.taken() == r@.len() && it_f.taken()
                        == r@.len(),
                    r@.len() <= n,
                    done ==> r@.len() == n,
                    forall|j: int|
                        0 <= j < r@.len() ==> #[trigger] r@[j] == selected(
                            element(pred@, *layout, j),
                            element(t@, *layout_t, j),
                            element(f@, *layout_f, j),
                        ),
                decreases n - r@.len(), !done as int,
            {
                let ghost k = r@.len() as int;
                match (it_p.next(), it_t.next(), it_f.next()) {
                    (Some(i_p), Some(i_t), Some(i_f)) => {
                        assert(i_p == layout.index(k) && i_t == layout_t.index(k) && i_f
                            == layout_f.index(k));
                        assert(element(pred@, *layout, k) == pred@[i_p as int]);
                        r.push(
                            if pred[i_p] > 0 {
                                t[i_t]
                            } else {
                                f[i_f]
                            },
                        );
                    },
                    _ => {
                        done = true;
                    },
                }
            }
        },
    }
    r
}

/// Applies `f` to the elements of an array, in row-major order.
pub fn unary_map<T: Copy, U: Copy, F: Fn(T) -> U>(vs: &[T], layout: &Layout, f: F) -> (r: Vec<U>)
    requires
        layout.wf(),
        layout.within(vs@.len() as int),
        forall|k: int|
            0 <= k < layout.count() ==> call_requires(f, (#[trigger] element(vs@, *layout, k),)),
    ensures
        mapped(vs@, *layout, |v: T, u: U| call_ensures(f, (v,), u), r@),
{
    let mut r: Vec<U> = Vec::new();
    let ghost n = layout.count() as int;
    match layout.contiguous_offsets() {
        Some((o1, o2)) => {
            proof {
                layout::lemma_contiguous_end(*layout);
            }
            for i in o1..o2
                invariant
                    n == layout.count(),
                    o1 == layout.start_offset,
                    o1 + n == o2 <= vs@.len(),
                    i == o1 + r@.len(),
                    forall|j: int| 0 <= j < n ==> #[trigger] layout.index(j) == o1 + j,
                    forall|k: int|
                        0 <= k < n ==> call_requires(f, (#[trigger] element(vs@, *layout, k),)),
                    forall|j: int|
                        0 <= j < r@.len() ==> call_ensures(
                            f,
                            (element(vs@, *layout, j),),
                            #[trigger] r@[j],
                        ),
            {
                assert(layout.index(i - o1) == i);
                assert(element(vs@, *layout, i - o1) == vs@[i as int]);
                r.push(f(vs[i]));
            }
        },
        None => {
            let mut it = layout.strided_index();
            let mut done: bool = false;
            while !done
                invariant
                    it.wf(),
                    it.layout == layout,
                    n == layout.count(),
                    layout.prefix_within(n, vs@.len() as int),
                    it.taken() == r@.len() <= n,
                    done ==> r@.len() == n,
                    forall|k: int|
                        0 <= k < n ==> call_requires(f, (#[trigger] element(vs@, *layout, k),)),
                    forall|j: int|
                        0 <= j < r@.len() ==> call_ensures(
                            f,
                            (element(vs@, *layout, j),),
                            #[trigger] r@[j],
                        ),
                decreases n - r@.len(), !done as int,
            {
                let ghost k = r@.len() as int;
                match it.next() {
                    Some(i) => {
                        assert(i == layout.index(k));
                        assert(element(vs@, *layout, k) == vs@[i as int]);
                        r.push(f(vs[i]));
                    },
                    None => {
                        done = true;
                    },
                }
            }
        },
    }
    r
}

/// Applies `f` to the pairs of elements of two arrays, in row-major order, up to the end of the
/// shorter one.
pub fn binary_map<T: Copy, F: Fn(T, T) -> T>(
    lhs_l: &Layout,
    rhs_l: &Layout,
    lhs: &[T],
    rhs: &[T],
    f: F,
) -> (r: Vec<T>)
    requires
        lhs_l.wf(),
        rhs_l.wf(),
        pair_within(*lhs_l, lhs@.len(), *rhs_l, rhs@.len()),
        forall|k: int|
            0 <= k < min(lhs_l.count(), rhs_l.count()) ==> call_requires(
                f,
                (#[trigger] element(lhs@, *lhs_l, k), element(rhs@, *rhs_l, k)),
            ),
    ensures
        mapped2(lhs@, *lhs_l, rhs@, *rhs_l, |a: T, b: T, u: T| call_ensures(f, (a, b), u), r@),
{
    let mut r: Vec<T> = Vec::new();
    let ghost n = min(lhs_l.count(), rhs_l.count()) as int;
    match (lhs_l.contiguous_offsets(), rhs_l.contiguous_offsets()) {
        (Some((o_l1, o_l2)), Some((o_r1, o_r2))) => {
            proof {
                layout::lemma_contiguous_end(*lhs_l);
                layout::lemma_contiguous_end(*rhs_l);
            }
            let mut k: usize = 0;
            while k < o_l2 - o_l1 && k < o_r2 - o_r1
                invariant
                    n == min(lhs_l.count(), rhs_l.count()),
                    o_l1 == lhs_l.start_offset,
                    o_r1 == rhs_l.start_offset,
                    o_l1 + lhs_l.count() == o_l2 <= lhs@.len(),
                    o_r1 + rhs_l.count() == o_r2 <= rhs@.len(),
                    forall|j: int|
                        0 <= j < lhs_l.count() ==> #[trigger] lhs_l.index(j) == o_l1 + j,
                    forall|j: int|
                        0 <= j < rhs_l.count() ==> #[trigger] rhs_l.index(j) == o_r1 + j,
                    k == r@.len() <= n,
                    forall|k: int|
                        0 <= k < n ==> call_requires(
                            f,
                            (#[trigger] element(lhs@, *lhs_l, k), element(rhs@, *rhs_l, k)),
                        ),
                    forall|j: int|
                        0 <= j < r@.len() ==> call_ensures(
                            f,
                            (element(lhs@, *lhs_l, j), element(rhs@, *rhs_l, j)),
                            #[trigger] r@[j],
                        ),
                decreases o_l2 - o_l1 - k,
            {
                assert(lhs_l.index(k as int) == o_l1 + k);
                assert(rhs_l.index(k as int) == o_r1 + k);
                assert(element(lhs@, *lhs_l, k as int) == lhs@[o_l1 + k]);
                r.push(f(lhs[o_l1 + k], rhs[o_r1 + k]));
                k = k + 1;
            }
        },
        _ => {
            let mut it_l = lhs_l.strided_index();
            let mut it_r = rhs_l.strided_index();
            let mut done: bool = false;
            while !done
                invariant
                    it_l.wf(),
                    it_r.wf(),
                    it_l.layout == lhs_l,
                    it_r.layout == rhs_l,
                    n == min(lhs_l.count(), rhs_l.count()),
                    lhs_l.prefix_within(n, lhs@.len() as int),
                    rhs_l.prefix_within(n, rhs@.len() as int),
                    !done ==> it_l.taken() == r@.len() && it_r.taken() == r@.len(),
                    r@.len() <= n,
                    done ==> r@.len() == n,
                    forall|k: int|
                        0 <= k < n ==> call_requires(
                            f,
                            (#[trigger] element(lhs@, *lhs_l, k), element(rhs@, *rhs_l, k)),
                        ),
                    forall|j: int|
                        0 <= j < r@.len() ==> call_ensures(
                            f,
                            (element(lhs@, *lhs_l, j), element(rhs@, *rhs_l, j)),
                            #[trigger] r@[j],
                        ),
                decreases n - r@.len(), !done as int,
            {
                let ghost k = r@.len() as int;
                match (it_l.next(), it_r.next()) {
                    (Some(lhs_i), Some(rhs_i)) => {
                        assert(lhs_i == lhs_l.index(k) && rhs_i == rhs_l.index(k));
                        assert(element(lhs@, *lhs_l, k) == lhs@[lhs_i as int]);
                        r.push(f(lhs[lhs_i], rhs[rhs_i]));
                    },
                    _ => {
                        done = true;
                    },
                }
            }
        },
    }
    r
}

/// What a copy reads and writes stands in its storages: a contiguous source is copied as a slice,
/// which the destination must have room for; else the copy stops at the end of the destination.
pub open spec fn copy_within(src_len: nat, dst_len: nat, dst_offset: int, src_l: Layout) -> bool {
    if src_l.contiguous() {
        src_l.within(src_len as int) && dst_offset + src_l.count() <= dst_len
    } else {
        forall|k: int|
            0 <= k < src_l.count() && dst_offset + k < dst_len ==> #[trigger] src_l.index(k)
                < src_len
    }
}

/// Whether what a copy reads and writes stands in its storages.
pub fn copy_is_within(src_len: usize, dst_len: usize, dst_offset: usize, src_l: &Layout) -> (r: bool)
    requires
        src_l.wf(),
    ensures
        r == copy_within(src_len as nat, dst_len as nat, dst_offset as int, *src_l),
{
    let n: usize = src_l.shape.elem_count();
    if src_l.is_contiguous() {
        src_l.is_within(src_len) && dst_offset <= dst_len && n <= dst_len - dst_offset
    } else if dst_offset >= dst_len {
        true
    } else {
        let room: usize = smaller(n, dst_len - dst_offset);
        let r: bool = src_l.is_prefix_within(room, src_len);
        proof {
            if r {
                assert forall|k: int|
                    0 <= k < src_l.count() && dst_offset + k < dst_len implies #[trigger] src_l.index(k)
                    < src_len by {}
            } else {
                let k = choose|k: int| 0 <= k < room && #[trigger] src_l.index(k) >= src_len;
                assert(dst_offset + k < dst_len);
            }
        }
        r
    }
}

/// `dst` after a copy of the elements of an array, in row-major order, to the places from
/// `dst_offset` on; all other places are as they were.
pub open spec fn copied<T>(
    src: Seq<T>,
    src_l: Layout,
    dst_offset: int,
    before: Seq<T>,
    after: Seq<T>,
) -> bool {
    &&& after.len() == before.len()
    &&& forall|i: int|
        0 <= i < after.len() ==> #[trigger] after[i] == (if dst_offset <= i < dst_offset
            + src_l.count() {
            element(src, src_l, i - dst_offset)
        } else {
            before[i]
        })
}

/// Copies the elements of an array, in row-major order, to the places of `dst` from `dst_offset`
/// on.
pub fn copy_strided_src_<T: Copy>(src: &[T], dst: &mut [T], dst_offset: usize, src_l: &Layout)
    requires
        src_l.wf(),
        copy_within(src@.len(), old(dst)@.len(), dst_offset as int, *src_l),
    ensures
        copied(src@, *src_l, dst_offset as int, old(dst)@, final(dst)@),
{
    let ghost n = src_l.count() as int;
    match src_l.contiguous_offsets() {
        Some((o1, o2)) => {
            proof {
                layout::lemma_contiguous_end(*src_l);
            }
            for k in 0..o2 - o1
                invariant
                    n == src_l.count(),
                    o1 == src_l.start_offset,
                    o1 + n == o2 <= src@.len(),
                    dst_offset + n <= dst@.len(),
                    dst@.len() == old(dst)@.len(),
                    forall|j: int| 0 <= j < n ==> #[trigger] src_l.index(j) == o1 + j,
                    forall|i: int|
                        0 <= i < dst@.len() ==> #[trigger] dst@[i] == (if dst_offset <= i
                            < dst_offset + k {
                            element(src@, *src_l, i - dst_offset)
                        } else {
                            old(dst)@[i]
                        }),
            {
                assert(src_l.index(k as int) == o1 + k);
                assert(dst_offset + k < dst.len());
                dst[dst_offset + k] = src[o1 + k];
            }
        },
        None => {
            let mut it = src_l.strided_index();
            let mut dst_index: usize = dst_offset;
            let mut done: bool = false;
            while !done
                invariant
                    it.wf(),
                    it.layout == src_l,
                    n == src_l.count(),
                    dst@.len() == old(dst)@.len(),
                    forall|k: int|
                        0 <= k < n && dst_offset + k < dst@.len() ==> #[trigger] src_l.index(k)
                            < src@.len(),
                    !done ==> dst_index == dst_offset + it.taken(),
                    dst_offset <= dst_index <= dst_offset + n,
                    done ==> dst_index == dst_offset + n || dst_index >= dst@.len(),
                    forall|i: int|
                        0 <= i < dst@.len() ==> #[trigger] dst@[i] == (if dst_offset <= i
                            < dst_index {
                            element(src@, *src_l, i - dst_offset)
                        } else {
                            old(dst)@[i]
                        }),
                decreases dst_offset + n - dst_index, !done as int,
            {
                let ghost k = dst_index - dst_offset;
                match it.next() {
                    Some(src_index) => {
                        assert(src_index == src_l.index(k));
                        if dst_index >= dst.len() {
                            done = true;
                        } else {
                            dst[dst_index] = src[src_index];
                            dst_index = dst_index + 1;
                        }
                    },
                    None => {
                        done = true;
                    },
                }
            }
        },
    }
}

/// What was copied to a place can be read there as a contiguous array.
pub proof fn lemma_copy_read_back<T>(
    src: Seq<T>,
    src_l: Layout,
    dst_offset: int,
    before: Seq<T>,
    after: Seq<T>,
    l: Layout,
)
    requires
        copied(src, src_l, dst_offset, before, after),
        l.contiguous(),
        l.start_offset == dst_offset,
        l.count() == src_l.count(),
        l.within(after.len() as int),
    ensures
        forall|k: int|
            0 <= k < l.count() ==> #[trigger] element(after, l, k) == element(src, src_l, k),
{
    layout::lemma_contiguous_end(l);
    assert forall|k: int| 0 <= k < l.count() implies #[trigger] element(after, l, k) == element(
        src,
        src_l,
        k,
    ) by {
        assert(l.index(k) == dst_offset + k);
        assert(after[dst_offset + k] == element(src, src_l, k));
    }
}

/// To map an array and to map a contiguous copy of it is the same.
pub proof fn lemma_map_of_copy<T, U>(
    src: Seq<T>,
    src_l: Layout,
    dst_offset: int,
    before: Seq<T>,
    after: Seq<T>,
    l: Layout,
    f: spec_fn(T, U) -> bool,
    out: Seq<U>,
)
    requires
        copied(src, src_l, dst_offset, before, after),
        l.contiguous(),
        l.start_offset == dst_offset,
        l.count() == src_l.count(),
        l.within(after.len() as int),
    ensures
        mapped(after, l, f, out) <==> mapped(src, src_l, f, out),
{
    lemma_copy_read_back(src, src_l, dst_offset, before, after, l);
    assert forall|k: int| 0 <= k < l.count() implies f(element(after, l, k), #[trigger] out[k]) == f(
        element(src, src_l, k),
        out[k],
    ) by {
        assert(element(after, l, k) == element(src, src_l, k));
    }
}

/// To map an array with `f`, and the contiguous result with `g`, is to map the array with both.
pub proof fn lemma_map_of_map<T, U, V>(
    vs: Seq<T>,
    vs_l: Layout,
    f: spec_fn(T, U) -> bool,
    mid: Seq<U>,
    mid_l: Layout,
    g: spec_fn(U, V) -> bool,
    out: Seq<V>,
)
    requires
        mapped(vs, vs_l, f, mid),
        mid_l.contiguous(),
        mid_l.start_offset == 0,
        mid_l.count() == vs_l.count(),
        mapped(mid, mid_l, g, out),
    ensures
        mapped(vs, vs_l, |x: T, z: V| exists|y: U| #[trigger] f(x, y) && g(y, z), out),
{
    layout::lemma_contiguous_end(mid_l);
    let both = |x: T, z: V| exists|y: U| #[trigger] f(x, y) && g(y, z);
    assert forall|k: int| 0 <= k < out.len() implies both(element(vs, vs_l, k), #[trigger] out[k]) by {
        assert(mid_l.index(k) == k);
        assert(f(element(vs, vs_l, k), mid[k]));
        assert(g(mid[k], out[k]));
    }
}

/// A predicate without zeros selects everything from `t`, one of zeros everything from `f`.
pub proof fn lemma_constant_selection<T>(
    pred: Seq<u32>,
    layout: Layout,
    t: Seq<T>,
    layout_t: Layout,
    f: Seq<T>,
    layout_f: Layout,
    out: Seq<T>,
)
    requires
        selection(pred, layout, t, layout_t, f, layout_f, out),
    ensures
        (forall|k: int| 0 <= k < out.len() ==> #[trigger] element(pred, layout, k) > 0) ==> forall|
            k: int,
        |
            0 <= k < out.len() ==> #[trigger] out[k] == element(t, layout_t, k),
        (forall|k: int| 0 <= k < out.len() ==> #[trigger] element(pred, layout, k) == 0) ==> forall|
            k: int,
        |
            0 <= k < out.len() ==> #[trigger] out[k] == element(f, layout_f, k),
{
    assert forall|k: int| 0 <= k < out.len() implies #[trigger] out[k] == selected(
        element(pred, layout, k),
        element(t, layout_t, k),
        element(f, layout_f, k),
    ) by {}
}

} // verus!
