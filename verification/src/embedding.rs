//! The selection of rows of a table.
use vstd::arithmetic::mul::*;
use vstd::prelude::*;

use crate::elementwise;
use crate::error::Error;
use crate::layout::Layout;

verus! {

/// A selection of rows of a table with `vocab_size` rows of `hidden_size` elements: the rows are
/// given by the array of numbers that stands in `ids` as `ids_l` says.
#[derive(Debug)]
pub struct Embedding<'a> {
    pub vocab_size: usize,
    pub hidden_size: usize,
    pub ids: &'a [u32],
    pub ids_l: &'a Layout,
}

/// The first `k` row numbers are numbers of rows of a table with `vocab_size` rows.
pub open spec fn valid_before(ids: Seq<u32>, ids_l: Layout, vocab_size: usize, k: int) -> bool {
    forall|j: int| 0 <= j < k ==> #[trigger] elementwise::element(ids, ids_l, j) < vocab_size
}

/// What a selection reads from `ids` and from a table that starts at `start` of a storage of `len`
/// elements stands there. The selection ends at the first number that is not one of a row.
pub open spec fn rows_within(
    ids: Seq<u32>,
    ids_l: Layout,
    vocab_size: usize,
    hidden_size: usize,
    start: int,
    len: int,
) -> bool {
    &&& start <= len
    &&& forall|k: int|
        0 <= k < ids_l.count() && valid_before(ids, ids_l, vocab_size, k) ==> #[trigger] ids_l.index(
            k,
        ) < ids.len()
    &&& forall|k: int|
        0 <= k < ids_l.count() && valid_before(ids, ids_l, vocab_size, k)
            && #[trigger] elementwise::element(ids, ids_l, k) < vocab_size ==> start + hidden_size * (
        elementwise::element(ids, ids_l, k) + 1) <= len
}

/// Whether what a selection reads stands in its storages.
pub fn rows_are_within(
    ids: &[u32],
    ids_l: &Layout,
    vocab_size: usize,
    hidden_size: usize,
    start: usize,
    len: usize,
) -> (r: bool)
    requires
        ids_l.wf(),
    ensures
        r == rows_within(
            ids@,
            *ids_l,
            vocab_size,
            hidden_size,
            start as int,
            len as int,
        ),
{
    if start > len {
        return false;
    }
    let n: usize = ids_l.shape.elem_count();
    let mut it = ids_l.strided_index();
    let mut k: usize = 0;
    while k < n
        invariant
            start <= len,
            n == ids_l.count(),
            it.wf(),
            it.layout == ids_l,
            it.taken() == k <= n,
            valid_before(ids@, *ids_l, vocab_size, k as int),
            forall|j: int| 0 <= j < k ==> #[trigger] ids_l.index(j) < ids@.len(),
            forall|j: int|
                0 <= j < k ==> start + hidden_size * (#[trigger] elementwise::element(
                    ids@,
                    *ids_l,
                    j,
                ) + 1) <= len,
        decreases n - k,
    {
        if let Some(i) = it.next() {
            assert(i == ids_l.index(k as int));
            if i >= ids.len() {
                return false;
            }
            assert(elementwise::element(ids@, *ids_l, k as int) == ids@[i as int]);
            let id: usize = ids[i] as usize;
            if id >= vocab_size {
                return true;
            }
            match hidden_size.checked_mul(id + 1) {
                Some(end) => {
                    if end > len - start {
                        return false;
                    }
                },
                None => {
                    return false;
                },
            }
        }
        k = k + 1;
    }
    true
}

/// `out` holds the first `n` selected rows of the table that starts at `start` of `vs`, one after
/// the other.
pub open spec fn rows<T>(
    ids: Seq<u32>,
    ids_l: Layout,
    hidden_size: usize,
    vs: Seq<T>,
    start: int,
    n: int,
    out: Seq<T>,
) -> bool {
    &&& out.len() == n * hidden_size
    &&& forall|k: int, h: int|
        0 <= k < n && 0 <= h < hidden_size ==> #[trigger] out[k * hidden_size + h] == vs[start
            + hidden_size * elementwise::element(ids, ids_l, k) + h]
}

/// `e` tells the first number that is not one of a row.
pub open spec fn first_invalid(ids: Seq<u32>, ids_l: Layout, vocab_size: usize, e: Error) -> bool {
    exists|k: int|
        {
            &&& 0 <= k < ids_l.count()
            &&& valid_before(ids, ids_l, vocab_size, k)
            &&& #[trigger] elementwise::element(ids, ids_l, k) >= vocab_size
            &&& e == (Error::InvalidIndex {
                index: elementwise::element(ids, ids_l, k) as usize,
                vocab_size,
                op: "take",
            })
        }
}

impl<'a> Embedding<'a> {
    /// Selects rows of the table that starts at the start of `layout` in `vs`.
    pub fn f<T: Copy>(&self, vs: &[T], layout: &Layout) -> (r: Result<Vec<T>, Error>)
        requires
            self.ids_l.wf(),
            rows_within(
                self.ids@,
                *self.ids_l,
                self.vocab_size,
                self.hidden_size,
                layout.start_offset as int,
                vs@.len() as int,
            ),
        ensures
            match r {
                Ok(out) => {
                    let n = self.ids_l.count() as int;
                    &&& valid_before(self.ids@, *self.ids_l, self.vocab_size, n)
                    &&& rows(
                        self.ids@,
                        *self.ids_l,
                        self.hidden_size,
                        vs@,
                        layout.start_offset as int,
                        n,
                        out@,
                    )
                },
                Err(e) => first_invalid(self.ids@, *self.ids_l, self.vocab_size, e),
            },
    {
        let start: usize = layout.start_offset;
        let hidden_size: usize = self.hidden_size;
        let mut values: Vec<T> = Vec::new();
        let mut it = self.ids_l.strided_index();
        let ghost n = self.ids_l.count() as int;
        let ghost ids = self.ids@;
        proof {
            lemma_mul_basics(hidden_size as int);
        }
        loop
            invariant
                it.wf(),
                it.layout == self.ids_l,
                n == self.ids_l.count(),
                start == layout.start_offset,
                hidden_size == self.hidden_size,
                rows_within(
                    ids,
                    *self.ids_l,
                    self.vocab_size,
                    hidden_size,
                    start as int,
                    vs@.len() as int,
                ),
                ids == self.ids@,
                it.taken() <= n,
                valid_before(ids, *self.ids_l, self.vocab_size, it.taken() as int),
                rows(
                    ids,
                    *self.ids_l,
                    hidden_size,
                    vs@,
                    start as int,
                    it.taken() as int,
                    values@,
                ),
            ensures
                it.taken() == n,
            decreases n - it.taken(),
        {
            let ghost k = it.taken() as int;
            match it.next() {
                None => {
                    break;
                },
                Some(i) => {
                    assert(i == self.ids_l.index(k));
                    assert(elementwise::element(ids, *self.ids_l, k) == self.ids@[i as int]);
                    let index: usize = self.ids[i] as usize;
                    if index >= self.vocab_size {
                        assert(elementwise::element(ids, *self.ids_l, k) >= self.vocab_size);
                        return Err(
                            Error::InvalidIndex { index, vocab_size: self.vocab_size, op: "take" },
                        );
                    }
                    proof {
                        assert(elementwise::element(ids, *self.ids_l, k) < self.vocab_size);
                        lemma_mul_is_distributive_add(hidden_size as int, index as int, 1);
                        lemma_mul_nonnegative(hidden_size as int, index as int);
                        assert(vs.len() == vs@.len());
                    }
                    let from: usize = start + hidden_size * index;
                    let ghost before = values@;
                    for h in 0..hidden_size
                        invariant
                            from == start + hidden_size * index,
                            from + hidden_size <= vs@.len(),
                            before.len() == k * hidden_size,
                            values@.len() == before.len() + h,
                            forall|j: int| 0 <= j < before.len() ==> values@[j] == before[j],
                            forall|j: int|
                                0 <= j < h ==> #[trigger] values@[before.len() + j] == vs@[from + j],
                    {
                        assert(from + h < vs.len());
                        values.push(vs[from + h]);
                    }
                    proof {
                        lemma_mul_is_distributive_add_other_way(hidden_size as int, k, 1);
                        assert forall|k2: int, h: int|
                            0 <= k2 < k + 1 && 0 <= h < hidden_size implies #[trigger] values@[k2
                            * hidden_size + h] == vs@[start + hidden_size * elementwise::element(ids, *self.ids_l, k2) + h] by {
                            if k2 < k {
                                assert(0 <= k2 * hidden_size + h < k * hidden_size)
                                    by (nonlinear_arith)
                                    requires
                                        0 <= k2,
                                        k2 + 1 <= k,
                                        0 <= h < hidden_size,
                                ;
                                assert(before[k2 * hidden_size + h] == vs@[start + hidden_size
                                    * elementwise::element(ids, *self.ids_l, k2) + h]);
                            } else {
                                assert(values@[before.len() + h] == vs@[from + h]);
                            }
                        }
                    }
                },
            }
        }
        Ok(values)
    }
}

/// A selection of rows fails only if one of its numbers is not that of a row, and there is only one
/// error that it can then fail with: the one that names the first such number.
pub proof fn lemma_first_invalid(
    ids: Seq<u32>,
    ids_l: Layout,
    vocab_size: usize,
    e1: Error,
    e2: Error,
)
    requires
        first_invalid(ids, ids_l, vocab_size, e1),
        first_invalid(ids, ids_l, vocab_size, e2),
    ensures
        !valid_before(ids, ids_l, vocab_size, ids_l.count() as int),
        e1 == e2,
{
    let k1 = choose|k: int|
        {
            &&& 0 <= k < ids_l.count()
            &&& valid_before(ids, ids_l, vocab_size, k)
            &&& #[trigger] elementwise::element(ids, ids_l, k) >= vocab_size
            &&& e1 == (Error::InvalidIndex {
                index: elementwise::element(ids, ids_l, k) as usize,
                vocab_size,
                op: "take",
            })
        };
    let k2 = choose|k: int|
        {
            &&& 0 <= k < ids_l.count()
            &&& valid_before(ids, ids_l, vocab_size, k)
            &&& #[trigger] elementwise::element(ids, ids_l, k) >= vocab_size
            &&& e2 == (Error::InvalidIndex {
                index: elementwise::element(ids, ids_l, k) as usize,
                vocab_size,
                op: "take",
            })
        };
    if k1 < k2 {
        assert(elementwise::element(ids, ids_l, k1) < vocab_size);
    }
    if k2 < k1 {
        assert(elementwise::element(ids, ids_l, k2) < vocab_size);
    }
}

} // verus!
