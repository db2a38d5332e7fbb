//! Products of batches of matrices.
use vstd::arithmetic::div_mod::*;
use vstd::arithmetic::mul::*;
use vstd::prelude::*;

use crate::error::Error;
use crate::layout;
use crate::layout::Layout;
use crate::numbers::{F16, F32, F64};
use crate::reduce;
use crate::shape;

verus! {

/// One product of an `m` by `k` matrix and a `k` by `n` matrix. The row strides `*_rs` and the
/// column strides `*_cs` are counted in elements. The left matrix starts at `lhs_offset` of its
/// storage, the right one at `rhs_offset`, and the product at the start of its block.
#[derive(Debug, Clone, Copy)]
pub struct GemmCall {
    pub m: usize,
    pub n: usize,
    pub k: usize,
    pub dst_rs: usize,
    pub dst_cs: usize,
    pub lhs_offset: usize,
    pub lhs_rs: usize,
    pub lhs_cs: usize,
    pub rhs_offset: usize,
    pub rhs_rs: usize,
    pub rhs_cs: usize,
}

impl GemmCall {
    /// Both matrices stand in storages of `lhs_len` and `rhs_len` elements.
    pub open spec fn in_bounds(self, lhs_len: int, rhs_len: int) -> bool {
        &&& self.lhs_offset <= lhs_len
        &&& self.rhs_offset <= rhs_len
        &&& self.m > 0 && self.k > 0 ==> self.lhs_offset + (self.m - 1) * self.lhs_rs + (self.k - 1)
            * self.lhs_cs < lhs_len
        &&& self.k > 0 && self.n > 0 ==> self.rhs_offset + (self.k - 1) * self.rhs_rs + (self.n - 1)
            * self.rhs_cs < rhs_len
    }
}

/// The matrix products that the program which uses this library supplies. Each hands out the block
/// of the product, row by row. Nothing is assumed of the block.
pub trait Gemm {
    /// The product of two matrices of `F16` entries.
    fn gemm_f16(lhs: &[F16], rhs: &[F16], call: GemmCall) -> Vec<F16>
        requires
            call.in_bounds(lhs@.len() as int, rhs@.len() as int),
    ;

    /// The product of two matrices of `F32` entries.
    fn gemm_f32(lhs: &[F32], rhs: &[F32], call: GemmCall) -> Vec<F32>
        requires
            call.in_bounds(lhs@.len() as int, rhs@.len() as int),
    ;

    /// The product of two matrices of `F64` entries.
    fn gemm_f64(lhs: &[F64], rhs: &[F64], call: GemmCall) -> Vec<F64>
        requires
            call.in_bounds(lhs@.len() as int, rhs@.len() as int),
    ;
}

/// Both batches hold one matrix after the other, or there is one matrix on each side.
pub open spec fn batch_striding(
    lhs_stride: Seq<usize>,
    rhs_stride: Seq<usize>,
    a_skip: int,
    b_skip: int,
) -> bool {
    lhs_stride.len() <= 2 || lhs_stride.len() == 3 && lhs_stride[0] == a_skip && rhs_stride[0]
        == b_skip
}

/// The product of the matrices number `step` of two batches.
pub open spec fn batch_call(
    m: usize,
    n: usize,
    k: usize,
    lhs_l: Layout,
    rhs_l: Layout,
    step: int,
) -> GemmCall {
    let rank = lhs_l.stride@.len() as int;
    GemmCall {
        m,
        n,
        k,
        dst_rs: n,
        dst_cs: 1,
        lhs_offset: (lhs_l.start_offset + step * (m * k)) as usize,
        lhs_rs: lhs_l.stride@[rank - 2],
        lhs_cs: lhs_l.stride@[rank - 1],
        rhs_offset: (rhs_l.start_offset + step * (n * k)) as usize,
        rhs_rs: rhs_l.stride@[rank - 2],
        rhs_cs: rhs_l.stride@[rank - 1],
    }
}

/// The matrices number `step` of two batches stand in storages of `lhs_len` and `rhs_len` elements.
pub open spec fn step_within(
    m: usize,
    n: usize,
    k: usize,
    lhs_l: Layout,
    lhs_len: int,
    rhs_l: Layout,
    rhs_len: int,
    step: int,
) -> bool {
    &&& lhs_l.start_offset + step * (m * k) <= lhs_len
    &&& rhs_l.start_offset + step * (n * k) <= rhs_len
    &&& batch_call(m, n, k, lhs_l, rhs_l, step).in_bounds(lhs_len, rhs_len)
}

/// The layouts of two batches of `b` matrices are those of matrices, every size fits in a `usize`,
/// and the batches stand in storages of `lhs_len` and `rhs_len` elements.
pub open spec fn matmul_within(
    bmnk: (usize, usize, usize, usize),
    lhs_l: Layout,
    lhs_len: int,
    rhs_l: Layout,
    rhs_len: int,
) -> bool {
    let (b, m, n, k) = bmnk;
    &&& 2 <= lhs_l.stride@.len() <= rhs_l.stride@.len()
    &&& m * k <= usize::MAX
    &&& n * k <= usize::MAX
    &&& m * n <= usize::MAX
    &&& lhs_l.start_offset <= lhs_len
    &&& rhs_l.start_offset <= rhs_len
    &&& batch_striding(lhs_l.stride@, rhs_l.stride@, m * k, n * k) ==> {
        &&& b * (m * n) <= usize::MAX
        &&& forall|step: int|
            0 <= step < b ==> #[trigger] step_within(m, n, k, lhs_l, lhs_len, rhs_l, rhs_len, step)
    }
}

/// Whether the entries of an `rows` by `cols` matrix that starts at `offset` of a storage of `len`
/// elements stand in it.
fn entries_are_within(
    offset: usize,
    rows: usize,
    rs: usize,
    cols: usize,
    cs: usize,
    len: usize,
) -> (r: bool)
    ensures
        r == (rows > 0 && cols > 0 ==> offset + (rows - 1) * rs + (cols - 1) * cs < len),
{
    if rows == 0 || cols == 0 {
        return true;
    }
    proof {
        lemma_mul_nonnegative(rows - 1, rs as int);
        lemma_mul_nonnegative(cols - 1, cs as int);
    }
    if let (Some(down), Some(right)) = ((rows - 1).checked_mul(rs), (cols - 1).checked_mul(cs)) {
        if let Some(corner) = offset.checked_add(down) {
            if let Some(last) = corner.checked_add(right) {
                return last < len;
            }
        }
    }
    false
}

/// Whether the sizes of two batches fit in a `usize` and the batches stand in their storages.
pub fn matmul_is_within(
    bmnk: (usize, usize, usize, usize),
    lhs_l: &Layout,
    lhs_len: usize,
    rhs_l: &Layout,
    rhs_len: usize,
) -> (r: bool)
    ensures
        r == matmul_within(bmnk, *lhs_l, lhs_len as int, *rhs_l, rhs_len as int),
{
    let (b, m, n, k) = bmnk;
    let rank: usize = lhs_l.stride.len();
    if rank < 2 || rhs_l.stride.len() < rank || lhs_l.start_offset > lhs_len || rhs_l.start_offset
        > rhs_len {
        return false;
    }
    let (a_skip, b_skip, c_skip) = match (m.checked_mul(k), n.checked_mul(k), m.checked_mul(n)) {
        (Some(a_skip), Some(b_skip), Some(c_skip)) => (a_skip, b_skip, c_skip),
        _ => {
            return false;
        },
    };
    if rank > 3 || rank == 3 && (lhs_l.stride[0] != a_skip || rhs_l.stride[0] != b_skip) {
        return true;
    }
    if b.checked_mul(c_skip).is_none() {
        return false;
    }
    let (lhs_rs, lhs_cs) = (lhs_l.stride[rank - 2], lhs_l.stride[rank - 1]);
    let (rhs_rs, rhs_cs) = (rhs_l.stride[rank - 2], rhs_l.stride[rank - 1]);
    let mut lhs_offset: usize = lhs_l.start_offset;
    let mut rhs_offset: usize = rhs_l.start_offset;
    let mut step: usize = 0;
    while step < b
        invariant
            bmnk == (b, m, n, k),
            a_skip == m * k,
            b_skip == n * k,
            c_skip == m * n,
            b * c_skip <= usize::MAX,
            2 <= rank == lhs_l.stride@.len() <= rhs_l.stride@.len(),
            lhs_rs == lhs_l.stride@[rank - 2],
            lhs_cs == lhs_l.stride@[rank - 1],
            rhs_rs == rhs_l.stride@[rank - 2],
            rhs_cs == rhs_l.stride@[rank - 1],
            batch_striding(lhs_l.stride@, rhs_l.stride@, m * k, n * k),
            lhs_l.start_offset <= lhs_len,
            rhs_l.start_offset <= rhs_len,
            step <= b,
            step < b ==> lhs_offset == lhs_l.start_offset + step * a_skip <= lhs_len,
            step < b ==> rhs_offset == rhs_l.start_offset + step * b_skip <= rhs_len,
            forall|s: int|
                0 <= s < step ==> #[trigger] step_within(
                    m,
                    n,
                    k,
                    *lhs_l,
                    lhs_len as int,
                    *rhs_l,
                    rhs_len as int,
                    s,
                ),
        decreases b - step,
    {
        let ok: bool = entries_are_within(lhs_offset, m, lhs_rs, k, lhs_cs, lhs_len)
            && entries_are_within(rhs_offset, k, rhs_rs, n, rhs_cs, rhs_len);
        assert(ok == step_within(
            m,
            n,
            k,
            *lhs_l,
            lhs_len as int,
            *rhs_l,
            rhs_len as int,
            step as int,
        ));
        if !ok {
            return false;
        }
        step = step + 1;
        if step < b {
            proof {
                lemma_mul_is_distributive_add_other_way(a_skip as int, step - 1, 1);
                lemma_mul_is_distributive_add_other_way(b_skip as int, step - 1, 1);
                lemma_mul_basics(a_skip as int);
                lemma_mul_basics(b_skip as int);
            }
            if a_skip > lhs_len - lhs_offset || b_skip > rhs_len - rhs_offset {
                assert(!step_within(
                    m,
                    n,
                    k,
                    *lhs_l,
                    lhs_len as int,
                    *rhs_l,
                    rhs_len as int,
                    step as int,
                ));
                return false;
            }
            lhs_offset = lhs_offset + a_skip;
            rhs_offset = rhs_offset + b_skip;
        }
    }
    true
}

/// The `n` places of a destination that was filled with `zero` before `block` was written to it.
pub open spec fn written<T>(block: Seq<T>, n: nat, zero: T) -> Seq<T> {
    Seq::new(
        n,
        |i: int|
            if i < block.len() {
                block[i]
            } else {
                zero
            },
    )
}

/// `dst` holds, one after the other, the blocks that `kernel` relates to the products of the
/// matrices of two batches.
pub open spec fn batch_product<T>(
    bmnk: (usize, usize, usize, usize),
    lhs_l: Layout,
    rhs_l: Layout,
    zero: T,
    kernel: spec_fn(GemmCall, Seq<T>) -> bool,
    dst: Seq<T>,
) -> bool {
    let (b, m, n, k) = bmnk;
    &&& dst.len() == b * (m * n)
    &&& forall|step: int|
        0 <= step < b ==> #[trigger] block_product(
            batch_call(m, n, k, lhs_l, rhs_l, step),
            zero,
            kernel,
            dst.subrange(step * (m * n), step * (m * n) + m * n),
        )
}

/// `block` is a destination of zeros to which a block was written that `kernel` relates to `call`.
pub open spec fn block_product<T>(
    call: GemmCall,
    zero: T,
    kernel: spec_fn(GemmCall, Seq<T>) -> bool,
    block: Seq<T>,
) -> bool {
    exists|out: Seq<T>| #[trigger]
        kernel(call, out) && block == written(out, (call.m * call.n) as nat, zero)
}

/// What one kernel allows, another one may allow too.
pub proof fn lemma_batch_product_weaken<T>(
    bmnk: (usize, usize, usize, usize),
    lhs_l: Layout,
    rhs_l: Layout,
    zero: T,
    strong: spec_fn(GemmCall, Seq<T>) -> bool,
    weak: spec_fn(GemmCall, Seq<T>) -> bool,
    dst: Seq<T>,
)
    requires
        batch_product(bmnk, lhs_l, rhs_l, zero, strong, dst),
        forall|c: GemmCall, out: Seq<T>| #[trigger] strong(c, out) ==> weak(c, out),
    ensures
        batch_product(bmnk, lhs_l, rhs_l, zero, weak, dst),
{
    let (b, m, n, k) = bmnk;
    assert forall|step: int| 0 <= step < b implies #[trigger] block_product(
        batch_call(m, n, k, lhs_l, rhs_l, step),
        zero,
        weak,
        dst.subrange(step * (m * n), step * (m * n) + m * n),
    ) by {
        let call = batch_call(m, n, k, lhs_l, rhs_l, step);
        let block = dst.subrange(step * (m * n), step * (m * n) + m * n);
        assert(block_product(call, zero, strong, block));
        let out = choose|out: Seq<T>| #[trigger]
            strong(call, out) && block == written(out, (call.m * call.n) as nat, zero);
        assert(weak(call, out));
    }
}

/// Multiplies two batches of `b` matrices, `m` by `k` and `k` by `n`, with `kernel`.
pub fn matmul<T: Copy, G: Fn(&[T], &[T], GemmCall) -> Vec<T>>(
    lhs: &[T],
    rhs: &[T],
    bmnk: (usize, usize, usize, usize),
    lhs_l: &Layout,
    rhs_l: &Layout,
    zero: T,
    kernel: G,
) -> (r: Result<Vec<T>, Error>)
    requires
        matmul_within(bmnk, *lhs_l, lhs@.len() as int, *rhs_l, rhs@.len() as int),
        forall|c: GemmCall|
            c.in_bounds(lhs@.len() as int, rhs@.len() as int) ==> #[trigger] call_requires(
                kernel,
                (lhs, rhs, c),
            ),
    ensures
        match r {
            Ok(dst) => {
                &&& batch_striding(
                    lhs_l.stride@,
                    rhs_l.stride@,
                    bmnk.1 * bmnk.3,
                    bmnk.2 * bmnk.3,
                )
                &&& batch_product(
                    bmnk,
                    *lhs_l,
                    *rhs_l,
                    zero,
                    |c: GemmCall, out: Seq<T>|
                        exists|block: Vec<T>| #[trigger]
                            call_ensures(kernel, (lhs, rhs, c), block) && block@ == out,
                    dst@,
                )
            },
            Err(e) => !batch_striding(
                lhs_l.stride@,
                rhs_l.stride@,
                bmnk.1 * bmnk.3,
                bmnk.2 * bmnk.3,
            ) && e == Error::UnexpectedStriding,
        },
{
    let (b, m, n, k) = bmnk;
    let a_skip: usize = m * k;
    let b_skip: usize = n * k;
    let c_skip: usize = m * n;
    let rank: usize = lhs_l.stride.len();
    if rank > 2 {
        if rank != 3 || lhs_l.stride[0] != a_skip || rhs_l.stride[0] != b_skip {
            return Err(Error::UnexpectedStriding);
        }
    }
    let lhs_cs: usize = lhs_l.stride[rank - 1];
    let lhs_rs: usize = lhs_l.stride[rank - 2];
    let rhs_cs: usize = rhs_l.stride[rank - 1];
    let rhs_rs: usize = rhs_l.stride[rank - 2];
    let ghost rel = |c: GemmCall, out: Seq<T>|
        exists|block: Vec<T>| #[trigger]
            call_ensures(kernel, (lhs, rhs, c), block) && block@ == out;
    let mut dst: Vec<T> = reduce::filled(zero, b * c_skip);
    for step in 0..b
        invariant
            bmnk == (b, m, n, k),
            matmul_within(bmnk, *lhs_l, lhs@.len() as int, *rhs_l, rhs@.len() as int),
            batch_striding(lhs_l.stride@, rhs_l.stride@, m * k, n * k),
            a_skip == m * k,
            b_skip == n * k,
            c_skip == m * n,
            rank == lhs_l.stride@.len(),
            lhs_cs == lhs_l.stride@[rank - 1],
            lhs_rs == lhs_l.stride@[rank - 2],
            rhs_cs == rhs_l.stride@[rank - 1],
            rhs_rs == rhs_l.stride@[rank - 2],
            rel == (|c: GemmCall, out: Seq<T>|
                exists|block: Vec<T>| #[trigger]
                    call_ensures(kernel, (lhs, rhs, c), block) && block@ == out),
            forall|c: GemmCall|
                c.in_bounds(lhs@.len() as int, rhs@.len() as int) ==> #[trigger] call_requires(
                    kernel,
                    (lhs, rhs, c),
                ),
            dst@.len() == b * (m * n),
            forall|i: int| step * (m * n) <= i < dst@.len() ==> dst@[i] == zero,
            forall|s: int|
                0 <= s < step ==> #[trigger] block_product(
                    batch_call(m, n, k, *lhs_l, *rhs_l, s),
                    zero,
                    rel,
                    dst@.subrange(s * (m * n), s * (m * n) + m * n),
                ),
    {
        let ghost spec_call = batch_call(m, n, k, *lhs_l, *rhs_l, step as int);
        proof {
            assert(step_within(
                m,
                n,
                k,
                *lhs_l,
                lhs@.len() as int,
                *rhs_l,
                rhs@.len() as int,
                step as int,
            ));
            assert(lhs.len() == lhs@.len());
            assert(rhs.len() == rhs@.len());
            lemma_mul_nonnegative(step as int, a_skip as int);
            lemma_mul_nonnegative(step as int, b_skip as int);
            lemma_mul_nonnegative(step as int, c_skip as int);
            lemma_mul_inequality(step + 1, b as int, c_skip as int);
            lemma_mul_is_distributive_add_other_way(c_skip as int, step as int, 1);
        }
        let call = GemmCall {
            m,
            n,
            k,
            dst_rs: n,
            dst_cs: 1,
            lhs_offset: lhs_l.start_offset + step * a_skip,
            lhs_rs,
            lhs_cs,
            rhs_offset: rhs_l.start_offset + step * b_skip,
            rhs_rs,
            rhs_cs,
        };
        assert(call == spec_call);
        let block: Vec<T> = kernel(lhs, rhs, call);
        let from: usize = step * c_skip;
        let ghost before = dst@;
        let count: usize = if block.len() < c_skip {
            block.len()
        } else {
            c_skip
        };
        let len: usize = dst.len();
        assert(from == step * (m * n));
        assert((step + 1) * (m * n) == from + c_skip <= len);
        for i in 0..count
            invariant
                len == dst@.len(),
                count <= block@.len(),
                count <= c_skip,
                from + c_skip <= dst@.len(),
                dst@.len() == before.len(),
                forall|j: int| from <= j < from + i ==> dst@[j] == block@[j - from],
                forall|j: int|
                    0 <= j < dst@.len() && !(from <= j < from + i) ==> dst@[j] == before[j],
        {
            dst.set(from + i, block[i]);
        }
        proof {
            let tile = dst@.subrange(step * (m * n), step * (m * n) + m * n);
            assert(rel(spec_call, block@));
            assert forall|i: int| 0 <= i < c_skip implies tile[i] == written(
                block@,
                c_skip as nat,
                zero,
            )[i] by {
                assert(tile[i] == dst@[from + i]);
                if i >= count {
                    assert(before[from + i] == zero);
                }
            }
            assert(tile =~= written(block@, (spec_call.m * spec_call.n) as nat, zero));
            assert(block_product(spec_call, zero, rel, tile));
            assert forall|i: int| (step + 1) * (m * n) <= i < dst@.len() implies dst@[i] == zero by {
                assert(before[i] == zero);
            }
            assert forall|s: int| 0 <= s < step + 1 implies #[trigger] block_product(
                batch_call(m, n, k, *lhs_l, *rhs_l, s),
                zero,
                rel,
                dst@.subrange(s * (m * n), s * (m * n) + m * n),
            ) by {
                if s < step {
                    let c = m * n;
                    assert(0 <= s * c && s * c + c <= step * c) by (nonlinear_arith)
                        requires
                            0 <= s,
                            s + 1 <= step,
                            0 <= c,
                    ;
                    assert(dst@.subrange(s * (m * n), s * (m * n) + m * n) =~= before.subrange(
                        s * (m * n),
                        s * (m * n) + m * n,
                    ));
                }
            }
        }
    }
    Ok(dst)
}

/// Every entry of both matrices stands in its storage.
pub proof fn lemma_entries_in_bounds(
    call: GemmCall,
    lhs_len: int,
    rhs_len: int,
    i: nat,
    j: nat,
    p: nat,
)
    requires
        call.in_bounds(lhs_len, rhs_len),
        i < call.m,
        j < call.n,
        p < call.k,
    ensures
        call.lhs_offset + i * call.lhs_rs + p * call.lhs_cs < lhs_len,
        call.rhs_offset + p * call.rhs_rs + j * call.rhs_cs < rhs_len,
{
    lemma_mul_inequality(i as int, call.m - 1, call.lhs_rs as int);
    lemma_mul_inequality(p as int, call.k - 1, call.lhs_cs as int);
    lemma_mul_inequality(p as int, call.k - 1, call.rhs_rs as int);
    lemma_mul_inequality(j as int, call.n - 1, call.rhs_cs as int);
}

/// Every place of the destination is the entry of one product: the blocks leave out none and do not
/// overlap.
pub proof fn lemma_blocks_cover(b: nat, m: nat, n: nat, x: nat)
    requires
        x < b * (m * n),
    ensures
        exists|step: int|
            0 <= step < b && #[trigger] (step * (m * n)) <= x < step * (m * n) + m * n,
        forall|s: int, t: int|
            #![trigger s * (m * n), t * (m * n)]
            s * (m * n) <= x < s * (m * n) + m * n && t * (m * n) <= x < t * (m * n) + m * n
                ==> s == t,
{
    let block = (m * n) as int;
    assert(block > 0) by (nonlinear_arith)
        requires
            x < b * block,
            b >= 0,
            x >= 0,
            block >= 0,
    ;
    let step = x as int / block;
    lemma_fundamental_div_mod(x as int, block);
    lemma_mul_is_commutative(block, step);
    lemma_mul_is_commutative(b as int, block);
    lemma_multiply_divide_lt(x as int, block, b as int);
    lemma_div_pos_is_pos(x as int, block);
    assert(0 <= step < b && step * (m * n) <= x < step * (m * n) + m * n);
    assert forall|s: int, t: int|
        #![trigger s * (m * n), t * (m * n)]
        s * (m * n) <= x < s * (m * n) + m * n && t * (m * n) <= x < t * (m * n) + m
            * n implies s == t by {
        lemma_fundamental_div_mod_converse(x as int, block, s, x - s * block);
        lemma_fundamental_div_mod_converse(x as int, block, t, x - t * block);
    }
}

/// The entry in row `i` and column `j` of a matrix.
proof fn lemma_entry(l: Layout, len: int, rows: usize, cols: usize, i: usize, j: usize)
    requires
        l.wf(),
        l.within(len),
        l.shape.dims@ == seq![rows, cols],
        i < rows,
        j < cols,
    ensures
        l.start_offset + i * l.stride@[0] + j * l.stride@[1] < len,
        l.start_offset + i * l.stride@[0] + j * l.stride@[1] < usize::MAX,
        rows * cols <= usize::MAX,
{
    let (dims, coords) = (l.shape.dims@, seq![i, j]);
    assert(layout::valid_coords(dims, coords));
    layout::lemma_element_within(l, len, coords);
    let (c, s) = (coords.drop_last(), l.stride@.drop_last());
    assert(layout::dot(c.drop_last(), s.drop_last()) == 0);
    assert(layout::dot(c, s) == i * l.stride@[0]);
    assert(layout::dot(coords, l.stride@) == i * l.stride@[0] + j * l.stride@[1]);
    shape::lemma_product_le_span(dims);
    lemma_two(dims);
}

/// The entry in row `i` and column `j` of matrix number `step` of a batch.
proof fn lemma_batch_entry(
    l: Layout,
    len: int,
    b: usize,
    rows: usize,
    cols: usize,
    step: usize,
    i: usize,
    j: usize,
)
    requires
        l.wf(),
        l.within(len),
        l.shape.dims@ == seq![b, rows, cols],
        step < b,
        i < rows,
        j < cols,
    ensures
        l.start_offset + step * l.stride@[0] + i * l.stride@[1] + j * l.stride@[2] < len,
        l.start_offset + step * l.stride@[0] + i * l.stride@[1] + j * l.stride@[2] < usize::MAX,
        rows * cols <= usize::MAX,
{
    let (dims, coords) = (l.shape.dims@, seq![step, i, j]);
    assert(layout::valid_coords(dims, coords));
    layout::lemma_element_within(l, len, coords);
    let (c, s) = (coords.drop_last(), l.stride@.drop_last());
    let (c0, s0) = (c.drop_last(), s.drop_last());
    assert(layout::dot(c0.drop_last(), s0.drop_last()) == 0);
    assert(layout::dot(c0, s0) == step * l.stride@[0]);
    assert(layout::dot(c, s) == step * l.stride@[0] + i * l.stride@[1]);
    assert(layout::dot(coords, l.stride@) == step * l.stride@[0] + i * l.stride@[1] + j
        * l.stride@[2]);
    shape::lemma_product_of_run_le_span(dims, 1, 3);
    lemma_two(dims.subrange(1, 3));
}

proof fn lemma_two(dims: Seq<usize>)
    requires
        dims.len() == 2,
    ensures
        shape::product(dims) == dims[0] * dims[1],
{
    let d = dims.drop_last();
    assert(shape::product(d.drop_last()) == 1);
    assert(shape::product(d) == 1 * d.last() as nat);
}

/// Batches of matrices with entries, which stand in their storages, can be multiplied: `lhs_l` is the
/// layout of an array of `b` matrices with `m` rows and `k` columns, `rhs_l` of one with `k` rows and
/// `n` columns, or both of single matrices.
pub proof fn lemma_arrays_within(
    bmnk: (usize, usize, usize, usize),
    lhs_l: Layout,
    lhs_len: int,
    rhs_l: Layout,
    rhs_len: int,
)
    requires
        lhs_l.wf(),
        rhs_l.wf(),
        lhs_l.within(lhs_len),
        rhs_l.within(rhs_len),
        bmnk.0 > 0,
        bmnk.1 > 0,
        bmnk.2 > 0,
        bmnk.3 > 0,
        bmnk.0 * (bmnk.1 * bmnk.2) <= usize::MAX,
        ({
            let (b, m, n, k) = bmnk;
            ||| lhs_l.shape.dims@ == seq![b, m, k] && rhs_l.shape.dims@ == seq![b, k, n]
            ||| b == 1 && lhs_l.shape.dims@ == seq![m, k] && rhs_l.shape.dims@ == seq![k, n]
        }),
    ensures
        matmul_within(bmnk, lhs_l, lhs_len, rhs_l, rhs_len),
{
    let (b, m, n, k) = bmnk;
    assert(m * n <= b * (m * n)) by (nonlinear_arith)
        requires
            b >= 1,
    ;
    lemma_mul_is_commutative(n as int, k as int);
    let (ls, rs) = (lhs_l.stride@, rhs_l.stride@);
    if lhs_l.shape.dims@.len() == 2 {
        lemma_entry(lhs_l, lhs_len, m, k, 0, 0);
        lemma_entry(rhs_l, rhs_len, k, n, 0, 0);
        assert forall|step: int| 0 <= step < b implies #[trigger] step_within(
            m,
            n,
            k,
            lhs_l,
            lhs_len,
            rhs_l,
            rhs_len,
            step,
        ) by {
            lemma_entry(lhs_l, lhs_len, m, k, (m - 1) as usize, (k - 1) as usize);
            lemma_entry(rhs_l, rhs_len, k, n, (k - 1) as usize, (n - 1) as usize);
            lemma_mul_basics(m * k);
            lemma_mul_basics(n * k);
        }
    } else {
        lemma_batch_entry(lhs_l, lhs_len, b, m, k, 0, 0, 0);
        lemma_batch_entry(rhs_l, rhs_len, b, k, n, 0, 0, 0);
        if batch_striding(ls, rs, m * k, n * k) {
            assert forall|step: int| 0 <= step < b implies #[trigger] step_within(
            m,
            n,
            k,
            lhs_l,
            lhs_len,
            rhs_l,
            rhs_len,
            step,
        ) by {
                lemma_batch_entry(lhs_l, lhs_len, b, m, k, step as usize, 0, 0);
                lemma_batch_entry(rhs_l, rhs_len, b, k, n, step as usize, 0, 0);
                lemma_batch_entry(
                    lhs_l,
                    lhs_len,
                    b,
                    m,
                    k,
                    step as usize,
                    (m - 1) as usize,
                    (k - 1) as usize,
                );
                lemma_batch_entry(
                    rhs_l,
                    rhs_len,
                    b,
                    k,
                    n,
                    step as usize,
                    (k - 1) as usize,
                    (n - 1) as usize,
                );
            }
        }
    }
}

/// The striding of contiguous batches is the expected one.
pub proof fn lemma_contiguous_batches(
    bmnk: (usize, usize, usize, usize),
    lhs_l: Layout,
    rhs_l: Layout,
)
    requires
        lhs_l.contiguous(),
        rhs_l.contiguous(),
        lhs_l.shape.dims@ == seq![bmnk.0, bmnk.1, bmnk.3],
        rhs_l.shape.dims@ == seq![bmnk.0, bmnk.3, bmnk.2],
    ensures
        batch_striding(lhs_l.stride@, rhs_l.stride@, bmnk.1 * bmnk.3, bmnk.2 * bmnk.3),
{
    let (d, e) = (lhs_l.shape.dims@, rhs_l.shape.dims@);
    assert(lhs_l.stride@[0] == shape::row_major_stride(d, 0));
    assert(rhs_l.stride@[0] == shape::row_major_stride(e, 0));
    lemma_two(d.skip(1));
    lemma_two(e.skip(1));
    lemma_mul_is_commutative(bmnk.2 as int, bmnk.3 as int);
}

/// `one` starts `skip` elements later than `l` and has the same strides.
pub open spec fn starts_later(l: Layout, skip: int, one: Layout) -> bool {
    one.stride@ == l.stride@ && one.start_offset == l.start_offset + skip
}

proof fn lemma_block_of_batch<T>(
    bmnk: (usize, usize, usize, usize),
    lhs_l: Layout,
    rhs_l: Layout,
    zero: T,
    kernel: spec_fn(GemmCall, Seq<T>) -> bool,
    dst: Seq<T>,
    step: int,
)
    requires
        batch_product(bmnk, lhs_l, rhs_l, zero, kernel, dst),
        0 <= step < bmnk.0,
    ensures
        block_product(
            batch_call(bmnk.1, bmnk.2, bmnk.3, lhs_l, rhs_l, step),
            zero,
            kernel,
            dst.subrange(step * (bmnk.1 * bmnk.2), step * (bmnk.1 * bmnk.2) + bmnk.1 * bmnk.2),
        ),
{
}

/// A single product is what a batch has at one step.
proof fn lemma_single_product<T>(
    bmnk: (usize, usize, usize, usize),
    lhs_l: Layout,
    rhs_l: Layout,
    step: int,
    lhs_one: Layout,
    rhs_one: Layout,
    zero: T,
    kernel: spec_fn(GemmCall, Seq<T>) -> bool,
    block: Seq<T>,
)
    requires
        starts_later(lhs_l, step * (bmnk.1 * bmnk.3), lhs_one),
        starts_later(rhs_l, step * (bmnk.2 * bmnk.3), rhs_one),
        block.len() == bmnk.1 * bmnk.2,
    ensures
        batch_product((1, bmnk.1, bmnk.2, bmnk.3), lhs_one, rhs_one, zero, kernel, block)
            <==> block_product(
            batch_call(bmnk.1, bmnk.2, bmnk.3, lhs_l, rhs_l, step),
            zero,
            kernel,
            block,
        ),
{
    let (_, m, n, k) = bmnk;
    let size = m * n;
    assert(batch_call(m, n, k, lhs_one, rhs_one, 0) == batch_call(m, n, k, lhs_l, rhs_l, step)) by {
        lemma_mul_basics(m * k);
        lemma_mul_basics(n * k);
    }
    lemma_mul_basics(size);
    assert(block.subrange(0 * size, 0 * size + size) =~= block);
    if block_product(batch_call(m, n, k, lhs_l, rhs_l, step), zero, kernel, block) {
        assert forall|s: int| 0 <= s < 1 implies #[trigger] block_product(
            batch_call(m, n, k, lhs_one, rhs_one, s),
            zero,
            kernel,
            block.subrange(s * (m * n), s * (m * n) + m * n),
        ) by {
            assert(s == 0);
        }
    }
    if batch_product((1, m, n, k), lhs_one, rhs_one, zero, kernel, block) {
        lemma_block_of_batch((1, m, n, k), lhs_one, rhs_one, zero, kernel, block, 0);
    }
}

/// The products of two batches do not influence each other: each block is a product of its own, of
/// the single matrices that start `step * m * k` and `step * n * k` elements later.
pub proof fn lemma_batch_of_products<T>(
    bmnk: (usize, usize, usize, usize),
    lhs_l: Layout,
    rhs_l: Layout,
    lhs_ones: Seq<Layout>,
    rhs_ones: Seq<Layout>,
    zero: T,
    kernel: spec_fn(GemmCall, Seq<T>) -> bool,
    dst: Seq<T>,
)
    requires
        lhs_ones.len() == bmnk.0,
        rhs_ones.len() == bmnk.0,
        forall|step: int|
            0 <= step < bmnk.0 ==> starts_later(
                lhs_l,
                step * (bmnk.1 * bmnk.3),
                #[trigger] lhs_ones[step],
            ),
        forall|step: int|
            0 <= step < bmnk.0 ==> starts_later(
                rhs_l,
                step * (bmnk.2 * bmnk.3),
                #[trigger] rhs_ones[step],
            ),
    ensures
        batch_product(bmnk, lhs_l, rhs_l, zero, kernel, dst) <==> {
            &&& dst.len() == bmnk.0 * (bmnk.1 * bmnk.2)
            &&& forall|step: int|
                0 <= step < bmnk.0 ==> batch_product(
                    (1, bmnk.1, bmnk.2, bmnk.3),
                    #[trigger] lhs_ones[step],
                    rhs_ones[step],
                    zero,
                    kernel,
                    dst.subrange(
                        step * (bmnk.1 * bmnk.2),
                        step * (bmnk.1 * bmnk.2) + bmnk.1 * bmnk.2,
                    ),
                )
        },
{
    let (b, m, n, k) = bmnk;
    if dst.len() == b * (m * n) {
        assert forall|step: int| 0 <= step < b implies (batch_product(
            (1, m, n, k),
            #[trigger] lhs_ones[step],
            rhs_ones[step],
            zero,
            kernel,
            dst.subrange(step * (m * n), step * (m * n) + m * n),
        ) <==> block_product(
            batch_call(m, n, k, lhs_l, rhs_l, step),
            zero,
            kernel,
            dst.subrange(step * (m * n), step * (m * n) + m * n),
        )) by {
            lemma_block_in_range(b as int, m * n, step);
            lemma_single_product(
                bmnk,
                lhs_l,
                rhs_l,
                step,
                lhs_ones[step],
                rhs_ones[step],
                zero,
                kernel,
                dst.subrange(step * (m * n), step * (m * n) + m * n),
            );
        }
        if batch_product(bmnk, lhs_l, rhs_l, zero, kernel, dst) {
            assert forall|step: int| 0 <= step < b implies batch_product(
                (1, m, n, k),
                #[trigger] lhs_ones[step],
                rhs_ones[step],
                zero,
                kernel,
                dst.subrange(step * (m * n), step * (m * n) + m * n),
            ) by {
                lemma_block_of_batch(bmnk, lhs_l, rhs_l, zero, kernel, dst, step);
            }
        }
        if forall|step: int|
            0 <= step < b ==> batch_product(
                (1, m, n, k),
                #[trigger] lhs_ones[step],
                rhs_ones[step],
                zero,
                kernel,
                dst.subrange(step * (m * n), step * (m * n) + m * n),
            ) {
            assert forall|step: int| 0 <= step < b implies #[trigger] block_product(
                batch_call(m, n, k, lhs_l, rhs_l, step),
                zero,
                kernel,
                dst.subrange(step * (m * n), step * (m * n) + m * n),
            ) by {
                assert(starts_later(lhs_l, step * (m * k), lhs_ones[step]));
            }
        }
    }
}

proof fn lemma_block_in_range(b: int, size: int, step: int)
    requires
        0 <= step < b,
        0 <= size,
    ensures
        0 <= step * size,
        step * size + size <= b * size,
{
    lemma_mul_nonnegative(step, size);
    lemma_mul_inequality(step + 1, b, size);
    lemma_mul_is_distributive_add_other_way(size, step, 1);
    lemma_mul_basics(size);
}

/// The blocks of sequences of `size` items that were joined.
proof fn lemma_flatten_blocks<T>(parts: Seq<Seq<T>>, size: int)
    requires
        0 <= size,
        forall|s: int| 0 <= s < parts.len() ==> (#[trigger] parts[s]).len() == size,
    ensures
        parts.flatten().len() == parts.len() * size,
        forall|s: int|
            0 <= s < parts.len() ==> parts.flatten().subrange(s * size, s * size + size)
                == #[trigger] parts[s],
    decreases parts.len(),
{
    let all = parts.flatten();
    let n = parts.len() as int;
    if n == 0 {
        lemma_mul_basics(size);
    } else {
        let rest = parts.drop_first();
        assert forall|s: int| 0 <= s < rest.len() implies (#[trigger] rest[s]).len() == size by {
            assert(parts[s + 1].len() == size);
        }
        lemma_flatten_blocks(rest, size);
        assert(all == parts[0] + rest.flatten());
        lemma_mul_is_distributive_add_other_way(size, n - 1, 1);
        lemma_mul_basics(size);
        assert forall|s: int| 0 <= s < n implies all.subrange(s * size, s * size + size)
            == #[trigger] parts[s] by {
            lemma_block_in_range(n, size, s);
            if s == 0 {
                assert(all.subrange(0, size) =~= parts[0]);
            } else {
                lemma_block_in_range(n - 1, size, s - 1);
                lemma_mul_is_distributive_add_other_way(size, s - 1, 1);
                let t = (s - 1) * size;
                assert(rest.flatten().subrange(t, t + size) == rest[s - 1]);
                assert(all.subrange(s * size, s * size + size) =~= rest.flatten().subrange(
                    t,
                    t + size,
                ));
            }
        }
    }
}

/// The product of two batches is the products of their single matrices, joined in order.
pub proof fn lemma_batch_is_concatenation<T>(
    bmnk: (usize, usize, usize, usize),
    lhs_l: Layout,
    rhs_l: Layout,
    lhs_ones: Seq<Layout>,
    rhs_ones: Seq<Layout>,
    zero: T,
    kernel: spec_fn(GemmCall, Seq<T>) -> bool,
    products: Seq<Seq<T>>,
)
    requires
        lhs_ones.len() == bmnk.0,
        rhs_ones.len() == bmnk.0,
        products.len() == bmnk.0,
        forall|step: int|
            0 <= step < bmnk.0 ==> starts_later(
                lhs_l,
                step * (bmnk.1 * bmnk.3),
                #[trigger] lhs_ones[step],
            ),
        forall|step: int|
            0 <= step < bmnk.0 ==> starts_later(
                rhs_l,
                step * (bmnk.2 * bmnk.3),
                #[trigger] rhs_ones[step],
            ),
        forall|step: int|
            0 <= step < bmnk.0 ==> batch_product(
                (1, bmnk.1, bmnk.2, bmnk.3),
                lhs_ones[step],
                rhs_ones[step],
                zero,
                kernel,
                #[trigger] products[step],
            ),
    ensures
        batch_product(bmnk, lhs_l, rhs_l, zero, kernel, products.flatten()),
{
    let (b, m, n, k) = bmnk;
    let dst = products.flatten();
    lemma_mul_nonnegative(m as int, n as int);
    lemma_mul_basics(m * n);
    assert forall|s: int| 0 <= s < products.len() implies (#[trigger] products[s]).len() == m * n by {
        assert(batch_product((1, m, n, k), lhs_ones[s], rhs_ones[s], zero, kernel, products[s]));
    }
    lemma_flatten_blocks(products, m * n);
    assert forall|step: int| 0 <= step < b implies batch_product(
        (1, m, n, k),
        #[trigger] lhs_ones[step],
        rhs_ones[step],
        zero,
        kernel,
        dst.subrange(step * (m * n), step * (m * n) + m * n),
    ) by {
        assert(products[step] == dst.subrange(step * (m * n), step * (m * n) + m * n));
    }
    lemma_batch_of_products(bmnk, lhs_l, rhs_l, lhs_ones, rhs_ones, zero, kernel, dst);
}

} // verus!
