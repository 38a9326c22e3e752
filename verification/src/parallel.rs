//! The row-parallel kernels.

use vstd::prelude::*;
use vstd::arithmetic::div_mod::lemma_fundamental_div_mod;
use vstd::arithmetic::div_mod::lemma_fundamental_div_mod_converse;
use rayon::iter::IndexedParallelIterator;
use rayon::iter::ParallelIterator;
use rayon::slice::ParallelSliceMut;
use crate::kernel::accumulate_rows;
use crate::kernel::adds_product;
use crate::kernel::adds_rows;
use crate::kernel::product_onto;
use crate::kernel::rows_onto;
use crate::kernel::whole_rows;
use crate::partition::block_end;
use crate::partition::block_start;
use crate::partition::lemma_rows_per_worker_bounds;
use crate::partition::rows_per_worker;
use crate::partition::rows_per_worker_spec;
use crate::scalar::is_accumulate;
use crate::scalar::Scalar;

verus! {

/// Block `w` of a buffer cut into consecutive blocks of `block_len` elements,
/// the last of which holds what is left.
pub open spec fn block_of<T>(s: Seq<T>, block_len: nat, w: int) -> Seq<T> {
    s.subrange(
        w * block_len,
        if (w + 1) * block_len <= s.len() {
            (w + 1) * block_len
        } else {
            s.len() as int
        },
    )
}

/// The work of one worker: adds the product's rows to block `w` of the output,
/// whose first row is row `w * rows_per_block` of the matrix.
pub fn accumulate_block<T: Scalar>(a: &[T], b: &[T], block: &mut [T], n: usize, w: usize, rows_per_block: usize)
    requires
        a@.len() == n * n,
        b@.len() == n * n,
        whole_rows(old(block)@.len(), n as nat, (w * rows_per_block) as nat),
    ensures
        adds_rows(old(block)@, final(block)@, a@, b@, n as nat, (w * rows_per_block) as nat),
{
    if n == 0 {
        assert forall|op: spec_fn(T, T, T) -> T| #[trigger] is_accumulate::<T>(op) implies block@ == rows_onto(
            op,
            block@,
            a@,
            b@,
            n as nat,
            (w * rows_per_block) as nat,
        ) by {
            assert(block@ =~= rows_onto(op, block@, a@, b@, n as nat, (w * rows_per_block) as nat));
        }
        return ;
    }
    accumulate_rows(a, b, block, n, w * rows_per_block);
}

/// Hands every block of `block_len` elements of `c` to a worker of its own.
///
/// Calls rayon's `par_chunks_mut`, `enumerate` and `for_each`. The buffer is cut
/// into consecutive blocks of `block_len` elements that do not overlap, the last
/// one holding what is left; each block comes paired with its index, and
/// [`accumulate_block`] runs once on each pair; the call returns when all have
/// finished. The contract claims that the buffer keeps its length and that each
/// block is left as `accumulate_block` leaves it. `par_chunks_mut` panics on a
/// block length of zero, which the preconditions exclude.
#[verifier::external_body]
fn for_each_block<T: Scalar + Send + Sync>(
    a: &[T],
    b: &[T],
    c: &mut [T],
    n: usize,
    rows_per_block: usize,
    block_len: usize,
)
    requires
        n > 0,
        rows_per_block > 0,
        block_len == rows_per_block * n,
        a@.len() == n * n,
        b@.len() == n * n,
        old(c)@.len() == n * n,
    ensures
        final(c)@.len() == old(c)@.len(),
        forall|w: int|
            0 <= w && w * block_len < old(c)@.len() ==> adds_rows(
                block_of(old(c)@, block_len as nat, w),
                #[trigger] block_of(final(c)@, block_len as nat, w),
                a@,
                b@,
                n as nat,
                (w * rows_per_block) as nat,
            ),
{
    c.par_chunks_mut(block_len).enumerate().for_each(
        |(w, block)| accumulate_block(a, b, block, n, w, rows_per_block),
    );
}

/// A buffer whose blocks each hold their rows of the product holds the product.
proof fn lemma_blocks_make_product<T: Scalar>(
    before: Seq<T>,
    after: Seq<T>,
    a: Seq<T>,
    b: Seq<T>,
    n: nat,
    rows_per_block: nat,
    block_len: nat,
)
    requires
        n > 0,
        rows_per_block > 0,
        block_len == rows_per_block * n,
        after.len() == before.len(),
        forall|w: int|
            0 <= w && w * block_len < before.len() ==> adds_rows(
                block_of(before, block_len, w),
                #[trigger] block_of(after, block_len, w),
                a,
                b,
                n,
                (w * rows_per_block) as nat,
            ),
    ensures
        adds_product(before, after, a, b, n),
{
    assert(block_len > 0) by (nonlinear_arith)
        requires
            block_len == rows_per_block * n,
            n > 0,
            rows_per_block > 0,
    ;
    assert forall|op: spec_fn(T, T, T) -> T| #[trigger] is_accumulate::<T>(op) implies after == product_onto(
        op,
        before,
        a,
        b,
        n,
    ) by {
        let product = product_onto(op, before, a, b, n);
        assert forall|idx: int| 0 <= idx < after.len() implies after[idx] == product[idx] by {
            let w = idx / (block_len as int);
            let at = idx % (block_len as int);
            lemma_fundamental_div_mod(idx, block_len as int);
            assert(0 <= w && w * block_len <= idx && w * block_len + block_len == (w + 1) * block_len)
                by (nonlinear_arith)
                requires
                    idx == (block_len as int) * w + at,
                    0 <= at < block_len,
                    0 <= idx,
            ;
            let old_block = block_of(before, block_len, w);
            let new_block = block_of(after, block_len, w);
            assert(new_block[at] == after[idx]);
            assert(old_block[at] == before[idx]);
            assert(new_block == rows_onto(op, old_block, a, b, n, (w * rows_per_block) as nat));
            lemma_fundamental_div_mod(at, n as int);
            let row = w * rows_per_block + at / (n as int);
            assert(idx == row * n + at % (n as int)) by (nonlinear_arith)
                requires
                    idx == (block_len as int) * w + at,
                    block_len == rows_per_block * n,
                    at == (n as int) * (at / (n as int)) + at % (n as int),
                    row == w * rows_per_block + at / (n as int),
            ;
            lemma_fundamental_div_mod_converse(idx, n as int, row, at % (n as int));
            assert(0 <= w * rows_per_block) by (nonlinear_arith)
                requires
                    0 <= w,
            ;
        }
        assert(after =~= product);
    }
}

/// The block that a worker is handed holds the rows that are its own: cut for
/// `workers` workers, block `w` of an `n`-by-`n` buffer is the part of the
/// buffer from the worker's first row up to the row where its block ends.
pub proof fn lemma_block_holds_worker_rows<T>(s: Seq<T>, n: nat, workers: nat, w: nat)
    requires
        workers >= 1,
        s.len() == n * n,
        block_start(n, workers, w) < n,
    ensures
        block_of(s, rows_per_worker_spec(n, workers) * n, w as int) == s.subrange(
            (block_start(n, workers, w) * n) as int,
            (block_end(n, workers, w) * n) as int,
        ),
{
    let rows = rows_per_worker_spec(n, workers);
    let first = block_start(n, workers, w);
    let end = block_end(n, workers, w);
    assert(w * (rows * n) == (w * rows) * n && (w + 1) * (rows * n) == ((w + 1) * rows) * n) by (nonlinear_arith);
    if (w + 1) * rows <= n {
        assert(((w + 1) * rows) * n <= n * n) by (nonlinear_arith)
            requires
                (w + 1) * rows <= n,
        ;
    } else {
        assert(((w + 1) * rows) * n > n * n || n == 0) by (nonlinear_arith)
            requires
                (w + 1) * rows > n,
        ;
    }
}

/// Adds the product `a * b` to `c`, each row of the output computed by a task
/// of its own.
///
/// The tasks share `a` and `b` read-only and each writes one row of `c`, so the
/// result is that of [`crate::kernel::mat_mul_serial`], element for element.
pub fn mat_mul_parallel<T: Scalar + Send + Sync>(a: &[T], b: &[T], c: &mut [T], n: usize)
    requires
        a@.len() == n * n,
        b@.len() == n * n,
        old(c)@.len() == n * n,
    ensures
        adds_product(old(c)@, final(c)@, a@, b@, n as nat),
{
    let ghost before = c@;
    if n == 0 {
        assert forall|op: spec_fn(T, T, T) -> T| #[trigger] is_accumulate::<T>(op) implies c@ == product_onto(
            op,
            before,
            a@,
            b@,
            n as nat,
        ) by {
            assert(c@ =~= product_onto(op, before, a@, b@, n as nat));
        }
        return ;
    }
    for_each_block(a, b, c, n, 1, n);
    proof {
        lemma_blocks_make_product(before, c@, a@, b@, n as nat, 1, n as nat);
    }
}

/// Adds the product `a * b` to `c` with the rows of the output shared out among
/// `workers` workers: worker `w` gets the block of
/// [`rows_per_worker`] consecutive rows that
/// [`crate::partition::worker_rows`] gives for it.
pub fn mat_mul_workers<T: Scalar + Send + Sync>(a: &[T], b: &[T], c: &mut [T], n: usize, workers: usize)
    requires
        workers >= 1,
        a@.len() == n * n,
        b@.len() == n * n,
        old(c)@.len() == n * n,
    ensures
        adds_product(old(c)@, final(c)@, a@, b@, n as nat),
{
    let ghost before = c@;
    if n == 0 {
        assert forall|op: spec_fn(T, T, T) -> T| #[trigger] is_accumulate::<T>(op) implies c@ == product_onto(
            op,
            before,
            a@,
            b@,
            n as nat,
        ) by {
            assert(c@ =~= product_onto(op, before, a@, b@, n as nat));
        }
        return ;
    }
    let rows = rows_per_worker(n, workers);
    proof {
        lemma_rows_per_worker_bounds(n as nat, workers as nat);
        assert(rows * n <= n * n) by (nonlinear_arith)
            requires
                rows <= n,
        ;
        assert(c@.len() == c.len());
    }
    let block_len = rows * n;
    for_each_block(a, b, c, n, rows, block_len);
    proof {
        lemma_blocks_make_product(before, c@, a@, b@, n as nat, rows as nat, block_len as nat);
    }
}

} // verus!
