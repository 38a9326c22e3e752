//! How the rows of a matrix are shared out among workers.

use vstd::prelude::*;
use vstd::arithmetic::div_mod::lemma_div_is_ordered_by_denominator;
use vstd::arithmetic::div_mod::lemma_fundamental_div_mod;
use vstd::arithmetic::div_mod::lemma_fundamental_div_mod_converse;

verus! {

/// The number of rows in a worker's block when `n` rows are shared out among
/// `workers` workers: `n / workers`, rounded up.
pub open spec fn rows_per_worker_spec(n: nat, workers: nat) -> nat {
    if workers == 0 {
        0
    } else if n % workers == 0 {
        n / workers
    } else {
        n / workers + 1
    }
}

/// The first row of worker `w`: the blocks follow one another from row 0, and
/// a block that would begin past the last row begins, empty, at `n`.
pub open spec fn block_start(n: nat, workers: nat, w: nat) -> nat {
    let rows = rows_per_worker_spec(n, workers);
    if w * rows <= n {
        w * rows
    } else {
        n
    }
}

/// The row after the last row of worker `w`, which is the first row of the next
/// worker.
pub open spec fn block_end(n: nat, workers: nat, w: nat) -> nat {
    block_start(n, workers, w + 1)
}

/// Whether `row` lies in the block of worker `w`.
pub open spec fn owns(n: nat, workers: nat, w: nat, row: nat) -> bool {
    block_start(n, workers, w) <= row < block_end(n, workers, w)
}

/// The worker in whose block `row` lies.
pub open spec fn owner_of(n: nat, workers: nat, row: nat) -> nat {
    row / rows_per_worker_spec(n, workers)
}

/// With at least one row and one worker a block holds at least one row and at
/// most all of them, and `workers` blocks are enough for every row.
pub proof fn lemma_rows_per_worker_bounds(n: nat, workers: nat)
    requires
        n >= 1,
        workers >= 1,
    ensures
        1 <= rows_per_worker_spec(n, workers) <= n,
        n <= workers * rows_per_worker_spec(n, workers),
        workers * rows_per_worker_spec(n, workers) < n + workers,
{
    let q = n / workers;
    let r = n % workers;
    lemma_fundamental_div_mod(n as int, workers as int);
    assert(q <= n && (q == 0 ==> r == n) && workers * (q + 1) == workers * q + workers) by (nonlinear_arith)
        requires
            n == workers * q + r,
            0 <= r < workers,
            workers >= 1,
            n >= 1,
    ;
    if r != 0 && q == n {
        assert(workers * q >= q) by (nonlinear_arith)
            requires
                workers >= 1,
                q >= 0,
        ;
    }
}

/// Every row is processed by exactly one worker: for any number of workers,
/// whether or not it divides the number of rows, each row below `n` lies in the
/// block of one of the `workers` workers and in no other block.
pub proof fn lemma_row_has_one_owner(n: nat, workers: nat, row: nat)
    requires
        workers >= 1,
        row < n,
    ensures
        owner_of(n, workers, row) < workers,
        owns(n, workers, owner_of(n, workers, row), row),
        forall|w: nat| #[trigger] owns(n, workers, w, row) ==> w == owner_of(n, workers, row),
{
    let rows = rows_per_worker_spec(n, workers);
    let v = owner_of(n, workers, row);
    lemma_rows_per_worker_bounds(n, workers);
    lemma_fundamental_div_mod(row as int, rows as int);
    let rest = row % rows;
    assert(v * rows + rest == row && (v + 1) * rows == v * rows + rows) by (nonlinear_arith)
        requires
            row == rows * v + rest,
    ;
    if v >= workers {
        assert(v * rows >= workers * rows) by (nonlinear_arith)
            requires
                v >= workers,
                rows >= 1,
        ;
    }
    assert forall|w: nat| #[trigger] owns(n, workers, w, row) implies w == v by {
        assert((w + 1) * rows == w * rows + rows) by (nonlinear_arith);
        lemma_fundamental_div_mod_converse(row as int, rows as int, w as int, row - w * rows);
    }
}

/// The blocks tile the rows: the first block begins at row 0, each block ends
/// where the next begins, no block begins after its end, and the block of the
/// last worker ends at `n`.
pub proof fn lemma_blocks_tile(n: nat, workers: nat, w: nat)
    requires
        workers >= 1,
    ensures
        block_start(n, workers, 0) == 0,
        block_end(n, workers, w) == block_start(n, workers, w + 1),
        block_start(n, workers, w) <= block_end(n, workers, w) <= n,
        block_start(n, workers, workers) == n,
{
    let rows = rows_per_worker_spec(n, workers);
    assert(0 * rows == 0 && w * rows <= (w + 1) * rows) by (nonlinear_arith);
    if n >= 1 {
        lemma_rows_per_worker_bounds(n, workers);
    } else {
        assert(workers * rows == 0) by (nonlinear_arith)
            requires
                rows == 0,
        ;
    }
}

/// Computes the number of rows in a worker's block.
pub fn rows_per_worker(n: usize, workers: usize) -> (rows: usize)
    requires
        workers >= 1,
    ensures
        rows == rows_per_worker_spec(n as nat, workers as nat),
{
    if n % workers == 0 {
        n / workers
    } else {
        assert(n / workers <= n / 2) by {
            lemma_div_is_ordered_by_denominator(n as int, 2, workers as int);
        }
        n / workers + 1
    }
}

/// The rows of worker `w` as a half-open range: its first row and the row after
/// its last. A worker beyond the last row gets the empty range at `n`.
pub fn worker_rows(n: usize, workers: usize, w: usize) -> (range: (usize, usize))
    requires
        workers >= 1,
    ensures
        range.0 == block_start(n as nat, workers as nat, w as nat),
        range.1 == block_end(n as nat, workers as nat, w as nat),
{
    let rows = rows_per_worker(n, workers);
    if rows == 0 {
        assert(w * rows == 0 && (w + 1) * rows == 0) by (nonlinear_arith)
            requires
                rows == 0,
        ;
        proof {
            if n >= 1 {
                lemma_rows_per_worker_bounds(n as nat, workers as nat);
            }
        }
        return (0, 0);
    }
    let full = n / rows;
    proof {
        lemma_fundamental_div_mod(n as int, rows as int);
        let rest = n % rows;
        assert(full * rows + rest == n) by (nonlinear_arith)
            requires
                n == rows * full + rest,
        ;
        if w <= full {
            assert(w * rows <= full * rows) by (nonlinear_arith)
                requires
                    w <= full,
            ;
        } else {
            assert(w * rows >= (full + 1) * rows && (full + 1) * rows == full * rows + rows) by (nonlinear_arith)
                requires
                    w >= full + 1,
            ;
        }
        if w < full {
            assert((w + 1) * rows <= full * rows) by (nonlinear_arith)
                requires
                    w + 1 <= full,
            ;
        } else {
            assert((w + 1) * rows >= (full + 1) * rows && (full + 1) * rows == full * rows + rows)
                by (nonlinear_arith)
                requires
                    w >= full,
            ;
        }
    }
    let first = if w <= full {
        w * rows
    } else {
        n
    };
    let end = if w < full {
        (w + 1) * rows
    } else {
        n
    };
    (first, end)
}

/// Finds the worker in whose block `row` lies.
pub fn row_owner(n: usize, workers: usize, row: usize) -> (w: usize)
    requires
        workers >= 1,
        row < n,
    ensures
        w == owner_of(n as nat, workers as nat, row as nat),
        w < workers,
        owns(n as nat, workers as nat, w as nat, row as nat),
{
    proof {
        lemma_rows_per_worker_bounds(n as nat, workers as nat);
        lemma_row_has_one_owner(n as nat, workers as nat, row as nat);
    }
    row / rows_per_worker(n, workers)
}

} // verus!
