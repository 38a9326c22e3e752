//! The multiplication kernel and what it computes.

use vstd::prelude::*;
use vstd::arithmetic::div_mod::lemma_fundamental_div_mod;
use vstd::arithmetic::div_mod::lemma_fundamental_div_mod_converse;
use crate::scalar::is_accumulate;
use crate::scalar::Scalar;

verus! {

/// The dot product of row `i` of `a` with column `j` of `b`, cut off after its
/// first `k` terms and accumulated onto `start` in the order of rising index:
/// `(..((start + a[i][0] * b[0][j]) + a[i][1] * b[1][j]) + ..)`, where every
/// step `acc + x * y` is `op(acc, x, y)`.
pub open spec fn dot_onto<T>(
    op: spec_fn(T, T, T) -> T,
    start: T,
    a: Seq<T>,
    b: Seq<T>,
    n: nat,
    i: int,
    j: int,
    k: nat,
) -> T
    decreases k,
{
    if k == 0 {
        start
    } else {
        op(dot_onto(op, start, a, b, n, i, j, (k - 1) as nat), a[i * n + (k - 1)], b[(k - 1) * n + j])
    }
}

/// What a run of whole output rows holds once the product has been added to
/// it. The run begins at row `first_row` of the output; each of its elements
/// has the full dot product of its row of `a` and its column of `b`
/// accumulated onto it.
pub open spec fn rows_onto<T>(
    op: spec_fn(T, T, T) -> T,
    rows: Seq<T>,
    a: Seq<T>,
    b: Seq<T>,
    n: nat,
    first_row: nat,
) -> Seq<T> {
    Seq::new(
        rows.len(),
        |idx: int| dot_onto(op, rows[idx], a, b, n, first_row + idx / (n as int), idx % (n as int), n),
    )
}

/// `c + a * b` for `n`-by-`n` matrices in row-major order.
pub open spec fn product_onto<T>(op: spec_fn(T, T, T) -> T, c: Seq<T>, a: Seq<T>, b: Seq<T>, n: nat) -> Seq<T> {
    rows_onto(op, c, a, b, n, 0)
}

/// Whether a buffer of `len` elements can hold whole rows of an `n`-by-`n`
/// matrix from row `first_row` on.
pub open spec fn whole_rows(len: nat, n: nat, first_row: nat) -> bool {
    if n == 0 {
        len == 0
    } else {
        len % n == 0 && first_row + len / n <= n
    }
}

/// `after` is `before` with the rows of `a * b` from row `first_row` on added
/// to it, under whatever function the scalar's `accumulate` computes.
pub open spec fn adds_rows<T: Scalar>(
    before: Seq<T>,
    after: Seq<T>,
    a: Seq<T>,
    b: Seq<T>,
    n: nat,
    first_row: nat,
) -> bool {
    &&& after.len() == before.len()
    &&& forall|op: spec_fn(T, T, T) -> T| #[trigger]
        is_accumulate::<T>(op) ==> after == rows_onto(op, before, a, b, n, first_row)
}

/// `after` is `before + a * b`.
pub open spec fn adds_product<T: Scalar>(before: Seq<T>, after: Seq<T>, a: Seq<T>, b: Seq<T>, n: nat) -> bool {
    adds_rows(before, after, a, b, n, 0)
}

/// The output rows in the middle of the sweep: the rows before `r` are
/// complete, row `r` has `k` terms everywhere and one more in the columns
/// before `j`, and the rows after `r` are untouched.
spec fn sweep<T>(
    op: spec_fn(T, T, T) -> T,
    rows: Seq<T>,
    a: Seq<T>,
    b: Seq<T>,
    n: nat,
    first_row: nat,
    r: nat,
    k: nat,
    j: nat,
) -> Seq<T> {
    Seq::new(
        rows.len(),
        |idx: int|
            {
                let row = idx / (n as int);
                let col = idx % (n as int);
                let depth = if row < r {
                    n
                } else if row == r {
                    if col < j {
                        (k + 1) as nat
                    } else {
                        k
                    }
                } else {
                    0nat
                };
                dot_onto(op, rows[idx], a, b, n, first_row + row, col, depth)
            },
    )
}

/// `now` is the sweep's state at `(r, k, j)` under every function that the
/// scalar's `accumulate` computes.
spec fn in_sweep<T: Scalar>(
    now: Seq<T>,
    start: Seq<T>,
    a: Seq<T>,
    b: Seq<T>,
    n: nat,
    first_row: nat,
    r: nat,
    k: nat,
    j: nat,
) -> bool {
    &&& now.len() == start.len()
    &&& forall|op: spec_fn(T, T, T) -> T| #[trigger]
        is_accumulate::<T>(op) ==> now == sweep(op, start, a, b, n, first_row, r, k, j)
}

/// Element `r * n + j` lies in row `r` and column `j`.
proof fn lemma_cell(n: nat, r: nat, j: nat)
    requires
        j < n,
    ensures
        ((r * n + j) as int) / (n as int) == r,
        ((r * n + j) as int) % (n as int) == j,
{
    lemma_fundamental_div_mod_converse((r * n + j) as int, n as int, r as int, j as int);
}

/// Every index splits into its row and its column.
proof fn lemma_cell_of(n: nat, idx: int)
    requires
        n > 0,
        0 <= idx,
    ensures
        0 <= idx / (n as int),
        0 <= idx % (n as int) < n,
        idx == (idx / (n as int)) * n + idx % (n as int),
{
    lemma_fundamental_div_mod(idx, n as int);
    assert(0 <= idx / (n as int)) by (nonlinear_arith)
        requires
            0 <= idx,
            n > 0,
    ;
    assert((n as int) * (idx / (n as int)) == (idx / (n as int)) * n) by (nonlinear_arith);
}

/// Row `r` of `m` rows of `n` elements ends within the buffer.
proof fn lemma_row_fits(m: nat, n: nat, r: nat)
    requires
        r < m,
    ensures
        r * n + n <= m * n,
{
    assert(r * n + n == (r + 1) * n) by (nonlinear_arith);
    assert((r + 1) * n <= m * n) by (nonlinear_arith)
        requires
            r + 1 <= m,
    ;
}

/// A sweep that has reached the end of a row of columns has begun the next
/// term; one that has added the last term of a row has begun the next row.
proof fn lemma_sweep_carries<T>(
    op: spec_fn(T, T, T) -> T,
    start: Seq<T>,
    a: Seq<T>,
    b: Seq<T>,
    n: nat,
    first_row: nat,
    r: nat,
    k: nat,
)
    requires
        n > 0,
    ensures
        sweep(op, start, a, b, n, first_row, r, k, n) == sweep(op, start, a, b, n, first_row, r, k + 1, 0),
        sweep(op, start, a, b, n, first_row, r, n, 0) == sweep(op, start, a, b, n, first_row, r + 1, 0, 0),
{
    assert forall|idx: int| 0 <= idx < start.len() implies 0 <= #[trigger] (idx % (n as int)) < n by {
        lemma_cell_of(n, idx);
    }
    assert(sweep(op, start, a, b, n, first_row, r, k, n) =~= sweep(op, start, a, b, n, first_row, r, k + 1, 0));
    assert(sweep(op, start, a, b, n, first_row, r, n, 0) =~= sweep(op, start, a, b, n, first_row, r + 1, 0, 0));
}

/// Before its first step the sweep holds the rows as they came, and after its
/// last row it holds the rows with the product added.
proof fn lemma_sweep_ends<T>(
    op: spec_fn(T, T, T) -> T,
    start: Seq<T>,
    a: Seq<T>,
    b: Seq<T>,
    n: nat,
    first_row: nat,
    m: nat,
)
    requires
        n > 0,
        start.len() == m * n,
    ensures
        sweep(op, start, a, b, n, first_row, 0, 0, 0) == start,
        sweep(op, start, a, b, n, first_row, m, 0, 0) == rows_onto(op, start, a, b, n, first_row),
{
    assert forall|idx: int| 0 <= idx < start.len() implies 0 <= #[trigger] (idx / (n as int)) < m by {
        lemma_cell_of(n, idx);
        if idx / (n as int) >= m {
            assert((idx / (n as int)) * n >= m * n) by (nonlinear_arith)
                requires
                    idx / (n as int) >= m,
                    n > 0,
            ;
        }
    }
    assert(sweep(op, start, a, b, n, first_row, 0, 0, 0) =~= start);
    assert(sweep(op, start, a, b, n, first_row, m, 0, 0) =~= rows_onto(op, start, a, b, n, first_row));
}

/// One step of the sweep: adding term `k` to the element in row `r` and column
/// `j` moves the sweep from column `j` to column `j + 1`.
proof fn lemma_sweep_step<T>(
    op: spec_fn(T, T, T) -> T,
    start: Seq<T>,
    a: Seq<T>,
    b: Seq<T>,
    n: nat,
    first_row: nat,
    r: nat,
    k: nat,
    j: nat,
)
    requires
        j < n,
        r * n + j < start.len(),
    ensures
        sweep(op, start, a, b, n, first_row, r, k, j + 1) == sweep(op, start, a, b, n, first_row, r, k, j).update(
            (r * n + j) as int,
            op(
                sweep(op, start, a, b, n, first_row, r, k, j)[(r * n + j) as int],
                a[((first_row + r) * n + k) as int],
                b[(k * n + j) as int],
            ),
        ),
{
    let from = sweep(op, start, a, b, n, first_row, r, k, j);
    let to = sweep(op, start, a, b, n, first_row, r, k, j + 1);
    let at = (r * n + j) as int;
    lemma_cell(n, r, j);
    let stepped = from.update(at, op(from[at], a[((first_row + r) * n + k) as int], b[(k * n + j) as int]));
    assert forall|idx: int| 0 <= idx < start.len() implies to[idx] == stepped[idx] by {
        lemma_cell_of(n, idx);
    }
    assert(to =~= stepped);
}

/// Adds to the output rows held in `rows`, which begin at row `first_row` of the
/// output, the matching rows of the product `a * b`.
///
/// The loops run over the rows, then over the terms of the dot product, then
/// over the columns, so that the innermost loop walks `b` and `rows` along a
/// row. Every element therefore gathers its terms in the order of rising index.
pub fn accumulate_rows<T: Scalar>(a: &[T], b: &[T], rows: &mut [T], n: usize, first_row: usize)
    requires
        a@.len() == n * n,
        b@.len() == n * n,
        whole_rows(old(rows)@.len(), n as nat, first_row as nat),
    ensures
        adds_rows(old(rows)@, final(rows)@, a@, b@, n as nat, first_row as nat),
{
    let ghost start = rows@;
    if n == 0 {
        assert forall|op: spec_fn(T, T, T) -> T| #[trigger] is_accumulate::<T>(op) implies rows@ == rows_onto(
            op,
            start,
            a@,
            b@,
            n as nat,
            first_row as nat,
        ) by {
            assert(rows@ =~= rows_onto(op, start, a@, b@, n as nat, first_row as nat));
        }
        return ;
    }
    let count = rows.len() / n;
    let ghost m: nat = start.len() / (n as nat);
    proof {
        lemma_fundamental_div_mod(start.len() as int, n as int);
        assert(start.len() == m * n) by (nonlinear_arith)
            requires
                start.len() == (n as int) * (start.len() as int / (n as int)) + (start.len() as int % (n as int)),
                start.len() as int % (n as int) == 0,
                m == start.len() as int / (n as int),
        ;
        assert(a@.len() == a.len());
        assert(start.len() == rows.len());
        assert forall|op: spec_fn(T, T, T) -> T| #[trigger] is_accumulate::<T>(op) implies rows@ == sweep(
            op,
            start,
            a@,
            b@,
            n as nat,
            first_row as nat,
            0,
            0,
            0,
        ) by {
            lemma_sweep_ends(op, start, a@, b@, n as nat, first_row as nat, m);
        }
    }
    let mut r: usize = 0;
    while r < count
        invariant
            n > 0,
            count == m,
            r <= count,
            a@.len() == n * n,
            b@.len() == n * n,
            start.len() == m * n,
            first_row + m <= n,
            n * n <= usize::MAX,
            m * n <= usize::MAX,
            in_sweep(rows@, start, a@, b@, n as nat, first_row as nat, r as nat, 0, 0),
        decreases count - r,
    {
        proof {
            lemma_row_fits(m, n as nat, r as nat);
            lemma_row_fits(n as nat, n as nat, (first_row + r) as nat);
        }
        let i = first_row + r;
        let a_base = i * n;
        let c_base = r * n;
        let mut k: usize = 0;
        while k < n
            invariant
                n > 0,
                r < m,
                k <= n,
                i == first_row + r,
                a_base == i * n,
                c_base == r * n,
                a_base + n <= n * n,
                c_base + n <= m * n,
                a@.len() == n * n,
                b@.len() == n * n,
                start.len() == m * n,
                n * n <= usize::MAX,
                m * n <= usize::MAX,
                in_sweep(rows@, start, a@, b@, n as nat, first_row as nat, r as nat, k as nat, 0),
            decreases n - k,
        {
            proof {
                lemma_row_fits(n as nat, n as nat, k as nat);
            }
            let a_ik = a[a_base + k];
            let b_base = k * n;
            let mut j: usize = 0;
            while j < n
                invariant
                    n > 0,
                    r < m,
                    k < n,
                    j <= n,
                    i == first_row + r,
                    a_base == i * n,
                    b_base == k * n,
                    c_base == r * n,
                    b_base + n <= n * n,
                    c_base + n <= m * n,
                    a_base + k < n * n,
                    a_ik == a@[a_base + k],
                    a@.len() == n * n,
                    b@.len() == n * n,
                    start.len() == m * n,
                    n * n <= usize::MAX,
                    m * n <= usize::MAX,
                    in_sweep(rows@, start, a@, b@, n as nat, first_row as nat, r as nat, k as nat, j as nat),
                decreases n - j,
            {
                let ghost before = rows@;
                let sum = T::accumulate(rows[c_base + j], a_ik, b[b_base + j]);
                rows[c_base + j] = sum;
                proof {
                    assert forall|op: spec_fn(T, T, T) -> T| #[trigger] is_accumulate::<T>(op) implies rows@ == sweep(
                        op,
                        start,
                        a@,
                        b@,
                        n as nat,
                        first_row as nat,
                        r as nat,
                        k as nat,
                        (j + 1) as nat,
                    ) by {
                        lemma_sweep_step(op, start, a@, b@, n as nat, first_row as nat, r as nat, k as nat, j as nat);
                        assert(sum == op(before[c_base + j], a_ik, b@[b_base + j]));
                    }
                }
                j += 1;
            }
            proof {
                assert forall|op: spec_fn(T, T, T) -> T| #[trigger] is_accumulate::<T>(op) implies rows@ == sweep(
                    op,
                    start,
                    a@,
                    b@,
                    n as nat,
                    first_row as nat,
                    r as nat,
                    (k + 1) as nat,
                    0,
                ) by {
                    lemma_sweep_carries(op, start, a@, b@, n as nat, first_row as nat, r as nat, k as nat);
                }
            }
            k += 1;
        }
        proof {
            assert forall|op: spec_fn(T, T, T) -> T| #[trigger] is_accumulate::<T>(op) implies rows@ == sweep(
                op,
                start,
                a@,
                b@,
                n as nat,
                first_row as nat,
                (r + 1) as nat,
                0,
                0,
            ) by {
                lemma_sweep_carries(op, start, a@, b@, n as nat, first_row as nat, r as nat, n as nat);
            }
        }
        r += 1;
    }
    proof {
        assert forall|op: spec_fn(T, T, T) -> T| #[trigger] is_accumulate::<T>(op) implies rows@ == rows_onto(
            op,
            start,
            a@,
            b@,
            n as nat,
            first_row as nat,
        ) by {
            lemma_sweep_ends(op, start, a@, b@, n as nat, first_row as nat, m);
        }
    }
}

/// Adds the product `a * b` to `c`, one row of the output after the other.
///
/// All three buffers hold `n`-by-`n` matrices in row-major order. The kernel
/// accumulates: whoever wants the bare product hands in a zeroed `c`.
pub fn mat_mul_serial<T: Scalar>(a: &[T], b: &[T], c: &mut [T], n: usize)
    requires
        a@.len() == n * n,
        b@.len() == n * n,
        old(c)@.len() == n * n,
    ensures
        adds_product(old(c)@, final(c)@, a@, b@, n as nat),
{
    proof {
        if n > 0 {
            vstd::arithmetic::div_mod::lemma_div_multiples_vanish(n as int, n as int);
            vstd::arithmetic::div_mod::lemma_mod_multiples_basic(n as int, n as int);
        }
    }
    accumulate_rows(a, b, c, n, 0);
}

} // verus!
