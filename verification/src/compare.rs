//! Element-wise comparison of two matrices.

use vstd::prelude::*;
use vstd::arithmetic::div_mod::lemma_fundamental_div_mod_converse;
use crate::kernel::adds_product;
use crate::scalar::is_accumulate;
use crate::scalar::is_differs;
use crate::scalar::Scalar;

verus! {

/// The outcome of comparing two matrices element by element.
#[derive(Clone, Copy, Debug, PartialEq)]
pub enum Verdict<T> {
    /// No pair of elements differs.
    Match,
    /// The first pair that differs, in row-major order: where it lies and the
    /// two values.
    Mismatch { row: usize, col: usize, left: T, right: T },
}

impl<T> Verdict<T> {
    /// Whether the comparison found no difference.
    pub fn is_match(&self) -> (r: bool)
        ensures
            r == (*self is Match),
    {
        match self {
            Verdict::Match => true,
            Verdict::Mismatch { .. } => false,
        }
    }
}

/// No pair of elements before index `end` differs.
pub open spec fn close_before<T>(far: spec_fn(T, T) -> bool, a: Seq<T>, b: Seq<T>, end: int) -> bool {
    forall|e: int| 0 <= e < end ==> !far(#[trigger] a[e], b[e])
}

/// The pair at `idx` is the first that differs.
pub open spec fn first_mismatch_at<T>(far: spec_fn(T, T) -> bool, a: Seq<T>, b: Seq<T>, idx: int) -> bool {
    &&& 0 <= idx < a.len()
    &&& far(a[idx], b[idx])
    &&& close_before(far, a, b, idx)
}

/// `v` is the verdict on `a` and `b` under the relation `far`: a match when no
/// pair differs, and else the row, the column and the values of the first pair
/// that does.
pub open spec fn is_verdict<T>(far: spec_fn(T, T) -> bool, a: Seq<T>, b: Seq<T>, n: nat, v: Verdict<T>) -> bool {
    match v {
        Verdict::Match => close_before(far, a, b, a.len() as int),
        Verdict::Mismatch { row, col, left, right } => {
            &&& col < n
            &&& first_mismatch_at(far, a, b, row * n + col)
            &&& left == a[row * n + col]
            &&& right == b[row * n + col]
        },
    }
}

/// `v` is the verdict on `a` and `b` under whatever relation the scalar's
/// `differs` decides; a mismatch names a place within the matrix and the values
/// found there.
pub open spec fn judges<T: Scalar>(a: Seq<T>, b: Seq<T>, n: nat, v: Verdict<T>) -> bool {
    &&& v matches Verdict::Mismatch { row, col, left, right } ==> {
        &&& row < n
        &&& col < n
        &&& left == a[row * n + col]
        &&& right == b[row * n + col]
    }
    &&& forall|far: spec_fn(T, T) -> bool| #[trigger] is_differs::<T>(far) ==> is_verdict(far, a, b, n, v)
}

/// Compares two `n`-by-`n` matrices element by element in row-major order and
/// stops at the first pair that differs.
pub fn verify_result<T: Scalar>(a: &[T], b: &[T], n: usize) -> (outcome: Verdict<T>)
    requires
        a@.len() == n * n,
        b@.len() == n * n,
    ensures
        judges(a@, b@, n as nat, outcome),
{
    assert(a@.len() == a.len());
    let mut i: usize = 0;
    while i < n
        invariant
            i <= n,
            a@.len() == n * n,
            b@.len() == n * n,
            n * n <= usize::MAX,
            forall|far: spec_fn(T, T) -> bool| #[trigger] is_differs::<T>(far) ==> close_before(far, a@, b@, i * n),
        decreases n - i,
    {
        proof {
            assert(i * n + n <= n * n) by (nonlinear_arith)
                requires
                    i < n,
            ;
        }
        let base = i * n;
        let mut j: usize = 0;
        while j < n
            invariant
                i < n,
                j <= n,
                base == i * n,
                base + n <= n * n,
                a@.len() == n * n,
                b@.len() == n * n,
                n * n <= usize::MAX,
                forall|far: spec_fn(T, T) -> bool| #[trigger]
                    is_differs::<T>(far) ==> close_before(far, a@, b@, base + j),
            decreases n - j,
        {
            let idx = base + j;
            if T::differs(a[idx], b[idx]) {
                return Verdict::Mismatch { row: i, col: j, left: a[idx], right: b[idx] };
            }
            j += 1;
        }
        proof {
            assert((i + 1) * n == i * n + n) by (nonlinear_arith);
        }
        i += 1;
    }
    Verdict::Match
}

/// Two matrices have one verdict only.
pub proof fn lemma_verdict_unique<T>(
    far: spec_fn(T, T) -> bool,
    a: Seq<T>,
    b: Seq<T>,
    n: nat,
    v1: Verdict<T>,
    v2: Verdict<T>,
)
    requires
        is_verdict(far, a, b, n, v1),
        is_verdict(far, a, b, n, v2),
    ensures
        v1 == v2,
{
    match (v1, v2) {
        (
            Verdict::Mismatch { row: r1, col: c1, left: l1, right: g1 },
            Verdict::Mismatch { row: r2, col: c2, left: l2, right: g2 },
        ) => {
            let i1 = r1 * n + c1;
            let i2 = r2 * n + c2;
            if i1 < i2 {
                assert(!far(a[i1], b[i1]));
            }
            if i2 < i1 {
                assert(!far(a[i2], b[i2]));
            }
            lemma_fundamental_div_mod_converse(i1, n as int, r1 as int, c1 as int);
            lemma_fundamental_div_mod_converse(i1, n as int, r2 as int, c2 as int);
        },
        (Verdict::Match, Verdict::Mismatch { row, col, .. }) => {
            assert(!far(a[row * n + col], b[row * n + col]));
        },
        (Verdict::Mismatch { row, col, .. }, Verdict::Match) => {
            assert(!far(a[row * n + col], b[row * n + col]));
        },
        (Verdict::Match, Verdict::Match) => {},
    }
}

/// Equal matrices match under every tolerance that holds a value to be close
/// to itself.
pub proof fn lemma_equal_matrices_match<T: Scalar>(
    far: spec_fn(T, T) -> bool,
    a: Seq<T>,
    b: Seq<T>,
    n: nat,
    v: Verdict<T>,
)
    requires
        is_differs::<T>(far),
        forall|x: T| !#[trigger] far(x, x),
        a == b,
        judges(a, b, n, v),
    ensures
        v == Verdict::<T>::Match,
{
    assert(is_verdict(far, a, b, n, v));
    if v is Mismatch {
        let idx = v->row * n + v->col;
        assert(!far(a[idx], b[idx]));
    }
}

/// The serial and the parallel kernel agree: run on the same inputs they leave
/// the same output, element for element, and the comparison of the two outputs
/// is a match under every tolerance that holds a value to be close to itself.
///
/// The law holds of any two outputs that meet the kernels' contract, whenever
/// the scalar's `accumulate` is a function of its arguments.
pub proof fn lemma_kernels_agree<T: Scalar>(
    op: spec_fn(T, T, T) -> T,
    far: spec_fn(T, T) -> bool,
    a: Seq<T>,
    b: Seq<T>,
    c: Seq<T>,
    n: nat,
    serial: Seq<T>,
    parallel: Seq<T>,
    v: Verdict<T>,
)
    requires
        is_accumulate::<T>(op),
        is_differs::<T>(far),
        forall|x: T| !#[trigger] far(x, x),
        adds_product(c, serial, a, b, n),
        adds_product(c, parallel, a, b, n),
        judges(serial, parallel, n, v),
    ensures
        serial == parallel,
        v == Verdict::<T>::Match,
{
    lemma_equal_matrices_match(far, serial, parallel, n, v);
}

} // verus!
