//! Matrix elements.

use vstd::prelude::*;

verus! {

/// The element type of a dense matrix.
///
/// A scalar supplies the one arithmetic step that matrix multiplication is
/// built from, `acc + x * y`, and a comparison under the type's tolerance. The
/// trait asks nothing of an implementation: the kernels state their results
/// over whatever function the implementation computes (see [`is_accumulate`]
/// and [`is_differs`]).
pub trait Scalar: Copy {
    /// Computes `acc + x * y`.
    fn accumulate(acc: Self, x: Self, y: Self) -> Self;

    /// Tells whether `x` and `y` lie further apart than the tolerance allows.
    fn differs(x: Self, y: Self) -> bool;
}

/// `op` is the function that `T::accumulate` computes: whatever a call returns
/// is what `op` gives for the same arguments.
pub open spec fn is_accumulate<T: Scalar>(op: spec_fn(T, T, T) -> T) -> bool {
    forall|acc: T, x: T, y: T, r: T| #[trigger]
        call_ensures(T::accumulate, (acc, x, y), r) ==> r == op(acc, x, y)
}

/// `far` is the relation that `T::differs` decides.
pub open spec fn is_differs<T: Scalar>(far: spec_fn(T, T) -> bool) -> bool {
    forall|x: T, y: T, r: bool| #[trigger] call_ensures(T::differs, (x, y), r) ==> r == far(x, y)
}

/// `acc + x * y` on 64-bit integers, modulo 2^64.
pub open spec fn wrapping_accumulate(acc: i64, x: i64, y: i64) -> i64 {
    acc.wrapping_add(x.wrapping_mul(y))
}

/// Exact arithmetic on 64-bit integers modulo 2^64, with tolerance zero.
impl Scalar for i64 {
    fn accumulate(acc: i64, x: i64, y: i64) -> (r: i64)
        ensures
            r == wrapping_accumulate(acc, x, y),
    {
        acc.wrapping_add(x.wrapping_mul(y))
    }

    fn differs(x: i64, y: i64) -> (r: bool)
        ensures
            r == (x != y),
    {
        x != y
    }
}

/// The functions that the integer scalar computes.
pub proof fn lemma_integer_scalar()
    ensures
        is_accumulate::<i64>(|acc: i64, x: i64, y: i64| wrapping_accumulate(acc, x, y)),
        is_differs::<i64>(|x: i64, y: i64| x != y),
{
}

} // verus!
