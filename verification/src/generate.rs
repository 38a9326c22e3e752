//! Filling a matrix with drawn values.

use vstd::prelude::*;

verus! {

/// The number of elements of an `n`-by-`n` matrix, when that number fits the
/// machine's word.
pub fn square_len(n: usize) -> (len: Option<usize>)
    ensures
        len == (if n * n <= usize::MAX {
            Some((n * n) as usize)
        } else {
            None
        }),
{
    n.checked_mul(n)
}

/// Builds an `n`-by-`n` matrix in row-major order from `n * n` draws.
///
/// The library does not say where the values come from: `draw` is called once
/// for each element, first to last, and every element is a value that one of
/// these calls returned.
pub fn random_matrix<T, F: Fn() -> T>(n: usize, draw: F) -> (m: Vec<T>)
    requires
        n * n <= usize::MAX,
        call_requires(draw, ()),
    ensures
        m@.len() == n * n,
        forall|i: int| 0 <= i < m@.len() ==> call_ensures(draw, (), #[trigger] m@[i]),
{
    let len = n * n;
    let mut m: Vec<T> = Vec::with_capacity(len);
    let mut i: usize = 0;
    while i < len
        invariant
            i <= len,
            m@.len() == i,
            call_requires(draw, ()),
            forall|e: int| 0 <= e < m@.len() ==> call_ensures(draw, (), #[trigger] m@[e]),
        decreases len - i,
    {
        m.push(draw());
        i += 1;
    }
    m
}

} // verus!
