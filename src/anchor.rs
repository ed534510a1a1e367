use vstd::prelude::*;
use crate::score::{is_score, rank, score_ge};

verus! {

/// The width of the anchor window, in matrix rows and in bases.
pub const CORE_LEN: usize = 5;

/// Why a count matrix cannot become a scoring model.
#[derive(Debug, Clone, Copy, PartialEq, Eq, Structural)]
pub enum TfpError {
    /// The matrix has fewer rows than the anchor window; carries the row count.
    MatrixToShort(usize),
}

/// The number of anchor windows that fit in a matrix of `nrows` rows.
pub open spec fn window_count(nrows: nat) -> nat {
    if nrows >= 5 {
        (nrows - 4) as nat
    } else {
        0
    }
}

/// Window `i` holds a largest sum, and every later window a strictly smaller one:
/// among equal maxima the last window wins.
pub open spec fn is_last_max(sums: Seq<u32>, i: int) -> bool {
    &&& 0 <= i < sums.len()
    &&& forall|j: int| 0 <= j < sums.len() ==> rank(#[trigger] sums[j]) <= rank(sums[i])
    &&& forall|j: int| i < j < sums.len() ==> rank(#[trigger] sums[j]) < rank(sums[i])
}

/// Chooses the anchor window of a matrix with `nrows` rows, given the sum of
/// the best-case row weights over each window of five rows, in row order.
pub fn find_core(nrows: usize, window_sums: &Vec<u32>) -> (r: Result<usize, TfpError>)
    requires
        window_sums@.len() == window_count(nrows as nat),
        forall|j: int| 0 <= j < window_sums@.len() ==> is_score(#[trigger] window_sums@[j]),
    ensures
        nrows < 5 <==> r is Err,
        r is Err ==> r == Err::<usize, TfpError>(TfpError::MatrixToShort(nrows)),
        r is Ok ==> is_last_max(window_sums@, r->Ok_0 as int),
{
    if nrows < CORE_LEN {
        return Err(TfpError::MatrixToShort(nrows));
    }
    let n = window_sums.len();
    let mut best: usize = 0;
    let mut i: usize = 1;
    while i < n
        invariant
            n == window_sums@.len(),
            n >= 1,
            1 <= i <= n,
            best < i,
            forall|j: int| 0 <= j < n ==> is_score(#[trigger] window_sums@[j]),
            forall|j: int| 0 <= j < i ==> rank(#[trigger] window_sums@[j]) <= rank(window_sums@[best as int]),
            forall|j: int| best < j < i ==> rank(#[trigger] window_sums@[j]) < rank(window_sums@[best as int]),
        decreases n - i,
    {
        if score_ge(window_sums[i], window_sums[best]) {
            best = i;
        }
        i = i + 1;
    }
    Ok(best)
}

} // verus!
