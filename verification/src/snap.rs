//! Tools for quantized spectra: the integer graphs that the spectrum
//! approximation searches through.
use crate::eigenvalue::{lcg_entry, lcg_iter, lcg_weights, pairs_before_row, is_square};
use vstd::prelude::*;

verus! {

/// Practical tools for working with quantized eigenvalue spectra
pub struct SnapTools;

impl SnapTools {
    /// Weights of one candidate graph in the spectrum search: the generator
    /// continues from `state`, each pair `i < j` draws a weight in `0..4`;
    /// returns the weights and the state to continue from.
    pub fn candidate_weights(state: u64, n: usize) -> (res: (Vec<Vec<u64>>, u64))
        ensures
            is_square(res.0@, n as int),
            forall|i: int, j: int|
                0 <= i < n && 0 <= j < n ==> #[trigger] res.0@[i]@[j] == lcg_entry(
                    state as int,
                    n as int,
                    i,
                    j,
                ) % 4,
            forall|i: int, j: int|
                0 <= i < n && 0 <= j < n ==> res.0@[i]@[j] < 4 && res.0@[i]@[j] == res.0@[j]@[i],
            res.1 == lcg_iter(state as int, pairs_before_row(n as int, n as int) as nat),
    {
        lcg_weights(state, n, 4)
    }
}

} // verus!
