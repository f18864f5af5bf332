//! Interval algebra over ordered domains, together with small grid, vector,
//! permutation and arithmetic utilities.

pub mod arraynd;
pub mod domain;
pub mod interval;
pub mod interval_set;
pub mod vector;
pub mod geometric_traits;
pub mod group;
pub mod linear_index;
pub mod math;
pub mod modular;
pub mod permutations;

use vstd::prelude::*;

verus! {

/// Sum of two sizes that does not overflow.
pub fn add(left: usize, right: usize) -> (r: usize)
    requires
        left + right <= usize::MAX,
    ensures
        r == left + right,
{
    left + right
}

} // verus!
