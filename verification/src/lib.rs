//! Combinatorial enumerators and backtracking solvers with verified contracts.
use vstd::prelude::*;

pub mod order;
pub mod combinatorics;
pub mod backtracking;
pub mod search;

verus! {

} // verus!
