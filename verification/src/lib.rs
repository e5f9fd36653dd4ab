//! Sliding-tile puzzle boards and solvers.
pub mod board;
pub mod input;
pub mod inversions;
pub mod solver;

use vstd::prelude::*;

verus! {

} // verus!
