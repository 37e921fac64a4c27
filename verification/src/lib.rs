//! A verified two-phase solver for the 3x3x3 Rubik's cube.
//!
//! Cube states are cubie arrays: permutations with orientations. Each phase
//! of the solver works on compact integer coordinates of those arrays, with
//! precomputed transition tables over the generators and breadth-first
//! pruning tables as admissible heuristics for an iterative-deepening
//! search. The two-phase driver enumerates phase-1 candidates lazily and
//! completes each within the remaining move budget.

use vstd::prelude::*;

pub mod corners;
pub mod definitions;
pub mod kociemba;
pub mod laws;
pub mod metric;
pub mod permutations;
pub mod pruning;
pub mod puzzle;
pub mod rubiks;
pub mod search;
pub mod tables;
pub mod transition;
pub mod util;
