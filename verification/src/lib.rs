//! Two-phase Rubik's cube solver: permutations, cube states, symmetries,
//! coordinates and pruning tables.
use vstd::prelude::*;

pub mod math;
pub mod nibble;
pub mod bitset;
pub mod perm;
pub mod lehmer;
pub mod face;
pub mod piece;
pub mod cube;
pub mod mov;
pub mod sym;
pub mod coord;
pub mod pruning;
pub mod solver;
pub mod text;
pub mod net;
pub mod algebra;

