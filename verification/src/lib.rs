//! Conway's Game of Life on a toroidal grid.
//!
//! The grid is a fixed-size square of boolean cells whose edges wrap around,
//! so every pair of integer coordinates (within one wraparound step) names a
//! valid cell. A generation step reads one grid and builds a fresh one by the
//! standard birth/survival rule.

pub mod events;
pub mod grid;
pub mod life;
pub mod render;
pub mod rng;

use vstd::prelude::*;

verus! {

/// True exactly when the standard rule keeps or makes a cell alive:
/// a live cell survives with 2 or 3 live neighbours, a dead cell is born
/// with exactly 3.
pub open spec fn rule_alive(alive: bool, n: int) -> bool {
    if alive {
        n == 2 || n == 3
    } else {
        n == 3
    }
}

} // verus!
