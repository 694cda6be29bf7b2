//! The generation step: from one grid, build the next one by the standard
//! birth/survival rule, reading only the old grid and writing only the new
//! one.

use vstd::prelude::*;
use vstd::arithmetic::div_mod::lemma_small_mod;

use crate::grid::Grid;
use crate::rule_alive;

verus! {

/// The state cell (x, y) takes in the generation after `g`: alive exactly
/// when the rule keeps or makes it alive, given its current state and its
/// live-neighbour count in `g`.
pub open spec fn next_alive(g: Grid, x: int, y: int) -> bool {
    rule_alive(g.cell(x, y), g.live_neighbours(x, y))
}

/// Runs one generation: returns a fresh grid of the same side in which every
/// cell holds the state the rule assigns it, each neighbour count taken from
/// the unchanged input grid. The input is only read, never written.
pub fn gen(g: &Grid) -> (ng: Grid)
    requires
        g.wf(),
    ensures
        ng.wf(),
        ng.n() == g.n(),
        forall|x: int, y: int|
            0 <= x < g.n() && 0 <= y < g.n() ==> ng.cell(x, y) == next_alive(*g, x, y),
{
    let side = g.side();
    let s: i32 = side as i32;
    let mut ng = Grid::new(side);
    let mut x: i32 = 0;
    while x < s
        invariant
            g.wf(),
            ng.wf(),
            ng.n() == g.n(),
            s as int == g.n(),
            0 <= x as int && x as int <= (s as int),
            forall|i: int, j: int|
                0 <= i < g.n() && 0 <= j < g.n() && i < x as int ==> ng.cell(i, j) == next_alive(
                    *g,
                    i,
                    j,
                ),
        decreases s - x,
    {
        let mut y: i32 = 0;
        while y < s
            invariant
                g.wf(),
                ng.wf(),
                ng.n() == g.n(),
                s as int == g.n(),
                0 <= x as int && (x as int) < (s as int),
                0 <= y as int && y as int <= (s as int),
                forall|i: int, j: int|
                    0 <= i < g.n() && 0 <= j < g.n() && (i < x as int || (i == x as int && j
                        < y as int)) ==> ng.cell(i, j) == next_alive(*g, i, j),
            decreases s - y,
        {
            let n = g.neighbours(x, y);
            let v: bool = if g.get(x, y) {
                n == 2 || n == 3
            } else {
                n == 3
            };
            ng.set(x, y, v);
            proof {
                let nn = g.n();
                lemma_small_mod(x as nat, nn as nat);
                lemma_small_mod(y as nat, nn as nat);
                assert forall|i: int, j: int|
                    0 <= i < nn && 0 <= j < nn && (i < x as int || (i == x as int && j < y as int
                        + 1)) implies ng.cell(i, j) == next_alive(*g, i, j) by {
                    lemma_small_mod(i as nat, nn as nat);
                    lemma_small_mod(j as nat, nn as nat);
                }
            }
            y = y + 1;
        }
        x = x + 1;
    }
    ng
}

} // verus!
