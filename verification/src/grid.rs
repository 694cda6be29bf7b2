//! The toroidal grid of boolean cells.
//!
//! Cells are stored in a flat row-major vector of `side * side` booleans.
//! A coordinate is an `i32` and is normalized as `(coord + side) % side`
//! before any access, which wraps one step of out-of-range in either
//! direction (enough for the neighbour offsets, which are in -1..=1, and for
//! any coordinate at or above `-side`).

use vstd::prelude::*;
use vstd::arithmetic::div_mod::{
    lemma_fundamental_div_mod, lemma_fundamental_div_mod_converse_mod,
    lemma_mod_add_multiples_vanish, lemma_mod_division_less_than_divisor, lemma_mod_twice,
};

verus! {

/// Largest accepted side length; keeps `side * side` within `i32` range, so
/// index arithmetic cannot overflow on any platform.
pub const MAX_SIDE: usize = 46340;

/// A square grid of boolean cells on a torus: the left/right and top/bottom
/// edges are adjacent, so wrapped coordinates always name a valid cell.
pub struct Grid {
    side: usize,
    cells: Vec<bool>,
}

impl Grid {
    /// The side length as a mathematical integer.
    pub closed spec fn n(self) -> int {
        self.side as int
    }

    /// The flat cell vector, row-major: cell (x, y) lives at `x * side + y`.
    pub closed spec fn cells_seq(self) -> Seq<bool> {
        self.cells@
    }

    /// Well-formed: positive side within bounds, and a full backing vector.
    pub open spec fn wf(self) -> bool {
        0 < self.n() <= MAX_SIDE && self.cells_seq().len() == self.n() * self.n()
    }

    /// The state of the cell named by (x, y) after toroidal normalization:
    /// both coordinates are reduced modulo the side length (Euclidean, so the
    /// result is in range for any integer).
    pub open spec fn cell(self, x: int, y: int) -> bool {
        self.cells_seq()[(x % self.n()) * self.n() + (y % self.n())]
    }

    /// The number of live cells in the whole grid.
    pub open spec fn live_count(self) -> int {
        count_true(self.cells_seq(), self.cells_seq().len() as int)
    }

    /// The number of live cells among the 8 neighbours of (x, y): the 3x3
    /// block around it, minus the center itself.
    pub open spec fn live_neighbours(self, x: int, y: int) -> int {
        count_alive(self.cell(x - 1, y - 1))
            + count_alive(self.cell(x - 1, y))
            + count_alive(self.cell(x - 1, y + 1))
            + count_alive(self.cell(x, y - 1))
            + count_alive(self.cell(x, y + 1))
            + count_alive(self.cell(x + 1, y - 1))
            + count_alive(self.cell(x + 1, y))
            + count_alive(self.cell(x + 1, y + 1))
    }

    /// Builds a `side` x `side` grid with every cell dead.
    pub fn new(side: usize) -> (g: Grid)
        requires
            0 < side <= MAX_SIDE,
        ensures
            g.wf(),
            g.n() == side,
            forall|x: int, y: int| g.cell(x, y) == false,
    {
        proof {
            lemma_square_fits(side as int);
        }
        let mut cells: Vec<bool> = Vec::new();
        let total: usize = side * side;
        let mut i: usize = 0;
        while i < total
            invariant
                cells@.len() == i,
                i <= total,
                forall|k: int| 0 <= k < i ==> cells@[k] == false,
            decreases total - i,
        {
            cells.push(false);
            i = i + 1;
        }
        let g = Grid { side, cells };
        proof {
            assert forall|x: int, y: int| g.cell(x, y) == false by {
                lemma_mod_division_less_than_divisor(x, g.n());
                lemma_mod_division_less_than_divisor(y, g.n());
                lemma_index_in_range(x % g.n(), y % g.n(), g.n());
            }
        }
        g
    }

    /// The side length the grid was built with.
    pub fn side(&self) -> (s: usize)
        ensures
            s as int == self.n(),
    {
        self.side
    }

    /// Reads the cell named by (x, y), wrapping each coordinate one step:
    /// any coordinate at or above `-side` maps to its cell on the torus.
    pub fn get(&self, x: i32, y: i32) -> (v: bool)
        requires
            self.wf(),
            -self.n() <= x as int,
            -self.n() <= y as int,
            x as int + self.n() <= i32::MAX as int,
            y as int + self.n() <= i32::MAX as int,
        ensures
            v == self.cell(x as int, y as int),
    {
        let xi = self.norm(x);
        let yi = self.norm(y);
        proof {
            lemma_square_fits(self.n());
            lemma_index_in_range(xi as int, yi as int, self.n());
        }
        self.cells[xi * self.side + yi]
    }

    /// Writes the cell named by (x, y), with the same wrapping as `get`.
    /// Exactly one cell changes: the one both coordinates normalize to.
    pub fn set(&mut self, x: i32, y: i32, v: bool)
        requires
            old(self).wf(),
            -old(self).n() <= x as int,
            -old(self).n() <= y as int,
            x as int + old(self).n() <= i32::MAX as int,
            y as int + old(self).n() <= i32::MAX as int,
        ensures
            final(self).wf(),
            final(self).n() == old(self).n(),
            final(self).cell(x as int, y as int) == v,
            forall|i: int, j: int|
                !(i % old(self).n() == x as int % old(self).n() && j % old(self).n() == y as int
                    % old(self).n()) ==> final(self).cell(i, j) == old(self).cell(i, j),
            final(self).live_count() == old(self).live_count() - count_alive(
                old(self).cell(x as int, y as int),
            ) + count_alive(v),
    {
        let xi = self.norm(x);
        let yi = self.norm(y);
        proof {
            lemma_square_fits(self.n());
            lemma_index_in_range(xi as int, yi as int, self.n());
        }
        let idx: usize = xi * self.side + yi;
        self.cells.set(idx, v);
        proof {
            lemma_count_true_update(
                old(self).cells_seq(),
                idx as int,
                v,
                old(self).cells_seq().len() as int,
            );
            assert forall|i: int, j: int|
                !(i % old(self).n() == x as int % old(self).n() && j % old(self).n() == y as int
                    % old(self).n()) implies self.cell(i, j) == old(self).cell(i, j) by {
                lemma_mod_division_less_than_divisor(i, self.n());
                lemma_mod_division_less_than_divisor(j, self.n());
                lemma_index_in_range(i % self.n(), j % self.n(), self.n());
                lemma_index_injective(
                    i % self.n(),
                    j % self.n(),
                    x as int % self.n(),
                    y as int % self.n(),
                    self.n(),
                );
            }
        }
    }

    /// Counts the live cells among the 8 neighbours of (x, y); the center
    /// cell itself is never counted. The count is always in 0..=8. The query
    /// point may lie anywhere the eight inner reads stay within one
    /// wraparound step: any coordinate from `1 - side` upward.
    pub fn neighbours(&self, x: i32, y: i32) -> (ct: u32)
        requires
            self.wf(),
            1 - self.n() <= x as int,
            1 - self.n() <= y as int,
            x as int + 1 + self.n() <= i32::MAX as int,
            y as int + 1 + self.n() <= i32::MAX as int,
        ensures
            ct as int == self.live_neighbours(x as int, y as int),
            0 <= ct <= 8,
    {
        let mut ct: u32 = 0;
        if self.get(x - 1, y - 1) {
            ct = ct + 1;
        }
        if self.get(x - 1, y) {
            ct = ct + 1;
        }
        if self.get(x - 1, y + 1) {
            ct = ct + 1;
        }
        if self.get(x, y - 1) {
            ct = ct + 1;
        }
        if self.get(x, y + 1) {
            ct = ct + 1;
        }
        if self.get(x + 1, y - 1) {
            ct = ct + 1;
        }
        if self.get(x + 1, y) {
            ct = ct + 1;
        }
        if self.get(x + 1, y + 1) {
            ct = ct + 1;
        }
        ct
    }

    /// Normalizes one coordinate: `(x + side) % side`, which equals the
    /// Euclidean remainder `x mod side` for every `x >= -side`.
    fn norm(&self, x: i32) -> (r: usize)
        requires
            self.wf(),
            -self.n() <= x as int,
            x as int + self.n() <= i32::MAX as int,
        ensures
            r as int == x as int % self.n(),
            0 <= r < self.n(),
    {
        let s: i32 = self.side as i32;
        let r: i32 = (x + s) % s;
        proof {
            lemma_mod_add_multiples_vanish(x as int, self.n());
            lemma_mod_division_less_than_divisor(x as int, self.n());
        }
        r as usize
    }
}

/// 1 for a live cell, 0 for a dead one; the unit of a neighbour count.
pub open spec fn count_alive(v: bool) -> int {
    if v {
        1
    } else {
        0
    }
}

/// The number of true entries among the first `upto` entries of `s`.
pub open spec fn count_true(s: Seq<bool>, upto: int) -> int
    decreases upto,
{
    if upto <= 0 {
        0
    } else {
        count_true(s, upto - 1) + count_alive(s[upto - 1])
    }
}

/// A count of true entries is never negative.
proof fn lemma_count_true_nonneg(s: Seq<bool>, upto: int)
    ensures
        count_true(s, upto) >= 0,
    decreases upto,
{
    if upto > 0 {
        lemma_count_true_nonneg(s, upto - 1);
    }
}

/// A count of true entries is at least the contribution of any one entry it
/// covers.
proof fn lemma_count_true_lower(s: Seq<bool>, k: int, upto: int)
    requires
        0 <= k < upto <= s.len(),
    ensures
        count_true(s, upto) >= count_alive(s[k]),
    decreases upto,
{
    lemma_count_true_nonneg(s, upto - 1);
    if k < upto - 1 {
        lemma_count_true_lower(s, k, upto - 1);
    }
}

/// Overwriting one entry moves the count of true entries by exactly the
/// difference the overwrite makes at that entry.
proof fn lemma_count_true_update(s: Seq<bool>, k: int, v: bool, upto: int)
    requires
        0 <= k < s.len(),
        0 <= upto <= s.len(),
    ensures
        k < upto ==> count_true(s.update(k, v), upto) == count_true(s, upto) - count_alive(s[k])
            + count_alive(v),
        k >= upto ==> count_true(s.update(k, v), upto) == count_true(s, upto),
    decreases upto,
{
    if upto > 0 {
        lemma_count_true_update(s, k, v, upto - 1);
    }
}

/// A side within bounds has a square that fits comfortably in 32 bits, so
/// flat indices fit every machine word size.
proof fn lemma_square_fits(n: int)
    requires
        0 < n <= MAX_SIDE,
    ensures
        n * n <= 0x7fffffff,
{
    assert(n * n <= 46340 * 46340) by (nonlinear_arith)
        requires
            0 < n <= 46340,
    ;
}

/// Row-major flat indexing stays inside the backing vector: with both
/// normalized coordinates in 0..n, the index `x * n + y` is in 0..n*n.
proof fn lemma_index_in_range(x: int, y: int, n: int)
    requires
        0 < n,
        0 <= x < n,
        0 <= y < n,
    ensures
        0 <= x * n + y < n * n,
{
    assert(x * n + y < n * n) by (nonlinear_arith)
        requires
            0 < n,
            0 <= x < n,
            0 <= y < n,
    ;
    assert(0 <= x * n + y) by (nonlinear_arith)
        requires
            0 < n,
            0 <= x,
            0 <= y,
    ;
}

/// Distinct normalized coordinate pairs use distinct flat indices.
proof fn lemma_index_injective(x1: int, y1: int, x2: int, y2: int, n: int)
    requires
        0 < n,
        0 <= x1 < n,
        0 <= y1 < n,
        0 <= x2 < n,
        0 <= y2 < n,
        !(x1 == x2 && y1 == y2),
    ensures
        x1 * n + y1 != x2 * n + y2,
{
    assert(x1 * n + y1 != x2 * n + y2) by (nonlinear_arith)
        requires
            0 < n,
            0 <= x1 < n,
            0 <= y1 < n,
            0 <= x2 < n,
            0 <= y2 < n,
            !(x1 == x2 && y1 == y2),
    ;
}

/// Toroidal wraparound: shifting either coordinate by a full side length, in
/// either direction, names the same cell.
pub proof fn lemma_torus_wrap(g: Grid, x: int, y: int)
    requires
        g.wf(),
    ensures
        g.cell(x + g.n(), y) == g.cell(x, y),
        g.cell(x, y + g.n()) == g.cell(x, y),
        g.cell(x - g.n(), y - g.n()) == g.cell(x, y),
{
    lemma_mod_add_multiples_vanish(x, g.n());
    lemma_mod_add_multiples_vanish(y, g.n());
    lemma_mod_add_multiples_vanish(x - g.n(), g.n());
    lemma_mod_add_multiples_vanish(y - g.n(), g.n());
}

/// The neighbour count never reads the center cell: two grids that agree
/// everywhere but at (x, y) give (x, y) the same neighbour count. On a side
/// of 1 or 2 the wrapped neighbour offsets can land back on the center, so
/// the statement asks for a side of at least 3.
pub proof fn lemma_neighbours_ignore_center(g1: Grid, g2: Grid, x: int, y: int)
    requires
        g1.wf(),
        g2.wf(),
        g1.n() == g2.n(),
        g1.n() >= 3,
        forall|i: int, j: int|
            !(i % g1.n() == x % g1.n() && j % g1.n() == y % g1.n()) ==> g1.cell(i, j) == g2.cell(
                i,
                j,
            ),
    ensures
        g1.live_neighbours(x, y) == g2.live_neighbours(x, y),
{
    let n = g1.n();
    lemma_mod_shift_distinct(x, -1, n);
    lemma_mod_shift_distinct(x, 1, n);
    lemma_mod_shift_distinct(y, -1, n);
    lemma_mod_shift_distinct(y, 1, n);
    assert(g1.cell(x - 1, y - 1) == g2.cell(x - 1, y - 1));
    assert(g1.cell(x - 1, y) == g2.cell(x - 1, y));
    assert(g1.cell(x - 1, y + 1) == g2.cell(x - 1, y + 1));
    assert(g1.cell(x, y - 1) == g2.cell(x, y - 1));
    assert(g1.cell(x, y + 1) == g2.cell(x, y + 1));
    assert(g1.cell(x + 1, y - 1) == g2.cell(x + 1, y - 1));
    assert(g1.cell(x + 1, y) == g2.cell(x + 1, y));
    assert(g1.cell(x + 1, y + 1) == g2.cell(x + 1, y + 1));
}

/// A cell name and its wrapped form name the same cell: reading (x, y) is
/// reading (x mod side, y mod side).
pub proof fn lemma_cell_normalize(g: Grid, x: int, y: int)
    requires
        g.wf(),
    ensures
        g.cell(x, y) == g.cell(x % g.n(), y % g.n()),
{
    lemma_mod_twice(x, g.n());
    lemma_mod_twice(y, g.n());
}

/// A grid with a live cell has at least one live cell in its count.
pub proof fn lemma_live_cell_counts(g: Grid, x: int, y: int)
    requires
        g.wf(),
        g.cell(x, y),
    ensures
        g.live_count() >= 1,
{
    let n = g.n();
    lemma_mod_division_less_than_divisor(x, n);
    lemma_mod_division_less_than_divisor(y, n);
    lemma_index_in_range(x % n, y % n, n);
    lemma_count_true_lower(g.cells_seq(), (x % n) * n + (y % n), g.cells_seq().len() as int);
}

/// The neighbour count, like the cell it surrounds, is invariant under
/// shifting the query point by a full side length in either direction.
pub proof fn lemma_neighbours_torus_wrap(g: Grid, x: int, y: int)
    requires
        g.wf(),
    ensures
        g.live_neighbours(x + g.n(), y) == g.live_neighbours(x, y),
        g.live_neighbours(x, y + g.n()) == g.live_neighbours(x, y),
        g.live_neighbours(x - g.n(), y - g.n()) == g.live_neighbours(x, y),
{
    lemma_torus_wrap(g, x - 1, y - 1);
    lemma_torus_wrap(g, x - 1, y);
    lemma_torus_wrap(g, x - 1, y + 1);
    lemma_torus_wrap(g, x, y - 1);
    lemma_torus_wrap(g, x, y);
    lemma_torus_wrap(g, x, y + 1);
    lemma_torus_wrap(g, x + 1, y - 1);
    lemma_torus_wrap(g, x + 1, y);
    lemma_torus_wrap(g, x + 1, y + 1);
}

/// A neighbour count is a sum of eight zero-or-one terms, so it always lies
/// in 0..=8, for every grid and every pair of coordinates.
pub proof fn lemma_neighbours_bounds(g: Grid, x: int, y: int)
    ensures
        0 <= g.live_neighbours(x, y) <= 8,
{
}

/// On a grid with every cell dead, every neighbour count is zero.
pub proof fn lemma_all_dead_neighbours_zero(g: Grid, x: int, y: int)
    requires
        forall|i: int, j: int| g.cell(i, j) == false,
    ensures
        g.live_neighbours(x, y) == 0,
{
}

/// On a side of at least 3, shifting a coordinate one step in either
/// direction always changes its normalized value.
proof fn lemma_mod_shift_distinct(x: int, d: int, n: int)
    requires
        3 <= n,
        d == -1 || d == 1,
    ensures
        (x + d) % n != x % n,
{
    lemma_mod_division_less_than_divisor(x, n);
    lemma_fundamental_div_mod(x, n);
    let q = x / n;
    let r = x % n;
    assert(q * n == n * q) by (nonlinear_arith);
    if d == 1 {
        if r + 1 < n {
            lemma_fundamental_div_mod_converse_mod(x + 1, n, q, r + 1);
        } else {
            assert(x + 1 == (q + 1) * n + 0) by (nonlinear_arith)
                requires
                    x == q * n + r,
                    r + 1 == n,
            ;
            lemma_fundamental_div_mod_converse_mod(x + 1, n, q + 1, 0);
        }
    } else if d == -1 {
        if r >= 1 {
            lemma_fundamental_div_mod_converse_mod(x - 1, n, q, r - 1);
        } else {
            assert(x - 1 == (q - 1) * n + (n - 1)) by (nonlinear_arith)
                requires
                    x == q * n + r,
                    r == 0,
            ;
            lemma_fundamental_div_mod_converse_mod(x - 1, n, q - 1, n - 1);
        }
    }
}

} // verus!
