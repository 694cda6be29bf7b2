//! Random initialization of a grid.
//!
//! The generator is the `rand` crate's standard generator, owned by the
//! caller and passed in; nothing about a drawn value can be pinned down, so
//! the contracts state only what holds of every outcome: each draw lies in
//! the asked-for range, exactly `count` in-grid positions are drawn and each
//! is turned live (so a positive fill always leaves a live cell; draws may
//! collide), and nothing else changes. Which cells are drawn depends on the
//! generator's state.

use vstd::prelude::*;
use vstd::arithmetic::div_mod::{lemma_mod_division_less_than_divisor, lemma_small_mod};

use crate::grid::{lemma_live_cell_counts, Grid};

verus! {

/// The `rand` crate's standard generator, opaque to the verifier; the caller
/// seeds it once and owns it.
#[verifier::external_type_specification]
#[verifier::external_body]
pub struct ExStdRng(rand::rngs::StdRng);

/// Relies on rand::RngExt::random_range: a value sampled from the nonempty
/// range `0..n` lies in that range, and the call does not panic on it.
#[verifier::external_body]
fn rand_below(rng: &mut rand::rngs::StdRng, n: i32) -> (r: i32)
    requires
        1 <= n,
    ensures
        0 <= r < n,
{
    rand::RngExt::random_range(rng, 0..n)
}

/// True when some drawn position in `ps` names the cell (i, j) of a grid of
/// side `n`, after toroidal normalization of (i, j).
pub open spec fn filled_at(ps: Seq<(int, int)>, n: int, i: int, j: int) -> bool {
    exists|t: int| 0 <= t < ps.len() && ps[t] == (i % n, j % n)
}

/// One possible outcome of a fill: `ps` lists the `count` drawn positions,
/// each inside the grid, and `post` is live exactly where `pre` was live or
/// where a draw landed.
pub open spec fn fill_outcome(pre: Grid, post: Grid, ps: Seq<(int, int)>, count: int) -> bool {
    &&& ps.len() == count
    &&& forall|t: int|
        0 <= t < ps.len() ==> 0 <= (#[trigger] ps[t]).0 < pre.n() && 0 <= ps[t].1 < pre.n()
    &&& forall|i: int, j: int|
        #[trigger] post.cell(i, j) <==> (pre.cell(i, j) || filled_at(ps, pre.n(), i, j))
}

/// Draws `count` random cell positions and turns each one live: the result
/// is some fill outcome, so cells are only ever switched on, at most `count`
/// of them, and a positive fill leaves at least one cell live. Which cells
/// turn on depends on the generator's state.
pub fn random_fill(g: &mut Grid, rng: &mut rand::rngs::StdRng, count: u32)
    requires
        old(g).wf(),
    ensures
        final(g).wf(),
        final(g).n() == old(g).n(),
        forall|i: int, j: int| old(g).cell(i, j) ==> final(g).cell(i, j),
        old(g).live_count() <= final(g).live_count() <= old(g).live_count() + count,
        count >= 1 ==> final(g).live_count() >= 1,
        exists|ps: Seq<(int, int)>| fill_outcome(*old(g), *final(g), ps, count as int),
{
    let s: i32 = g.side() as i32;
    let ghost mut ps: Seq<(int, int)> = Seq::empty();
    let mut k: u32 = 0;
    while k < count
        invariant
            g.wf(),
            g.n() == old(g).n(),
            s as int == g.n(),
            k <= count,
            ps.len() == k as int,
            forall|t: int|
                0 <= t < ps.len() ==> 0 <= (#[trigger] ps[t]).0 < g.n() && 0 <= ps[t].1 < g.n(),
            forall|i: int, j: int|
                #[trigger] g.cell(i, j) <==> (old(g).cell(i, j) || filled_at(ps, old(g).n(), i, j)),
            old(g).live_count() <= g.live_count() <= old(g).live_count() + k,
            k >= 1 ==> g.live_count() >= 1,
        decreases count - k,
    {
        let x = rand_below(rng, s);
        let y = rand_below(rng, s);
        g.set(x, y, true);
        proof {
            let n = g.n();
            lemma_small_mod(x as nat, n as nat);
            lemma_small_mod(y as nat, n as nat);
            lemma_live_cell_counts(*g, x as int, y as int);
            let ps2 = ps.push((x as int, y as int));
            assert forall|i: int, j: int| #[trigger] g.cell(i, j) <==> (old(g).cell(i, j)
                || filled_at(ps2, n, i, j)) by {
                lemma_mod_division_less_than_divisor(i, n);
                lemma_mod_division_less_than_divisor(j, n);
                if i % n == x as int && j % n == y as int {
                    assert(ps2[ps.len() as int] == (i % n, j % n));
                    assert(filled_at(ps2, n, i, j));
                } else {
                    if filled_at(ps2, n, i, j) {
                        let t = choose|t: int| 0 <= t < ps2.len() && ps2[t] == (i % n, j % n);
                        assert(t < ps.len());
                        assert(filled_at(ps, n, i, j));
                    }
                    if filled_at(ps, n, i, j) {
                        let t = choose|t: int| 0 <= t < ps.len() && ps[t] == (i % n, j % n);
                        assert(ps2[t] == (i % n, j % n));
                        assert(filled_at(ps2, n, i, j));
                    }
                }
            }
            ps = ps2;
        }
        k = k + 1;
    }
    proof {
        assert(fill_outcome(*old(g), *g, ps, count as int));
    }
}

} // verus!
