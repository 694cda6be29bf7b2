//! The drawing plan for a frame: the axis-aligned squares to fill, one per
//! live cell, in the deterministic row-major order the renderer walks the
//! grid in. The window layer only turns each entry into one fill call and
//! ignores individual draw failures.

use vstd::prelude::*;

use crate::grid::Grid;

verus! {

/// One filled square: top-left pixel corner and size in pixels.
#[derive(Clone, Copy, PartialEq, Eq, Structural, Debug)]
pub struct CellRect {
    pub x: i32,
    pub y: i32,
    pub w: u32,
    pub h: u32,
}

/// The squares for the live cells of row `y` with column below `upto`, in
/// column order, each of side `p` at pixel position (column * p, y * p).
pub open spec fn row_rects(g: Grid, y: int, upto: int, p: int) -> Seq<CellRect>
    decreases upto,
{
    if upto <= 0 {
        Seq::empty()
    } else {
        row_rects(g, y, upto - 1, p) + (if g.cell(upto - 1, y) {
            seq![
                CellRect {
                    x: ((upto - 1) * p) as i32,
                    y: (y * p) as i32,
                    w: p as u32,
                    h: p as u32,
                },
            ]
        } else {
            Seq::empty()
        })
    }
}

/// The squares for every live cell of the rows below `rows`, row by row.
pub open spec fn rects_upto(g: Grid, rows: int, p: int) -> Seq<CellRect>
    decreases rows,
{
    if rows <= 0 {
        Seq::empty()
    } else {
        rects_upto(g, rows - 1, p) + row_rects(g, rows - 1, g.n(), p)
    }
}

/// The full drawing plan for grid `g` at pixel scale `p`.
pub open spec fn draw_list(g: Grid, p: int) -> Seq<CellRect> {
    rects_upto(g, g.n(), p)
}

/// Walks the grid row-major and returns the square to fill for each live
/// cell: exactly the drawing plan `draw_list`, in order.
pub fn render_cells(g: &Grid, p: u32) -> (r: Vec<CellRect>)
    requires
        g.wf(),
        1 <= p,
        g.n() * p as int <= i32::MAX as int,
    ensures
        r@ == draw_list(*g, p as int),
{
    let side = g.side();
    let s: i32 = side as i32;
    let pi: i32 = p as i32;
    proof {
        assert(p as int <= s as int * p as int) by (nonlinear_arith)
            requires
                1 <= s as int,
                1 <= p as int,
        ;
    }
    let mut out: Vec<CellRect> = Vec::new();
    let mut y: i32 = 0;
    while y < s
        invariant
            g.wf(),
            s as int == g.n(),
            pi as int == p as int,
            1 <= p,
            g.n() * p as int <= i32::MAX as int,
            0 <= y as int && y as int <= (s as int),
            out@ == rects_upto(*g, y as int, p as int),
        decreases s - y,
    {
        let mut x: i32 = 0;
        while x < s
            invariant
                g.wf(),
                s as int == g.n(),
                pi as int == p as int,
                1 <= p,
                g.n() * p as int <= i32::MAX as int,
                0 <= y as int && (y as int) < (s as int),
                0 <= x as int && x as int <= (s as int),
                out@ == rects_upto(*g, y as int, p as int) + row_rects(
                    *g,
                    y as int,
                    x as int,
                    p as int,
                ),
            decreases s - x,
        {
            proof {
                lemma_scaled_in_range(x as int, s as int, p as int);
                lemma_scaled_in_range(y as int, s as int, p as int);
            }
            if g.get(x, y) {
                out.push(CellRect { x: x * pi, y: y * pi, w: p, h: p });
            }
            proof {
                assert(out@ =~= rects_upto(*g, y as int, p as int) + row_rects(
                    *g,
                    y as int,
                    x as int + 1,
                    p as int,
                ));
            }
            x = x + 1;
        }
        proof {
            assert(out@ =~= rects_upto(*g, y as int + 1, p as int));
        }
        y = y + 1;
    }
    out
}

/// A coordinate below the side scales to a pixel offset that leaves room for
/// one more cell: `x * p + p <= side * p`, which fits in `i32` when the full
/// frame does.
proof fn lemma_scaled_in_range(x: int, s: int, p: int)
    requires
        0 <= x < s,
        1 <= p,
    ensures
        0 <= x * p,
        x * p + p <= s * p,
{
    assert(0 <= x * p && x * p + p <= s * p) by (nonlinear_arith)
        requires
            0 <= x < s,
            1 <= p,
    ;
}

} // verus!
