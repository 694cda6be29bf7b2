use life::grid::Grid;

#[test]
fn fresh_grid_all_dead() {
    let g = Grid::new(5);
    for x in 0..5 {
        for y in 0..5 {
            assert!(!g.get(x, y));
        }
    }
}

#[test]
fn fresh_grid_neighbours_all_zero() {
    let g = Grid::new(5);
    for x in 0..5 {
        for y in 0..5 {
            assert_eq!(g.neighbours(x, y), 0);
        }
    }
}

#[test]
fn set_then_get_roundtrip() {
    let mut g = Grid::new(5);
    g.set(2, 3, true);
    assert!(g.get(2, 3));
    g.set(2, 3, false);
    assert!(!g.get(2, 3));
}

#[test]
fn set_changes_only_one_cell() {
    let mut g = Grid::new(5);
    g.set(2, 3, true);
    for x in 0..5 {
        for y in 0..5 {
            assert_eq!(g.get(x, y), x == 2 && y == 3);
        }
    }
}

#[test]
fn torus_get_wraps_full_side() {
    let mut g = Grid::new(5);
    g.set(2, 3, true);
    assert!(g.get(2, 3));
    assert!(g.get(2 + 5, 3));
    assert!(g.get(2, 3 + 5));
    assert!(g.get(2 - 5, 3 - 5));
}

#[test]
fn torus_set_wraps_negative_coordinates() {
    let mut g = Grid::new(5);
    g.set(-1, -1, true);
    assert!(g.get(4, 4));
    assert!(!g.get(0, 0));
}

#[test]
fn neighbours_counts_at_most_eight_and_skips_center() {
    let mut g = Grid::new(5);
    for x in 0..3 {
        for y in 0..3 {
            g.set(x, y, true);
        }
    }
    // The full 3x3 block is live; the center cell itself is not counted.
    assert_eq!(g.neighbours(1, 1), 8);
    // Killing the center leaves the count of its 8 neighbours unchanged.
    g.set(1, 1, false);
    assert_eq!(g.neighbours(1, 1), 8);
}

#[test]
fn neighbours_wrap_at_edges() {
    let mut g = Grid::new(5);
    g.set(4, 4, true);
    // (0, 0) touches (4, 4) across both wrapped edges.
    assert_eq!(g.neighbours(0, 0), 1);
}

#[test]
fn side_reports_construction_size() {
    let g = Grid::new(300);
    assert_eq!(g.side(), 300);
}

#[test]
fn many_wraparound_steps_on_get() {
    let mut g = Grid::new(5);
    g.set(2, 3, true);
    // get accepts any coordinate from -side upward, however many side
    // lengths above the grid it lies.
    assert!(g.get(12, 3));
    assert!(g.get(2, 13));
}

#[test]
fn side_one_grid_neighbours_wrap_onto_center() {
    let mut g = Grid::new(1);
    g.set(0, 0, true);
    // On a 1x1 torus all eight neighbour offsets wrap back onto the only
    // cell, so the count sees it eight times.
    assert_eq!(g.neighbours(0, 0), 8);
}

#[test]
fn neighbours_accepts_out_of_range_queries() {
    let mut g = Grid::new(5);
    g.set(0, 0, true);
    g.set(1, 1, true);
    g.set(2, 0, true);
    // The query point itself may lie outside the grid, anywhere from
    // 1 - side upward; it is wrapped like any other coordinate.
    let here = g.neighbours(1, 1);
    assert_eq!(here, 2);
    assert_eq!(g.neighbours(-4, 1), here);
    assert_eq!(g.neighbours(1, -4), here);
}

#[test]
fn neighbours_invariant_under_side_shift() {
    let mut g = Grid::new(5);
    g.set(0, 0, true);
    g.set(4, 4, true);
    g.set(2, 3, true);
    for x in 0..5 {
        for y in 0..5 {
            let here = g.neighbours(x, y);
            assert_eq!(g.neighbours(x + 5, y), here);
            assert_eq!(g.neighbours(x, y + 5), here);
            assert_eq!(g.neighbours(x + 5, y + 5), here);
        }
    }
}
