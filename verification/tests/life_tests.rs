use life::grid::Grid;
use life::life::gen;

fn live_cells(g: &Grid, side: i32) -> Vec<(i32, i32)> {
    let mut out = Vec::new();
    for x in 0..side {
        for y in 0..side {
            if g.get(x, y) {
                out.push((x, y));
            }
        }
    }
    out
}

#[test]
fn still_life_block_is_unchanged() {
    let mut g = Grid::new(5);
    g.set(1, 1, true);
    g.set(1, 2, true);
    g.set(2, 1, true);
    g.set(2, 2, true);
    let before = live_cells(&g, 5);
    let ng = gen(&g);
    assert_eq!(live_cells(&ng, 5), before);
}

#[test]
fn death_by_isolation() {
    let mut g = Grid::new(5);
    g.set(2, 2, true);
    let ng = gen(&g);
    assert!(live_cells(&ng, 5).is_empty());
}

#[test]
fn death_by_overcrowding() {
    let mut g = Grid::new(5);
    // Center live with 4 live neighbours.
    g.set(2, 2, true);
    g.set(1, 2, true);
    g.set(3, 2, true);
    g.set(2, 1, true);
    g.set(2, 3, true);
    let ng = gen(&g);
    assert!(!ng.get(2, 2));
}

#[test]
fn birth_with_exactly_three_neighbours() {
    let mut g = Grid::new(5);
    // (2, 2) is dead and touches exactly three live cells.
    g.set(1, 1, true);
    g.set(1, 2, true);
    g.set(1, 3, true);
    assert_eq!(g.neighbours(2, 2), 3);
    let ng = gen(&g);
    assert!(ng.get(2, 2));
}

#[test]
fn blinker_oscillates_with_period_two() {
    let mut g = Grid::new(5);
    // Horizontal three-cell line through (2, 2).
    g.set(1, 2, true);
    g.set(2, 2, true);
    g.set(3, 2, true);
    let first = gen(&g);
    // After one step: a vertical line through (2, 2).
    assert_eq!(live_cells(&first, 5), vec![(2, 1), (2, 2), (2, 3)]);
    let second = gen(&first);
    // After two steps: back to the horizontal line.
    assert_eq!(live_cells(&second, 5), vec![(1, 2), (2, 2), (3, 2)]);
}

#[test]
fn gen_leaves_input_grid_untouched() {
    let mut g = Grid::new(5);
    g.set(1, 2, true);
    g.set(2, 2, true);
    g.set(3, 2, true);
    let before = live_cells(&g, 5);
    let _ng = gen(&g);
    assert_eq!(live_cells(&g, 5), before);
}
