use life::grid::Grid;
use life::rng::random_fill;
use rand::rngs::StdRng;
use rand::SeedableRng;

fn count_live(g: &Grid, side: i32) -> usize {
    let mut ct = 0;
    for x in 0..side {
        for y in 0..side {
            if g.get(x, y) {
                ct += 1;
            }
        }
    }
    ct
}

#[test]
fn random_fill_only_turns_cells_on() {
    let mut g = Grid::new(20);
    g.set(3, 4, true);
    g.set(10, 17, true);
    let mut rng = StdRng::seed_from_u64(7);
    random_fill(&mut g, &mut rng, 50);
    assert!(g.get(3, 4));
    assert!(g.get(10, 17));
}

#[test]
fn random_fill_lands_inside_the_grid() {
    let mut g = Grid::new(20);
    let mut rng = StdRng::seed_from_u64(11);
    random_fill(&mut g, &mut rng, 100);
    let live = count_live(&g, 20);
    // Some draws landed, none outside the grid, and no more cells turned on
    // than draws were made.
    assert!(live > 0);
    assert!(live <= 100);
}

#[test]
fn random_fill_with_zero_count_changes_nothing() {
    let mut g = Grid::new(10);
    let mut rng = StdRng::seed_from_u64(3);
    random_fill(&mut g, &mut rng, 0);
    assert_eq!(count_live(&g, 10), 0);
}

#[test]
fn random_fill_spreads_over_distinct_cells() {
    let mut g = Grid::new(300);
    let mut rng = StdRng::seed_from_u64(42);
    random_fill(&mut g, &mut rng, 10000);
    let live = count_live(&g, 300);
    // A generator stuck on one value would light a single cell; a healthy
    // one lights many (collisions keep it below the draw count).
    assert!(live > 100);
    assert!(live <= 10000);
}

#[test]
fn single_draw_on_empty_grid_lights_exactly_one_cell() {
    let mut g = Grid::new(8);
    let mut rng = StdRng::seed_from_u64(5);
    random_fill(&mut g, &mut rng, 1);
    assert_eq!(count_live(&g, 8), 1);
}
