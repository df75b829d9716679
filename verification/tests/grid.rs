use life_grid::grid::{Coords, Grid};

fn c(x: usize, y: usize) -> Coords {
    Coords { x, y }
}

/// Collects the whole grid as a row-major vector of booleans via `at`.
fn snapshot(g: &Grid) -> Vec<bool> {
    let mut out = Vec::new();
    for y in 0..g.height() {
        for x in 0..g.width() {
            out.push(g.at(c(x, y)));
        }
    }
    out
}

#[test]
fn modulus() {
    let a: i32 = -1;
    assert_ne!(a % 5, 4);
    assert_eq!(a.rem_euclid(5), 4);
}

#[test]
fn new_grid_is_all_dead() {
    let g = Grid::new(4, 3);
    assert_eq!(g.width(), 4);
    assert_eq!(g.height(), 3);
    for y in 0..3 {
        for x in 0..4 {
            assert!(!g.at(c(x, y)));
        }
    }
}

#[test]
fn zero_dimensions_are_rejected() {
    assert!(Grid::try_new(0, 5).is_none());
    assert!(Grid::try_new(5, 0).is_none());
    assert!(Grid::try_new(0, 0).is_none());
    let g = Grid::try_new(5, 3).expect("positive dimensions admit a grid");
    assert_eq!(g.width(), 5);
    assert_eq!(g.height(), 3);
}

#[test]
fn at_and_set_wrap_out_of_range_coordinates() {
    let mut g = Grid::new(4, 4);
    // (5, 7) normalizes to (1, 3).
    g.set(c(5, 7), true);
    assert!(g.at(c(1, 3)));
    assert!(g.at(c(5, 7)));
    assert!(g.at(c(9, 11)));
    assert!(!g.at(c(1, 1)));
    // Writing through the normalized coordinate hits the same cell.
    g.set(c(1, 3), false);
    assert!(!g.at(c(5, 7)));
}

#[test]
fn neighbors_wrap_around_the_torus() {
    let mut g = Grid::new(4, 4);
    g.set(c(3, 3), true);
    // (3, 3) is the north-west diagonal neighbor of (0, 0).
    let ns = g.neighbors(c(0, 0));
    assert!(ns[0]);
    assert_eq!(ns.iter().filter(|&&alive| alive).count(), 1);
}

#[test]
fn neighbors_come_in_a_fixed_order() {
    let mut g = Grid::new(5, 5);
    // Give every neighbor of (2, 2) a distinct role: only the west column
    // and the south cell are alive.
    g.set(c(1, 1), true);
    g.set(c(1, 2), true);
    g.set(c(1, 3), true);
    g.set(c(2, 3), true);
    let ns = g.neighbors(c(2, 2));
    assert_eq!(ns, [true, true, true, false, true, false, false, false]);
}

#[test]
fn blinker_oscillates_with_period_two() {
    let mut g = Grid::from_seed(5, 5, &[c(1, 2), c(2, 2), c(3, 2)]);
    let horizontal = snapshot(&g);

    g.advance();
    for y in 0..5 {
        for x in 0..5 {
            let expect = x == 2 && (y == 1 || y == 2 || y == 3);
            assert_eq!(g.at(c(x, y)), expect, "vertical phase at ({x},{y})");
        }
    }

    g.advance();
    assert_eq!(snapshot(&g), horizontal);
}

#[test]
fn isolated_cell_dies() {
    let mut g = Grid::new(5, 5);
    g.set(c(2, 2), true);
    g.advance();
    for y in 0..5 {
        for x in 0..5 {
            assert!(!g.at(c(x, y)));
        }
    }
}

#[test]
fn block_is_a_still_life() {
    let seed = [c(1, 1), c(2, 1), c(1, 2), c(2, 2)];
    let mut g = Grid::from_seed(5, 5, &seed);
    let before = snapshot(&g);
    g.advance();
    assert_eq!(snapshot(&g), before);
}

#[test]
fn advance_matches_counts_from_a_frozen_snapshot() {
    let seed = [c(2, 1), c(3, 1), c(1, 2), c(2, 2), c(2, 3)];
    let frozen = Grid::from_seed(6, 6, &seed);
    let mut g = Grid::from_seed(6, 6, &seed);
    g.advance();
    for y in 0..6 {
        for x in 0..6 {
            let live = frozen
                .neighbors(c(x, y))
                .iter()
                .filter(|&&alive| alive)
                .count();
            let expect = if frozen.at(c(x, y)) {
                live == 2 || live == 3
            } else {
                live == 3
            };
            assert_eq!(g.at(c(x, y)), expect, "rule mismatch at ({x},{y})");
        }
    }
}

#[test]
fn dead_grid_stays_dead() {
    let mut g = Grid::new(4, 4);
    for _ in 0..5 {
        g.advance();
        for y in 0..4 {
            for x in 0..4 {
                assert!(!g.at(c(x, y)));
            }
        }
    }
}

#[test]
fn from_seed_wraps_out_of_range_seeds() {
    let g = Grid::from_seed(4, 4, &[c(5, 1)]);
    assert!(g.at(c(1, 1)));
    let mut live = 0;
    for y in 0..4 {
        for x in 0..4 {
            if g.at(c(x, y)) {
                live += 1;
            }
        }
    }
    assert_eq!(live, 1);
}

#[test]
fn from_seed_tolerates_duplicates() {
    let g = Grid::from_seed(3, 3, &[c(1, 1), c(1, 1), c(4, 4)]);
    assert!(g.at(c(1, 1)));
    let mut live = 0;
    for y in 0..3 {
        for x in 0..3 {
            if g.at(c(x, y)) {
                live += 1;
            }
        }
    }
    assert_eq!(live, 1);
}

#[test]
fn tick_advances_only_on_the_step_signal() {
    let mut g = Grid::from_seed(5, 5, &[c(1, 2), c(2, 2), c(3, 2)]);
    let horizontal = snapshot(&g);

    g.tick(false);
    assert_eq!(snapshot(&g), horizontal);

    g.tick(true);
    assert!(g.at(c(2, 1)));
    assert!(!g.at(c(1, 2)));
}

#[test]
fn cells_row_major_matches_the_layout() {
    let mut g = Grid::new(3, 2);
    g.set(c(1, 0), true);
    g.set(c(2, 1), true);
    assert_eq!(
        g.cells_row_major(),
        vec![false, true, false, false, false, true]
    );
}
