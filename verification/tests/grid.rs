use game_of_life::Cell;
use game_of_life::GridError;
use game_of_life::Universe;

fn alive(u: &Universe, row: u32, col: u32) -> bool {
    u.get_cell(row, col) == Cell::Alive
}

fn resize(u: &mut Universe, width: u32, height: u32) {
    u.set_width(width).unwrap();
    u.set_height(height).unwrap();
}

fn set_all(u: &mut Universe, coords: &[(u32, u32)]) {
    let v: Vec<(u32, u32)> = coords.to_vec();
    u.set_cells(&v).unwrap();
}

fn live_cells(u: &Universe) -> Vec<(u32, u32)> {
    let mut out = Vec::new();
    for row in 0..u.height() {
        for col in 0..u.width() {
            if alive(u, row, col) {
                out.push((row, col));
            }
        }
    }
    out
}

#[test]
fn new_universe_has_default_dimensions() {
    let u = Universe::new();
    assert_eq!(u.width(), 64);
    assert_eq!(u.height(), 64);
}

#[test]
fn new_universe_has_seed_pattern() {
    let u = Universe::new();
    for row in 0..64u32 {
        for col in 0..64u32 {
            let i = row * 64 + col;
            let expected = i % 2 == 0 || i % 7 == 0;
            assert_eq!(alive(&u, row, col), expected, "cell ({}, {})", row, col);
        }
    }
}

#[test]
fn cells_exposes_packed_words() {
    let mut u = Universe::new();
    resize(&mut u, 8, 8);
    set_all(&mut u, &[(3, 7), (4, 0)]);
    let words = u.cells();
    assert_eq!(words.len(), 2);
    assert_eq!(words[0], 1u32 << 31);
    assert_eq!(words[1], 1u32);
}

#[test]
fn cells_matches_seed_pattern_words() {
    let u = Universe::new();
    let words = u.cells();
    assert_eq!(words.len(), 128);
    let mut expected0 = 0u32;
    for bit in 0..32u32 {
        if bit % 2 == 0 || bit % 7 == 0 {
            expected0 |= 1 << bit;
        }
    }
    assert_eq!(words[0], expected0);
}

#[test]
fn ticks_are_deterministic() {
    let mut a = Universe::new();
    let mut b = Universe::new();
    for _ in 0..3 {
        a.tick();
        b.tick();
    }
    assert_eq!(live_cells(&a), live_cells(&b));
}

#[test]
fn row_wraparound_counts_neighbors() {
    // A horizontal blinker in row 0 flips to a vertical one whose top arm
    // wraps to the last row.
    let mut u = Universe::new();
    resize(&mut u, 5, 5);
    set_all(&mut u, &[(0, 1), (0, 2), (0, 3)]);
    u.tick();
    assert_eq!(live_cells(&u), vec![(0, 2), (1, 2), (4, 2)]);
}

#[test]
fn column_wraparound_counts_neighbors() {
    // A vertical blinker in column 0 flips to a horizontal one whose left
    // arm wraps to the last column.
    let mut u = Universe::new();
    resize(&mut u, 5, 5);
    set_all(&mut u, &[(1, 0), (2, 0), (3, 0)]);
    u.tick();
    assert_eq!(live_cells(&u), vec![(2, 0), (2, 1), (2, 4)]);
}

#[test]
fn block_is_a_still_life() {
    let mut u = Universe::new();
    resize(&mut u, 6, 6);
    set_all(&mut u, &[(2, 2), (2, 3), (3, 2), (3, 3)]);
    u.tick();
    assert_eq!(live_cells(&u), vec![(2, 2), (2, 3), (3, 2), (3, 3)]);
}

#[test]
fn blinker_oscillates_with_period_two() {
    let mut u = Universe::new();
    resize(&mut u, 5, 5);
    set_all(&mut u, &[(2, 1), (2, 2), (2, 3)]);
    u.tick();
    assert_eq!(live_cells(&u), vec![(1, 2), (2, 2), (3, 2)]);
    u.tick();
    assert_eq!(live_cells(&u), vec![(2, 1), (2, 2), (2, 3)]);
}

#[test]
fn glider_advances_one_generation() {
    let mut u = Universe::new();
    resize(&mut u, 6, 6);
    set_all(&mut u, &[(1, 2), (2, 3), (3, 1), (3, 2), (3, 3)]);
    u.tick();
    assert_eq!(live_cells(&u), vec![(2, 1), (2, 3), (3, 2), (3, 3), (4, 2)]);
}

#[test]
fn set_width_resets_all_cells() {
    let mut u = Universe::new();
    u.set_width(10).unwrap();
    assert_eq!(u.width(), 10);
    assert_eq!(u.height(), 64);
    assert!(live_cells(&u).is_empty());
}

#[test]
fn set_height_resets_all_cells() {
    let mut u = Universe::new();
    u.set_height(3).unwrap();
    assert_eq!(u.width(), 64);
    assert_eq!(u.height(), 3);
    assert!(live_cells(&u).is_empty());
}

#[test]
fn set_width_zero_is_rejected_and_changes_nothing() {
    let mut u = Universe::new();
    resize(&mut u, 4, 4);
    set_all(&mut u, &[(1, 1)]);
    assert_eq!(u.set_width(0), Err(GridError::InvalidDimension));
    assert_eq!(u.width(), 4);
    assert_eq!(u.height(), 4);
    assert_eq!(live_cells(&u), vec![(1, 1)]);
}

#[test]
fn set_height_zero_is_rejected_and_changes_nothing() {
    let mut u = Universe::new();
    resize(&mut u, 4, 4);
    set_all(&mut u, &[(2, 3)]);
    assert_eq!(u.set_height(0), Err(GridError::InvalidDimension));
    assert_eq!(u.width(), 4);
    assert_eq!(u.height(), 4);
    assert_eq!(live_cells(&u), vec![(2, 3)]);
}

#[test]
fn set_cells_out_of_bounds_is_rejected_and_changes_nothing() {
    let mut u = Universe::new();
    resize(&mut u, 4, 4);
    set_all(&mut u, &[(0, 0)]);
    let v: Vec<(u32, u32)> = vec![(1, 1), (4, 0)];
    assert_eq!(u.set_cells(&v), Err(GridError::OutOfBounds));
    assert_eq!(live_cells(&u), vec![(0, 0)]);
    let v: Vec<(u32, u32)> = vec![(0, 4)];
    assert_eq!(u.set_cells(&v), Err(GridError::OutOfBounds));
    assert_eq!(live_cells(&u), vec![(0, 0)]);
}

#[test]
fn set_cells_round_trip() {
    let mut u = Universe::new();
    resize(&mut u, 8, 8);
    set_all(&mut u, &[(0, 0), (3, 5), (7, 7)]);
    assert_eq!(live_cells(&u), vec![(0, 0), (3, 5), (7, 7)]);
}

#[test]
fn set_cells_keeps_other_cells() {
    let mut u = Universe::new();
    resize(&mut u, 4, 4);
    set_all(&mut u, &[(0, 1)]);
    set_all(&mut u, &[(2, 2)]);
    assert_eq!(live_cells(&u), vec![(0, 1), (2, 2)]);
}

#[test]
fn set_cells_accepts_duplicates_and_empty_lists() {
    let mut u = Universe::new();
    resize(&mut u, 4, 4);
    set_all(&mut u, &[(1, 2), (1, 2)]);
    assert_eq!(live_cells(&u), vec![(1, 2)]);
    set_all(&mut u, &[]);
    assert_eq!(live_cells(&u), vec![(1, 2)]);
}

#[test]
fn lone_cell_on_one_by_one_grid_dies() {
    let mut u = Universe::new();
    resize(&mut u, 1, 1);
    set_all(&mut u, &[(0, 0)]);
    u.tick();
    assert!(live_cells(&u).is_empty());
}

#[test]
fn render_draws_cell_states() {
    let mut u = Universe::new();
    resize(&mut u, 3, 2);
    set_all(&mut u, &[(0, 0), (1, 2)]);
    let expected = "\u{25fc}\u{25fb}\u{25fb}\n\u{25fb}\u{25fb}\u{25fc}\n";
    assert_eq!(u.render(), expected);
}

#[test]
fn render_is_deterministic() {
    let u = Universe::new();
    assert_eq!(u.render(), u.render());
    assert_eq!(u.render().lines().count(), 64);
}
