use minesweepers::engine::Minesweepers;
use minesweepers::Cell;
use minesweepers::GameState;

/// A 5x5 layout with a single mine at (2,2): the eight surrounding cells
/// must come out as Number(1), every other cell as Empty.
fn layout_5x5_center_mine() -> Vec<bool> {
    let mut mines = vec![false; 25];
    mines[2 * 5 + 2] = true;
    mines
}

fn board_5x5_center_mine() -> Minesweepers {
    Minesweepers::from_mine_layout(5, layout_5x5_center_mine()).unwrap()
}

fn count_mines(b: &Minesweepers) -> usize {
    let n = b.size();
    let mut count = 0;
    for y in 0..n {
        for x in 0..n {
            if b.cell(x, y) == Cell::Mine {
                count += 1;
            }
        }
    }
    count
}

fn count_opened(b: &Minesweepers) -> usize {
    let n = b.size();
    let mut count = 0;
    for y in 0..n {
        for x in 0..n {
            if b.is_opened(x, y) {
                count += 1;
            }
        }
    }
    count
}

/// Recompute a cell's adjacent-mine count straight from the grid.
fn recount(b: &Minesweepers, x: usize, y: usize) -> u8 {
    let n = b.size() as isize;
    let mut count = 0;
    for dy in -1..=1isize {
        for dx in -1..=1isize {
            if dx == 0 && dy == 0 {
                continue;
            }
            let nx = x as isize + dx;
            let ny = y as isize + dy;
            if nx >= 0 && nx < n && ny >= 0 && ny < n {
                if b.cell(nx as usize, ny as usize) == Cell::Mine {
                    count += 1;
                }
            }
        }
    }
    count
}

fn snapshot(b: &Minesweepers) -> (Vec<(bool, bool)>, bool, bool, bool) {
    let n = b.size();
    let mut cells = Vec::new();
    for y in 0..n {
        for x in 0..n {
            cells.push((b.is_opened(x, y), b.is_flagged(x, y)));
        }
    }
    (cells, b.is_game_over(), b.is_game_won(), b.is_timer_started())
}

#[test]
fn generation_has_exact_mine_count() {
    let b = Minesweepers::new(10, 15).unwrap();
    assert_eq!(b.size(), 10);
    assert_eq!(count_mines(&b), 15);
    assert_eq!(count_opened(&b), 0);
    assert_eq!(b.state(), GameState::InProgress);
    assert!(!b.is_timer_started());
}

#[test]
fn generation_numbers_match_neighborhoods() {
    let b = Minesweepers::new(9, 13).unwrap();
    for y in 0..9 {
        for x in 0..9 {
            match b.cell(x, y) {
                Cell::Mine => {}
                Cell::Empty => assert_eq!(recount(&b, x, y), 0),
                Cell::Number(n) => {
                    assert_eq!(n, recount(&b, x, y));
                    assert!((1..=8).contains(&n));
                }
            }
        }
    }
}

#[test]
fn generation_dense_board() {
    // 24 mines on 25 cells: rejection sampling plus the deterministic
    // fallback must still place exactly 24.
    let b = Minesweepers::new(5, 24).unwrap();
    assert_eq!(count_mines(&b), 24);
}

#[test]
fn generation_rejects_degenerate_input() {
    assert!(Minesweepers::new(0, 0).is_none());
    assert!(Minesweepers::new(3, 9).is_none());
    assert!(Minesweepers::new(3, 10).is_none());
    assert!(Minesweepers::new(3, 8).is_some());
}

#[test]
fn layout_rejects_wrong_length() {
    assert!(Minesweepers::from_mine_layout(5, vec![false; 24]).is_none());
    assert!(Minesweepers::from_mine_layout(0, vec![]).is_none());
    assert!(Minesweepers::from_mine_layout(5, vec![false; 25]).is_some());
}

#[test]
fn center_mine_pattern() {
    let b = board_5x5_center_mine();
    for y in 0..5 {
        for x in 0..5 {
            let expected = if (x, y) == (2, 2) {
                Cell::Mine
            } else if (1..=3).contains(&x) && (1..=3).contains(&y) {
                Cell::Number(1)
            } else {
                Cell::Empty
            };
            assert_eq!(b.cell(x, y), expected, "cell ({x}, {y})");
        }
    }
}

#[test]
fn cascade_opens_empty_region_and_ring() {
    let mut b = board_5x5_center_mine();
    b.open_cell(0, 0);
    // the whole empty component plus the Number(1) ring: all 24 non-mines
    for y in 0..5 {
        for x in 0..5 {
            if (x, y) == (2, 2) {
                assert!(!b.is_opened(x, y));
            } else {
                assert!(b.is_opened(x, y), "({x}, {y}) should have cascaded open");
            }
        }
    }
    assert_eq!(b.state(), GameState::Won);
    assert!(b.is_timer_started());
}

#[test]
fn opening_a_number_cell_opens_only_it() {
    let mut b = board_5x5_center_mine();
    b.open_cell(1, 1);
    assert_eq!(count_opened(&b), 1);
    assert!(b.is_opened(1, 1));
    assert_eq!(b.state(), GameState::InProgress);
}

#[test]
fn opening_a_mine_loses() {
    let mut b = board_5x5_center_mine();
    b.open_cell(2, 2);
    assert_eq!(b.state(), GameState::Lost);
    assert!(b.is_game_over());
    assert!(!b.is_game_won());
    assert_eq!(count_opened(&b), 1);
}

#[test]
fn open_primitive_is_idempotent() {
    let mut b = board_5x5_center_mine();
    b.open_cell_inner(1, 1);
    let first = snapshot(&b);
    b.open_cell_inner(1, 1);
    assert_eq!(snapshot(&b), first);
}

#[test]
fn chording_opens_neighbors_when_flags_match() {
    let mut b = board_5x5_center_mine();
    b.open_cell(1, 1);
    b.toggle_flag(2, 2);
    assert_eq!(count_opened(&b), 1);
    // one flagged neighbor, cell is Number(1): the chord fires
    b.open_cell(1, 1);
    for &(x, y) in &[(0, 0), (1, 0), (2, 0), (0, 1), (2, 1), (0, 2), (1, 2), (2, 2)] {
        if (x, y) == (2, 2) {
            assert!(!b.is_opened(x, y), "flagged mine must stay closed");
        } else {
            assert!(b.is_opened(x, y), "neighbor ({x}, {y}) should open");
        }
    }
    assert_eq!(b.state(), GameState::Won);
}

#[test]
fn chording_does_nothing_when_flags_mismatch() {
    let mut b = board_5x5_center_mine();
    b.open_cell(1, 1);
    b.toggle_flag(2, 2);
    b.toggle_flag(2, 1);
    let opened_before = count_opened(&b);
    // two flags around a Number(1): the chord must not fire
    b.open_cell(1, 1);
    assert_eq!(count_opened(&b), opened_before);
    assert_eq!(b.state(), GameState::InProgress);
    // the failed chord still starts the timer, faithfully to the design
    assert!(b.is_timer_started());
}

#[test]
fn chording_on_misflagged_cell_can_lose() {
    let mut b = board_5x5_center_mine();
    b.open_cell(1, 1);
    // wrong flag: a safe neighbor instead of the mine
    b.toggle_flag(1, 2);
    b.open_cell(1, 1);
    // the chord opened the unflagged mine at (2, 2)
    assert_eq!(b.state(), GameState::Lost);
    assert!(b.is_opened(2, 2));
    // the cascade does not respect flags: the misflagged cell opened too
    assert!(b.is_opened(1, 2));
    assert!(b.is_flagged(1, 2));
}

#[test]
fn terminal_state_freezes_the_board() {
    let mut b = board_5x5_center_mine();
    b.open_cell(2, 2);
    assert_eq!(b.state(), GameState::Lost);
    let frozen = snapshot(&b);
    b.open_cell(0, 0);
    b.toggle_flag(1, 1);
    b.open_cell(4, 4);
    assert_eq!(snapshot(&b), frozen);
}

#[test]
fn win_by_opening_all_non_mines_in_any_order() {
    let mut b = board_5x5_center_mine();
    // open the ring first, then a far corner to trigger the cascade
    for &(x, y) in &[(1, 1), (2, 1), (3, 1), (1, 2), (3, 2), (1, 3), (2, 3), (3, 3)] {
        b.open_cell(x, y);
        assert!(b.is_opened(x, y));
    }
    assert_eq!(b.state(), GameState::InProgress);
    b.open_cell(4, 4);
    assert_eq!(b.state(), GameState::Won);
    assert!(!b.is_opened(2, 2));
}

#[test]
fn flag_gating() {
    let mut b = board_5x5_center_mine();
    // flagging an unopened cell, then trying to open it: no-op
    b.toggle_flag(1, 1);
    assert!(b.is_flagged(1, 1));
    b.open_cell(1, 1);
    assert!(!b.is_opened(1, 1));
    assert!(!b.is_timer_started());
    // unflag, open, then a flag toggle on the opened cell: no-op
    b.toggle_flag(1, 1);
    assert!(!b.is_flagged(1, 1));
    b.open_cell(1, 1);
    assert!(b.is_opened(1, 1));
    b.toggle_flag(1, 1);
    assert!(!b.is_flagged(1, 1));
}

#[test]
fn flag_toggle_inverts() {
    let mut b = board_5x5_center_mine();
    assert!(!b.is_flagged(3, 4));
    b.toggle_flag(3, 4);
    assert!(b.is_flagged(3, 4));
    b.toggle_flag(3, 4);
    assert!(!b.is_flagged(3, 4));
}

#[test]
fn reset_regenerates_with_density_formula() {
    let mut b = Minesweepers::new(6, 5).unwrap();
    b.open_cell(0, 0);
    b.reset();
    assert_eq!(b.size(), 6);
    assert_eq!(count_mines(&b), 36 / 6);
    assert_eq!(count_opened(&b), 0);
    assert_eq!(b.state(), GameState::InProgress);
    assert!(!b.is_timer_started());
}

#[test]
fn resize_and_reset_changes_size() {
    let mut b = Minesweepers::new(5, 4).unwrap();
    b.resize_and_reset(7);
    assert_eq!(b.size(), 7);
    assert_eq!(count_mines(&b), 49 / 6);
    assert_eq!(count_opened(&b), 0);
}

#[test]
fn timer_starts_on_first_reveal_action() {
    let mut b = board_5x5_center_mine();
    assert!(!b.is_timer_started());
    b.toggle_flag(0, 0);
    assert!(!b.is_timer_started());
    b.toggle_flag(0, 0);
    b.open_cell(1, 1);
    assert!(b.is_timer_started());
}
