use minesweeper::solver::is_no_guess;

#[test]
fn last_hidden_cell_deduced_by_mine_count_is_no_guess() {
    // 2×1: one mine. Left revealed safe ⇒ right must be the mine.
    let is_mine = [false, true];
    let revealed = [true, false];
    assert!(is_no_guess(2, 1, 1, &is_mine, &revealed));
}

#[test]
fn symmetric_two_hidden_one_mine_is_forced_guess() {
    // 2×1: both hidden, one mine — neither cell is fixed across completions.
    let is_mine = [true, false];
    let revealed = [false, false];
    assert!(!is_no_guess(2, 1, 1, &is_mine, &revealed));
}

#[test]
fn numbered_cell_with_one_hidden_neighbour_deduces_mine() {
    // 3×1: mine in the middle. Left revealed (count 1) ⇒ middle is the mine ⇒ right safe.
    let is_mine = [false, true, false];
    let revealed = [true, false, false];
    assert!(is_no_guess(3, 1, 1, &is_mine, &revealed));
}

#[test]
fn overlapping_constraints_deduce_without_guess() {
    // 3×2: mines at bottom corners; top row revealed. Only CSP pins the centre safe.
    let is_mine = [
        false, false, false, //
        true, false, true,
    ];
    let revealed = [
        true, true, true, //
        false, false, false,
    ];
    assert!(is_no_guess(3, 2, 2, &is_mine, &revealed));
}

#[test]
fn fully_revealed_board_is_no_guess() {
    let is_mine = [false, false, true, false];
    let revealed = [true, true, false, true];
    assert!(is_no_guess(2, 2, 1, &is_mine, &revealed));
}

#[test]
fn board_without_mines_is_no_guess_from_nothing() {
    let is_mine = [false; 6];
    let revealed = [false; 6];
    assert!(is_no_guess(3, 2, 0, &is_mine, &revealed));
}

#[test]
fn all_hidden_board_with_mines_needs_a_guess() {
    // 3×3 with one mine in a corner and nothing revealed: no Deduction is possible.
    let mut is_mine = [false; 9];
    is_mine[0] = true;
    let revealed = [false; 9];
    assert!(!is_no_guess(3, 3, 1, &is_mine, &revealed));
}

#[test]
fn every_hidden_cell_a_mine_is_no_guess() {
    // Only mines are hidden: the mine count flags them all.
    let is_mine = [true, false, true];
    let revealed = [false, true, false];
    assert!(is_no_guess(3, 1, 2, &is_mine, &revealed));
}

#[test]
fn long_strip_with_many_hidden_cells_is_no_guess() {
    // 40×1: ten mines at the right end; only the two left cells are open, so 38
    // cells are hidden, yet every position on the way has a frontier of one cell.
    let mut is_mine = [false; 40];
    for m in is_mine.iter_mut().skip(30) {
        *m = true;
    }
    let mut revealed = [false; 40];
    revealed[0] = true;
    revealed[1] = true;
    assert!(is_no_guess(40, 1, 10, &is_mine, &revealed));
}

#[test]
fn every_safe_cell_open_is_no_guess() {
    // 5×5 with 24 mines: the one safe cell is open, so nothing is left to guess.
    let mut is_mine = [true; 25];
    is_mine[12] = false;
    let mut revealed = [false; 25];
    revealed[12] = true;
    assert!(is_no_guess(5, 5, 24, &is_mine, &revealed));
}
