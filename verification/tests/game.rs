use minesweeper::game::{place_drawn, Cell, CellState, Game, Pos, Status};

#[test]
fn first_click_is_always_safe_and_flood_fills() {
    let mut g = Game::new(9, 9, 10, 42);
    g.reveal_cell(4, 4);
    assert_ne!(g.status, Status::Lost);
    // The clicked cell is revealed and not a mine.
    assert_eq!(g.state(4, 4), CellState::Revealed);
    assert_ne!(g.cell(4, 4), Cell::Mine);
    // The centre opening must have flood-filled beyond the single cell.
    assert!(g.revealed_count > 1, "expected a flood-fill opening");
}

#[test]
fn mine_count_is_respected() {
    let mut g = Game::new(9, 9, 10, 7);
    g.reveal_cell(0, 0);
    let mines = (0..g.width * g.height)
        .filter(|&i| g.cells[i] == Cell::Mine)
        .count();
    assert_eq!(mines, 10);
}

#[test]
fn flag_toggles_between_hidden_and_flagged() {
    let mut g = Game::new(5, 5, 3, 1);
    assert_eq!(g.state(0, 0), CellState::Hidden);
    g.toggle_flag(0, 0);
    assert_eq!(g.state(0, 0), CellState::Flagged);
    g.toggle_flag(0, 0);
    assert_eq!(g.state(0, 0), CellState::Hidden);
    assert_eq!(g.flag_count(), 0);
}

#[test]
fn mines_remaining_tracks_flags() {
    let mut g = Game::new(9, 9, 10, 3);
    assert_eq!(g.mines_remaining(), 10);
    g.toggle_flag(0, 0);
    assert_eq!(g.mines_remaining(), 9);
    g.toggle_flag(1, 0);
    g.toggle_flag(1, 0);
    assert_eq!(g.mines_remaining(), 9);
}

#[test]
fn reveal_number_does_not_flood() {
    // Deterministic seed chosen for a board with a numbered first click.
    let mut g = Game::new(3, 3, 8, 12345);
    g.reveal_cell(1, 1);
    assert_ne!(g.status, Status::Lost);
    assert_eq!(g.cell(1, 1), Cell::Empty(8));
    assert_eq!(g.revealed_count, 1);
}

#[test]
fn winning_reveals_and_flags_all_mines() {
    // 2x2 with one mine: revealing every safe cell wins.
    let mut g = Game::new(2, 2, 1, 99);
    g.reveal_cell(0, 0);
    for y in 0..2 {
        for x in 0..2 {
            if g.cell(x, y) != Cell::Mine {
                g.reveal_cell(x, y);
            }
        }
    }
    assert_eq!(g.status, Status::Won);
    assert_eq!(g.mines_remaining(), 0);
}

#[test]
fn losing_sets_lost_at_and_reveals_mines() {
    let mut g = Game::new(9, 9, 10, 5);
    g.reveal_cell(4, 4); // first click, always safe

    // Locate a still-hidden mine deterministically.
    let mut mine = None;
    'scan: for y in 0..9 {
        for x in 0..9 {
            if g.cell(x, y) == Cell::Mine && g.state(x, y) == CellState::Hidden {
                mine = Some((x, y));
                break 'scan;
            }
        }
    }
    let (mx, my) = mine.expect("board must contain a hidden mine");
    g.reveal_cell(mx, my);

    assert_eq!(g.status, Status::Lost);
    assert_eq!(g.lost_at, Some(Pos { x: mx, y: my }));
    // Every mine must now be revealed or flagged.
    for i in 0..g.width * g.height {
        if g.cells[i] == Cell::Mine {
            assert!(matches!(
                g.states[i],
                CellState::Revealed | CellState::Flagged
            ));
        }
    }
}

#[test]
fn mine_count_clamped_below_cell_count() {
    let g = Game::new(3, 3, 100, 0);
    assert_eq!(g.mine_count, 8);
}

#[test]
fn generating_first_click_yields_no_guess_board_when_budget_allows() {
    let mut g = Game::new(9, 9, 10, 42).with_search_budget(200);
    g.reveal_cell(4, 4);
    assert!(!g.is_fallback, "beginner board should find a no-guess layout");
    assert!(
        g.is_no_guess_from_here(),
        "accepted non-fallback board must be no-guess from the opening"
    );
}

#[test]
fn intermediate_generating_click_finds_no_guess_in_tiered_budget() {
    let mut g = Game::new(16, 16, 40, 99).with_search_budget(512);
    g.reveal_cell(8, 8);
    assert!(!g.is_fallback);
    assert!(g.is_no_guess_from_here());
}

#[test]
fn same_seed_and_generating_click_replay_accepted_layout() {
    let mut a = Game::new(9, 9, 10, 12345).with_search_budget(100);
    let mut b = Game::new(9, 9, 10, 12345).with_search_budget(100);
    a.reveal_cell(2, 3);
    b.reveal_cell(2, 3);
    assert_eq!(a.is_fallback, b.is_fallback);
    for y in 0..9 {
        for x in 0..9 {
            assert_eq!(a.cell(x, y), b.cell(x, y));
        }
    }
}

#[test]
fn expert_generating_click_completes_within_budget() {
    let mut g = Game::new(30, 16, 99, 42).with_search_budget(256);
    g.reveal_cell(15, 8);
    assert_ne!(g.status, Status::Lost);
    if !g.is_fallback {
        assert!(g.is_no_guess_from_here());
    }
}

#[test]
fn exhausted_search_budget_marks_fallback_board() {
    // Dense custom: first candidate is rarely no-guess; budget 1 forces Fallback often.
    let mut found = false;
    for seed in 0..200 {
        let mut g = Game::new(5, 5, 12, seed).with_search_budget(1);
        g.reveal_cell(2, 2);
        if g.is_fallback {
            assert!(
                !g.is_no_guess_from_here(),
                "fallback board must still require a Forced guess"
            );
            found = true;
            break;
        }
    }
    assert!(found, "expected at least one Fallback board in seed scan");
}

// ---- further scenarios ----

fn count_mines(g: &Game) -> usize {
    (0..g.width * g.height).filter(|&i| g.cells[i] == Cell::Mine).count()
}

#[test]
fn new_board_is_ready_and_hidden() {
    let g = Game::new(4, 3, 2, 11);
    assert_eq!(g.status, Status::Ready);
    assert_eq!(g.width, 4);
    assert_eq!(g.height, 3);
    assert_eq!(g.mine_count, 2);
    assert_eq!(g.seed, 11);
    assert!(!g.is_fallback);
    assert_eq!(g.lost_at, None);
    for y in 0..3 {
        for x in 0..4 {
            assert_eq!(g.state(x, y), CellState::Hidden);
            assert_eq!(g.cell(x, y), Cell::Empty(0));
        }
    }
    assert_eq!(g.revealed_count(), 0);
}

#[test]
fn safe_zone_around_first_click_when_room() {
    for seed in 0..20 {
        let mut g = Game::new(9, 9, 10, seed);
        g.reveal_cell(4, 4);
        for p in g.neighbors(4, 4) {
            assert_ne!(g.cell(p.x, p.y), Cell::Mine);
        }
        assert_eq!(g.cell(4, 4), Cell::Empty(0));
    }
}

#[test]
fn numbers_count_adjacent_mines() {
    let mut g = Game::new(8, 6, 12, 3);
    g.reveal_cell(0, 0);
    for y in 0..6 {
        for x in 0..8 {
            if let Cell::Empty(k) = g.cell(x, y) {
                let around = g
                    .neighbors(x, y)
                    .iter()
                    .filter(|p| g.cell(p.x, p.y) == Cell::Mine)
                    .count();
                assert_eq!(k as usize, around);
            }
        }
    }
    assert_eq!(count_mines(&g), 12);
}

#[test]
fn neighbors_of_corner_edge_and_centre() {
    let g = Game::new(3, 3, 1, 0);
    let corner = g.neighbors(0, 0);
    assert_eq!(corner, vec![Pos { x: 1, y: 0 }, Pos { x: 0, y: 1 }, Pos { x: 1, y: 1 }]);
    assert_eq!(g.neighbors(1, 0).len(), 5);
    assert_eq!(g.neighbors(1, 1).len(), 8);
}

#[test]
fn flags_block_reveal_and_survive_toggle_on_revealed() {
    let mut g = Game::new(9, 9, 10, 42);
    g.toggle_flag(0, 0);
    g.reveal_cell(0, 0);
    assert_eq!(g.status, Status::Ready);
    assert_eq!(g.state(0, 0), CellState::Flagged);
    g.toggle_flag(0, 0);
    g.reveal_cell(4, 4);
    assert_eq!(g.state(4, 4), CellState::Revealed);
    g.toggle_flag(4, 4);
    assert_eq!(g.state(4, 4), CellState::Revealed);
    assert_eq!(g.flag_count(), 0);
}

#[test]
fn reveal_on_revealed_cell_changes_nothing() {
    let mut g = Game::new(9, 9, 10, 8);
    g.reveal_cell(4, 4);
    let before = g.revealed_count();
    let states: Vec<CellState> = g.states.clone();
    g.reveal_cell(4, 4);
    assert_eq!(g.revealed_count(), before);
    assert_eq!(g.states, states);
}

#[test]
fn no_mines_board_is_won_by_the_first_click() {
    let mut g = Game::new(3, 3, 0, 1);
    g.reveal_cell(1, 1);
    assert_eq!(g.status, Status::Won);
    assert_eq!(g.revealed_count(), 9);
    assert_eq!(g.mines_remaining(), 0);
}

#[test]
fn finished_game_ignores_further_moves() {
    let mut g = Game::new(3, 3, 0, 1);
    g.reveal_cell(0, 0);
    assert_eq!(g.status, Status::Won);
    g.toggle_flag(0, 0);
    g.chord(0, 0);
    g.reveal_cell(2, 2);
    assert_eq!(g.status, Status::Won);
    assert_eq!(g.flag_count(), 0);
}

#[test]
fn chord_reveals_hidden_neighbours_when_flags_match() {
    // Find a board where some revealed number has all its mines flaggable.
    let mut g = Game::new(9, 9, 10, 42);
    g.reveal_cell(4, 4);
    let mut done = false;
    'outer: for y in 0..9 {
        for x in 0..9 {
            if g.state(x, y) != CellState::Revealed {
                continue;
            }
            if let Cell::Empty(k) = g.cell(x, y) {
                if k == 0 {
                    continue;
                }
                let nbrs = g.neighbors(x, y);
                let hidden_safe = nbrs
                    .iter()
                    .any(|p| g.state(p.x, p.y) == CellState::Hidden && g.cell(p.x, p.y) != Cell::Mine);
                if !hidden_safe {
                    continue;
                }
                for p in &nbrs {
                    if g.cell(p.x, p.y) == Cell::Mine && g.state(p.x, p.y) == CellState::Hidden {
                        g.toggle_flag(p.x, p.y);
                    }
                }
                g.chord(x, y);
                for p in &nbrs {
                    if g.cell(p.x, p.y) != Cell::Mine {
                        assert_eq!(g.state(p.x, p.y), CellState::Revealed);
                    }
                }
                assert_ne!(g.status, Status::Lost);
                done = true;
                break 'outer;
            }
        }
    }
    assert!(done, "expected a number to chord on");
}

#[test]
fn chord_with_wrong_flag_count_does_nothing() {
    let mut g = Game::new(9, 9, 10, 42);
    g.reveal_cell(4, 4);
    let mut tried = false;
    for y in 0..9 {
        for x in 0..9 {
            if g.state(x, y) == CellState::Revealed && matches!(g.cell(x, y), Cell::Empty(k) if k > 0) {
                let states = g.states.clone();
                g.chord(x, y);
                assert_eq!(g.states, states);
                assert_eq!(g.status, Status::Playing);
                tried = true;
            }
        }
    }
    assert!(tried, "expected a revealed number");
}

#[test]
fn single_safe_cell_wins_at_once_and_chord_is_then_inert() {
    // 3x3 with 8 mines around the click: the click is the only safe cell.
    let mut g = Game::new(3, 3, 8, 12345);
    g.reveal_cell(1, 1);
    assert_eq!(g.status, Status::Won);
    assert_eq!(g.flag_count(), 8);
    let states = g.states.clone();
    g.chord(1, 1);
    assert_eq!(g.states, states);
    assert_eq!(g.mines_remaining(), 0);
}

#[test]
fn search_budget_is_at_least_one() {
    let mut g = Game::new(5, 5, 12, 4).with_search_budget(0);
    g.reveal_cell(2, 2);
    assert_ne!(g.status, Status::Lost);
    assert_eq!(count_mines(&g), 12);
}

#[test]
fn crowded_board_only_protects_the_click() {
    // 3x3 with 7 mines: the 3x3 zone does not fit, so only the click is safe.
    let mut g = Game::new(3, 3, 7, 9);
    g.reveal_cell(0, 0);
    assert_ne!(g.cell(0, 0), Cell::Mine);
    assert_eq!(count_mines(&g), 7);
}

#[test]
fn drawn_cell_becomes_a_mine_unless_excluded_or_taken() {
    let mut cells = vec![Cell::Empty(0); 4];
    let excluded = vec![true, false, false, false];
    assert!(!place_drawn(&mut cells, &excluded, 0));
    assert_eq!(cells, vec![Cell::Empty(0); 4]);
    assert!(place_drawn(&mut cells, &excluded, 2));
    assert_eq!(cells[2], Cell::Mine);
    assert!(!place_drawn(&mut cells, &excluded, 2));
    assert_eq!(
        cells,
        vec![Cell::Empty(0), Cell::Empty(0), Cell::Mine, Cell::Empty(0)]
    );
}

#[test]
fn fallback_board_used_the_whole_search_budget() {
    let mut found = false;
    for seed in 0..200 {
        let mut g = Game::new(5, 5, 12, seed).with_search_budget(3);
        g.reveal_cell(2, 2);
        if g.is_fallback {
            assert_eq!(g.layouts_tried, 3);
            assert_eq!(g.status, Status::Playing);
            found = true;
        } else {
            assert!(g.layouts_tried >= 1 && g.layouts_tried <= 3);
        }
    }
    assert!(found, "expected a Fallback board in the seed scan");
}

#[test]
fn new_game_has_tried_no_layout() {
    let g = Game::new(9, 9, 10, 1);
    assert_eq!(g.layouts_tried, 0);
}
