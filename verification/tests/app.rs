use minesweeper::app::{cli_difficulty, difficulty_at, App, Button, Difficulty, Key, Origin, Overlay, Screen};
use minesweeper::game::{CellState, Game, Pos, Status};
use minesweeper::state::PersistentState;
use minesweeper::ui::{cell_view, status_label, Tone};

fn app() -> App {
    App::new(PersistentState::default(), 7)
}

#[test]
fn new_app_starts_on_menu_with_saved_difficulty() {
    let a = app();
    assert_eq!(a.screen, Screen::Menu);
    assert_eq!(a.difficulty, Difficulty::Intermediate);
    assert_eq!(a.menu_selected, 1);
    assert_eq!(a.cursor, Pos { x: 8, y: 8 });
    assert_eq!(a.game.width, 16);
    assert_eq!(a.game.height, 16);
    assert_eq!(a.game.mine_count, 40);
    assert_eq!(a.game.seed, 7);
    assert_eq!(a.game.status, Status::Ready);
    assert!(matches!(a.overlay, Overlay::Empty));
    assert!(!a.clock_running);
    assert!(!a.should_quit);
}

#[test]
fn saved_theme_wraps_into_range() {
    let mut s = PersistentState::default();
    s.theme = 11;
    let a = App::new(s, 1);
    assert_eq!(a.theme_index, 3);
}

#[test]
fn win_shows_overlay_and_records_stats() {
    let mut app = app();
    app.start_game(
        Difficulty::Custom {
            width: 3,
            height: 3,
            mines: 0,
        },
        1,
    );
    app.reveal_cell(1, 1, 0);
    assert!(matches!(app.overlay, Overlay::Win), "win overlay expected");
    assert_eq!(app.stats.item(app.difficulty).wins, 1);
    assert!(app.stats.item(app.difficulty).best_time.is_some());
}

#[test]
fn game_renders_board_with_numbers_after_reveal() {
    let mut app = app();
    app.start_game(Difficulty::Beginner, 42);
    app.reveal_cell(4, 4, 0);
    let mut digits = false;
    for y in 0..app.game.height {
        for x in 0..app.game.width {
            if cell_view(&app, x, y).ch.is_ascii_digit() {
                digits = true;
            }
        }
    }
    assert!(digits, "revealed numbers missing");
}

#[test]
fn first_reveal_starts_the_clock_and_loss_records_time() {
    let mut a = app();
    a.start_game(Difficulty::Beginner, 5);
    assert!(!a.reveal_cell(4, 4, 0));
    assert!(a.clock_running);
    assert_eq!(a.game.status, Status::Playing);
    let mut mine = None;
    for y in 0..9 {
        for x in 0..9 {
            if a.game.cell(x, y) == minesweeper::game::Cell::Mine && mine.is_none() {
                mine = Some((x, y));
            }
        }
    }
    let (mx, my) = mine.unwrap();
    let save = a.reveal_cell(mx, my, 37);
    assert!(save);
    assert_eq!(a.game.status, Status::Lost);
    assert!(!a.clock_running);
    assert_eq!(a.elapsed_secs, 37);
    let item = a.stats.item(Difficulty::Beginner);
    assert_eq!(item.total, 1);
    assert_eq!(item.wins, 0);
    assert!(matches!(a.overlay, Overlay::Empty));
}

#[test]
fn parse_custom_accepts_three_numbers() {
    let a = app();
    assert_eq!(a.parse_custom("20 20 60"), Ok((20, 20, 60)));
    assert_eq!(a.parse_custom("  5x7,  3 "), Ok((5, 7, 3)));
    assert_eq!(a.parse_custom("007 8 0"), Ok((7, 8, 0)));
}

#[test]
fn parse_custom_rejects_bad_input() {
    let a = app();
    assert_eq!(
        a.parse_custom("20 20"),
        Err("enter three numbers: width height mines".to_string())
    );
    assert_eq!(
        a.parse_custom(""),
        Err("enter three numbers: width height mines".to_string())
    );
    assert_eq!(
        a.parse_custom("0 5 1"),
        Err("width and height must be > 0".to_string())
    );
    assert_eq!(
        a.parse_custom("3 3 9"),
        Err("too many mines for that board".to_string())
    );
    assert_eq!(
        a.parse_custom("99999999999999999999999 2 3"),
        Err("numbers only, e.g. 20 20 60".to_string())
    );
    assert_eq!(
        a.parse_custom("1 2 3 4"),
        Err("enter three numbers: width height mines".to_string())
    );
}

#[test]
fn apply_custom_starts_game_or_reports() {
    let mut a = app();
    assert_eq!(a.apply_custom("3 3 9", 1), Err("too many mines for that board".to_string()));
    assert_eq!(a.screen, Screen::Menu);
    assert_eq!(a.apply_custom("5 4 3", 9), Ok(()));
    assert_eq!(a.screen, Screen::Game);
    assert_eq!(a.difficulty, Difficulty::Custom { width: 5, height: 4, mines: 3 });
    assert_eq!(a.game.width, 5);
    assert_eq!(a.game.height, 4);
    assert_eq!(a.game.mine_count, 3);
    assert_eq!(a.cursor, Pos { x: 2, y: 2 });
}

#[test]
fn menu_keys_select_and_start() {
    let mut a = app();
    assert!(!a.on_key(Key::Up, false, 1, 0));
    assert_eq!(a.menu_selected, 0);
    a.on_key(Key::Up, false, 1, 0);
    assert_eq!(a.menu_selected, 0);
    a.on_key(Key::Char('j'), false, 1, 0);
    a.on_key(Key::Down, false, 1, 0);
    a.on_key(Key::Down, false, 1, 0);
    a.on_key(Key::Down, false, 1, 0);
    assert_eq!(a.menu_selected, 3);
    a.on_key(Key::Char('3'), false, 1, 0);
    assert_eq!(a.menu_selected, 2);
    let save = a.on_key(Key::Enter, false, 77, 0);
    assert!(save);
    assert_eq!(a.screen, Screen::Game);
    assert_eq!(a.difficulty, Difficulty::Expert);
    assert_eq!(a.game.width, 30);
    assert_eq!(a.game.seed, 77);
}

#[test]
fn custom_entry_opens_input_and_typing_edits_it() {
    let mut a = app();
    a.on_key(Key::Char('4'), false, 1, 0);
    a.on_key(Key::Char(' '), false, 1, 0);
    assert!(matches!(a.overlay, Overlay::CustomInput { .. }));
    for c in "6 5 4x".chars() {
        a.on_key(Key::Char(c), false, 1, 0);
    }
    a.on_key(Key::Backspace, false, 1, 0);
    match &a.overlay {
        Overlay::CustomInput { buf, error } => {
            assert_eq!(buf, "6 5 4");
            assert!(error.is_none());
        }
        _ => panic!("custom input expected"),
    }
    let save = a.on_key(Key::Enter, false, 3, 0);
    assert!(save);
    assert!(matches!(a.overlay, Overlay::Empty));
    assert_eq!(a.screen, Screen::Game);
    assert_eq!(a.difficulty, Difficulty::Custom { width: 6, height: 5, mines: 4 });
}

#[test]
fn custom_input_error_is_shown_and_q_closes() {
    let mut a = app();
    a.on_key(Key::Char('4'), false, 1, 0);
    a.on_key(Key::Enter, false, 1, 0);
    a.on_key(Key::Char('1'), false, 1, 0);
    assert!(!a.on_key(Key::Enter, false, 1, 0));
    match &a.overlay {
        Overlay::CustomInput { buf, error } => {
            assert_eq!(buf, "1");
            assert_eq!(error.as_deref(), Some("enter three numbers: width height mines"));
        }
        _ => panic!("custom input expected"),
    }
    a.on_key(Key::Char('q'), false, 1, 0);
    assert!(matches!(a.overlay, Overlay::Empty));
    assert_eq!(a.screen, Screen::Menu);
    assert!(!a.should_quit);
}

#[test]
fn game_keys_move_flag_and_open_help() {
    let mut a = app();
    a.start_game(Difficulty::Beginner, 2);
    assert_eq!(a.cursor, Pos { x: 4, y: 4 });
    a.on_key(Key::Left, false, 1, 0);
    a.on_key(Key::Char('k'), false, 1, 0);
    assert_eq!(a.cursor, Pos { x: 3, y: 3 });
    a.on_key(Key::Home, false, 1, 0);
    assert_eq!(a.cursor, Pos { x: 0, y: 3 });
    a.on_key(Key::Left, false, 1, 0);
    assert_eq!(a.cursor, Pos { x: 0, y: 3 });
    a.on_key(Key::End, false, 1, 0);
    assert_eq!(a.cursor, Pos { x: 8, y: 3 });
    a.on_key(Key::Right, false, 1, 0);
    assert_eq!(a.cursor, Pos { x: 8, y: 3 });
    a.on_key(Key::Char('f'), false, 1, 0);
    assert_eq!(a.game.state(8, 3), CellState::Flagged);
    a.on_key(Key::Char('?'), false, 1, 0);
    assert!(matches!(a.overlay, Overlay::Help));
    a.on_key(Key::Char('x'), false, 1, 0);
    assert!(matches!(a.overlay, Overlay::Help));
    a.on_key(Key::Esc, false, 1, 0);
    assert!(matches!(a.overlay, Overlay::Empty));
}

#[test]
fn game_key_reveals_under_cursor() {
    let mut a = app();
    a.start_game(Difficulty::Beginner, 2);
    a.on_key(Key::Char(' '), false, 1, 0);
    assert_eq!(a.game.state(4, 4), CellState::Revealed);
    assert_eq!(a.game.status, Status::Playing);
    assert!(a.clock_running);
}

#[test]
fn stats_screen_returns_to_its_origin() {
    let mut a = app();
    a.on_key(Key::Char('s'), false, 1, 0);
    assert_eq!(a.screen, Screen::Stats);
    assert_eq!(a.stats_origin, Origin::Menu);
    a.on_key(Key::Esc, false, 1, 0);
    assert_eq!(a.screen, Screen::Menu);
    a.start_game(Difficulty::Beginner, 2);
    a.on_key(Key::Char('s'), false, 1, 0);
    assert_eq!(a.stats_origin, Origin::Game);
    a.on_key(Key::Char('x'), false, 1, 0);
    assert_eq!(a.screen, Screen::Stats);
    a.on_key(Key::Char('q'), false, 1, 0);
    assert_eq!(a.screen, Screen::Game);
}

#[test]
fn theme_cycles_both_ways_and_asks_to_save() {
    let mut a = app();
    assert!(a.on_key(Key::Char('<'), false, 1, 0));
    assert_eq!(a.theme_index, 7);
    assert!(a.on_key(Key::Char('>'), false, 1, 0));
    assert_eq!(a.theme_index, 0);
    a.on_key(Key::Char('>'), false, 1, 0);
    assert_eq!(a.theme_index, 1);
}

#[test]
fn control_keys_only_quit() {
    let mut a = app();
    a.on_key(Key::Char('s'), true, 1, 0);
    assert_eq!(a.screen, Screen::Menu);
    assert!(!a.should_quit);
    a.on_key(Key::Char('c'), true, 1, 0);
    assert!(a.should_quit);
}

#[test]
fn q_quits_from_menu() {
    let mut a = app();
    a.on_key(Key::Char('q'), false, 1, 0);
    assert!(a.should_quit);
}

#[test]
fn win_overlay_keys() {
    let mut a = app();
    a.start_game(Difficulty::Custom { width: 2, height: 1, mines: 0 }, 1);
    a.reveal_cell(0, 0, 0);
    assert!(matches!(a.overlay, Overlay::Win));
    a.on_key(Key::Char('z'), false, 1, 0);
    assert!(matches!(a.overlay, Overlay::Win));
    a.on_key(Key::Char('r'), false, 8, 0);
    assert!(matches!(a.overlay, Overlay::Empty));
    assert_eq!(a.game.status, Status::Ready);
    assert_eq!(a.game.seed, 8);
    a.reveal_cell(1, 0, 0);
    a.on_key(Key::Char('n'), false, 1, 0);
    assert_eq!(a.screen, Screen::Menu);
    assert!(matches!(a.overlay, Overlay::Empty));
}

#[test]
fn mouse_maps_columns_to_cells() {
    let mut a = app();
    a.start_game(Difficulty::Beginner, 3);
    a.board_origin = (10, 5);
    // Left of the board: ignored.
    assert!(!a.on_mouse(Some(Button::Left), 9, 5, 0));
    assert_eq!(a.game.status, Status::Ready);
    // Column 10 + 2*3 + 1 is cell x = 3; row 5 + 2 is y = 2.
    a.on_mouse(Some(Button::Right), 17, 7, 0);
    assert_eq!(a.game.state(3, 2), CellState::Flagged);
    // Not a press: ignored.
    a.on_mouse(None, 17, 7, 0);
    assert_eq!(a.game.state(3, 2), CellState::Flagged);
    // Past the board: ignored.
    a.on_mouse(Some(Button::Left), 10 + 18, 5, 0);
    assert_eq!(a.game.status, Status::Ready);
    a.on_mouse(Some(Button::Left), 18, 9, 0);
    assert_eq!(a.game.state(4, 4), CellState::Revealed);
    assert!(a.clock_running);
}

#[test]
fn cell_view_shows_states() {
    let mut a = app();
    a.start_game(Difficulty::Beginner, 42);
    let v = cell_view(&a, 0, 0);
    assert_eq!(v.ch, ' ');
    assert_eq!(v.tone, Tone::Closed);
    assert!(!v.cursor);
    assert!(cell_view(&a, 4, 4).cursor);
    a.toggle_flag(0, 0);
    assert_eq!(cell_view(&a, 0, 0).tone, Tone::Flag);
    assert_eq!(cell_view(&a, 0, 0).ch, 'F');
    a.reveal_cell(4, 4, 0);
    assert_eq!(cell_view(&a, 4, 4).tone, Tone::Open);
}

#[test]
fn labels_and_menu_entries() {
    assert_eq!(status_label(Status::Ready), "READY");
    assert_eq!(status_label(Status::Lost), "LOST");
    assert_eq!(difficulty_at(0), Difficulty::Beginner);
    assert_eq!(difficulty_at(3), Difficulty::Custom { width: 16, height: 16, mines: 40 });
    assert_eq!(Difficulty::Expert.dims(), (30, 16, 99));
    assert_eq!(Difficulty::Beginner.name(), "Beginner");
    assert_eq!(Difficulty::Beginner.describe(), "9×9 · 10 mines");
    assert_eq!(Difficulty::Custom { width: 20, height: 12, mines: 5 }.describe(), "20×12 · 5 mines");
    assert_eq!(Difficulty::Custom { width: 1, height: 1, mines: 0 }.index(), 3);
    assert_eq!(Difficulty::Intermediate.index(), 1);
}

#[test]
fn saved_state_carries_theme_difficulty_and_stats() {
    let mut a = app();
    a.on_key(Key::Char('>'), false, 1, 0);
    a.stats.record(Difficulty::Expert, true, 12);
    let s = a.saved_state();
    assert_eq!(s.theme, 1);
    assert_eq!(s.difficulty, Difficulty::Intermediate);
    assert_eq!(s.stats.expert.best_time, Some(12));
}

#[test]
fn finished_game_is_counted_once() {
    let mut a = app();
    a.start_game(Difficulty::Custom { width: 3, height: 3, mines: 0 }, 1);
    assert!(a.reveal_cell(1, 1, 0));
    assert_eq!(a.stats.item(a.difficulty).total, 1);
    assert!(!a.reveal_cell(0, 0, 5));
    assert!(!a.reveal_or_chord(2, 2, 5));
    assert_eq!(a.stats.item(a.difficulty).total, 1);
    assert_eq!(a.stats.item(a.difficulty).wins, 1);
}

#[test]
fn fallback_board_shows_notice_once() {
    let mut found = false;
    for seed in 0..200 {
        let mut a = app();
        a.start_game(
            Difficulty::Custom {
                width: 5,
                height: 5,
                mines: 12,
            },
            seed,
        );
        a.game = Game::new(5, 5, 12, seed).with_search_budget(1);
        a.reveal_cell(2, 2, 0);
        if !a.game.is_fallback || a.game.status != Status::Playing {
            continue;
        }
        assert!(matches!(a.overlay, Overlay::FallbackNotice));
        // the notice takes keys: a move does nothing while it is shown
        a.on_key(Key::Char('f'), false, 1, 0);
        assert!(matches!(a.overlay, Overlay::FallbackNotice));
        a.on_key(Key::Esc, false, 1, 0);
        assert!(matches!(a.overlay, Overlay::Empty));
        // no later move of the same game shows it again
        let mut hidden = None;
        for y in 0..5 {
            for x in 0..5 {
                if hidden.is_none() && a.game.state(x, y) == CellState::Hidden {
                    hidden = Some((x, y));
                }
            }
        }
        let (x, y) = hidden.unwrap();
        a.reveal_cell(x, y, 0);
        assert!(!matches!(a.overlay, Overlay::FallbackNotice));
        found = true;
        break;
    }
    assert!(found, "expected a Fallback board in the seed scan");
}

#[test]
fn fallback_notice_r_starts_a_new_game() {
    for seed in 0..200 {
        let mut a = app();
        a.start_game(
            Difficulty::Custom {
                width: 5,
                height: 5,
                mines: 12,
            },
            seed,
        );
        a.game = Game::new(5, 5, 12, seed).with_search_budget(1);
        a.reveal_cell(2, 2, 0);
        if matches!(a.overlay, Overlay::FallbackNotice) {
            a.on_key(Key::Char('r'), false, 9, 0);
            assert!(matches!(a.overlay, Overlay::Empty));
            assert_eq!(a.game.status, Status::Ready);
            assert_eq!(a.game.seed, 9);
            assert!(!a.game.is_fallback);
            return;
        }
    }
    panic!("expected a Fallback board in the seed scan");
}

#[test]
fn accepted_board_shows_no_notice() {
    let mut a = app();
    a.start_game(Difficulty::Beginner, 42);
    a.reveal_cell(4, 4, 0);
    assert!(!a.game.is_fallback);
    assert!(matches!(a.overlay, Overlay::Empty));
}

#[test]
fn a_key_flags_covered_cell_and_chords_revealed_one() {
    let mut a = app();
    a.start_game(Difficulty::Beginner, 42);
    a.reveal_cell(4, 4, 0);
    if matches!(a.overlay, Overlay::FallbackNotice) {
        a.on_key(Key::Esc, false, 1, 0);
    }
    let mut hidden = None;
    for y in 0..9 {
        for x in 0..9 {
            if hidden.is_none() && a.game.state(x, y) == CellState::Hidden {
                hidden = Some((x, y));
            }
        }
    }
    let (x, y) = hidden.unwrap();
    a.cursor = Pos { x, y };
    a.on_key(Key::Char('a'), false, 1, 0);
    assert_eq!(a.game.state(x, y), CellState::Flagged);
    a.on_key(Key::Char('a'), false, 1, 0);
    assert_eq!(a.game.state(x, y), CellState::Hidden);
    // on a revealed cell `a` chords: with no flags around, nothing opens and
    // nothing is flagged
    a.cursor = Pos { x: 4, y: 4 };
    let before = a.game.revealed_count();
    a.on_key(Key::Char('a'), false, 1, 0);
    assert_eq!(a.game.state(4, 4), CellState::Revealed);
    assert_eq!(a.game.flag_count(), 0);
    assert_eq!(a.game.revealed_count(), before);
}

#[test]
fn new_board_has_no_flags_and_all_mines_remaining() {
    let g = Game::new(9, 9, 10, 3);
    assert_eq!(g.flag_count(), 0);
    assert_eq!(g.mines_remaining(), 10);
}

#[test]
fn search_budget_is_tiered_by_difficulty() {
    let mut a = app();
    assert_eq!(Difficulty::Beginner.search_budget(), 200);
    assert_eq!(Difficulty::Intermediate.search_budget(), 512);
    assert_eq!(Difficulty::Expert.search_budget(), 256);
    assert_eq!(
        Difficulty::Custom {
            width: 5,
            height: 5,
            mines: 3
        }
        .search_budget(),
        64
    );
    assert_eq!(a.game.search_budget, 512);
    a.start_game(Difficulty::Beginner, 3);
    assert_eq!(a.game.search_budget, 200);
}

#[test]
fn command_line_board_choice() {
    assert_eq!(cli_difficulty(None, None, None, None), Difficulty::Beginner);
    assert_eq!(
        cli_difficulty(Some(Difficulty::Expert), None, None, None),
        Difficulty::Expert
    );
    assert_eq!(
        cli_difficulty(Some(Difficulty::Expert), Some(10), None, Some(7)),
        Difficulty::Custom {
            width: 10,
            height: 16,
            mines: 7
        }
    );
    assert_eq!(
        cli_difficulty(None, None, Some(5), None),
        Difficulty::Custom {
            width: 16,
            height: 5,
            mines: 40
        }
    );
}
