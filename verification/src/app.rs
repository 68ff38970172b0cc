//! Application state and input handling: screens (menu / game / stats),
//! difficulty selection, timer, theme, score history, and modal overlays.
use vstd::prelude::*;
use vstd::string::StringExecFns;

use crate::count::count_true;
use crate::rng::seeded_stream;
use crate::game::{
    chord_step, flagged_of, reveal_step, toggle_step, Cell, CellState, Game, Pos, Status,
};
use crate::state::{can_record, recorded, PersistentState, Stats};
use crate::text::{dec, push_decimal};

verus! {

/// The Difficulty the command line asks for: any of a width, a height or a mine
/// count asks for a Custom board (16 by 16 with 40 mines for what is left out);
/// otherwise the preset named, or Beginner.
pub open spec fn cli_difficulty_of(
    preset: Option<Difficulty>,
    width: Option<usize>,
    height: Option<usize>,
    mines: Option<usize>,
) -> Difficulty {
    if width is Some || height is Some || mines is Some {
        Difficulty::Custom {
            width: match width {
                Some(v) => v,
                None => 16,
            },
            height: match height {
                Some(v) => v,
                None => 16,
            },
            mines: match mines {
                Some(v) => v,
                None => 40,
            },
        }
    } else {
        match preset {
            Some(d) => d,
            None => Difficulty::Beginner,
        }
    }
}

/// The Difficulty the command line asks for (see `cli_difficulty_of`).
pub fn cli_difficulty(
    preset: Option<Difficulty>,
    width: Option<usize>,
    height: Option<usize>,
    mines: Option<usize>,
) -> (d: Difficulty)
    ensures
        d == cli_difficulty_of(preset, width, height, mines),
{
    if width.is_some() || height.is_some() || mines.is_some() {
        Difficulty::Custom {
            width: match width {
                Some(v) => v,
                None => 16,
            },
            height: match height {
                Some(v) => v,
                None => 16,
            },
            mines: match mines {
                Some(v) => v,
                None => 40,
            },
        }
    } else {
        match preset {
            Some(d) => d,
            None => Difficulty::Beginner,
        }
    }
}

/// A board preset, or a custom board.
#[derive(Clone, Copy, PartialEq, Eq, Debug, Structural)]
pub enum Difficulty {
    Beginner,
    Intermediate,
    Expert,
    Custom { width: usize, height: usize, mines: usize },
}

impl Difficulty {
    /// Width, height and mine count of the board.
    pub open spec fn dims_of(self) -> (usize, usize, usize) {
        match self {
            Difficulty::Beginner => (9, 9, 10),
            Difficulty::Intermediate => (16, 16, 40),
            Difficulty::Expert => (30, 16, 99),
            Difficulty::Custom { width, height, mines } => (width, height, mines),
        }
    }

    /// Width, height and mine count of the board.
    pub fn dims(self) -> (r: (usize, usize, usize))
        ensures
            r == self.dims_of(),
    {
        match self {
            Difficulty::Beginner => (9, 9, 10),
            Difficulty::Intermediate => (16, 16, 40),
            Difficulty::Expert => (30, 16, 99),
            Difficulty::Custom { width, height, mines } => (width, height, mines),
        }
    }

    /// How many candidate layouts No-guess search may try on a board of this
    /// Difficulty. The presets get a tier large enough to keep Fallback boards
    /// exceptional; a Custom board, which may be arbitrarily dense, keeps the default.
    pub open spec fn budget_of(self) -> u32 {
        match self {
            Difficulty::Beginner => 200,
            Difficulty::Intermediate => 512,
            Difficulty::Expert => 256,
            Difficulty::Custom { .. } => 64,
        }
    }

    /// How many candidate layouts No-guess search may try on a board of this
    /// Difficulty.
    pub fn search_budget(self) -> (b: u32)
        ensures
            b == self.budget_of(),
    {
        match self {
            Difficulty::Beginner => 200,
            Difficulty::Intermediate => 512,
            Difficulty::Expert => 256,
            Difficulty::Custom { .. } => 64,
        }
    }

    /// The name shown in menus.
    pub fn name(self) -> (s: &'static str)
        ensures
            s@ == match self {
                Difficulty::Beginner => "Beginner"@,
                Difficulty::Intermediate => "Intermediate"@,
                Difficulty::Expert => "Expert"@,
                Difficulty::Custom { .. } => "Custom"@,
            },
    {
        match self {
            Difficulty::Beginner => "Beginner",
            Difficulty::Intermediate => "Intermediate",
            Difficulty::Expert => "Expert",
            Difficulty::Custom { .. } => "Custom",
        }
    }

    /// The board size and mine count as text, such as `9×9 · 10 mines`.
    pub fn describe(self) -> (s: String)
        ensures
            s@ == dec(self.dims_of().0 as nat) + "×"@ + dec(self.dims_of().1 as nat) + " · "@ + dec(
                self.dims_of().2 as nat,
            ) + " mines"@,
    {
        let (w, h, m) = self.dims();
        let mut s = String::new();
        push_decimal(&mut s, w as u64);
        s.append("×");
        push_decimal(&mut s, h as u64);
        s.append(" · ");
        push_decimal(&mut s, m as u64);
        s.append(" mines");
        proof {
            assert(s@ =~= dec(w as nat) + "×"@ + dec(h as nat) + " · "@ + dec(m as nat) + " mines"@);
        }
        s
    }

    /// Position of the Difficulty in the menu.
    pub fn index(self) -> (i: usize)
        ensures
            i == match self {
                Difficulty::Beginner => 0usize,
                Difficulty::Intermediate => 1usize,
                Difficulty::Expert => 2usize,
                Difficulty::Custom { .. } => 3usize,
            },
    {
        match self {
            Difficulty::Beginner => 0,
            Difficulty::Intermediate => 1,
            Difficulty::Expert => 2,
            Difficulty::Custom { .. } => 3,
        }
    }
}

/// The menu entries, in order; the custom entry starts from 16×16 with 40 mines.
pub open spec fn menu_entry(i: int) -> Difficulty {
    if i == 0 {
        Difficulty::Beginner
    } else if i == 1 {
        Difficulty::Intermediate
    } else if i == 2 {
        Difficulty::Expert
    } else {
        Difficulty::Custom { width: 16, height: 16, mines: 40 }
    }
}

/// The Difficulty listed at position `i` of the menu.
pub fn difficulty_at(i: usize) -> (d: Difficulty)
    requires
        i < 4,
    ensures
        d == menu_entry(i as int),
{
    if i == 0 {
        Difficulty::Beginner
    } else if i == 1 {
        Difficulty::Intermediate
    } else if i == 2 {
        Difficulty::Expert
    } else {
        Difficulty::Custom { width: 16, height: 16, mines: 40 }
    }
}

/// A menu entry sits at its own index.
pub proof fn lemma_menu_index(i: int)
    requires
        0 <= i < 4,
    ensures
        ({
            let d = menu_entry(i);
            (match d {
                Difficulty::Beginner => 0int,
                Difficulty::Intermediate => 1int,
                Difficulty::Expert => 2int,
                Difficulty::Custom { .. } => 3int,
            }) == i
        }),
{
}

/// Number of colour themes.
pub const THEME_COUNT: usize = 8;

/// Which screen is shown.
#[derive(Clone, Copy, PartialEq, Eq, Debug, Structural)]
pub enum Screen {
    Menu,
    Game,
    Stats,
}

/// The screen the statistics were opened from.
#[derive(Clone, Copy, PartialEq, Eq, Debug, Structural)]
pub enum Origin {
    Menu,
    Game,
}

/// Modal layered over a screen.
pub enum Overlay {
    /// No modal is shown.
    Empty,
    Help,
    Win,
    /// Told once, on the generating first click of a Fallback board: this layout
    /// may need a Forced guess.
    FallbackNotice,
    CustomInput { buf: String, error: Option<String> },
}

/// A key press, as far as the game reads it.
#[derive(Clone, Copy, PartialEq, Eq, Debug, Structural)]
pub enum Key {
    Char(char),
    Up,
    Down,
    Left,
    Right,
    Home,
    End,
    Enter,
    Esc,
    Backspace,
    Other,
}

/// A pressed mouse button.
#[derive(Clone, Copy, PartialEq, Eq, Debug, Structural)]
pub enum Button {
    Left,
    Right,
    Middle,
}

/// The board of `d` can be laid out: it has cells, and not more than memory can hold.
pub open spec fn dims_ok(d: Difficulty) -> bool {
    let (w, h, m) = d.dims_of();
    &&& w > 0
    &&& h > 0
    &&& w * h <= isize::MAX
}

/// `g` is a new, un-mined board for `d` laid out from `seed`.
pub open spec fn fresh_game(g: Game, d: Difficulty, seed: u64) -> bool {
    let (w, h, m) = d.dims_of();
    &&& g.wf()
    &&& g.width == w
    &&& g.height == h
    &&& g.mine_count == if m < w * h {
        m as int
    } else {
        w * h - 1
    }
    &&& g.seed == seed
    &&& g.status == Status::Ready
    &&& g.lost_at is None
    &&& !g.is_fallback
    &&& g.budget() == d.budget_of()
    &&& g.layouts_tried == 0
    &&& g.rng_view() == seeded_stream(seed)
    &&& forall|c: int| 0 <= c < w * h ==> #[trigger] g.cells_view()[c] == Cell::Empty(0)
    &&& forall|c: int| 0 <= c < w * h ==> #[trigger] g.states_view()[c] == CellState::Hidden
    &&& g.cells_view().len() == w * h
    &&& g.states_view().len() == w * h
    &&& count_true(flagged_of(g.states_view())) == 0
}

/// The application: what is shown, the game in play, and the score history.
///
/// The game clock itself is kept by the caller; this state only says whether it
/// runs, and holds the seconds of the last stopped game.
pub struct App {
    pub screen: Screen,
    pub stats_origin: Origin,
    pub game: Game,
    pub difficulty: Difficulty,
    pub cursor: Pos,
    pub clock_running: bool,
    pub elapsed_secs: u64,
    pub overlay: Overlay,
    pub theme_index: usize,
    pub stats: Stats,
    pub menu_selected: usize,
    pub should_quit: bool,
    /// Top-left column/row of the board content, set during render so mouse
    /// clicks can be mapped back to cells.
    pub board_origin: (u16, u16),
}

/// `new` is `old` with a new board of `d` laid out from `seed`, the cursor in its
/// middle, the clock stopped at zero, no overlay, and `screen` shown.
pub open spec fn reset(old: App, d: Difficulty, seed: u64, screen: Screen, new: App) -> bool {
    &&& fresh_game(new.game, d, seed)
    &&& new == (App {
        screen,
        difficulty: d,
        game: new.game,
        cursor: Pos { x: (d.dims_of().0 / 2) as usize, y: (d.dims_of().1 / 2) as usize },
        clock_running: false,
        elapsed_secs: 0,
        overlay: Overlay::Empty,
        ..old
    })
}

/// The status change from `prev` to `now` starts the clock.
pub open spec fn starts(prev: Status, now: Status) -> bool {
    prev == Status::Ready && now == Status::Playing
}

/// The status change from `prev` to `now` ends the game.
pub open spec fn finishes(prev: Status, now: Status) -> bool {
    now != prev && (now == Status::Won || now == Status::Lost)
}

/// Seconds the game took, if it ended now: the running clock, or the stopped one.
pub open spec fn play_secs(a: App, running_secs: u64) -> u64 {
    if a.clock_running {
        running_secs
    } else {
        a.elapsed_secs
    }
}

/// After a move that took the game from `prev` to the status of `mid.game`: the
/// clock starts when play starts, and if the layout then laid out is a Fallback
/// board the player is told so; when the game ends the clock stops, the result is
/// recorded (and a win shows its overlay), and the state must be saved.
pub open spec fn settled(mid: App, prev: Status, running_secs: u64, new: App, save: bool) -> bool {
    let now = mid.game.status;
    if starts(prev, now) {
        &&& new == (App {
            clock_running: true,
            overlay: if mid.game.is_fallback {
                Overlay::FallbackNotice
            } else {
                mid.overlay
            },
            ..mid
        })
        &&& !save
    } else if finishes(prev, now) {
        let secs = play_secs(mid, running_secs);
        let won = now == Status::Won;
        &&& new == (App {
            clock_running: false,
            elapsed_secs: secs,
            stats: mid.stats.with_item(
                mid.difficulty,
                recorded(mid.stats.item_of(mid.difficulty), won, secs),
            ),
            overlay: if won {
                Overlay::Win
            } else {
                mid.overlay
            },
            ..mid
        })
        &&& save
    } else {
        new == mid && !save
    }
}

/// The result of a game ending now fits the score counters.
pub open spec fn can_finish(a: App, running_secs: u64) -> bool {
    can_record(a.stats.item_of(a.difficulty), true, play_secs(a, running_secs))
}

/// `c` is an ASCII digit.
pub open spec fn is_digit(c: char) -> bool {
    48 <= c as int <= 57
}

/// The maximal runs of ASCII digits in `s` from position `i` on, each read as a
/// decimal number, when a run with value `cur` is open at `i`.
pub open spec fn runs_from(s: Seq<char>, i: int, cur: Option<nat>) -> Seq<nat>
    decreases s.len() - i,
{
    if i >= s.len() {
        match cur {
            Some(v) => seq![v],
            None => Seq::empty(),
        }
    } else if is_digit(s[i]) {
        let d = (s[i] as int - 48) as nat;
        runs_from(
            s,
            i + 1,
            Some(
                match cur {
                    Some(v) => v * 10 + d,
                    None => d,
                },
            ),
        )
    } else {
        match cur {
            Some(v) => seq![v] + runs_from(s, i + 1, None),
            None => runs_from(s, i + 1, None),
        }
    }
}

/// The numbers typed in `s`: its maximal runs of ASCII digits.
pub open spec fn typed_numbers(s: Seq<char>) -> Seq<nat> {
    runs_from(s, 0, None)
}

/// What the custom-board input `s` asks for: three numbers, width, height and
/// mines, with a non-empty board and fewer mines than cells; or the message
/// explaining what is wrong.
pub open spec fn custom_parse(s: Seq<char>) -> Result<(usize, usize, usize), Seq<char>> {
    let nums = typed_numbers(s);
    if exists|k: int| 0 <= k < nums.len() && nums[k] > usize::MAX {
        Err("numbers only, e.g. 20 20 60"@)
    } else if nums.len() != 3 {
        Err("enter three numbers: width height mines"@)
    } else if nums[0] == 0 || nums[1] == 0 {
        Err("width and height must be > 0"@)
    } else if nums[2] >= nums[0] * nums[1] {
        Err("too many mines for that board"@)
    } else {
        Ok((nums[0] as usize, nums[1] as usize, nums[2] as usize))
    }
}

/// A board the custom input `s` asks for fits in memory.
pub open spec fn custom_fits(s: Seq<char>) -> bool {
    match custom_parse(s) {
        Ok((w, h, m)) => w * h <= isize::MAX,
        Err(_) => true,
    }
}

/// Some entry exceeds `usize::MAX` after pushing `v` exactly when one did before
/// or `v` does.
proof fn lemma_push_exceeds(done: Seq<nat>, v: nat)
    ensures
        (exists|k: int| 0 <= k < done.push(v).len() && done.push(v)[k] > usize::MAX) == ((exists|
            k: int,
        | 0 <= k < done.len() && done[k] > usize::MAX) || v > usize::MAX),
{
    let e = done.push(v);
    if exists|k: int| 0 <= k < done.len() && done[k] > usize::MAX {
        let k = choose|k: int| 0 <= k < done.len() && done[k] > usize::MAX;
        assert(e[k] == done[k]);
    }
    if v > usize::MAX {
        assert(e[done.len() as int] == v);
    }
    if exists|k: int| 0 <= k < e.len() && e[k] > usize::MAX {
        let k = choose|k: int| 0 <= k < e.len() && e[k] > usize::MAX;
        if k < done.len() {
            assert(done[k] == e[k]);
        }
    }
}

/// Calls `String::push`: appends `c` to the end of `s`.
#[verifier::external_body]
fn push_char(s: &mut String, c: char)
    ensures
        final(s)@ == old(s)@.push(c),
{
    s.push(c)
}

/// Calls `String::pop`: removes the last character of `s` and returns it, or
/// returns `None` and leaves `s` alone when it is empty.
#[verifier::external_body]
fn pop_char(s: &mut String) -> (r: Option<char>)
    ensures
        old(s)@.len() == 0 ==> r is None && final(s)@ == old(s)@,
        old(s)@.len() > 0 ==> r == Some(old(s)@.last()) && final(s)@ == old(s)@.drop_last(),
{
    s.pop()
}

/// `a` with the cursor moved by `(dx, dy)`, each coordinate only if it stays on the board.
pub open spec fn cursor_moved(a: App, dx: int, dy: int) -> App {
    App {
        cursor: Pos {
            x: if 0 <= a.cursor.x + dx < a.game.width {
                (a.cursor.x + dx) as usize
            } else {
                a.cursor.x
            },
            y: if 0 <= a.cursor.y + dy < a.game.height {
                (a.cursor.y + dy) as usize
            } else {
                a.cursor.y
            },
        },
        ..a
    }
}

/// `a` with the theme stepped by `delta`, wrapping around.
pub open spec fn theme_stepped(a: App, delta: int) -> App {
    App { theme_index: ((a.theme_index + delta) % (THEME_COUNT as int)) as usize, ..a }
}

/// `a` showing the statistics, opened from its current screen.
pub open spec fn stats_opened(a: App) -> App {
    App {
        stats_origin: if a.screen == Screen::Game {
            Origin::Game
        } else {
            Origin::Menu
        },
        screen: Screen::Stats,
        ..a
    }
}

/// What a reveal-or-chord on `(x, y)` does: chord a revealed number, reveal
/// anything else, then settle clock and scores.
pub open spec fn revealed_or_chorded(old: App, x: usize, y: usize, running_secs: u64, new: App, save: bool) -> bool {
    &&& if old.game.states_view()[y * old.game.width + x] == CellState::Revealed {
        chord_step(old.game, x, y, new.game)
    } else {
        reveal_step(old.game, x, y, new.game)
    }
    &&& settled(App { game: new.game, ..old }, old.game.status, running_secs, new, save)
}

/// What a key does on the menu.
pub open spec fn menu_key(old: App, key: Key, seed: u64, new: App, save: bool) -> bool {
    match key {
        Key::Char('q') => new == (App { should_quit: true, ..old }) && !save,
        Key::Up | Key::Char('k') => new == (App {
            menu_selected: if old.menu_selected > 0 {
                (old.menu_selected - 1) as usize
            } else {
                0
            },
            ..old
        }) && !save,
        Key::Down | Key::Char('j') => new == (App {
            menu_selected: if old.menu_selected + 1 < 3 {
                (old.menu_selected + 1) as usize
            } else {
                3
            },
            ..old
        }) && !save,
        Key::Char('1') => new == (App { menu_selected: 0, ..old }) && !save,
        Key::Char('2') => new == (App { menu_selected: 1, ..old }) && !save,
        Key::Char('3') => new == (App { menu_selected: 2, ..old }) && !save,
        Key::Char('4') => new == (App { menu_selected: 3, ..old }) && !save,
        Key::Char('<') => new == theme_stepped(old, -1) && save,
        Key::Char('>') => new == theme_stepped(old, 1) && save,
        Key::Char('s') => new == stats_opened(old) && !save,
        Key::Enter | Key::Char(' ') => {
            let d = menu_entry(old.menu_selected as int);
            if d is Custom {
                &&& !save
                &&& new == (App { overlay: new.overlay, ..old })
                &&& match new.overlay {
                    Overlay::CustomInput { buf, error } => buf@ == Seq::<char>::empty() && error is None,
                    _ => false,
                }
            } else {
                save && reset(old, d, seed, Screen::Game, new)
            }
        },
        _ => new == old && !save,
    }
}

/// What a key does on the game screen.
pub open spec fn game_key(old: App, key: Key, seed: u64, running_secs: u64, new: App, save: bool) -> bool {
    match key {
        Key::Char('q') => new == (App { should_quit: true, ..old }) && !save,
        Key::Left | Key::Char('h') => new == cursor_moved(old, -1, 0) && !save,
        Key::Right | Key::Char('l') => new == cursor_moved(old, 1, 0) && !save,
        Key::Up | Key::Char('k') => new == cursor_moved(old, 0, -1) && !save,
        Key::Down | Key::Char('j') => new == cursor_moved(old, 0, 1) && !save,
        Key::Home => new == (App { cursor: Pos { x: 0, y: old.cursor.y }, ..old }) && !save,
        Key::End => new == (App {
            cursor: Pos { x: (old.game.width - 1) as usize, y: old.cursor.y },
            ..old
        }) && !save,
        Key::Char(' ') | Key::Enter | Key::Char('x') | Key::Char('o') => revealed_or_chorded(
            old,
            old.cursor.x,
            old.cursor.y,
            running_secs,
            new,
            save,
        ),
        Key::Char('f') => {
            &&& toggle_step(old.game, old.cursor.x, old.cursor.y, new.game)
            &&& new == (App { game: new.game, ..old })
            &&& !save
        },
        Key::Char('a') => if old.game.states_view()[old.cursor.y * old.game.width + old.cursor.x]
            == CellState::Revealed {
            &&& chord_step(old.game, old.cursor.x, old.cursor.y, new.game)
            &&& settled(App { game: new.game, ..old }, old.game.status, running_secs, new, save)
        } else {
            &&& toggle_step(old.game, old.cursor.x, old.cursor.y, new.game)
            &&& new == (App { game: new.game, ..old })
            &&& !save
        },
        Key::Char('r') => reset(old, old.difficulty, seed, old.screen, new) && !save,
        Key::Char('n') => new == (App { screen: Screen::Menu, ..old }) && !save,
        Key::Char('s') => new == stats_opened(old) && !save,
        Key::Char('<') => new == theme_stepped(old, -1) && save,
        Key::Char('>') => new == theme_stepped(old, 1) && save,
        Key::Char('?') => new == (App { overlay: Overlay::Help, ..old }) && !save,
        _ => new == old && !save,
    }
}

/// What a key does on the statistics screen.
pub open spec fn stats_key(old: App, key: Key, new: App, save: bool) -> bool {
    &&& !save
    &&& match key {
        Key::Esc | Key::Enter | Key::Char('q') | Key::Char('s') => new == (App {
            screen: match old.stats_origin {
                Origin::Game => Screen::Game,
                Origin::Menu => Screen::Menu,
            },
            ..old
        }),
        _ => new == old,
    }
}

/// What a key does while an overlay is shown.
pub open spec fn overlay_key(old: App, key: Key, seed: u64, new: App, save: bool) -> bool {
    match old.overlay {
        Overlay::Empty => new == old && !save,
        Overlay::Help => !save && new == (App {
            overlay: if key == Key::Esc || key == Key::Char('q') || key == Key::Char('?') {
                Overlay::Empty
            } else {
                Overlay::Help
            },
            ..old
        }),
        Overlay::Win => !save && match key {
            Key::Esc | Key::Enter | Key::Char(' ') => new == (App { overlay: Overlay::Empty, ..old }),
            Key::Char('r') => reset(old, old.difficulty, seed, old.screen, new),
            Key::Char('n') => new == (App { screen: Screen::Menu, overlay: Overlay::Empty, ..old }),
            Key::Char('q') => new == (App { should_quit: true, overlay: Overlay::Empty, ..old }),
            _ => new == old,
        },
        Overlay::FallbackNotice => !save && match key {
            Key::Esc | Key::Enter => new == (App { overlay: Overlay::Empty, ..old }),
            Key::Char('r') => reset(old, old.difficulty, seed, old.screen, new),
            _ => new == old,
        },
        Overlay::CustomInput { buf, error } => match key {
            Key::Esc | Key::Char('q') => !save && new == (App { overlay: Overlay::Empty, ..old }),
            Key::Enter => match custom_parse(buf@) {
                Ok((w, h, m)) => save && reset(
                    old,
                    Difficulty::Custom { width: w, height: h, mines: m },
                    seed,
                    Screen::Game,
                    new,
                ),
                Err(e) => {
                    &&& !save
                    &&& new == (App { overlay: new.overlay, ..old })
                    &&& match new.overlay {
                        Overlay::CustomInput { buf: b, error: Some(msg) } => b@ == buf@ && msg@ == e,
                        _ => false,
                    }
                },
            },
            Key::Backspace => {
                &&& !save
                &&& new == (App { overlay: new.overlay, ..old })
                &&& match new.overlay {
                    Overlay::CustomInput { buf: b, error: err } => err == error && b@ == if buf@.len()
                        > 0 {
                        buf@.drop_last()
                    } else {
                        buf@
                    },
                    _ => false,
                }
            },
            Key::Char(c) => {
                &&& !save
                &&& new == (App { overlay: new.overlay, ..old })
                &&& match new.overlay {
                    Overlay::CustomInput { buf: b, error: err } => err == error && b@ == buf@.push(c),
                    _ => false,
                }
            },
            _ => {
                &&& !save
                &&& new == (App { overlay: new.overlay, ..old })
                &&& match new.overlay {
                    Overlay::CustomInput { buf: b, error: err } => err == error && b@ == buf@,
                    _ => false,
                }
            },
        },
    }
}

/// What a key press does: with Control held only `c` and `q` act (they quit);
/// an overlay takes keys first; otherwise the shown screen handles it.
pub open spec fn key_step(
    old: App,
    key: Key,
    ctrl: bool,
    seed: u64,
    running_secs: u64,
    new: App,
    save: bool,
) -> bool {
    if ctrl {
        !save && new == if key == Key::Char('c') || key == Key::Char('q') {
            App { should_quit: true, ..old }
        } else {
            old
        }
    } else if !(old.overlay is Empty) {
        overlay_key(old, key, seed, new, save)
    } else {
        match old.screen {
            Screen::Menu => menu_key(old, key, seed, new, save),
            Screen::Game => game_key(old, key, seed, running_secs, new, save),
            Screen::Stats => stats_key(old, key, new, save),
        }
    }
}

/// Keys that open or chord a cell on the game screen: the moves that can end a game.
pub open spec fn move_key(key: Key) -> bool {
    key == Key::Char(' ') || key == Key::Enter || key == Key::Char('x') || key == Key::Char('o')
        || key == Key::Char('a')
}

/// The key press can end the game in play.
pub open spec fn key_can_finish(a: App, key: Key, ctrl: bool) -> bool {
    !ctrl && a.overlay is Empty && a.screen == Screen::Game && move_key(key)
}

/// A key press can be handled: if it can end the game, a game ending now fits the
/// score counters; and a custom board confirmed now fits in memory.
pub open spec fn key_ok(a: App, key: Key, ctrl: bool, running_secs: u64) -> bool {
    &&& key_can_finish(a, key, ctrl) ==> can_finish(a, running_secs)
    &&& match a.overlay {
        Overlay::CustomInput { buf, error } => !ctrl && key == Key::Enter ==> custom_fits(buf@),
        _ => true,
    }
}

/// The mouse press can end the game in play: a left or middle press on the game
/// screen with no overlay.
pub open spec fn mouse_can_finish(a: App, button: Option<Button>) -> bool {
    &&& a.overlay is Empty
    &&& a.screen == Screen::Game
    &&& (button == Some(Button::Left) || button == Some(Button::Middle))
}

/// Rendered width of one board cell in terminal columns.
pub const CELL_W: u16 = 2;

/// Rendered height of one board cell in terminal rows.
pub const CELL_H: u16 = 1;

/// What a mouse press does: on the game screen with no overlay, a press on a board
/// cell reveals or chords it (left), toggles its flag (right) or chords it
/// (middle); anything else is ignored.
pub open spec fn mouse_step(
    old: App,
    button: Option<Button>,
    column: u16,
    row: u16,
    running_secs: u64,
    new: App,
    save: bool,
) -> bool {
    let cx = column - old.board_origin.0;
    let cy = row - old.board_origin.1;
    let x = cx / (CELL_W as int);
    let y = cy / (CELL_H as int);
    if old.screen != Screen::Game || !(old.overlay is Empty) || button is None || cx < 0 || cy < 0
        || x >= old.game.width || y >= old.game.height {
        new == old && !save
    } else {
        match button {
            Some(Button::Left) => revealed_or_chorded(old, x as usize, y as usize, running_secs, new, save),
            Some(Button::Right) => {
                &&& toggle_step(old.game, x as usize, y as usize, new.game)
                &&& new == (App { game: new.game, ..old })
                &&& !save
            },
            _ => {
                &&& chord_step(old.game, x as usize, y as usize, new.game)
                &&& settled(App { game: new.game, ..old }, old.game.status, running_secs, new, save)
            },
        }
    }
}

impl App {
    /// The application's invariant.
    pub open spec fn wf(&self) -> bool {
        &&& self.game.wf()
        &&& dims_ok(self.difficulty)
        &&& self.game.width == self.difficulty.dims_of().0
        &&& self.game.height == self.difficulty.dims_of().1
        &&& self.cursor.x < self.game.width
        &&& self.cursor.y < self.game.height
        &&& self.theme_index < THEME_COUNT
        &&& self.menu_selected < 4
    }

    /// Start on the menu with the saved theme, Difficulty and history, and a new
    /// board of that Difficulty laid out from `seed`.
    pub fn new(state: PersistentState, seed: u64) -> (app: Self)
        requires
            dims_ok(state.difficulty),
        ensures
            app.wf(),
            app.screen == Screen::Menu,
            app.stats_origin == Origin::Menu,
            fresh_game(app.game, state.difficulty, seed),
            app.difficulty == state.difficulty,
            app.cursor == (Pos { x: (state.difficulty.dims_of().0 / 2) as usize, y: (state.difficulty.dims_of().1 / 2) as usize }),
            !app.clock_running,
            app.elapsed_secs == 0,
            app.overlay is Empty,
            app.theme_index == state.theme % THEME_COUNT,
            app.stats == state.stats,
            app.menu_selected == match state.difficulty {
                Difficulty::Beginner => 0usize,
                Difficulty::Intermediate => 1usize,
                Difficulty::Expert => 2usize,
                Difficulty::Custom { .. } => 3usize,
            },
            !app.should_quit,
            app.board_origin == (0u16, 0u16),
    {
        let (w, h, m) = state.difficulty.dims();
        let game = Game::new(w, h, m, seed).with_search_budget(state.difficulty.search_budget());
        let mut app = Self {
            screen: Screen::Menu,
            stats_origin: Origin::Menu,
            game,
            difficulty: state.difficulty,
            cursor: Pos { x: w / 2, y: h / 2 },
            clock_running: false,
            elapsed_secs: 0,
            overlay: Overlay::Empty,
            theme_index: state.theme % THEME_COUNT,
            stats: state.stats,
            menu_selected: state.difficulty.index(),
            should_quit: false,
            board_origin: (0, 0),
        };
        app.clamp_cursor();
        app
    }

    /// Keep the cursor on the board.
    fn clamp_cursor(&mut self)
        requires
            old(self).game.width > 0,
            old(self).game.height > 0,
        ensures
            final(self).cursor.x == if old(self).cursor.x >= old(self).game.width {
                (old(self).game.width - 1) as usize
            } else {
                old(self).cursor.x
            },
            final(self).cursor.y == if old(self).cursor.y >= old(self).game.height {
                (old(self).game.height - 1) as usize
            } else {
                old(self).cursor.y
            },
            final(self).game == old(self).game,
            final(self).screen == old(self).screen,
            final(self).stats_origin == old(self).stats_origin,
            final(self).difficulty == old(self).difficulty,
            final(self).clock_running == old(self).clock_running,
            final(self).elapsed_secs == old(self).elapsed_secs,
            final(self).overlay == old(self).overlay,
            final(self).theme_index == old(self).theme_index,
            final(self).stats == old(self).stats,
            final(self).menu_selected == old(self).menu_selected,
            final(self).should_quit == old(self).should_quit,
            final(self).board_origin == old(self).board_origin,
    {
        if self.cursor.x >= self.game.width {
            self.cursor.x = self.game.width - 1;
        }
        if self.cursor.y >= self.game.height {
            self.cursor.y = self.game.height - 1;
        }
    }
    /// Begin a fresh game with the given difficulty and seed, staying on the same screen.
    pub fn new_game(&mut self, difficulty: Difficulty, seed: u64)
        requires
            old(self).wf(),
            dims_ok(difficulty),
        ensures
            final(self).wf(),
            reset(*old(self), difficulty, seed, old(self).screen, *final(self)),
    {
        self.difficulty = difficulty;
        let (w, h, m) = difficulty.dims();
        self.game = Game::new(w, h, m, seed).with_search_budget(difficulty.search_budget());
        self.cursor = Pos { x: w / 2, y: h / 2 };
        self.clamp_cursor();
        self.clock_running = false;
        self.elapsed_secs = 0;
        self.overlay = Overlay::Empty;
    }

    /// Begin a fresh game with the given difficulty and seed, then enter the game
    /// screen. The state is to be saved afterwards.
    pub fn start_game(&mut self, difficulty: Difficulty, seed: u64)
        requires
            old(self).wf(),
            dims_ok(difficulty),
        ensures
            final(self).wf(),
            reset(*old(self), difficulty, seed, Screen::Game, *final(self)),
    {
        self.new_game(difficulty, seed);
        self.screen = Screen::Game;
    }

    /// Step the theme by `delta` (one back or one forward), wrapping around. The
    /// state is to be saved afterwards.
    fn cycle_theme(&mut self, delta: isize)
        requires
            old(self).wf(),
            delta == 1 || delta == -1,
        ensures
            final(self).wf(),
            *final(self) == (App {
                theme_index: ((old(self).theme_index + delta) % (THEME_COUNT as int)) as usize,
                ..*old(self)
            }),
    {
        let t = self.theme_index;
        if delta < 0 {
            self.theme_index = (t + THEME_COUNT - 1) % THEME_COUNT;
            assert((t + 7) as int % 8 == (t - 1) as int % 8);
        } else {
            self.theme_index = (t + 1) % THEME_COUNT;
        }
    }

    /// Clock and score bookkeeping after a move made from status `prev`; returns
    /// whether the state must be saved.
    fn after_move(&mut self, prev: Status, running_secs: u64) -> (save: bool)
        requires
            old(self).wf(),
            can_finish(*old(self), running_secs),
        ensures
            final(self).wf(),
            settled(*old(self), prev, running_secs, *final(self), save),
    {
        let now = self.game.status;
        if prev == Status::Ready && now == Status::Playing {
            self.clock_running = true;
            if self.game.is_fallback {
                self.overlay = Overlay::FallbackNotice;
            }
            return false;
        }
        if now != prev && (now == Status::Won || now == Status::Lost) {
            if self.clock_running {
                self.clock_running = false;
                self.elapsed_secs = running_secs;
            }
            let won = now == Status::Won;
            self.stats.record(self.difficulty, won, self.elapsed_secs);
            if won {
                self.overlay = Overlay::Win;
            }
            return true;
        }
        false
    }

    /// Reveal the cell `(x, y)` of the board; returns whether the state must be saved.
    pub fn reveal_cell(&mut self, x: usize, y: usize, running_secs: u64) -> (save: bool)
        requires
            old(self).wf(),
            x < old(self).game.width,
            y < old(self).game.height,
            can_finish(*old(self), running_secs),
        ensures
            final(self).wf(),
            reveal_step(old(self).game, x, y, final(self).game),
            settled(
                App { game: final(self).game, ..*old(self) },
                old(self).game.status,
                running_secs,
                *final(self),
                save,
            ),
    {
        let prev = self.game.status;
        self.game.reveal_cell(x, y);
        self.after_move(prev, running_secs)
    }

    /// Reveal-or-chord: reveal a hidden cell, or chord a revealed number; returns
    /// whether the state must be saved.
    pub fn reveal_or_chord(&mut self, x: usize, y: usize, running_secs: u64) -> (save: bool)
        requires
            old(self).wf(),
            x < old(self).game.width,
            y < old(self).game.height,
            can_finish(*old(self), running_secs),
        ensures
            final(self).wf(),
            if old(self).game.states_view()[y * old(self).game.width + x] == CellState::Revealed {
                chord_step(old(self).game, x, y, final(self).game)
            } else {
                reveal_step(old(self).game, x, y, final(self).game)
            },
            settled(
                App { game: final(self).game, ..*old(self) },
                old(self).game.status,
                running_secs,
                *final(self),
                save,
            ),
    {
        proof {
            assert(y * self.game.width + x < self.game.size()) by (nonlinear_arith)
                requires
                    x < self.game.width,
                    y < self.game.height,
            ;
        }
        let revealed = self.game.state(x, y) == CellState::Revealed;
        if revealed {
            let prev = self.game.status;
            self.game.chord(x, y);
            self.after_move(prev, running_secs)
        } else {
            self.reveal_cell(x, y, running_secs)
        }
    }

    /// Chord the revealed number at `(x, y)`; returns whether the state must be saved.
    pub fn chord_cell(&mut self, x: usize, y: usize, running_secs: u64) -> (save: bool)
        requires
            old(self).wf(),
            x < old(self).game.width,
            y < old(self).game.height,
            can_finish(*old(self), running_secs),
        ensures
            final(self).wf(),
            chord_step(old(self).game, x, y, final(self).game),
            settled(
                App { game: final(self).game, ..*old(self) },
                old(self).game.status,
                running_secs,
                *final(self),
                save,
            ),
    {
        let prev = self.game.status;
        self.game.chord(x, y);
        self.after_move(prev, running_secs)
    }

    /// Toggle the flag of the cell `(x, y)`.
    pub fn toggle_flag(&mut self, x: usize, y: usize)
        requires
            old(self).wf(),
            x < old(self).game.width,
            y < old(self).game.height,
        ensures
            final(self).wf(),
            toggle_step(old(self).game, x, y, final(self).game),
            *final(self) == (App { game: final(self).game, ..*old(self) }),
    {
        proof {
            assert(y * self.game.width + x < self.game.size()) by (nonlinear_arith)
                requires
                    x < self.game.width,
                    y < self.game.height,
            ;
        }
        self.game.toggle_flag(x, y);
    }

    /// Move the cursor by `(dx, dy)`; each coordinate moves only if it stays on the board.
    fn move_cursor(&mut self, dx: isize, dy: isize)
        requires
            old(self).wf(),
            -1 <= dx <= 1,
            -1 <= dy <= 1,
        ensures
            final(self).wf(),
            *final(self) == cursor_moved(*old(self), dx as int, dy as int),
    {
        if dx < 0 {
            if self.cursor.x > 0 {
                self.cursor.x = self.cursor.x - 1;
            }
        } else if dx > 0 {
            if self.cursor.x + 1 < self.game.width {
                self.cursor.x = self.cursor.x + 1;
            }
        }
        if dy < 0 {
            if self.cursor.y > 0 {
                self.cursor.y = self.cursor.y - 1;
            }
        } else if dy > 0 {
            if self.cursor.y + 1 < self.game.height {
                self.cursor.y = self.cursor.y + 1;
            }
        }
    }

    /// Show the statistics, remembering where they were opened from.
    pub fn open_stats(&mut self)
        ensures
            *final(self) == (App {
                stats_origin: if old(self).screen == Screen::Game {
                    Origin::Game
                } else {
                    Origin::Menu
                },
                screen: Screen::Stats,
                ..*old(self)
            }),
    {
        self.stats_origin = match self.screen {
            Screen::Game => Origin::Game,
            _ => Origin::Menu,
        };
        self.screen = Screen::Stats;
    }

    /// Leave the statistics for the screen they were opened from.
    fn close_stats(&mut self)
        ensures
            *final(self) == (App {
                screen: match old(self).stats_origin {
                    Origin::Game => Screen::Game,
                    Origin::Menu => Screen::Menu,
                },
                ..*old(self)
            }),
    {
        self.screen = match self.stats_origin {
            Origin::Game => Screen::Game,
            Origin::Menu => Screen::Menu,
        };
    }
    /// Read a custom board, `width height mines`, from what was typed.
    pub fn parse_custom(&self, input: &str) -> (r: Result<(usize, usize, usize), String>)
        ensures
            match r {
                Ok(t) => custom_parse(input@) == Ok::<(usize, usize, usize), Seq<char>>(t),
                Err(e) => custom_parse(input@) == Err::<(usize, usize, usize), Seq<char>>(e@),
            },
    {
        let ghost s = input@;
        let n = input.unicode_len();
        let mut nums: Vec<usize> = Vec::new();
        let mut bad = false;
        let mut in_run = false;
        let mut val: usize = 0;
        let mut big = false;
        let ghost mut done: Seq<nat> = Seq::empty();
        let ghost mut cur: Option<nat> = None;
        let mut i: usize = 0;
        while i < n
            invariant
                s == input@,
                n == s.len(),
                i <= n,
                done + runs_from(s, i as int, cur) == typed_numbers(s),
                bad == exists|k: int| 0 <= k < done.len() && done[k] > usize::MAX,
                !bad ==> nums@.len() == done.len() && forall|k: int|
                    0 <= k < done.len() ==> #[trigger] nums@[k] as nat == done[k],
                in_run == (cur is Some),
                in_run ==> (big == (cur->0 > usize::MAX)) && (!big ==> val == cur->0),
            decreases n - i,
        {
            let c = input.get_char(i);
            let code = c as u32;
            if 48 <= code && code <= 57 {
                let d = (code - 48) as usize;
                if in_run {
                    if !big {
                        match val.checked_mul(10) {
                            Some(t) => match t.checked_add(d) {
                                Some(v) => {
                                    val = v;
                                },
                                None => {
                                    big = true;
                                },
                            },
                            None => {
                                big = true;
                            },
                        }
                    }
                    proof {
                        cur = Some(cur->0 * 10 + d as nat);
                    }
                } else {
                    in_run = true;
                    val = d;
                    big = false;
                    proof {
                        cur = Some(d as nat);
                    }
                }
            } else {
                if in_run {
                    if big {
                        bad = true;
                    } else if !bad {
                        nums.push(val);
                    }
                    in_run = false;
                    proof {
                        assert(seq![cur->0] + runs_from(s, i + 1, None) == runs_from(s, i as int, cur));
                        assert(done + runs_from(s, i as int, cur) =~= done.push(cur->0) + runs_from(
                            s,
                            i + 1,
                            None,
                        ));
                        lemma_push_exceeds(done, cur->0);
                        done = done.push(cur->0);
                        cur = None;
                    }
                }
            }
            i = i + 1;
        }
        if in_run {
            if big {
                bad = true;
            } else if !bad {
                nums.push(val);
            }
            proof {
                assert(done + runs_from(s, i as int, cur) =~= done.push(cur->0));
                lemma_push_exceeds(done, cur->0);
                done = done.push(cur->0);
            }
        } else {
            proof {
                assert(done + runs_from(s, i as int, cur) =~= done);
            }
        }
        proof {
            assert(done == typed_numbers(s));
        }
        if bad {
            return Err(String::from_str("numbers only, e.g. 20 20 60"));
        }
        if nums.len() != 3 {
            return Err(String::from_str("enter three numbers: width height mines"));
        }
        let w = nums[0];
        let h = nums[1];
        let m = nums[2];
        proof {
            assert(w as nat == done[0] && h as nat == done[1] && m as nat == done[2]);
        }
        if w == 0 || h == 0 {
            return Err(String::from_str("width and height must be > 0"));
        }
        let too_many = match w.checked_mul(h) {
            Some(p) => m >= p,
            None => false,
        };
        if too_many {
            return Err(String::from_str("too many mines for that board"));
        }
        Ok((w, h, m))
    }

    /// Start a custom game from what was typed, or say what is wrong with it. On
    /// success the state is to be saved afterwards.
    pub fn apply_custom(&mut self, input: &str, seed: u64) -> (r: Result<(), String>)
        requires
            old(self).wf(),
            custom_fits(input@),
        ensures
            final(self).wf(),
            match custom_parse(input@) {
                Ok((w, h, m)) => r is Ok && reset(
                    *old(self),
                    Difficulty::Custom { width: w, height: h, mines: m },
                    seed,
                    Screen::Game,
                    *final(self),
                ),
                Err(e) => *final(self) == *old(self) && match r {
                    Ok(_) => false,
                    Err(msg) => msg@ == e,
                },
            },
    {
        match self.parse_custom(input) {
            Ok((w, h, m)) => {
                self.start_game(Difficulty::Custom { width: w, height: h, mines: m }, seed);
                Ok(())
            },
            Err(e) => Err(e),
        }
    }
    /// Handle a key press, routing through any active overlay first; returns
    /// whether the state must be saved.
    pub fn on_key(&mut self, key: Key, ctrl: bool, seed: u64, running_secs: u64) -> (save: bool)
        requires
            old(self).wf(),
            key_ok(*old(self), key, ctrl, running_secs),
        ensures
            final(self).wf(),
            key_step(*old(self), key, ctrl, seed, running_secs, *final(self), save),
    {
        if ctrl {
            if key == Key::Char('c') || key == Key::Char('q') {
                self.should_quit = true;
            }
            return false;
        }
        let overlay_shown = match self.overlay {
            Overlay::Empty => false,
            _ => true,
        };
        if overlay_shown {
            return self.on_key_overlay(key, seed);
        }
        match self.screen {
            Screen::Menu => self.on_key_menu(key, seed),
            Screen::Game => self.on_key_game(key, seed, running_secs),
            Screen::Stats => {
                self.on_key_stats(key);
                false
            },
        }
    }

    /// Keys on the menu.
    fn on_key_menu(&mut self, key: Key, seed: u64) -> (save: bool)
        requires
            old(self).wf(),
        ensures
            final(self).wf(),
            menu_key(*old(self), key, seed, *final(self), save),
    {
        match key {
            Key::Char('q') => {
                self.should_quit = true;
                false
            },
            Key::Up | Key::Char('k') => {
                self.menu_selected = if self.menu_selected > 0 {
                    self.menu_selected - 1
                } else {
                    0
                };
                false
            },
            Key::Down | Key::Char('j') => {
                self.menu_selected = if self.menu_selected + 1 < 3 {
                    self.menu_selected + 1
                } else {
                    3
                };
                false
            },
            Key::Char('1') => {
                self.menu_selected = 0;
                false
            },
            Key::Char('2') => {
                self.menu_selected = 1;
                false
            },
            Key::Char('3') => {
                self.menu_selected = 2;
                false
            },
            Key::Char('4') => {
                self.menu_selected = 3;
                false
            },
            Key::Char('<') => {
                self.cycle_theme(-1);
                true
            },
            Key::Char('>') => {
                self.cycle_theme(1);
                true
            },
            Key::Char('s') => {
                self.open_stats();
                false
            },
            Key::Enter | Key::Char(' ') => {
                let d = difficulty_at(self.menu_selected);
                match d {
                    Difficulty::Custom { .. } => {
                        self.overlay = Overlay::CustomInput { buf: String::new(), error: None };
                        false
                    },
                    _ => {
                        proof {
                            assert(d == Difficulty::Beginner || d == Difficulty::Intermediate || d
                                == Difficulty::Expert);
                            assert(dims_ok(d));
                        }
                        self.start_game(d, seed);
                        true
                    },
                }
            },
            _ => false,
        }
    }

    /// Keys on the game screen.
    fn on_key_game(&mut self, key: Key, seed: u64, running_secs: u64) -> (save: bool)
        requires
            old(self).wf(),
            move_key(key) ==> can_finish(*old(self), running_secs),
        ensures
            final(self).wf(),
            game_key(*old(self), key, seed, running_secs, *final(self), save),
    {
        match key {
            Key::Char('q') => {
                self.should_quit = true;
                false
            },
            Key::Left | Key::Char('h') => {
                self.move_cursor(-1, 0);
                false
            },
            Key::Right | Key::Char('l') => {
                self.move_cursor(1, 0);
                false
            },
            Key::Up | Key::Char('k') => {
                self.move_cursor(0, -1);
                false
            },
            Key::Down | Key::Char('j') => {
                self.move_cursor(0, 1);
                false
            },
            Key::Home => {
                self.cursor.x = 0;
                false
            },
            Key::End => {
                self.cursor.x = self.game.width - 1;
                false
            },
            Key::Char(' ') | Key::Enter | Key::Char('x') | Key::Char('o') => {
                let (x, y) = (self.cursor.x, self.cursor.y);
                self.reveal_or_chord(x, y, running_secs)
            },
            Key::Char('f') => {
                let (x, y) = (self.cursor.x, self.cursor.y);
                self.toggle_flag(x, y);
                false
            },
            Key::Char('a') => {
                let (x, y) = (self.cursor.x, self.cursor.y);
                proof {
                    assert(y * self.game.width + x < self.game.size()) by (nonlinear_arith)
                        requires
                            x < self.game.width,
                            y < self.game.height,
                    ;
                }
                if self.game.state(x, y) == CellState::Revealed {
                    self.chord_cell(x, y, running_secs)
                } else {
                    self.toggle_flag(x, y);
                    false
                }
            },
            Key::Char('r') => {
                let d = self.difficulty;
                self.new_game(d, seed);
                false
            },
            Key::Char('n') => {
                self.screen = Screen::Menu;
                false
            },
            Key::Char('s') => {
                self.open_stats();
                false
            },
            Key::Char('<') => {
                self.cycle_theme(-1);
                true
            },
            Key::Char('>') => {
                self.cycle_theme(1);
                true
            },
            Key::Char('?') => {
                self.overlay = Overlay::Help;
                false
            },
            _ => false,
        }
    }

    /// Keys on the statistics screen.
    fn on_key_stats(&mut self, key: Key)
        ensures
            stats_key(*old(self), key, *final(self), false),
    {
        match key {
            Key::Esc | Key::Enter | Key::Char('q') | Key::Char('s') => self.close_stats(),
            _ => {},
        }
    }

    /// Keys while an overlay is shown.
    fn on_key_overlay(&mut self, key: Key, seed: u64) -> (save: bool)
        requires
            old(self).wf(),
            key_ok(*old(self), key, false, 0),
        ensures
            final(self).wf(),
            overlay_key(*old(self), key, seed, *final(self), save),
    {
        let ghost before = *self;
        let mut overlay = Overlay::Empty;
        std::mem::swap(&mut overlay, &mut self.overlay);
        match overlay {
            Overlay::Help => {
                if key == Key::Esc || key == Key::Char('q') || key == Key::Char('?') {
                    self.overlay = Overlay::Empty;
                } else {
                    self.overlay = Overlay::Help;
                }
                false
            },
            Overlay::Win => {
                match key {
                    Key::Esc | Key::Enter | Key::Char(' ') => {},
                    Key::Char('r') => {
                        let d = self.difficulty;
                        self.new_game(d, seed);
                    },
                    Key::Char('n') => {
                        self.screen = Screen::Menu;
                    },
                    Key::Char('q') => {
                        self.should_quit = true;
                    },
                    _ => {
                        self.overlay = Overlay::Win;
                    },
                }
                false
            },
            Overlay::FallbackNotice => {
                match key {
                    Key::Esc | Key::Enter => {},
                    Key::Char('r') => {
                        let d = self.difficulty;
                        self.new_game(d, seed);
                    },
                    _ => {
                        self.overlay = Overlay::FallbackNotice;
                    },
                }
                false
            },
            Overlay::CustomInput { mut buf, error } => match key {
                Key::Esc | Key::Char('q') => false,
                Key::Enter => match self.apply_custom(buf.as_str(), seed) {
                    Ok(()) => true,
                    Err(e) => {
                        self.overlay = Overlay::CustomInput { buf, error: Some(e) };
                        false
                    },
                },
                Key::Backspace => {
                    pop_char(&mut buf);
                    self.overlay = Overlay::CustomInput { buf, error };
                    false
                },
                Key::Char(c) => {
                    push_char(&mut buf, c);
                    self.overlay = Overlay::CustomInput { buf, error };
                    false
                },
                _ => {
                    self.overlay = Overlay::CustomInput { buf, error };
                    false
                },
            },
            Overlay::Empty => {
                self.overlay = Overlay::Empty;
                false
            },
        }
    }
    /// Map a mouse press at terminal `(column, row)` to a board action; `None` is
    /// any mouse event other than a press. Returns whether the state must be saved.
    pub fn on_mouse(&mut self, button: Option<Button>, column: u16, row: u16, running_secs: u64) -> (save: bool)
        requires
            old(self).wf(),
            mouse_can_finish(*old(self), button) ==> can_finish(*old(self), running_secs),
        ensures
            final(self).wf(),
            mouse_step(*old(self), button, column, row, running_secs, *final(self), save),
    {
        if self.screen != Screen::Game {
            return false;
        }
        match self.overlay {
            Overlay::Empty => {},
            _ => {
                return false;
            },
        }
        let b = match button {
            Some(b) => b,
            None => {
                return false;
            },
        };
        let (ox, oy) = self.board_origin;
        if column < ox || row < oy {
            return false;
        }
        let x = ((column - ox) / CELL_W) as usize;
        let y = ((row - oy) / CELL_H) as usize;
        if x >= self.game.width || y >= self.game.height {
            return false;
        }
        match b {
            Button::Left => self.reveal_or_chord(x, y, running_secs),
            Button::Right => {
                self.toggle_flag(x, y);
                false
            },
            Button::Middle => self.chord_cell(x, y, running_secs),
        }
    }
    /// What is to be saved: the theme, the Difficulty and the score history.
    pub fn saved_state(&self) -> (s: PersistentState)
        ensures
            s.theme == self.theme_index,
            s.difficulty == self.difficulty,
            s.stats == self.stats,
    {
        PersistentState { theme: self.theme_index, difficulty: self.difficulty, stats: self.stats }
    }
}

/// Stepping the theme forward and then back gives the same theme.
pub proof fn lemma_theme_round_trip(a: App)
    requires
        a.theme_index < THEME_COUNT,
    ensures
        theme_stepped(theme_stepped(a, 1), -1) == a,
        theme_stepped(theme_stepped(a, -1), 1) == a,
{
    assert(theme_stepped(theme_stepped(a, 1), -1).theme_index == a.theme_index);
    assert(theme_stepped(theme_stepped(a, -1), 1).theme_index == a.theme_index);
}

/// A custom board that the input is accepted for has cells and fewer mines than
/// cells, so the game is laid out with exactly the mines asked for.
pub proof fn lemma_custom_board_valid(s: Seq<char>)
    requires
        custom_parse(s) is Ok,
    ensures
        match custom_parse(s) {
            Ok((w, h, m)) => w > 0 && h > 0 && m < w * h,
            Err(_) => false,
        },
{
}

/// The Fallback notice is shown once: only the move that lays out the mines (made
/// from a Ready game) can bring it up, and it does so exactly when the layout kept
/// is a Fallback board and play goes on.
pub proof fn lemma_fallback_notice_once(
    mid: App,
    prev: Status,
    running_secs: u64,
    new: App,
    save: bool,
)
    requires
        settled(mid, prev, running_secs, new, save),
        !(mid.overlay is FallbackNotice),
    ensures
        new.overlay is FallbackNotice ==> prev == Status::Ready,
        prev == Status::Ready && mid.game.status == Status::Playing ==> (new.overlay is FallbackNotice
            <==> mid.game.is_fallback),
{
}

/// The generating first click of a Fallback board brings up the notice: the
/// layout's opening never wins the game at once, so play starts and the notice is
/// shown.
pub proof fn lemma_fallback_first_reveal_notice(
    a: App,
    x: usize,
    y: usize,
    running_secs: u64,
    new: App,
    save: bool,
)
    requires
        a.game.wf(),
        new.game.wf(),
        a.game.status == Status::Ready,
        x < a.game.width,
        y < a.game.height,
        forall|c: int| 0 <= c < a.game.size() ==> #[trigger] a.game.states_view()[c] == CellState::Hidden,
        reveal_step(a.game, x, y, new.game),
        settled(App { game: new.game, ..a }, a.game.status, running_secs, new, save),
        new.game.is_fallback,
    ensures
        new.overlay is FallbackNotice,
        new.clock_running,
        !save,
{
    crate::game::lemma_fallback_first_click_plays(a.game, x, y, new.game);
}

/// Two new games of one Difficulty laid out from one seed are the same game: the
/// same board, the same cell states, the same search budget, and the same generator.
pub proof fn lemma_fresh_games_agree(g1: Game, g2: Game, d: Difficulty, seed: u64)
    requires
        fresh_game(g1, d, seed),
        fresh_game(g2, d, seed),
    ensures
        g1.width == g2.width,
        g1.height == g2.height,
        g1.mine_count == g2.mine_count,
        g1.seed == g2.seed,
        g1.status == g2.status,
        g1.lost_at == g2.lost_at,
        g1.is_fallback == g2.is_fallback,
        g1.layouts_tried == g2.layouts_tried,
        g1.budget() == g2.budget(),
        g1.cells_view() == g2.cells_view(),
        g1.states_view() == g2.states_view(),
        g1.rng_view() == g2.rng_view(),
{
    assert(g1.cells_view() =~= g2.cells_view());
    assert(g1.states_view() =~= g2.states_view());
}

/// A move that wins the game stops the clock at the game's play time (the running
/// clock's seconds, or the stopped clock's) and records that time for the
/// Difficulty: one more game and one more win, the win time added to the total,
/// and the best time the smaller of the old best and this one. The history of the
/// other Difficulties is kept.
pub proof fn lemma_win_records_play_time(
    mid: App,
    prev: Status,
    running_secs: u64,
    new: App,
    save: bool,
    other: Difficulty,
)
    requires
        settled(mid, prev, running_secs, new, save),
        prev != Status::Won,
        mid.game.status == Status::Won,
        can_finish(mid, running_secs),
        other != mid.difficulty && (other is Custom ==> !(mid.difficulty is Custom)),
    ensures
        ({
            let secs = if mid.clock_running {
                running_secs
            } else {
                mid.elapsed_secs
            };
            let old_item = mid.stats.item_of(mid.difficulty);
            let item = new.stats.item_of(mid.difficulty);
            &&& !new.clock_running
            &&& new.elapsed_secs == secs
            &&& item.total == old_item.total + 1
            &&& item.wins == old_item.wins + 1
            &&& item.win_duration == old_item.win_duration + secs
            &&& item.best_time == Some(
                match old_item.best_time {
                    Some(b) => if b <= secs {
                        b
                    } else {
                        secs
                    },
                    None => secs,
                },
            )
            &&& new.stats.item_of(other) == mid.stats.item_of(other)
            &&& save
        }),
{
}

/// A move that loses the game stops the clock at the game's play time and counts
/// one more game for the Difficulty, with no win, no win time and the best time
/// kept; no overlay comes up.
pub proof fn lemma_loss_records_game(
    mid: App,
    prev: Status,
    running_secs: u64,
    new: App,
    save: bool,
)
    requires
        settled(mid, prev, running_secs, new, save),
        prev != Status::Lost,
        mid.game.status == Status::Lost,
        can_finish(mid, running_secs),
    ensures
        ({
            let old_item = mid.stats.item_of(mid.difficulty);
            let item = new.stats.item_of(mid.difficulty);
            &&& !new.clock_running
            &&& new.elapsed_secs == (if mid.clock_running {
                running_secs
            } else {
                mid.elapsed_secs
            })
            &&& item.total == old_item.total + 1
            &&& item.wins == old_item.wins
            &&& item.win_duration == old_item.win_duration
            &&& item.best_time == old_item.best_time
            &&& new.overlay == mid.overlay
            &&& save
        }),
{
}

/// The move that starts play starts the clock and records nothing.
pub proof fn lemma_first_move_starts_clock(
    mid: App,
    running_secs: u64,
    new: App,
    save: bool,
)
    requires
        settled(mid, Status::Ready, running_secs, new, save),
        mid.game.status == Status::Playing,
    ensures
        new.clock_running,
        new.stats == mid.stats,
        new.elapsed_secs == mid.elapsed_secs,
        new.game == mid.game,
        !save,
{
}

/// On the game screen with no overlay, the keys that act on the board act on the
/// cell under the cursor: `f` toggles its flag, and space, Enter, `x` and `o`
/// reveal it (or chord it, when it is a revealed number), then settle clock and
/// scores.
pub proof fn lemma_game_keys_act_at_cursor(
    old: App,
    key: Key,
    seed: u64,
    running_secs: u64,
    new: App,
    save: bool,
)
    requires
        old.wf(),
        old.screen == Screen::Game,
        old.overlay is Empty,
        key_step(old, key, false, seed, running_secs, new, save),
    ensures
        key == Key::Char('f') ==> toggle_step(old.game, old.cursor.x, old.cursor.y, new.game)
            && new == (App { game: new.game, ..old }) && !save,
        (key == Key::Char(' ') || key == Key::Enter || key == Key::Char('x') || key == Key::Char(
            'o',
        )) ==> (if old.game.states_view()[old.cursor.y * old.game.width + old.cursor.x]
            == CellState::Revealed {
            chord_step(old.game, old.cursor.x, old.cursor.y, new.game)
        } else {
            reveal_step(old.game, old.cursor.x, old.cursor.y, new.game)
        }) && settled(App { game: new.game, ..old }, old.game.status, running_secs, new, save),
{
}

/// A move that neither starts nor ends a game touches neither clock nor scores.
pub proof fn lemma_quiet_move_settles_nothing(
    mid: App,
    prev: Status,
    running_secs: u64,
    new: App,
    save: bool,
)
    requires
        settled(mid, prev, running_secs, new, save),
        mid.game.status == prev,
    ensures
        new == mid,
        !save,
{
}

/// On the game screen with no overlay, the arrow keys and `h` `j` `k` `l` move the
/// cursor one cell in their direction when that cell is on the board, and
/// otherwise leave it; nothing else changes.
pub proof fn lemma_game_keys_move_cursor(
    old: App,
    key: Key,
    seed: u64,
    running_secs: u64,
    new: App,
    save: bool,
)
    requires
        old.wf(),
        old.screen == Screen::Game,
        old.overlay is Empty,
        key_step(old, key, false, seed, running_secs, new, save),
    ensures
        key == Key::Down || key == Key::Char('j') ==> new.cursor.x == old.cursor.x
            && new.cursor.y == (if old.cursor.y + 1 < old.game.height {
            old.cursor.y + 1
        } else {
            old.cursor.y as int
        }),
        key == Key::Up || key == Key::Char('k') ==> new.cursor.x == old.cursor.x
            && new.cursor.y == (if old.cursor.y > 0 {
            old.cursor.y - 1
        } else {
            old.cursor.y as int
        }),
        key == Key::Right || key == Key::Char('l') ==> new.cursor.y == old.cursor.y
            && new.cursor.x == (if old.cursor.x + 1 < old.game.width {
            old.cursor.x + 1
        } else {
            old.cursor.x as int
        }),
        key == Key::Left || key == Key::Char('h') ==> new.cursor.y == old.cursor.y
            && new.cursor.x == (if old.cursor.x > 0 {
            old.cursor.x - 1
        } else {
            old.cursor.x as int
        }),
        key == Key::Home ==> new.cursor.x == 0 && new.cursor.y == old.cursor.y,
        key == Key::End ==> new.cursor.x == old.game.width - 1 && new.cursor.y == old.cursor.y,
        key == Key::Down || key == Key::Char('j') || key == Key::Up || key == Key::Char('k')
            || key == Key::Right || key == Key::Char('l') || key == Key::Left || key == Key::Char(
            'h',
        ) || key == Key::Home || key == Key::End ==> new == (App { cursor: new.cursor, ..old })
            && !save,
{
}

/// A middle press on a board cell (game screen, no overlay) chords that cell: the
/// game changes as `chord_step` says and the clock and scores settle after it; on
/// a revealed cell it does exactly what a left press does.
pub proof fn lemma_middle_press_chords(
    old: App,
    column: u16,
    row: u16,
    running_secs: u64,
    new: App,
    save: bool,
)
    requires
        old.screen == Screen::Game,
        old.overlay is Empty,
        column >= old.board_origin.0,
        row >= old.board_origin.1,
        (column - old.board_origin.0) / 2 < old.game.width,
        row - old.board_origin.1 < old.game.height,
        mouse_step(old, Some(Button::Middle), column, row, running_secs, new, save),
    ensures
        ({
            let x = ((column - old.board_origin.0) / 2) as usize;
            let y = (row - old.board_origin.1) as usize;
            &&& chord_step(old.game, x, y, new.game)
            &&& settled(App { game: new.game, ..old }, old.game.status, running_secs, new, save)
            &&& old.game.states_view()[y * old.game.width + x] == CellState::Revealed ==> mouse_step(
                old,
                Some(Button::Left),
                column,
                row,
                running_secs,
                new,
                save,
            )
        }),
{
}

/// A right press on a board cell (game screen, no overlay) toggles that cell's
/// flag and nothing else; a left press on a cell that is not revealed reveals it,
/// and the clock and scores settle after it.
pub proof fn lemma_left_right_presses(
    old: App,
    button: Button,
    column: u16,
    row: u16,
    running_secs: u64,
    new: App,
    save: bool,
)
    requires
        old.screen == Screen::Game,
        old.overlay is Empty,
        column >= old.board_origin.0,
        row >= old.board_origin.1,
        (column - old.board_origin.0) / 2 < old.game.width,
        row - old.board_origin.1 < old.game.height,
        mouse_step(old, Some(button), column, row, running_secs, new, save),
    ensures
        ({
            let x = ((column - old.board_origin.0) / 2) as usize;
            let y = (row - old.board_origin.1) as usize;
            &&& button == Button::Right ==> toggle_step(old.game, x, y, new.game) && new == (App {
                game: new.game,
                ..old
            }) && !save
            &&& button == Button::Left && old.game.states_view()[y * old.game.width + x]
                != CellState::Revealed ==> reveal_step(old.game, x, y, new.game) && settled(
                App { game: new.game, ..old },
                old.game.status,
                running_secs,
                new,
                save,
            )
        }),
{
}

/// A finished game stays as it is: revealing or chording on it changes nothing,
/// records nothing and saves nothing, so each game is counted once.
pub proof fn lemma_finished_game_inert(
    a: App,
    x: usize,
    y: usize,
    running_secs: u64,
    new: App,
    save: bool,
)
    requires
        a.game.status == Status::Won || a.game.status == Status::Lost,
        revealed_or_chorded(a, x, y, running_secs, new, save),
    ensures
        new == a,
        !save,
{
    reveal(reveal_step);
    reveal(chord_step);
    assert((App { game: new.game, ..a }) == a);
}

} // verus!
