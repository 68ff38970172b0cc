//! What the screens show, decided from plain values: durations as text, the
//! statistics columns, board geometry, and how each board cell looks.
use vstd::prelude::*;
use vstd::string::StringExecFns;

use crate::app::App;
use crate::game::{
    lemma_layout_invariant, lemma_numbers_small, lemma_revealed_means_laid_out, mines_of, pos_idx,
    Cell, CellState, Pos, Status,
};
use crate::solver::adj_count;
use crate::state::StatItem;
use crate::text::{dec, digit_char, push_decimal};

verus! {

/// A duration in seconds as text: `45s` under a minute, else minutes and
/// two-digit seconds, such as `1m15s`.
pub open spec fn dur_text(secs: nat) -> Seq<char> {
    if secs < 60 {
        dec(secs) + seq!['s']
    } else {
        let s = secs % 60;
        dec(secs / 60) + seq!['m', digit_char((s / 10) as int), digit_char((s % 10) as int), 's']
    }
}

/// Format a duration in seconds, such as `45s` or `1m15s`.
pub fn fmt_dur(secs: u64) -> (s: String)
    ensures
        s@ == dur_text(secs as nat),
{
    proof {
        reveal_strlit("s");
        reveal_strlit("m");
    }
    let mut s = String::new();
    if secs < 60 {
        push_decimal(&mut s, secs);
        s.append("s");
    } else {
        push_decimal(&mut s, secs / 60);
        s.append("m");
        let rest = secs % 60;
        push_decimal(&mut s, rest / 10);
        push_decimal(&mut s, rest % 10);
        s.append("s");
        proof {
            assert(dec((rest / 10) as nat) == seq![digit_char((rest / 10) as int)]);
            assert(dec((rest % 10) as nat) == seq![digit_char((rest % 10) as int)]);
        }
    }
    proof {
        assert(s@ =~= dur_text(secs as nat));
    }
    s
}

/// The best time as text, or `--` when there is none.
pub fn best_str(best: Option<u64>) -> (s: String)
    ensures
        s@ == match best {
            Some(b) => dur_text(b as nat),
            None => "--"@,
        },
{
    match best {
        Some(b) => fmt_dur(b),
        None => String::from_str("--"),
    }
}

/// The average winning time as text, or `--` before the first win.
pub fn avg_str(s: &StatItem) -> (r: String)
    ensures
        r@ == if s.wins == 0 {
            "--"@
        } else {
            dur_text((s.win_duration / s.wins as u64) as nat)
        },
{
    if s.wins == 0 {
        String::from_str("--")
    } else {
        fmt_dur(s.win_duration / s.wins as u64)
    }
}

/// `(x2, y2)` touches `(x1, y1)` orthogonally or diagonally.
pub open spec fn touches(x1: int, y1: int, x2: int, y2: int) -> bool {
    &&& -1 <= x1 - x2 <= 1
    &&& -1 <= y1 - y2 <= 1
    &&& !(x1 == x2 && y1 == y2)
}

/// Whether `(x2, y2)` is one of the eight neighbours of `(x1, y1)`.
pub fn is_neighbor(x1: usize, y1: usize, x2: usize, y2: usize) -> (r: bool)
    ensures
        r == touches(x1 as int, y1 as int, x2 as int, y2 as int),
{
    let dx = if x1 >= x2 {
        x1 - x2
    } else {
        x2 - x1
    };
    let dy = if y1 >= y2 {
        y1 - y2
    } else {
        y2 - y1
    };
    dx <= 1 && dy <= 1 && !(dx == 0 && dy == 0)
}

/// A `w` by `h` box centred in the area at `(ax, ay)` of size `aw` by `ah`,
/// shrunk to fit: `(x, y, width, height)`.
pub fn centered(ax: u16, ay: u16, aw: u16, ah: u16, w: u16, h: u16) -> (r: (u16, u16, u16, u16))
    requires
        ax + aw <= u16::MAX,
        ay + ah <= u16::MAX,
    ensures
        r.2 == if w < aw {
            w
        } else {
            aw
        },
        r.3 == if h < ah {
            h
        } else {
            ah
        },
        r.0 == ax + (aw - r.2) / 2,
        r.1 == ay + (ah - r.3) / 2,
{
    let w = if w < aw {
        w
    } else {
        aw
    };
    let h = if h < ah {
        h
    } else {
        ah
    };
    let x = ax + (aw - w) / 2;
    let y = ay + (ah - h) / 2;
    (x, y, w, h)
}

/// The word shown for a game status.
pub fn status_label(s: Status) -> (r: &'static str)
    ensures
        r@ == match s {
            Status::Ready => "READY"@,
            Status::Playing => "PLAYING"@,
            Status::Won => "WON"@,
            Status::Lost => "LOST"@,
        },
{
    match s {
        Status::Ready => "READY",
        Status::Playing => "PLAYING",
        Status::Won => "WON",
        Status::Lost => "LOST",
    }
}

/// The colour role a board cell is painted with.
#[derive(Clone, Copy, PartialEq, Eq, Debug, Structural)]
pub enum Tone {
    /// A hidden cell.
    Closed,
    /// A flagged cell.
    Flag,
    /// The mine that went off.
    Exploded,
    /// Any other shown mine.
    Mine,
    /// An opened cell with no mine around.
    Open,
    /// An opened cell showing this number of mines around.
    Danger(u8),
}

/// How one board cell is drawn: its character, its colour role, whether it is
/// highlighted as a neighbour of the number under the cursor, and whether the
/// cursor is on it.
#[derive(Clone, Copy, PartialEq, Eq, Debug, Structural)]
pub struct CellView {
    pub ch: char,
    pub tone: Tone,
    pub adjacent: bool,
    pub cursor: bool,
}

/// How the cell `(x, y)` of `app`'s board is drawn.
pub open spec fn cell_look(app: App, x: usize, y: usize) -> CellView {
    let g = app.game;
    let w = g.width as int;
    let t = pos_idx(w, x as int, y as int);
    let c = pos_idx(w, app.cursor.x as int, app.cursor.y as int);
    let cursor_on_number = (match g.cells_view()[c] {
        Cell::Empty(n) => n > 0,
        Cell::Mine => false,
    }) && g.states_view()[c] == CellState::Revealed && g.status == Status::Playing;
    let adjacent = cursor_on_number && g.states_view()[t] == CellState::Hidden && touches(
        app.cursor.x as int,
        app.cursor.y as int,
        x as int,
        y as int,
    );
    let (ch, tone) = match g.states_view()[t] {
        CellState::Hidden => (' ', Tone::Closed),
        CellState::Flagged => ('F', Tone::Flag),
        CellState::Revealed => match g.cells_view()[t] {
            Cell::Mine => ('*', if g.lost_at == Some(Pos { x, y }) {
                Tone::Exploded
            } else {
                Tone::Mine
            }),
            Cell::Empty(n) => if n == 0 {
                (' ', Tone::Open)
            } else {
                (digit_char(n as int), Tone::Danger(n))
            },
        },
    };
    CellView { ch, tone, adjacent, cursor: app.cursor == Pos { x, y } }
}

/// A revealed number is drawn as the decimal digit of the mines around it, in the
/// colour of that number.
pub proof fn lemma_number_drawn(app: App, x: usize, y: usize, n: u8)
    requires
        app.wf(),
        x < app.game.width,
        y < app.game.height,
        app.game.states_view()[pos_idx(app.game.width as int, x as int, y as int)]
            == CellState::Revealed,
        app.game.cells_view()[pos_idx(app.game.width as int, x as int, y as int)] == Cell::Empty(n),
        n > 0,
    ensures
        n == adj_count(
            app.game.width as int,
            app.game.height as int,
            mines_of(app.game.cells_view()),
            pos_idx(app.game.width as int, x as int, y as int),
        ),
        cell_look(app, x, y).ch as int == 48 + n,
        cell_look(app, x, y).tone == Tone::Danger(n),
{
    let g = app.game;
    let t = pos_idx(g.width as int, x as int, y as int);
    assert(0 <= t < g.size()) by (nonlinear_arith)
        requires
            t == y * g.width + x,
            x < g.width,
            y < g.height,
            g.size() == g.width * g.height,
    ;
    lemma_numbers_small(g);
    lemma_revealed_means_laid_out(g, t);
    lemma_layout_invariant(g);
    assert(g.cells_view()[t] == Cell::Empty(n));
    assert(n <= 9);
    assert(digit_char(n as int) as int == 48 + n) by {
        reveal_with_fuel(digit_char, 1);
    }
}

/// What the other cells look like: a hidden cell is blank and closed, a flag is
/// `F`, a shown mine is `*` (exploded exactly where the game was lost), an opened
/// cell with no mine around is blank and open; the cursor mark is on the cursor's
/// cell alone.
pub proof fn lemma_cell_drawing(app: App, x: usize, y: usize)
    requires
        app.wf(),
        x < app.game.width,
        y < app.game.height,
    ensures
        ({
            let t = pos_idx(app.game.width as int, x as int, y as int);
            let v = cell_look(app, x, y);
            &&& app.game.states_view()[t] == CellState::Hidden ==> v.ch == ' ' && v.tone
                == Tone::Closed
            &&& app.game.states_view()[t] == CellState::Flagged ==> v.ch == 'F' && v.tone
                == Tone::Flag
            &&& app.game.states_view()[t] == CellState::Revealed && app.game.cells_view()[t]
                == Cell::Mine ==> v.ch == '*' && (v.tone == Tone::Exploded <==> app.game.lost_at
                == Some(Pos { x, y })) && (v.tone == Tone::Exploded || v.tone == Tone::Mine)
            &&& app.game.states_view()[t] == CellState::Revealed && app.game.cells_view()[t]
                == Cell::Empty(0) ==> v.ch == ' ' && v.tone == Tone::Open
            &&& v.cursor <==> (app.cursor.x == x && app.cursor.y == y)
            &&& v.adjacent ==> app.game.states_view()[t] == CellState::Hidden
        }),
{
}

/// The character of a number from 0 to 9.
fn digit(n: u8) -> (c: char)
    requires
        n <= 9,
    ensures
        c == digit_char(n as int),
{
    match n {
        0 => '0',
        1 => '1',
        2 => '2',
        3 => '3',
        4 => '4',
        5 => '5',
        6 => '6',
        7 => '7',
        8 => '8',
        _ => '9',
    }
}

/// Decide how the cell `(x, y)` of the board is drawn.
pub fn cell_view(app: &App, x: usize, y: usize) -> (v: CellView)
    requires
        app.wf(),
        x < app.game.width,
        y < app.game.height,
    ensures
        v == cell_look(*app, x, y),
{
    let g = &app.game;
    proof {
        lemma_numbers_small(*g);
        assert(pos_idx(g.width as int, x as int, y as int) < g.size()) by (nonlinear_arith)
            requires
                x < g.width,
                y < g.height,
        ;
        assert(pos_idx(g.width as int, app.cursor.x as int, app.cursor.y as int) < g.size())
            by (nonlinear_arith)
            requires
                app.cursor.x < g.width,
                app.cursor.y < g.height,
        ;
    }
    let is_cursor = app.cursor == Pos { x, y };
    let cursor_on_number = match g.cell(app.cursor.x, app.cursor.y) {
        Cell::Empty(n) => n > 0,
        Cell::Mine => false,
    } && g.state(app.cursor.x, app.cursor.y) == CellState::Revealed && g.status == Status::Playing;
    let adjacent = cursor_on_number && g.state(x, y) == CellState::Hidden && is_neighbor(
        app.cursor.x,
        app.cursor.y,
        x,
        y,
    );
    let (ch, tone) = match g.state(x, y) {
        CellState::Hidden => (' ', Tone::Closed),
        CellState::Flagged => ('F', Tone::Flag),
        CellState::Revealed => match g.cell(x, y) {
            Cell::Mine => {
                let exploded = match g.lost_at {
                    Some(p) => p == Pos { x, y },
                    None => false,
                };
                ('*', if exploded {
                    Tone::Exploded
                } else {
                    Tone::Mine
                })
            },
            Cell::Empty(n) => if n == 0 {
                (' ', Tone::Open)
            } else {
                (digit(n), Tone::Danger(n))
            },
        },
    };
    CellView { ch, tone, adjacent, cursor: is_cursor }
}

} // verus!
