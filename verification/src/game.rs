//! Core minesweeper game logic, independent of any UI.
//!
//! The board is stored as flat `Vec`s indexed by `y * width + x`. Mine
//! placement is deferred until the first reveal so that the first click is
//! always safe (the clicked cell and its neighbours are mine-free when the board
//! has room, which also produces the classic flood-fill opening). Layouts are
//! reject-sampled until No-guess search accepts one or the budget falls back.
use rand::rngs::StdRng;
use vstd::prelude::*;

use crate::count::{
    count_false, count_idx, count_true, false_at, lemma_count_bound, lemma_count_ext, lemma_count_true_false, lemma_count_false_mono, lemma_count_mono, lemma_count_mono_strict,
    lemma_count_none, lemma_count_true_update, lemma_count_zero, true_at,
};
use vstd::arithmetic::div_mod::lemma_fundamental_div_mod_converse;
use crate::grid::{
    flood_closed, flood_partial, is_flood, lemma_flood_step, lemma_flood_unique, lemma_nbr_idx_props,
    lemma_nbr_pts_from_props, minus, nbr_idx, nbr_pts, neighbor_points, newly_set, union,
};
use crate::rng::{random_below, seeded_rng, seeded_stream};
use crate::solver::{
    adj_count, adjacency, after_reveals, all_safe_open, deduction_path, finishable_by_deductions,
    frontiers_small, is_no_guess,
};

verus! {

/// What a cell contains once the board is laid out.
#[derive(Clone, Copy, PartialEq, Eq, Debug, Structural)]
pub enum Cell {
    /// Empty cell; the `u8` is the count of adjacent mines (0..=8).
    Empty(u8),
    Mine,
}

/// The player-visible state of a cell.
#[derive(Clone, Copy, PartialEq, Eq, Debug, Structural)]
pub enum CellState {
    Hidden,
    Revealed,
    Flagged,
}

/// Overall game progression.
#[derive(Clone, Copy, PartialEq, Eq, Debug, Structural)]
pub enum Status {
    /// Before the first reveal: mines not yet placed.
    Ready,
    Playing,
    Won,
    Lost,
}

/// A grid coordinate.
#[derive(Clone, Copy, PartialEq, Eq, Debug, Hash, Structural)]
pub struct Pos {
    pub x: usize,
    pub y: usize,
}

/// Which cells hold a mine.
pub open spec fn mines_of(cells: Seq<Cell>) -> Seq<bool> {
    cells.map_values(|c: Cell| c == Cell::Mine)
}

/// Which cells are empty with no adjacent mine.
pub open spec fn zeros_of(cells: Seq<Cell>) -> Seq<bool> {
    cells.map_values(|c: Cell| c == Cell::Empty(0))
}

/// Which cells are hidden.
pub open spec fn hidden_of(states: Seq<CellState>) -> Seq<bool> {
    states.map_values(|s: CellState| s == CellState::Hidden)
}

/// Which cells are revealed.
pub open spec fn revealed_of(states: Seq<CellState>) -> Seq<bool> {
    states.map_values(|s: CellState| s == CellState::Revealed)
}

/// Which cells are flagged.
pub open spec fn flagged_of(states: Seq<CellState>) -> Seq<bool> {
    states.map_values(|s: CellState| s == CellState::Flagged)
}

/// Every empty cell carries the number of mines around it.
pub open spec fn numbers_ok(w: int, h: int, cells: Seq<Cell>) -> bool {
    forall|c: int|
        0 <= c < w * h ==> match #[trigger] cells[c] {
            Cell::Empty(k) => k == adj_count(w, h, mines_of(cells), c),
            Cell::Mine => true,
        }
}

/// Flat index of `(x, y)`.
pub open spec fn pos_idx(w: int, x: int, y: int) -> int {
    y * w + x
}

/// Cells hidden before and revealed after.
pub open spec fn newly_revealed(before: Seq<CellState>, after: Seq<CellState>) -> Seq<bool> {
    Seq::new(
        before.len(),
        |c: int| before[c] == CellState::Hidden && after[c] == CellState::Revealed,
    )
}

/// `(y * w + x) / w == y` and `(y * w + x) % w == x`.
proof fn lemma_pos_idx(w: int, x: int, y: int)
    requires
        w > 0,
        0 <= x < w,
        y >= 0,
    ensures
        pos_idx(w, x, y) / w == y,
        pos_idx(w, x, y) % w == x,
{
    lemma_fundamental_div_mod_converse(pos_idx(w, x, y), w, y, x);
}


/// Cells a simulated opening may still reach: not yet opened and not a mine.
pub open spec fn openable(opened: Seq<bool>, cells: Seq<Cell>) -> Seq<bool> {
    Seq::new(opened.len(), |c: int| !opened[c] && cells[c] != Cell::Mine)
}

/// The opening safe zone around flat cell `t`: the cell and its neighbours.
pub open spec fn zone(w: int, h: int, t: int) -> Seq<bool> {
    Seq::new((w * h) as nat, |c: int| c == t || nbr_idx(w, h, t).contains(c))
}

/// The board has room for every mine outside the opening safe zone of `t`.
pub open spec fn zone_fits(w: int, h: int, mine_count: int, t: int) -> bool {
    count_true(zone(w, h, t)) + mine_count <= w * h
}

/// A layout generated for a first click on `t`: `mine_count` mines, none on `t`,
/// none in the whole safe zone when it fits, and every empty cell numbered.
pub open spec fn layout_ok(w: int, h: int, mine_count: int, t: int, cells: Seq<Cell>) -> bool {
    &&& cells.len() == w * h
    &&& count_true(mines_of(cells)) == mine_count
    &&& cells[t] != Cell::Mine
    &&& zone_fits(w, h, mine_count, t) ==> forall|c: int|
        0 <= c < w * h && #[trigger] zone(w, h, t)[c] ==> cells[c] != Cell::Mine
    &&& numbers_ok(w, h, cells)
}

/// The board of `n` cells with no mine and no number.
pub open spec fn blank(n: int) -> Seq<Cell> {
    Seq::new(n as nat, |c: int| Cell::Empty(0))
}

/// The cells kept free of mines for a first click on `t`: the whole opening safe
/// zone when the mines fit around it, otherwise the clicked cell alone.
pub open spec fn exclusion(w: int, h: int, mine_count: int, t: int) -> Seq<bool> {
    if zone_fits(w, h, mine_count, t) {
        zone(w, h, t)
    } else {
        Seq::new((w * h) as nat, |c: int| c == t)
    }
}

/// One draw of cell `i`: it becomes a mine unless it is excluded or already one;
/// otherwise the board is left as it is.
pub open spec fn drawn_step(cells: Seq<Cell>, excluded: Seq<bool>, i: int) -> Seq<Cell> {
    if !excluded[i] && cells[i] != Cell::Mine {
        cells.update(i, Cell::Mine)
    } else {
        cells
    }
}

/// The board after the draws `draws`, taken one after another.
pub open spec fn after_draws(cells: Seq<Cell>, excluded: Seq<bool>, draws: Seq<usize>) -> Seq<
    Cell,
>
    decreases draws.len(),
{
    if draws.len() == 0 {
        cells
    } else {
        drawn_step(after_draws(cells, excluded, draws.drop_last()), excluded, draws.last() as int)
    }
}

/// `cells` is the layout that the drawn cells `draws` give for a first click on
/// `t`: every draw is a cell of the board, drawing stops as soon as every mine is
/// placed, and (unless the draw counter ran out) the mines are exactly those the
/// draws place in turn on the empty board outside the excluded cells.
pub open spec fn drawn_layout(
    w: int,
    h: int,
    mine_count: int,
    t: int,
    draws: Seq<usize>,
    cells: Seq<Cell>,
) -> bool {
    let ex = exclusion(w, h, mine_count, t);
    &&& forall|k: int| 0 <= k < draws.len() ==> #[trigger] draws[k] < w * h
    &&& draws.len() > 0 ==> count_true(
        mines_of(after_draws(blank(w * h), ex, draws.drop_last())),
    ) < mine_count
    &&& draws.len() < u64::MAX ==> mines_of(cells) == mines_of(
        after_draws(blank(w * h), ex, draws),
    )
}

/// Place a drawn cell `i`: it becomes a mine unless it is excluded or already one.
/// Returns whether a mine was placed.
pub fn place_drawn(cells: &mut Vec<Cell>, excluded: &Vec<bool>, i: usize) -> (placed: bool)
    requires
        i < old(cells)@.len(),
        excluded@.len() == old(cells)@.len(),
    ensures
        final(cells)@ == drawn_step(old(cells)@, excluded@, i as int),
        placed == (!excluded@[i as int] && old(cells)@[i as int] != Cell::Mine),
{
    if !excluded[i] && cells[i] != Cell::Mine {
        cells.set(i, Cell::Mine);
        true
    } else {
        false
    }
}

/// Which cells hold no mine.
pub open spec fn safe_of(cells: Seq<Cell>) -> Seq<bool> {
    cells.map_values(|c: Cell| c != Cell::Mine)
}

/// `o` is what a first click on `t` opens on layout `cells` with every cell hidden.
pub open spec fn opening(w: int, h: int, cells: Seq<Cell>, t: int, o: Seq<bool>) -> bool {
    is_flood(w, h, zeros_of(cells), safe_of(cells), t, o)
}

/// From the opening of a first click on `t`, layout `cells` can be finished with
/// Deductions alone.
pub open spec fn no_guess_opening(w: int, h: int, mine_count: int, cells: Seq<Cell>, t: int) -> bool {
    exists|o: Seq<bool>|
        #[trigger] opening(w, h, cells, t, o) && finishable_by_deductions(
            w,
            h,
            mine_count,
            mines_of(cells),
            o,
        )
}

/// Which cells are revealed and hold no mine.
pub open spec fn revealed_safe(cells: Seq<Cell>, states: Seq<CellState>) -> Seq<bool> {
    Seq::new(states.len(), |c: int| states[c] == CellState::Revealed && cells[c] != Cell::Mine)
}

/// The cell states with the cells of `o` revealed.
pub open spec fn revealed_states(before: Seq<CellState>, o: Seq<bool>) -> Seq<CellState> {
    Seq::new(before.len(), |c: int| if o[c] { CellState::Revealed } else { before[c] })
}

/// Every cell without a mine is revealed.
pub open spec fn all_safe_revealed(cells: Seq<Cell>, states: Seq<CellState>) -> bool {
    forall|c: int|
        0 <= c < cells.len() && #[trigger] cells[c] != Cell::Mine ==> states[c] == CellState::Revealed
}

/// The cell states after a loss: every mine that is not flagged is shown.
pub open spec fn show_mines(cells: Seq<Cell>, states: Seq<CellState>) -> Seq<CellState> {
    Seq::new(
        states.len(),
        |c: int|
            if cells[c] == Cell::Mine && states[c] != CellState::Flagged {
                CellState::Revealed
            } else {
                states[c]
            },
    )
}

/// The cell states after a win: every mine still hidden is flagged.
pub open spec fn flag_mines(cells: Seq<Cell>, states: Seq<CellState>) -> Seq<CellState> {
    Seq::new(
        states.len(),
        |c: int|
            if cells[c] == Cell::Mine && states[c] == CellState::Hidden {
                CellState::Flagged
            } else {
                states[c]
            },
    )
}

/// A cell with no adjacent mine has no mine among its neighbours.
proof fn lemma_zero_nbrs_safe(w: int, h: int, cells: Seq<Cell>, c: int)
    requires
        w > 0,
        h > 0,
        cells.len() == w * h,
        0 <= c < w * h,
        numbers_ok(w, h, cells),
        cells[c] == Cell::Empty(0),
    ensures
        forall|k: int|
            0 <= k < nbr_idx(w, h, c).len() ==> #[trigger] cells[nbr_idx(w, h, c)[k]] != Cell::Mine,
{
    let nb = nbr_idx(w, h, c);
    let m = mines_of(cells);
    lemma_nbr_idx_props(w, h, c);
    lemma_count_zero(nb.len() as int, |k: int| m[nb[k]]);
    assert forall|k: int| 0 <= k < nb.len() implies #[trigger] cells[nb[k]] != Cell::Mine by {
        assert(!(|k: int| m[nb[k]])(k));
    }
}

/// Opening a cell without a mine opens only cells without a mine.
proof fn lemma_flood_safe(w: int, h: int, cells: Seq<Cell>, elig: Seq<bool>, t: int, o: Seq<bool>)
    requires
        w > 0,
        h > 0,
        cells.len() == w * h,
        elig.len() == w * h,
        0 <= t < w * h,
        numbers_ok(w, h, cells),
        cells[t] != Cell::Mine,
        is_flood(w, h, zeros_of(cells), elig, t, o),
    ensures
        forall|c: int| 0 <= c < w * h && #[trigger] o[c] ==> cells[c] != Cell::Mine,
{
    let n = w * h;
    let zero = zeros_of(cells);
    let s = Seq::new(n as nat, |c: int| o[c] && cells[c] != Cell::Mine);
    assert(flood_closed(w, h, zero, elig, s)) by {
        assert forall|c: int, k: int|
            0 <= c < n && 0 <= k < nbr_idx(w, h, c).len() && s[c] && zero[c] && elig[nbr_idx(
                w,
                h,
                c,
            )[k]] implies #[trigger] s[nbr_idx(w, h, c)[k]] by {
            lemma_zero_nbrs_safe(w, h, cells, c);
            lemma_nbr_idx_props(w, h, c);
            assert(o[nbr_idx(w, h, c)[k]]);
        }
    }
    assert forall|c: int| 0 <= c < n && #[trigger] o[c] implies cells[c] != Cell::Mine by {
        assert(s[c]);
    }
}

/// Opening a mine opens that cell alone.
proof fn lemma_flood_mine(w: int, h: int, cells: Seq<Cell>, elig: Seq<bool>, t: int, o: Seq<bool>)
    requires
        cells.len() == w * h,
        elig.len() == w * h,
        0 <= t < w * h,
        cells[t] == Cell::Mine,
        elig[t],
        is_flood(w, h, zeros_of(cells), elig, t, o),
    ensures
        forall|c: int| 0 <= c < w * h ==> #[trigger] o[c] == (c == t),
{
    let n = w * h;
    let s = Seq::new(n as nat, |c: int| c == t);
    assert(flood_closed(w, h, zeros_of(cells), elig, s));
    assert forall|c: int| 0 <= c < n implies #[trigger] o[c] == (c == t) by {
        if o[c] {
            assert(s[c]);
        }
    }
}

/// On a fully hidden board, a first click opens exactly what `opening` describes.
proof fn lemma_first_click_flood(
    w: int,
    h: int,
    cells: Seq<Cell>,
    states: Seq<CellState>,
    t: int,
    o1: Seq<bool>,
    o2: Seq<bool>,
)
    requires
        w > 0,
        h > 0,
        cells.len() == w * h,
        states.len() == w * h,
        0 <= t < w * h,
        numbers_ok(w, h, cells),
        cells[t] != Cell::Mine,
        forall|c: int| 0 <= c < w * h ==> #[trigger] states[c] == CellState::Hidden,
        is_flood(w, h, zeros_of(cells), hidden_of(states), t, o1),
        opening(w, h, cells, t, o2),
    ensures
        o1 =~= o2,
{
    let n = w * h;
    let zero = zeros_of(cells);
    let hid = hidden_of(states);
    let safe = safe_of(cells);
    assert(flood_closed(w, h, zero, hid, o2)) by {
        assert forall|c: int, k: int|
            0 <= c < n && 0 <= k < nbr_idx(w, h, c).len() && o2[c] && zero[c] && hid[nbr_idx(
                w,
                h,
                c,
            )[k]] implies #[trigger] o2[nbr_idx(w, h, c)[k]] by {
            lemma_zero_nbrs_safe(w, h, cells, c);
            lemma_nbr_idx_props(w, h, c);
            assert(safe[nbr_idx(w, h, c)[k]]);
        }
    }
    assert(flood_closed(w, h, zero, safe, o1)) by {
        assert forall|c: int, k: int|
            0 <= c < n && 0 <= k < nbr_idx(w, h, c).len() && o1[c] && zero[c] && safe[nbr_idx(
                w,
                h,
                c,
            )[k]] implies #[trigger] o1[nbr_idx(w, h, c)[k]] by {
            lemma_nbr_idx_props(w, h, c);
            assert(hid[nbr_idx(w, h, c)[k]]);
        }
    }
    assert(hid[t] && safe[t]);
    assert forall|c: int| 0 <= c < n implies o1[c] == o2[c] by {}
}

/// A layout with `mine_count` mines has `w * h - mine_count` cells without one.
proof fn lemma_safe_count(cells: Seq<Cell>, mine_count: int)
    requires
        count_true(mines_of(cells)) == mine_count,
    ensures
        count_true(safe_of(cells)) == cells.len() - mine_count,
{
    lemma_count_true_false(mines_of(cells));
    lemma_count_ext(cells.len() as int, true_at(safe_of(cells)), false_at(mines_of(cells)));
}

/// How a reveal at `(x, y)` (flat cell `t`) ends on layout `cells`, once the cell
/// states are `s`: on a mine the game is lost and the mines are shown; with every
/// cell without a mine revealed it is won and the mines are flagged; otherwise play
/// goes on.
pub open spec fn reveal_outcome(
    cells: Seq<Cell>,
    s: Seq<CellState>,
    x: usize,
    y: usize,
    t: int,
    lost_before: Option<Pos>,
    after: Game,
) -> bool {
    if cells[t] == Cell::Mine {
        &&& after.status == Status::Lost
        &&& after.lost_at == Some(Pos { x, y })
        &&& after.states@ == show_mines(cells, s)
    } else if all_safe_revealed(cells, s) {
        &&& after.status == Status::Won
        &&& after.lost_at == lost_before
        &&& after.states@ == flag_mines(cells, s)
    } else {
        &&& after.status == Status::Playing
        &&& after.lost_at == lost_before
        &&& after.states@ == s
    }
}

/// What `reveal_cell(x, y)` does to `before`, giving `after`. A finished game, or a cell
/// that is not hidden, is left alone. Otherwise the first reveal lays out the mines
/// for a click on `(x, y)` (from drawn cells, see `drawn_layout`, counting in
/// `layouts_tried` the layouts No-guess search proposed), the click opens its flood
/// (see `is_flood`) among the hidden cells, and `reveal_outcome` decides how the
/// game goes on.
#[verifier::opaque]
pub open spec fn reveal_step(before: Game, x: usize, y: usize, after: Game) -> bool {
    let w = before.width as int;
    let h = before.height as int;
    let mc = before.mine_count as int;
    let t = pos_idx(w, x as int, y as int);
    if before.status == Status::Won || before.status == Status::Lost || before.states@[t]
        != CellState::Hidden {
        after == before
    } else {
        &&& after.width == before.width
        &&& after.height == before.height
        &&& after.mine_count == before.mine_count
        &&& after.seed == before.seed
        &&& after.search_budget == before.search_budget
        &&& before.status == Status::Ready ==> layout_ok(w, h, mc, t, after.cells@) && (
        !after.is_fallback ==> no_guess_opening(w, h, mc, after.cells@, t)) && (exists|
            d: Seq<usize>,
        | drawn_layout(w, h, mc, t, d, after.cells@)) && 1 <= after.layouts_tried <= (
        if before.search_budget > 1 {
            before.search_budget as int
        } else {
            1
        }) && (after.is_fallback ==> after.layouts_tried == (if before.search_budget > 1 {
            before.search_budget as int
        } else {
            1
        })) && (after.is_fallback
            ==> search_rejects(w, h, mc, after.cells@, t) && budget_spent(
            w,
            h,
            mc,
            t,
            if before.search_budget > 1 {
                before.search_budget as int
            } else {
                1
            },
            after.cells@,
        ))
        &&& before.status != Status::Ready ==> after.cells == before.cells && after.rng
            == before.rng && after.is_fallback == before.is_fallback && after.layouts_tried
            == before.layouts_tried
        &&& exists|o: Seq<bool>|
            #[trigger] is_flood(w, h, zeros_of(after.cells@), hidden_of(before.states@), t, o)
                && reveal_outcome(
                after.cells@,
                revealed_states(before.states@, o),
                x,
                y,
                t,
                before.lost_at,
                after,
            )
    }
}

/// Number of flagged neighbours of flat cell `t`.
pub open spec fn flags_around(w: int, h: int, states: Seq<CellState>, t: int) -> nat {
    let nb = nbr_idx(w, h, t);
    count_idx(nb.len() as int, |k: int| states[nb[k]] == CellState::Flagged)
}

/// A chord on `(x, y)` goes ahead: the game is on, the cell is a revealed number,
/// and exactly that many of its neighbours are flagged.
pub open spec fn chord_applies(g: Game, x: usize, y: usize) -> bool {
    let w = g.width as int;
    let h = g.height as int;
    let t = pos_idx(w, x as int, y as int);
    &&& g.status == Status::Playing
    &&& g.states@[t] == CellState::Revealed
    &&& match g.cells@[t] {
        Cell::Empty(k) => k != 0 && k == flags_around(w, h, g.states@, t),
        Cell::Mine => false,
    }
}

/// `gs` runs a chord on `(x, y)` from `g`: one step per neighbour, in order, and
/// each step reveals that neighbour if it is still hidden.
pub open spec fn chord_trace(g: Game, x: usize, y: usize, gs: Seq<Game>) -> bool {
    let nb = nbr_pts(g.width as int, g.height as int, x as int, y as int);
    &&& gs.len() == nb.len() + 1
    &&& gs[0] == g
    &&& forall|k: int|
        0 <= k < nb.len() ==> {
            let p = nb[k];
            if (#[trigger] gs[k]).states@[pos_idx(g.width as int, p.0, p.1)] == CellState::Hidden {
                reveal_step(gs[k], p.0 as usize, p.1 as usize, gs[k + 1])
            } else {
                gs[k + 1] == gs[k]
            }
        }
}

/// A flag toggle: hidden and flagged swap, revealed stays.
pub open spec fn toggled(s: CellState) -> CellState {
    match s {
        CellState::Hidden => CellState::Flagged,
        CellState::Flagged => CellState::Hidden,
        CellState::Revealed => CellState::Revealed,
    }
}

/// Toggling the flag of the same cell twice gives back the board's cell states.
pub proof fn lemma_toggle_twice(states: Seq<CellState>, i: int)
    requires
        0 <= i < states.len(),
    ensures
        ({
            let once = states.update(i, toggled(states[i]));
            once.update(i, toggled(once[i]))
        }) == states,
{
    let once = states.update(i, toggled(states[i]));
    assert(once.update(i, toggled(once[i])) =~= states);
}

/// What `toggle_flag(x, y)` does to `before`, giving `after`: on a game still
/// going, a hidden cell becomes flagged and a flagged one hidden again.
pub open spec fn toggle_step(before: Game, x: usize, y: usize, after: Game) -> bool {
    &&& after.same_but_states(before)
    &&& after.revealed_count == before.revealed_count
    &&& after.states@ == if before.status == Status::Won || before.status == Status::Lost {
        before.states@
    } else {
        let i = pos_idx(before.width as int, x as int, y as int);
        before.states@.update(i, toggled(before.states@[i]))
    }
}

/// What `chord(x, y)` does to `before`, giving `after`: when the chord applies, the
/// run of reveals that `chord_trace` describes; otherwise nothing.
#[verifier::opaque]
pub open spec fn chord_step(before: Game, x: usize, y: usize, after: Game) -> bool {
    if chord_applies(before, x, y) {
        exists|gs: Seq<Game>| #[trigger] chord_trace(before, x, y, gs) && gs.last() == after
    } else {
        after == before
    }
}

/// The no-guess test turned layout `cells` down for a first click on `t`: the
/// opening does not already reveal every cell without a mine, and wherever it
/// leaves at most 22 cells hidden, or every position reachable from it by
/// Deductions has a frontier of at most 22 cells, that position cannot be finished
/// with Deductions alone.
pub open spec fn search_rejects(w: int, h: int, mine_count: int, cells: Seq<Cell>, t: int) -> bool {
    forall|o: Seq<bool>|
        #[trigger] opening(w, h, cells, t, o) && (count_false(o) <= 22 || frontiers_small(
            w,
            h,
            mine_count,
            mines_of(cells),
            o,
        ) || all_safe_open(mines_of(cells), o)) ==> !finishable_by_deductions(
            w,
            h,
            mine_count,
            mines_of(cells),
            o,
        )
}

/// Every layout of `tried` was drawn for a first click on `t`, keeps the opening
/// safe zone clear, and was turned down by the no-guess test.
pub open spec fn all_rejected(w: int, h: int, mine_count: int, t: int, tried: Seq<Seq<Cell>>) -> bool {
    forall|i: int|
        0 <= i < tried.len() ==> layout_ok(w, h, mine_count, t, #[trigger] tried[i])
            && search_rejects(w, h, mine_count, tried[i], t) && (exists|d: Seq<usize>|
            drawn_layout(w, h, mine_count, t, d, tried[i]))
}

/// No-guess search used up its budget: `budget` layouts were tried and turned down,
/// and `cells` is the last of them.
pub open spec fn budget_spent(
    w: int,
    h: int,
    mine_count: int,
    t: int,
    budget: int,
    cells: Seq<Cell>,
) -> bool {
    exists|tried: Seq<Seq<Cell>>|
        #[trigger] all_rejected(w, h, mine_count, t, tried) && tried.len() == budget
            && tried.last() == cells
}

/// One game on a board. The fields are open for reading; the methods keep them
/// consistent (see `wf`), so change them only through the methods.
pub struct Game {
    pub width: usize,
    pub height: usize,
    pub mine_count: usize,
    pub seed: u64,
    /// What each cell holds, row-major.
    pub cells: Vec<Cell>,
    /// What the player sees of each cell, row-major.
    pub states: Vec<CellState>,
    pub status: Status,
    /// Cells revealed by clicks and floods.
    pub revealed_count: usize,
    /// The cell that detonated, set when the game is lost.
    pub lost_at: Option<Pos>,
    /// The generator that proposes layouts, seeded from `seed`.
    pub rng: StdRng,
    /// Max layouts to try in No-guess search before accepting a Fallback board.
    pub search_budget: u32,
    /// True when the accepted layout may contain Forced guesses.
    pub is_fallback: bool,
    /// How many candidate layouts No-guess search proposed for this game.
    pub layouts_tried: u32,
}

impl Game {
    /// The cell contents, row-major.
    pub open spec fn cells_view(&self) -> Seq<Cell> {
        self.cells@
    }

    /// The player-visible cell states, row-major.
    pub open spec fn states_view(&self) -> Seq<CellState> {
        self.states@
    }

    /// How many layouts No-guess search may try.
    pub open spec fn budget(&self) -> u32 {
        self.search_budget
    }

    /// The generator that proposes layouts.
    pub open spec fn rng_view(&self) -> StdRng {
        self.rng
    }

    /// Number of cells on the board.
    pub open spec fn size(&self) -> int {
        self.width * self.height
    }

    /// The game's invariant.
    pub closed spec fn wf(&self) -> bool {
        let n = self.width * self.height;
        &&& self.width > 0
        &&& self.height > 0
        &&& n <= isize::MAX
        &&& self.cells@.len() == n
        &&& self.states@.len() == n
        &&& self.mine_count < n
        &&& self.search_budget >= 1
        &&& self.status != Status::Lost ==> self.revealed_count == count_true(
            revealed_of(self.states@),
        )
        &&& self.status == Status::Lost ==> self.revealed_count == count_true(
            revealed_safe(self.cells@, self.states@),
        ) + 1
        &&& (self.status == Status::Lost) == (self.lost_at is Some)
        &&& self.status == Status::Lost ==> {
            let p = self.lost_at->0;
            &&& p.x < self.width
            &&& p.y < self.height
            &&& self.cells@[pos_idx(self.width as int, p.x as int, p.y as int)] == Cell::Mine
            &&& forall|c: int|
                0 <= c < n && #[trigger] self.cells@[c] == Cell::Mine ==> self.states@[c]
                    != CellState::Hidden
        }
        &&& self.status == Status::Won ==> forall|c: int|
            0 <= c < n ==> ((#[trigger] self.states@[c] == CellState::Revealed) == (self.cells@[c]
                != Cell::Mine) && (self.states@[c] == CellState::Flagged) == (self.cells@[c]
                == Cell::Mine))
        &&& self.status == Status::Ready ==> {
            &&& forall|c: int| 0 <= c < n ==> #[trigger] self.cells@[c] == Cell::Empty(0)
            &&& forall|c: int| 0 <= c < n ==> #[trigger] self.states@[c] != CellState::Revealed
        }
        &&& self.status != Status::Ready ==> {
            &&& count_true(mines_of(self.cells@)) == self.mine_count
            &&& numbers_ok(self.width as int, self.height as int, self.cells@)
        }
        &&& self.status != Status::Lost ==> forall|c: int|
            0 <= c < n && #[trigger] self.states@[c] == CellState::Revealed ==> self.cells@[c]
                != Cell::Mine
    }

    /// Create a new, un-mined board. Mines are laid out on first reveal.
    ///
    /// `mine_count` is clamped so the board always has at least one free cell.
    pub fn new(width: usize, height: usize, mine_count: usize, seed: u64) -> (g: Self)
        requires
            width > 0,
            height > 0,
            width * height <= isize::MAX,
        ensures
            g.wf(),
            g.width == width,
            g.height == height,
            g.mine_count == if mine_count < width * height {
                mine_count as int
            } else {
                width * height - 1
            },
            g.seed == seed,
            g.status == Status::Ready,
            g.lost_at is None,
            !g.is_fallback,
            g.layouts_tried == 0,
            g.rng_view() == seeded_stream(seed),
            g.budget() == 64,
            forall|c: int| 0 <= c < width * height ==> #[trigger] g.cells_view()[c] == Cell::Empty(0),
            forall|c: int|
                0 <= c < width * height ==> #[trigger] g.states_view()[c] == CellState::Hidden,
            g.cells_view().len() == width * height,
            g.states_view().len() == width * height,
            count_true(flagged_of(g.states_view())) == 0,
    {
        let cells = width * height;
        assert(cells >= 1) by (nonlinear_arith)
            requires
                width > 0,
                height > 0,
                cells == width * height,
        ;
        let mine_count = if mine_count < cells - 1 {
            mine_count
        } else {
            cells - 1
        };
        let cell_vec = vec![Cell::Empty(0); cells];
        let state_vec = vec![CellState::Hidden; cells];
        let g = Self {
            width,
            height,
            mine_count,
            seed,
            cells: cell_vec,
            states: state_vec,
            status: Status::Ready,
            revealed_count: 0,
            lost_at: None,
            rng: seeded_rng(seed),
            // Snappy default; a budget per Difficulty is set with `with_search_budget`.
            search_budget: 64,
            is_fallback: false,
            layouts_tried: 0,
        };
        proof {
            assert(count_idx(cells as int, true_at(revealed_of(g.states@))) == 0) by {
                lemma_count_none(cells as int, true_at(revealed_of(g.states@)));
            }
            assert(count_idx(cells as int, true_at(flagged_of(g.states@))) == 0) by {
                lemma_count_none(cells as int, true_at(flagged_of(g.states@)));
            }
        }
        g
    }

    /// A well-formed game has one cell and one cell state per square of its board,
    /// and fewer mines than cells.
    pub proof fn lemma_wf_shape(&self)
        requires
            self.wf(),
        ensures
            self.width > 0,
            self.height > 0,
            self.size() <= isize::MAX,
            self.cells_view().len() == self.size(),
            self.states_view().len() == self.size(),
            self.mine_count < self.size(),
    {
    }

    /// Cap how many candidate layouts No-guess search may try.
    pub fn with_search_budget(self, search_budget: u32) -> (g: Self)
        requires
            self.wf(),
        ensures
            g.wf(),
            g.budget() == if search_budget > 1 {
                search_budget
            } else {
                1
            },
            g.width == self.width,
            g.height == self.height,
            g.mine_count == self.mine_count,
            g.seed == self.seed,
            g.status == self.status,
            g.lost_at == self.lost_at,
            g.is_fallback == self.is_fallback,
            g.layouts_tried == self.layouts_tried,
            g.cells_view() == self.cells_view(),
            g.states_view() == self.states_view(),
            g.rng_view() == self.rng_view(),
    {
        let mut g = self;
        g.search_budget = if search_budget > 1 {
            search_budget
        } else {
            1
        };
        g
    }

    /// The contents of cell `(x, y)`.
    pub fn cell(&self, x: usize, y: usize) -> (c: Cell)
        requires
            self.wf(),
            y * self.width + x < self.size(),
        ensures
            c == self.cells_view()[pos_idx(self.width as int, x as int, y as int)],
    {
        self.cells[y * self.width + x]
    }

    /// The player-visible state of cell `(x, y)`.
    pub fn state(&self, x: usize, y: usize) -> (s: CellState)
        requires
            self.wf(),
            y * self.width + x < self.size(),
        ensures
            s == self.states_view()[pos_idx(self.width as int, x as int, y as int)],
    {
        self.states[y * self.width + x]
    }

    /// All in-bounds orthogonal and diagonal neighbours of a cell.
    pub fn neighbors(&self, x: usize, y: usize) -> (out: Vec<Pos>)
        requires
            self.width > 0,
            self.height > 0,
            self.width * self.height <= isize::MAX,
            x < isize::MAX,
            y < isize::MAX,
        ensures
            out@.len() == nbr_pts(self.width as int, self.height as int, x as int, y as int).len(),
            forall|k: int|
                0 <= k < out@.len() ==> (#[trigger] out@[k]).x as int == nbr_pts(
                    self.width as int,
                    self.height as int,
                    x as int,
                    y as int,
                )[k].0 && out@[k].y as int == nbr_pts(
                    self.width as int,
                    self.height as int,
                    x as int,
                    y as int,
                )[k].1,
    {
        proof {
            assert(self.width <= isize::MAX && self.height <= isize::MAX) by (nonlinear_arith)
                requires
                    self.width > 0,
                    self.height > 0,
                    self.width * self.height <= isize::MAX,
            ;
        }
        let pts = neighbor_points(self.width, self.height, x, y);
        let mut out: Vec<Pos> = Vec::with_capacity(8);
        let mut k: usize = 0;
        while k < pts.len()
            invariant
                k <= pts@.len(),
                out@.len() == k,
                forall|j: int|
                    0 <= j < k ==> (#[trigger] out@[j]).x == pts@[j].0 && out@[j].y == pts@[j].1,
            decreases pts@.len() - k,
        {
            let (px, py) = pts[k];
            out.push(Pos { x: px, y: py });
            k = k + 1;
        }
        out
    }

    /// Toggle a flag on a hidden cell (hidden <-> flagged).
    pub fn toggle_flag(&mut self, x: usize, y: usize)
        requires
            old(self).wf(),
            y * old(self).width + x < old(self).size(),
        ensures
            final(self).wf(),
            toggle_step(*old(self), x, y, *final(self)),
    {
        if self.status == Status::Won || self.status == Status::Lost {
            return;
        }
        let i = y * self.width + x;
        let ghost old_states = self.states@;
        let next = match self.states[i] {
            CellState::Hidden => CellState::Flagged,
            CellState::Flagged => CellState::Hidden,
            CellState::Revealed => CellState::Revealed,
        };
        self.states.set(i, next);
        proof {
            assert(revealed_of(self.states@) =~= revealed_of(old_states));
        }
    }

    /// Number of flagged cells.
    pub fn flag_count(&self) -> (c: usize)
        requires
            self.wf(),
        ensures
            c == count_true(flagged_of(self.states_view())),
    {
        let ghost f = flagged_of(self.states@);
        let mut c: usize = 0;
        let mut i: usize = 0;
        while i < self.states.len()
            invariant
                i <= self.states@.len(),
                f == flagged_of(self.states@),
                c == count_idx(i as int, true_at(f)),
            decreases self.states@.len() - i,
        {
            proof {
                lemma_count_bound(i as int, true_at(f));
            }
            if self.states[i] == CellState::Flagged {
                c = c + 1;
            }
            i = i + 1;
        }
        c
    }

    /// Mines not yet flagged; negative when over-flagged.
    pub fn mines_remaining(&self) -> (r: isize)
        requires
            self.wf(),
        ensures
            r == self.mine_count - count_true(flagged_of(self.states_view())),
    {
        let f = self.flag_count();
        proof {
            lemma_count_bound(self.size(), true_at(flagged_of(self.states@)));
        }
        self.mine_count as isize - f as isize
    }

    /// Number of revealed cells.
    pub fn revealed_count(&self) -> (c: usize)
        requires
            self.wf(),
        ensures
            self.status != Status::Lost ==> c == count_true(revealed_of(self.states_view())),
            self.status == Status::Lost ==> c == count_true(
                revealed_safe(self.cells_view(), self.states_view()),
            ) + 1,
    {
        self.revealed_count
    }
    /// Everything but the cell states and the revealed counter agrees.
    pub open spec fn same_but_states(&self, other: Game) -> bool {
        &&& self.width == other.width
        &&& self.height == other.height
        &&& self.mine_count == other.mine_count
        &&& self.seed == other.seed
        &&& self.cells == other.cells
        &&& self.status == other.status
        &&& self.lost_at == other.lost_at
        &&& self.rng == other.rng
        &&& self.search_budget == other.search_budget
        &&& self.is_fallback == other.is_fallback
        &&& self.layouts_tried == other.layouts_tried
    }

    /// Recursively reveal, flood-filling through zero-adjacency cells.
    fn reveal_from(&mut self, x: usize, y: usize)
        requires
            old(self).width > 0,
            old(self).height > 0,
            old(self).width * old(self).height <= isize::MAX,
            old(self).cells@.len() == old(self).width * old(self).height,
            old(self).states@.len() == old(self).width * old(self).height,
            old(self).revealed_count == count_true(revealed_of(old(self).states@)),
            x < old(self).width,
            y < old(self).height,
        ensures
            final(self).same_but_states(*old(self)),
            final(self).states@.len() == old(self).states@.len(),
            final(self).revealed_count == count_true(revealed_of(final(self).states@)),
            forall|c: int|
                0 <= c < old(self).states@.len() ==> #[trigger] final(self).states@[c] == if newly_revealed(
                    old(self).states@,
                    final(self).states@,
                )[c] {
                    CellState::Revealed
                } else {
                    old(self).states@[c]
                },
            is_flood(
                old(self).width as int,
                old(self).height as int,
                zeros_of(old(self).cells@),
                hidden_of(old(self).states@),
                pos_idx(old(self).width as int, x as int, y as int),
                newly_revealed(old(self).states@, final(self).states@),
            ),
        decreases count_true(hidden_of(old(self).states@)),
    {
        let ghost w = self.width as int;
        let ghost h = self.height as int;
        let ghost n = w * h;
        let ghost g0 = *self;
        let ghost st0 = self.states@;
        let ghost hid = hidden_of(st0);
        let ghost zero = zeros_of(self.cells@);
        let ghost t = pos_idx(w, x as int, y as int);
        proof {
            assert(0 <= t < n) by (nonlinear_arith)
                requires
                    t == y * w + x,
                    x < w,
                    y < h,
                    n == w * h,
            ;
        }
        let i = y * self.width + x;
        if self.states[i] != CellState::Hidden {
            proof {
                assert(newly_revealed(st0, self.states@) =~= Seq::new(n as nat, |c: int| false));
            }
            return;
        }
        proof {
            lemma_count_true_update(revealed_of(st0), t);
            assert(revealed_of(st0.update(t, CellState::Revealed)) =~= revealed_of(st0).update(
                t,
                true,
            ));
            lemma_count_bound(n, true_at(revealed_of(st0.update(t, CellState::Revealed))));
        }
        self.states.set(i, CellState::Revealed);
        self.revealed_count = self.revealed_count + 1;
        proof {
            assert forall|c: int| 0 <= c < n && #[trigger] hidden_of(self.states@)[c] implies hid[c] by {}
            lemma_count_mono_strict(n, true_at(hidden_of(self.states@)), true_at(hid), t);
        }
        if self.cells[i] == Cell::Empty(0) {
            proof {
                assert(w <= n && h <= n) by (nonlinear_arith)
                    requires
                        w > 0,
                        h > 0,
                        n == w * h,
                ;
            }
            let nbrs = self.neighbors(x, y);
            proof {
                lemma_pos_idx(w, x as int, y as int);
                lemma_nbr_idx_props(w, h, t);
                lemma_nbr_pts_from_props(w, h, x as int, y as int, 0);
                assert forall|c: int, j: int|
                    0 <= c < n && c != t && 0 <= j < nbr_idx(w, h, c).len()
                        && newly_revealed(st0, self.states@)[c] && zero[c] && hid[nbr_idx(w, h, c)[j]]
                    implies #[trigger] newly_revealed(st0, self.states@)[nbr_idx(w, h, c)[j]] by {}
            }
            let mut k: usize = 0;
            while k < nbrs.len()
                invariant
                    self.same_but_states(g0),
                    w == self.width,
                    h == self.height,
                    n == w * h,
                    w > 0,
                    h > 0,
                    n <= isize::MAX,
                    0 <= t < n,
                    t == pos_idx(w, x as int, y as int),
                    st0.len() == n,
                    st0 == old(self).states@,
                    hid == hidden_of(st0),
                    hid[t],
                    zero == zeros_of(self.cells@),
                    zero[t],
                    self.cells@.len() == n,
                    self.states@.len() == n,
                    self.revealed_count == count_true(revealed_of(self.states@)),
                    count_true(hidden_of(self.states@)) < count_true(hid),
                    k <= nbrs@.len(),
                    nbrs@.len() == nbr_idx(w, h, t).len(),
                    forall|j: int|
                        0 <= j < nbrs@.len() ==> (#[trigger] nbrs@[j]).x < w && nbrs@[j].y < h
                            && pos_idx(w, nbrs@[j].x as int, nbrs@[j].y as int) == nbr_idx(w, h, t)[j],
                    forall|c: int|
                        0 <= c < n ==> #[trigger] self.states@[c] == if newly_revealed(
                            st0,
                            self.states@,
                        )[c] {
                            CellState::Revealed
                        } else {
                            st0[c]
                        },
                    newly_revealed(st0, self.states@)[t],
                    forall|c: int|
                        0 <= c < n && #[trigger] newly_revealed(st0, self.states@)[c] ==> hid[c],
                    flood_partial(w, h, zero, hid, t, k as int, newly_revealed(st0, self.states@)),
                    forall|s: Seq<bool>|
                        s.len() == n && #[trigger] flood_closed(w, h, zero, hid, s) && s[t] ==> forall|
                            c: int,
                        | 0 <= c < n && newly_revealed(st0, self.states@)[c] ==> s[c],
                decreases nbrs@.len() - k,
            {
                let p = nbrs[k];
                let ghost stk = self.states@;
                let ghost a = newly_revealed(st0, stk);
                proof {
                    assert(hidden_of(stk) =~= minus(hid, a));
                }
                self.reveal_from(p.x, p.y);
                proof {
                    let b = newly_revealed(stk, self.states@);
                    assert(newly_revealed(st0, self.states@) =~= union(a, b));
                    lemma_flood_step(w, h, zero, hid, t, k as int, a, b);
                    assert forall|c: int| 0 <= c < n && #[trigger] hidden_of(self.states@)[c]
                        implies hidden_of(stk)[c] by {}
                    lemma_count_mono(n, true_at(hidden_of(self.states@)), true_at(hidden_of(stk)));
                }
                k = k + 1;
            }
            proof {
                let o = newly_revealed(st0, self.states@);
                assert forall|c: int, j: int|
                    0 <= c < n && 0 <= j < nbr_idx(w, h, c).len() && o[c] && zero[c] && hid[nbr_idx(
                        w,
                        h,
                        c,
                    )[j]] implies #[trigger] o[nbr_idx(w, h, c)[j]] by {
                    if c == t {
                        assert(j < nbrs@.len());
                    }
                }
            }
        } else {
            proof {
                let o = newly_revealed(st0, self.states@);
                assert forall|c: int| 0 <= c < n implies #[trigger] o[c] == (c == t) by {}
            }
        }
    }
    /// Mark what a click on `(x, y)` would open on the current layout, flooding
    /// through cells with no adjacent mine; cells already marked stop the flood.
    fn simulate_opening(&self, x: usize, y: usize, revealed: &mut Vec<bool>)
        requires
            self.width > 0,
            self.height > 0,
            self.width * self.height <= isize::MAX,
            self.cells@.len() == self.width * self.height,
            old(revealed)@.len() == self.width * self.height,
            x < self.width,
            y < self.height,
        ensures
            final(revealed)@.len() == old(revealed)@.len(),
            forall|c: int|
                0 <= c < old(revealed)@.len() ==> #[trigger] final(revealed)@[c] == (old(
                    revealed,
                )@[c] || newly_set(old(revealed)@, final(revealed)@)[c]),
            is_flood(
                self.width as int,
                self.height as int,
                zeros_of(self.cells@),
                openable(old(revealed)@, self.cells@),
                pos_idx(self.width as int, x as int, y as int),
                newly_set(old(revealed)@, final(revealed)@),
            ),
        decreases count_false(old(revealed)@),
    {
        let ghost w = self.width as int;
        let ghost h = self.height as int;
        let ghost n = w * h;
        let ghost r0 = revealed@;
        let ghost el = openable(r0, self.cells@);
        let ghost zero = zeros_of(self.cells@);
        let ghost t = pos_idx(w, x as int, y as int);
        proof {
            assert(0 <= t < n) by (nonlinear_arith)
                requires
                    t == y * w + x,
                    x < w,
                    y < h,
                    n == w * h,
            ;
        }
        let i = y * self.width + x;
        if revealed[i] || self.cells[i] == Cell::Mine {
            proof {
                assert(newly_set(r0, revealed@) =~= Seq::new(n as nat, |c: int| false));
            }
            return;
        }
        revealed.set(i, true);
        proof {
            lemma_count_false_mono(r0, revealed@);
        }
        if self.cells[i] == Cell::Empty(0) {
            proof {
                assert(w <= n && h <= n) by (nonlinear_arith)
                    requires
                        w > 0,
                        h > 0,
                        n == w * h,
                ;
            }
            let nbrs = self.neighbors(x, y);
            proof {
                lemma_pos_idx(w, x as int, y as int);
                lemma_nbr_idx_props(w, h, t);
                lemma_nbr_pts_from_props(w, h, x as int, y as int, 0);
                assert forall|c: int, j: int|
                    0 <= c < n && c != t && 0 <= j < nbr_idx(w, h, c).len()
                        && newly_set(r0, revealed@)[c] && zero[c] && el[nbr_idx(w, h, c)[j]]
                    implies #[trigger] newly_set(r0, revealed@)[nbr_idx(w, h, c)[j]] by {}
            }
            let mut k: usize = 0;
            while k < nbrs.len()
                invariant
                    w == self.width,
                    h == self.height,
                    n == w * h,
                    w > 0,
                    h > 0,
                    n <= isize::MAX,
                    0 <= t < n,
                    t == pos_idx(w, x as int, y as int),
                    r0.len() == n,
                    r0 == old(revealed)@,
                    el == openable(r0, self.cells@),
                    el[t],
                    zero == zeros_of(self.cells@),
                    zero[t],
                    self.cells@.len() == n,
                    revealed@.len() == n,
                    count_false(revealed@) < count_false(r0),
                    k <= nbrs@.len(),
                    nbrs@.len() == nbr_idx(w, h, t).len(),
                    forall|j: int|
                        0 <= j < nbrs@.len() ==> (#[trigger] nbrs@[j]).x < w && nbrs@[j].y < h
                            && pos_idx(w, nbrs@[j].x as int, nbrs@[j].y as int) == nbr_idx(w, h, t)[j],
                    forall|c: int|
                        0 <= c < n ==> #[trigger] revealed@[c] == (r0[c] || newly_set(
                            r0,
                            revealed@,
                        )[c]),
                    newly_set(r0, revealed@)[t],
                    forall|c: int| 0 <= c < n && #[trigger] newly_set(r0, revealed@)[c] ==> el[c],
                    flood_partial(w, h, zero, el, t, k as int, newly_set(r0, revealed@)),
                    forall|s: Seq<bool>|
                        s.len() == n && #[trigger] flood_closed(w, h, zero, el, s) && s[t] ==> forall|
                            c: int,
                        | 0 <= c < n && newly_set(r0, revealed@)[c] ==> s[c],
                decreases nbrs@.len() - k,
            {
                let p = nbrs[k];
                let ghost rk = revealed@;
                let ghost a = newly_set(r0, rk);
                proof {
                    assert(openable(rk, self.cells@) =~= minus(el, a));
                }
                self.simulate_opening(p.x, p.y, revealed);
                proof {
                    let b = newly_set(rk, revealed@);
                    assert(newly_set(r0, revealed@) =~= union(a, b));
                    lemma_flood_step(w, h, zero, el, t, k as int, a, b);
                    lemma_count_false_mono(rk, revealed@);
                }
                k = k + 1;
            }
            proof {
                let o = newly_set(r0, revealed@);
                assert forall|c: int, j: int|
                    0 <= c < n && 0 <= j < nbr_idx(w, h, c).len() && o[c] && zero[c] && el[nbr_idx(
                        w,
                        h,
                        c,
                    )[j]] implies #[trigger] o[nbr_idx(w, h, c)[j]] by {
                    if c == t {
                        assert(j < nbrs@.len());
                    }
                }
            }
        } else {
            proof {
                let o = newly_set(r0, revealed@);
                assert forall|c: int| 0 <= c < n implies #[trigger] o[c] == (c == t) by {}
            }
        }
    }
    /// Everything but the layout and the generator agrees.
    pub open spec fn same_but_layout(&self, other: Game) -> bool {
        &&& self.width == other.width
        &&& self.height == other.height
        &&& self.mine_count == other.mine_count
        &&& self.seed == other.seed
        &&& self.states == other.states
        &&& self.status == other.status
        &&& self.revealed_count == other.revealed_count
        &&& self.lost_at == other.lost_at
        &&& self.search_budget == other.search_budget
        &&& self.is_fallback == other.is_fallback
        &&& self.layouts_tried == other.layouts_tried
    }

    /// Which cells hold a mine.
    fn mine_mask(&self) -> (m: Vec<bool>)
        ensures
            m@ == mines_of(self.cells@),
    {
        let mut m: Vec<bool> = Vec::with_capacity(self.cells.len());
        let mut i: usize = 0;
        while i < self.cells.len()
            invariant
                i <= self.cells@.len(),
                m@ == mines_of(self.cells@).subrange(0, i as int),
            decreases self.cells@.len() - i,
        {
            m.push(self.cells[i] == Cell::Mine);
            i = i + 1;
            proof {
                assert(m@ =~= mines_of(self.cells@).subrange(0, i as int));
            }
        }
        proof {
            assert(m@ =~= mines_of(self.cells@));
        }
        m
    }

    /// Place one candidate layout, excluding the opening safe zone.
    ///
    /// Cells are drawn from the generator until every mine has a free cell. The
    /// number of draws is capped at `u64::MAX`; should the cap ever be reached, the
    /// remaining mines go to the first free cells in row-major order.
    fn place_mines_once(&mut self, ex: usize, ey: usize)
        requires
            old(self).width > 0,
            old(self).height > 0,
            old(self).width * old(self).height <= isize::MAX,
            old(self).cells@.len() == old(self).width * old(self).height,
            old(self).mine_count < old(self).width * old(self).height,
            forall|c: int|
                0 <= c < old(self).cells@.len() ==> #[trigger] old(self).cells@[c] == Cell::Empty(0),
            ex < old(self).width,
            ey < old(self).height,
        ensures
            final(self).same_but_layout(*old(self)),
            layout_ok(
                old(self).width as int,
                old(self).height as int,
                old(self).mine_count as int,
                pos_idx(old(self).width as int, ex as int, ey as int),
                final(self).cells@,
            ),
            exists|draws: Seq<usize>|
                #[trigger] drawn_layout(
                    old(self).width as int,
                    old(self).height as int,
                    old(self).mine_count as int,
                    pos_idx(old(self).width as int, ex as int, ey as int),
                    draws,
                    final(self).cells@,
                ),
    {
        let ghost w = self.width as int;
        let ghost h = self.height as int;
        let ghost mc = self.mine_count as int;
        let ghost g0 = *self;
        let total = self.width * self.height;
        proof {
            assert(0 <= ey * w + ex < total && w <= total && h <= total) by (nonlinear_arith)
                requires
                    ex < w,
                    ey < h,
                    total == w * h,
                    w > 0,
                    h > 0,
            ;
        }
        let t = ey * self.width + ex;
        let ghost z = zone(w, h, t as int);
        let mut excluded = vec![false; total];
        excluded.set(t, true);
        let nbrs = self.neighbors(ex, ey);
        proof {
            lemma_pos_idx(w, ex as int, ey as int);
            lemma_nbr_idx_props(w, h, t as int);
            lemma_nbr_pts_from_props(w, h, ex as int, ey as int, 0);
            assert forall|j: int| 0 <= j < nbrs@.len() implies (#[trigger] nbrs@[j]).x < w
                && nbrs@[j].y < h && pos_idx(w, nbrs@[j].x as int, nbrs@[j].y as int) == nbr_idx(
                w,
                h,
                t as int,
            )[j] by {}
        }
        let mut k: usize = 0;
        while k < nbrs.len()
            invariant
                w == self.width,
                h == self.height,
                w > 0,
                h > 0,
                total == w * h,
                total <= isize::MAX,
                0 <= t < total,
                z == zone(w, h, t as int),
                k <= nbrs@.len(),
                nbrs@.len() == nbr_idx(w, h, t as int).len(),
                forall|j: int|
                    0 <= j < nbrs@.len() ==> (#[trigger] nbrs@[j]).x < w && nbrs@[j].y < h
                        && pos_idx(w, nbrs@[j].x as int, nbrs@[j].y as int) == nbr_idx(
                        w,
                        h,
                        t as int,
                    )[j],
                excluded@.len() == total,
                forall|c: int|
                    0 <= c < total ==> #[trigger] excluded@[c] == (c == t || exists|j: int|
                        0 <= j < k && nbr_idx(w, h, t as int)[j] == c),
            decreases nbrs@.len() - k,
        {
            let p = nbrs[k];
            proof {
                assert(p.y * w + p.x < total) by (nonlinear_arith)
                    requires
                        p.x < w,
                        p.y < h,
                        total == w * h,
                ;
            }
            let ghost q = nbr_idx(w, h, t as int)[k as int];
            excluded.set(p.y * self.width + p.x, true);
            proof {
                assert forall|c: int| 0 <= c < total implies #[trigger] excluded@[c] == (c == t
                    || exists|j: int| 0 <= j < k + 1 && nbr_idx(w, h, t as int)[j] == c) by {
                    if c == q {
                        assert(nbr_idx(w, h, t as int)[k as int] == c);
                    }
                    if exists|j: int| 0 <= j < k + 1 && nbr_idx(w, h, t as int)[j] == c {
                        let j = choose|j: int| 0 <= j < k + 1 && nbr_idx(w, h, t as int)[j] == c;
                        if j < k {
                        } else {
                            assert(c == q);
                        }
                    }
                }
            }
            k = k + 1;
        }
        proof {
            assert(excluded@ =~= z) by {
                assert forall|c: int| 0 <= c < total implies #[trigger] excluded@[c] == z[c] by {
                    if nbr_idx(w, h, t as int).contains(c) {
                        let j = choose|j: int|
                            0 <= j < nbr_idx(w, h, t as int).len() && nbr_idx(w, h, t as int)[j] == c;
                        assert(exists|j: int| 0 <= j < k && nbr_idx(w, h, t as int)[j] == c);
                    }
                }
            }
        }
        let mut safe: usize = 0;
        let mut i: usize = 0;
        while i < total
            invariant
                i <= total,
                excluded@.len() == total,
                safe == count_idx(i as int, true_at(excluded@)),
            decreases total - i,
        {
            proof {
                lemma_count_bound(i as int, true_at(excluded@));
            }
            if excluded[i] {
                safe = safe + 1;
            }
            i = i + 1;
        }
        proof {
            lemma_count_bound(total as int, true_at(excluded@));
        }
        if total - safe < self.mine_count {
            // Not enough room for the full 3x3 safe zone; only protect the click.
            let ghost before = excluded@;
            excluded = vec![false; total];
            proof {
                lemma_count_none(total as int, true_at(excluded@));
                lemma_count_true_update(excluded@, t as int);
                assert(excluded@.update(t as int, true).len() == total);
            }
            excluded.set(t, true);
        }
        proof {
            lemma_count_true_false(excluded@);
            assert(count_false(excluded@) >= mc);
            lemma_count_none(total as int, true_at(mines_of(self.cells@)));
            if zone_fits(w, h, mc, t as int) {
                assert(excluded@ =~= exclusion(w, h, mc, t as int));
            } else {
                assert(excluded@ =~= exclusion(w, h, mc, t as int));
            }
            assert(self.cells@ =~= blank(total as int));
        }
        let ghost excl = excluded@;
        let ghost b0 = self.cells@;
        let ghost mut ds: Seq<usize> = Seq::empty();
        let mut placed: usize = 0;
        let mut draws: u64 = 0;
        while placed < self.mine_count && draws < u64::MAX
            invariant
                excl == excluded@,
                excl == exclusion(w, h, mc, t as int),
                b0 == blank(total as int),
                self.cells@ == after_draws(b0, excl, ds),
                ds.len() == draws,
                forall|k: int| 0 <= k < ds.len() ==> #[trigger] ds[k] < total,
                ds.len() > 0 ==> count_true(mines_of(after_draws(b0, excl, ds.drop_last()))) < mc,
                self.same_but_layout(g0),
                w == self.width,
                h == self.height,
                mc == self.mine_count,
                total == w * h,
                total <= isize::MAX,
                0 <= t < total,
                excluded@.len() == total,
                excluded@[t as int],
                count_false(excluded@) >= mc,
                self.cells@.len() == total,
                placed <= mc,
                placed == count_true(mines_of(self.cells@)),
                forall|c: int|
                    0 <= c < total ==> #[trigger] self.cells@[c] == Cell::Mine || self.cells@[c]
                        == Cell::Empty(0),
                forall|c: int| 0 <= c < total && #[trigger] self.cells@[c] == Cell::Mine ==> !excluded@[c],
            decreases u64::MAX - draws,
        {
            let i = random_below(&mut self.rng, total);
            draws = draws + 1;
            let ghost before = self.cells@;
            let ghost prev = ds;
            proof {
                if !excluded@[i as int] && before[i as int] != Cell::Mine {
                    lemma_count_true_update(mines_of(before), i as int);
                    assert(mines_of(before.update(i as int, Cell::Mine)) =~= mines_of(
                        before,
                    ).update(i as int, true));
                }
            }
            if place_drawn(&mut self.cells, &excluded, i) {
                placed = placed + 1;
            }
            proof {
                ds = ds.push(i);
                assert(ds.drop_last() =~= prev);
                assert(ds.last() == i);
            }
        }
        let mut j: usize = 0;
        while placed < self.mine_count && j < total
            invariant
                ds.len() == draws,
                draws < u64::MAX ==> placed == mc,
                draws < u64::MAX ==> self.cells@ == after_draws(b0, excl, ds),
                self.same_but_layout(g0),
                w == self.width,
                h == self.height,
                mc == self.mine_count,
                total == w * h,
                total <= isize::MAX,
                0 <= t < total,
                j <= total,
                excluded@.len() == total,
                excluded@[t as int],
                count_false(excluded@) >= mc,
                self.cells@.len() == total,
                placed <= mc,
                placed == count_true(mines_of(self.cells@)),
                forall|c: int|
                    0 <= c < total ==> #[trigger] self.cells@[c] == Cell::Mine || self.cells@[c]
                        == Cell::Empty(0),
                forall|c: int| 0 <= c < total && #[trigger] self.cells@[c] == Cell::Mine ==> !excluded@[c],
                forall|c: int| 0 <= c < j && !excluded@[c] ==> #[trigger] self.cells@[c] == Cell::Mine,
            decreases total - j,
        {
            if !excluded[j] && self.cells[j] != Cell::Mine {
                proof {
                    lemma_count_true_update(mines_of(self.cells@), j as int);
                    assert(mines_of(self.cells@.update(j as int, Cell::Mine)) =~= mines_of(
                        self.cells@,
                    ).update(j as int, true));
                }
                self.cells.set(j, Cell::Mine);
                placed = placed + 1;
            }
            j = j + 1;
        }
        proof {
            if placed < mc {
                assert forall|c: int| 0 <= c < total implies #[trigger] true_at(mines_of(self.cells@))(c)
                    == false_at(excluded@)(c) by {
                    if !excluded@[c] {
                        assert(self.cells@[c] == Cell::Mine);
                    }
                }
                lemma_count_ext(total as int, true_at(mines_of(self.cells@)), false_at(excluded@));
                assert(false);
            }
        }
        // Compute adjacency counts for the non-mine cells.
        let is_mine = self.mine_mask();
        let ghost m0 = is_mine@;
        assert(draws < u64::MAX ==> m0 == mines_of(after_draws(b0, excl, ds)));
        let mut i: usize = 0;
        while i < total
            invariant
                self.same_but_layout(g0),
                w == self.width,
                h == self.height,
                mc == self.mine_count,
                total == w * h,
                total <= isize::MAX,
                w > 0,
                h > 0,
                0 <= t < total,
                i <= total,
                excluded@.len() == total,
                count_false(excluded@) >= mc,
                self.cells@.len() == total,
                is_mine@ == m0,
                mines_of(self.cells@) == m0,
                count_true(m0) == mc,
                forall|c: int| 0 <= c < total && #[trigger] self.cells@[c] == Cell::Mine ==> !excluded@[c],
                forall|c: int|
                    i <= c < total ==> #[trigger] self.cells@[c] == Cell::Mine || self.cells@[c]
                        == Cell::Empty(0),
                forall|c: int|
                    0 <= c < i ==> match #[trigger] self.cells@[c] {
                        Cell::Empty(k) => k == adj_count(w, h, m0, c),
                        Cell::Mine => true,
                    },
            decreases total - i,
        {
            if self.cells[i] != Cell::Mine {
                let count = adjacency(self.width, self.height, is_mine.as_slice(), i);
                let ghost before = self.cells@;
                self.cells.set(i, Cell::Empty(count));
                proof {
                    assert(mines_of(self.cells@) =~= mines_of(before));
                }
            }
            i = i + 1;
        }
        proof {
            assert(z == zone(w, h, t as int));
            lemma_pos_idx(w, ex as int, ey as int);
            assert(drawn_layout(w, h, mc, t as int, ds, self.cells@));
        }
    }
    /// Forget the current candidate layout.
    fn clear_cells(&mut self)
        ensures
            final(self).same_but_layout(*old(self)),
            final(self).rng == old(self).rng,
            final(self).cells@.len() == old(self).cells@.len(),
            forall|c: int|
                0 <= c < final(self).cells@.len() ==> #[trigger] final(self).cells@[c] == Cell::Empty(0),
    {
        let ghost g0 = *self;
        let mut i: usize = 0;
        while i < self.cells.len()
            invariant
                self.same_but_layout(g0),
                self.rng == g0.rng,
                self.cells@.len() == g0.cells@.len(),
                i <= self.cells@.len(),
                forall|c: int| 0 <= c < i ==> #[trigger] self.cells@[c] == Cell::Empty(0),
            decreases self.cells@.len() - i,
        {
            self.cells.set(i, Cell::Empty(0));
            i = i + 1;
        }
    }

    /// Whether the current layout can be finished with Deductions alone from what a
    /// first click on `(ox, oy)` opens.
    fn layout_is_no_guess_after_opening(&self, ox: usize, oy: usize) -> (r: bool)
        requires
            self.width > 0,
            self.height > 0,
            self.width * self.height <= isize::MAX,
            ox < self.width,
            oy < self.height,
            self.cells@.len() == self.width * self.height,
            count_true(mines_of(self.cells@)) == self.mine_count,
        ensures
            r ==> no_guess_opening(
                self.width as int,
                self.height as int,
                self.mine_count as int,
                self.cells@,
                pos_idx(self.width as int, ox as int, oy as int),
            ),
            !r ==> search_rejects(
                self.width as int,
                self.height as int,
                self.mine_count as int,
                self.cells@,
                pos_idx(self.width as int, ox as int, oy as int),
            ),
    {
        let ghost w = self.width as int;
        let ghost h = self.height as int;
        let ghost n = w * h;
        let ghost t = pos_idx(w, ox as int, oy as int);
        let is_mine = self.mine_mask();
        let mut revealed = vec![false; self.width * self.height];
        let ghost r0 = revealed@;
        self.simulate_opening(ox, oy, &mut revealed);
        proof {
            assert(openable(r0, self.cells@) =~= safe_of(self.cells@));
            assert(revealed@ =~= newly_set(r0, revealed@));
            assert forall|i: int| 0 <= i < n && #[trigger] revealed@[i] implies !is_mine@[i] by {
                assert(newly_set(r0, revealed@)[i]);
                assert(safe_of(self.cells@)[i]);
            }
        }
        let r = is_no_guess(
            self.width,
            self.height,
            self.mine_count,
            is_mine.as_slice(),
            revealed.as_slice(),
        );
        proof {
            assert(opening(w, h, self.cells@, t, revealed@));
            if !r {
                assert forall|o: Seq<bool>|
                    #[trigger] opening(w, h, self.cells@, t, o) && (count_false(o) <= 22
                        || frontiers_small(w, h, self.mine_count as int, mines_of(self.cells@), o)
                        || all_safe_open(mines_of(self.cells@), o))
                        implies !finishable_by_deductions(
                    w,
                    h,
                    self.mine_count as int,
                    mines_of(self.cells@),
                    o,
                ) by {
                    lemma_flood_unique(
                        w,
                        h,
                        zeros_of(self.cells@),
                        safe_of(self.cells@),
                        t,
                        o,
                        revealed@,
                    );
                    assert(o == revealed@);
                }
            }
        }
        r
    }

    /// Lay out mines via No-guess search (reject sampling from the Seed stream).
    fn place_mines(&mut self, ex: usize, ey: usize)
        requires
            old(self).width > 0,
            old(self).height > 0,
            old(self).width * old(self).height <= isize::MAX,
            old(self).cells@.len() == old(self).width * old(self).height,
            old(self).mine_count < old(self).width * old(self).height,
            ex < old(self).width,
            ey < old(self).height,
        ensures
            final(self).width == old(self).width,
            final(self).height == old(self).height,
            final(self).mine_count == old(self).mine_count,
            final(self).seed == old(self).seed,
            final(self).states == old(self).states,
            final(self).status == old(self).status,
            final(self).revealed_count == old(self).revealed_count,
            final(self).lost_at == old(self).lost_at,
            final(self).search_budget == old(self).search_budget,
            layout_ok(
                old(self).width as int,
                old(self).height as int,
                old(self).mine_count as int,
                pos_idx(old(self).width as int, ex as int, ey as int),
                final(self).cells@,
            ),
            !final(self).is_fallback ==> no_guess_opening(
                old(self).width as int,
                old(self).height as int,
                old(self).mine_count as int,
                final(self).cells@,
                pos_idx(old(self).width as int, ex as int, ey as int),
            ),
            final(self).is_fallback ==> search_rejects(
                old(self).width as int,
                old(self).height as int,
                old(self).mine_count as int,
                final(self).cells@,
                pos_idx(old(self).width as int, ex as int, ey as int),
            ),
            exists|d: Seq<usize>|
                drawn_layout(
                    old(self).width as int,
                    old(self).height as int,
                    old(self).mine_count as int,
                    pos_idx(old(self).width as int, ex as int, ey as int),
                    d,
                    final(self).cells@,
                ),
            1 <= final(self).layouts_tried <= if old(self).search_budget > 1 {
                old(self).search_budget as int
            } else {
                1
            },
            final(self).is_fallback ==> final(self).layouts_tried == if old(self).search_budget > 1 {
                old(self).search_budget as int
            } else {
                1
            },
            final(self).is_fallback ==> budget_spent(
                old(self).width as int,
                old(self).height as int,
                old(self).mine_count as int,
                pos_idx(old(self).width as int, ex as int, ey as int),
                if old(self).search_budget > 1 {
                    old(self).search_budget as int
                } else {
                    1
                },
                final(self).cells@,
            ),
    {
        let ghost w = self.width as int;
        let ghost h = self.height as int;
        let ghost g0 = *self;
        let ghost t = pos_idx(w, ex as int, ey as int);
        let budget = if self.search_budget > 1 {
            self.search_budget
        } else {
            1
        };
        self.clear_cells();
        self.place_mines_once(ex, ey);
        self.layouts_tried = 1;
        if self.layout_is_no_guess_after_opening(ex, ey) {
            self.is_fallback = false;
            return;
        }
        let mut tries: u32 = 1;
        let ghost mut tried: Seq<Seq<Cell>> = seq![self.cells@];
        while tries < budget
            invariant
                tried.len() == tries,
                tries <= budget,
                budget == if g0.search_budget > 1 {
                    g0.search_budget
                } else {
                    1
                },
                all_rejected(w, h, self.mine_count as int, t, tried),
                tried.last() == self.cells@,
                self.layouts_tried == tries,
                g0 == *old(self),
                self.width == g0.width,
                self.height == g0.height,
                self.mine_count == g0.mine_count,
                self.seed == g0.seed,
                self.states == g0.states,
                self.status == g0.status,
                self.revealed_count == g0.revealed_count,
                self.lost_at == g0.lost_at,
                self.search_budget == g0.search_budget,
                w == self.width,
                h == self.height,
                w > 0,
                h > 0,
                w * h <= isize::MAX,
                self.mine_count < w * h,
                ex < w,
                ey < h,
                t == pos_idx(w, ex as int, ey as int),
                layout_ok(w, h, self.mine_count as int, t, self.cells@),
                search_rejects(w, h, self.mine_count as int, self.cells@, t),
            decreases budget - tries,
        {
            self.clear_cells();
            self.place_mines_once(ex, ey);
            self.layouts_tried = tries + 1;
            if self.layout_is_no_guess_after_opening(ex, ey) {
                self.is_fallback = false;
                return;
            }
            proof {
                tried = tried.push(self.cells@);
            }
            tries = tries + 1;
        }
        self.is_fallback = true;
        proof {
            assert(all_rejected(w, h, self.mine_count as int, t, tried));
        }
    }
    /// On loss, reveal every unflagged mine so the player sees the board.
    fn reveal_all_mines(&mut self)
        requires
            old(self).states@.len() == old(self).cells@.len(),
        ensures
            final(self).same_but_states(*old(self)),
            final(self).revealed_count == old(self).revealed_count,
            final(self).states@ == show_mines(old(self).cells@, old(self).states@),
    {
        let ghost g0 = *self;
        let mut i: usize = 0;
        while i < self.cells.len()
            invariant
                self.same_but_states(g0),
                self.revealed_count == g0.revealed_count,
                self.states@.len() == g0.states@.len(),
                self.cells@.len() == g0.states@.len(),
                i <= self.cells@.len(),
                forall|c: int|
                    0 <= c < self.states@.len() ==> #[trigger] self.states@[c] == if c < i {
                        show_mines(g0.cells@, g0.states@)[c]
                    } else {
                        g0.states@[c]
                    },
            decreases self.cells@.len() - i,
        {
            if self.cells[i] == Cell::Mine && self.states[i] != CellState::Flagged {
                self.states.set(i, CellState::Revealed);
            }
            i = i + 1;
        }
        proof {
            assert(self.states@ =~= show_mines(g0.cells@, g0.states@));
        }
    }
    /// On a win, flag every mine still hidden for the classic "solved" look.
    fn flag_remaining_mines(&mut self)
        requires
            old(self).states@.len() == old(self).cells@.len(),
        ensures
            final(self).same_but_states(*old(self)),
            final(self).revealed_count == old(self).revealed_count,
            final(self).states@ == flag_mines(old(self).cells@, old(self).states@),
    {
        let ghost g0 = *self;
        let mut j: usize = 0;
        while j < self.cells.len()
            invariant
                self.same_but_states(g0),
                self.revealed_count == g0.revealed_count,
                self.states@.len() == g0.states@.len(),
                self.cells@.len() == g0.states@.len(),
                j <= self.cells@.len(),
                forall|c: int|
                    0 <= c < self.states@.len() ==> #[trigger] self.states@[c] == if c < j {
                        flag_mines(g0.cells@, g0.states@)[c]
                    } else {
                        g0.states@[c]
                    },
            decreases self.cells@.len() - j,
        {
            if self.cells[j] == Cell::Mine && self.states[j] == CellState::Hidden {
                self.states.set(j, CellState::Flagged);
            }
            j = j + 1;
        }
        proof {
            assert(self.states@ =~= flag_mines(g0.cells@, g0.states@));
        }
    }

    /// Reveal a cell. First reveal lays out mines; revealing a mine loses;
    /// revealing every non-mine cell wins.
    pub fn reveal_cell(&mut self, x: usize, y: usize)
        requires
            old(self).wf(),
            x < old(self).width,
            y < old(self).height,
        ensures
            final(self).wf(),
            reveal_step(*old(self), x, y, *final(self)),
            final(self).width == old(self).width,
            final(self).height == old(self).height,
            final(self).mine_count == old(self).mine_count,
            final(self).seed == old(self).seed,
    {
        proof {
            reveal(reveal_step);
        }
        let ghost w = self.width as int;
        let ghost h = self.height as int;
        let ghost n = w * h;
        let ghost mc = self.mine_count as int;
        let ghost t = pos_idx(w, x as int, y as int);
        proof {
            assert(0 <= t < n && w <= n && h <= n) by (nonlinear_arith)
                requires
                    t == y * w + x,
                    x < w,
                    y < h,
                    n == w * h,
                    w > 0,
                    h > 0,
            ;
        }
        if self.status == Status::Won || self.status == Status::Lost {
            return;
        }
        let i = y * self.width + x;
        if self.states[i] != CellState::Hidden {
            return;
        }
        let ghost g0 = *self;
        if self.status == Status::Ready {
            self.place_mines(x, y);
            self.status = Status::Playing;
        }
        let ghost g1 = *self;
        proof {
            assert(count_true(mines_of(g1.cells@)) == mc && numbers_ok(w, h, g1.cells@));
            assert forall|c: int| 0 <= c < n && #[trigger] revealed_of(g0.states@)[c] implies g1.cells@[c]
                != Cell::Mine by {
                assert(g0.states@[c] == CellState::Revealed);
            }
        }
        self.reveal_from(x, y);
        let ghost s1 = self.states@;
        let ghost o = newly_revealed(g1.states@, s1);
        let ghost cells = self.cells@;
        proof {
            assert(s1 =~= revealed_states(g0.states@, o));
            assert(hidden_of(g1.states@)[t]);
        }
        if self.cells[i] == Cell::Mine {
            proof {
                lemma_flood_mine(w, h, cells, hidden_of(g0.states@), t, o);
                let rs = revealed_safe(cells, s1);
                assert(revealed_of(s1) =~= rs.update(t, true));
                lemma_count_true_update(rs, t);
            }
            self.status = Status::Lost;
            self.lost_at = Some(Pos { x, y });
            self.reveal_all_mines();
            proof {
                assert(revealed_safe(cells, self.states@) =~= revealed_safe(cells, s1));
                assert(is_flood(w, h, zeros_of(cells), hidden_of(g0.states@), t, o));
                lemma_pos_idx(w, x as int, y as int);
            }
            return;
        }
        proof {
            lemma_flood_safe(w, h, cells, hidden_of(g0.states@), t, o);
            lemma_safe_count(cells, mc);
            assert forall|c: int| 0 <= c < n && #[trigger] true_at(revealed_of(s1))(c) implies true_at(
                safe_of(cells),
            )(c) by {
                if !o[c] {
                    assert(revealed_of(g0.states@)[c]);
                }
            }
            if all_safe_revealed(cells, s1) {
                lemma_count_ext(n, true_at(revealed_of(s1)), true_at(safe_of(cells)));
            } else {
                let c = choose|c: int|
                    0 <= c < cells.len() && #[trigger] cells[c] != Cell::Mine && s1[c]
                        != CellState::Revealed;
                lemma_count_mono_strict(n, true_at(revealed_of(s1)), true_at(safe_of(cells)), c);
            }
            assert(is_flood(w, h, zeros_of(cells), hidden_of(g0.states@), t, o));
        }
        if self.revealed_count == self.width * self.height - self.mine_count {
            self.status = Status::Won;
            self.flag_remaining_mines();
            proof {
                assert(revealed_of(self.states@) =~= revealed_of(s1));
            }
        }
    }
    /// Chord: when a revealed number has exactly that many adjacent flags,
    /// reveal every remaining hidden neighbour.
    pub fn chord(&mut self, x: usize, y: usize)
        requires
            old(self).wf(),
            x < old(self).width,
            y < old(self).height,
        ensures
            final(self).wf(),
            chord_step(*old(self), x, y, *final(self)),
            final(self).width == old(self).width,
            final(self).height == old(self).height,
            final(self).mine_count == old(self).mine_count,
            final(self).seed == old(self).seed,
    {
        proof {
            reveal(chord_step);
        }
        let ghost w = self.width as int;
        let ghost h = self.height as int;
        let ghost n = w * h;
        let ghost t = pos_idx(w, x as int, y as int);
        let ghost g0 = *self;
        proof {
            assert(0 <= t < n && w <= n && h <= n) by (nonlinear_arith)
                requires
                    t == y * w + x,
                    x < w,
                    y < h,
                    n == w * h,
                    w > 0,
                    h > 0,
            ;
        }
        if self.status != Status::Playing {
            return;
        }
        let i = y * self.width + x;
        if self.states[i] != CellState::Revealed {
            return;
        }
        let num = match self.cells[i] {
            Cell::Empty(k) => k,
            Cell::Mine => {
                return;
            },
        };
        if num == 0 {
            return;
        }
        let nbrs = self.neighbors(x, y);
        let ghost nb = nbr_idx(w, h, t);
        let ghost pts = nbr_pts(w, h, x as int, y as int);
        proof {
            lemma_pos_idx(w, x as int, y as int);
            lemma_nbr_idx_props(w, h, t);
            lemma_nbr_pts_from_props(w, h, x as int, y as int, 0);
        }
        let mut flags: usize = 0;
        let mut k: usize = 0;
        while k < nbrs.len()
            invariant
                *self == g0,
                w == self.width,
                h == self.height,
                n == w * h,
                n <= isize::MAX,
                w > 0,
                h > 0,
                self.states@.len() == n,
                k <= nbrs@.len(),
                nbrs@.len() == nb.len(),
                nb == nbr_idx(w, h, t),
                nb.len() <= 9,
                forall|j: int|
                    0 <= j < nbrs@.len() ==> (#[trigger] nbrs@[j]).x < w && nbrs@[j].y < h
                        && pos_idx(w, nbrs@[j].x as int, nbrs@[j].y as int) == nb[j],
                flags == count_idx(k as int, |j: int| self.states@[nb[j]] == CellState::Flagged),
            decreases nbrs@.len() - k,
        {
            let p = nbrs[k];
            proof {
                lemma_count_bound(k as int, |j: int| self.states@[nb[j]] == CellState::Flagged);
                assert(p.y * w + p.x < n) by (nonlinear_arith)
                    requires
                        p.x < w,
                        p.y < h,
                        n == w * h,
                ;
            }
            if self.states[p.y * self.width + p.x] == CellState::Flagged {
                flags = flags + 1;
            }
            k = k + 1;
        }
        if flags != num as usize {
            return;
        }
        let ghost mut gs: Seq<Game> = seq![*self];
        let mut k: usize = 0;
        while k < nbrs.len()
            invariant
                self.wf(),
                w == self.width,
                h == self.height,
                n == w * h,
                g0.width == self.width,
                g0.height == self.height,
                g0.mine_count == self.mine_count,
                g0.seed == self.seed,
                k <= nbrs@.len(),
                nbrs@.len() == pts.len(),
                pts == nbr_pts(w, h, x as int, y as int),
                forall|j: int|
                    0 <= j < nbrs@.len() ==> (#[trigger] nbrs@[j]).x as int == pts[j].0 && nbrs@[j].y
                        as int == pts[j].1 && nbrs@[j].x < w && nbrs@[j].y < h,
                gs.len() == k + 1,
                gs[0] == g0,
                gs[k as int] == *self,
                forall|j: int|
                    0 <= j < k ==> {
                        let p = pts[j];
                        if (#[trigger] gs[j]).states@[pos_idx(w, p.0, p.1)] == CellState::Hidden {
                            reveal_step(gs[j], p.0 as usize, p.1 as usize, gs[j + 1])
                        } else {
                            gs[j + 1] == gs[j]
                        }
                    },
            decreases nbrs@.len() - k,
        {
            let p = nbrs[k];
            proof {
                assert(p.y * w + p.x < n) by (nonlinear_arith)
                    requires
                        p.x < w,
                        p.y < h,
                        n == w * h,
                ;
            }
            if self.states[p.y * self.width + p.x] == CellState::Hidden {
                self.reveal_cell(p.x, p.y);
            }
            proof {
                gs = gs.push(*self);
            }
            k = k + 1;
        }
        proof {
            assert(chord_trace(g0, x, y, gs));
        }
    }
    /// Whether the current revealed position can be finished with only Deductions.
    pub fn is_no_guess_from_here(&self) -> (r: bool)
        requires
            self.wf(),
            self.status == Status::Playing || self.status == Status::Won,
        ensures
            r ==> finishable_by_deductions(
                self.width as int,
                self.height as int,
                self.mine_count as int,
                mines_of(self.cells_view()),
                revealed_of(self.states_view()),
            ),
            count_false(revealed_of(self.states_view())) <= 22 && finishable_by_deductions(
                self.width as int,
                self.height as int,
                self.mine_count as int,
                mines_of(self.cells_view()),
                revealed_of(self.states_view()),
            ) ==> r,
            frontiers_small(
                self.width as int,
                self.height as int,
                self.mine_count as int,
                mines_of(self.cells_view()),
                revealed_of(self.states_view()),
            ) && finishable_by_deductions(
                self.width as int,
                self.height as int,
                self.mine_count as int,
                mines_of(self.cells_view()),
                revealed_of(self.states_view()),
            ) ==> r,
            all_safe_open(mines_of(self.cells_view()), revealed_of(self.states_view())) ==> r,
    {
        let is_mine = self.mine_mask();
        let mut revealed: Vec<bool> = Vec::with_capacity(self.states.len());
        let mut i: usize = 0;
        while i < self.states.len()
            invariant
                i <= self.states@.len(),
                revealed@ == revealed_of(self.states@).subrange(0, i as int),
            decreases self.states@.len() - i,
        {
            revealed.push(self.states[i] == CellState::Revealed);
            i = i + 1;
            proof {
                assert(revealed@ =~= revealed_of(self.states@).subrange(0, i as int));
            }
        }
        proof {
            assert(revealed@ =~= revealed_of(self.states@));
        }
        is_no_guess(self.width, self.height, self.mine_count, is_mine.as_slice(), revealed.as_slice())
    }
}

/// Every number on the board is a single digit.
pub proof fn lemma_numbers_small(g: Game)
    requires
        g.wf(),
    ensures
        forall|c: int|
            0 <= c < g.size() ==> match #[trigger] g.cells_view()[c] {
                Cell::Empty(k) => k <= 9,
                Cell::Mine => true,
            },
{
    let w = g.width as int;
    let h = g.height as int;
    assert forall|c: int| 0 <= c < g.size() implies match #[trigger] g.cells_view()[c] {
        Cell::Empty(k) => k <= 9,
        Cell::Mine => true,
    } by {
        if g.status != Status::Ready {
            let nb = nbr_idx(w, h, c);
            lemma_nbr_idx_props(w, h, c);
            lemma_count_bound(nb.len() as int, |k: int| mines_of(g.cells@)[nb[k]]);
        }
    }
}

/// A board with a revealed cell has its mines laid out: it has left the Ready state.
pub proof fn lemma_revealed_means_laid_out(g: Game, c: int)
    requires
        g.wf(),
        0 <= c < g.size(),
        g.states_view()[c] == CellState::Revealed,
    ensures
        g.status != Status::Ready,
{
}

/// A chord on a revealed number whose count of flagged neighbours differs from
/// the number (too few flags or too many) changes nothing.
pub proof fn lemma_chord_needs_exact_flags(before: Game, x: usize, y: usize, after: Game, n: u8)
    requires
        before.states_view()[pos_idx(before.width as int, x as int, y as int)] == CellState::Revealed,
        before.cells_view()[pos_idx(before.width as int, x as int, y as int)] == Cell::Empty(n),
        count_idx(
            nbr_idx(before.width as int, before.height as int, pos_idx(before.width as int, x as int, y as int)).len() as int,
            |k: int| before.states_view()[nbr_idx(
                before.width as int,
                before.height as int,
                pos_idx(before.width as int, x as int, y as int),
            )[k]] == CellState::Flagged,
        ) != n,
        chord_step(before, x, y, after),
    ensures
        after == before,
{
    reveal(chord_step);
}

/// A chord changes nothing unless the game is being played and the cell is a
/// revealed number other than 0.
pub proof fn lemma_chord_only_on_revealed_numbers(before: Game, x: usize, y: usize, after: Game)
    requires
        chord_step(before, x, y, after),
        before.status != Status::Playing || before.states_view()[pos_idx(
            before.width as int,
            x as int,
            y as int,
        )] != CellState::Revealed || before.cells_view()[pos_idx(
            before.width as int,
            x as int,
            y as int,
        )] == Cell::Mine || before.cells_view()[pos_idx(before.width as int, x as int, y as int)]
            == Cell::Empty(0),
    ensures
        after == before,
{
    reveal(chord_step);
}

/// One reveal never hides a cell again, keeps a lost game lost, leaves no hidden
/// cell when it wins the game, and on a game still going either opens the clicked
/// hidden cell or loses the game.
proof fn lemma_reveal_step_progress(a: Game, px: usize, py: usize, b: Game)
    requires
        reveal_step(a, px, py, b),
        a.cells@.len() == a.states@.len(),
        a.states@.len() == a.width * a.height,
        0 <= pos_idx(a.width as int, px as int, py as int) < a.states@.len(),
    ensures
        b.width == a.width,
        b.height == a.height,
        b.states@.len() == a.states@.len(),
        b.cells@.len() == a.cells@.len(),
        forall|c: int|
            0 <= c < a.states@.len() && #[trigger] a.states@[c] != CellState::Hidden
                ==> b.states@[c] != CellState::Hidden,
        a.status == Status::Lost ==> b.status == Status::Lost,
        a.status == Status::Won ==> b == a,
        b.status == Status::Won && a.status != Status::Won ==> forall|c: int|
            0 <= c < b.states@.len() ==> #[trigger] b.states@[c] != CellState::Hidden,
        a.status != Status::Won && a.status != Status::Lost && a.states@[pos_idx(
            a.width as int,
            px as int,
            py as int,
        )] == CellState::Hidden ==> b.status == Status::Lost || b.states@[pos_idx(
            a.width as int,
            px as int,
            py as int,
        )] != CellState::Hidden,
        b.status != Status::Ready || b == a,
{
    reveal(reveal_step);
    let w = a.width as int;
    let h = a.height as int;
    let t = pos_idx(w, px as int, py as int);
    if !(a.status == Status::Won || a.status == Status::Lost || a.states@[t] != CellState::Hidden) {
        let o = choose|o: Seq<bool>|
            #[trigger] is_flood(w, h, zeros_of(b.cells@), hidden_of(a.states@), t, o)
                && reveal_outcome(
                b.cells@,
                revealed_states(a.states@, o),
                px,
                py,
                t,
                a.lost_at,
                b,
            );
        let s = revealed_states(a.states@, o);
        assert(hidden_of(a.states@)[t]);
        assert(o[t]);
        assert(s[t] == CellState::Revealed);
        if a.status == Status::Ready {
            assert(b.cells@.len() == w * h);
        }
        assert(b.cells@.len() == a.cells@.len());
        if b.status == Status::Won {
            assert forall|c: int| 0 <= c < b.states@.len() implies #[trigger] b.states@[c]
                != CellState::Hidden by {
                if b.cells@[c] != Cell::Mine {
                    assert(s[c] == CellState::Revealed);
                }
            }
        }
    }
}

/// The first `k` steps of a chord trace: sizes are kept, the game has left the
/// Ready state, a won game has no hidden cell, and every neighbour among the first
/// `k` that was hidden is no longer hidden unless the game is lost.
proof fn lemma_chord_trace_upto(before: Game, x: usize, y: usize, gs: Seq<Game>, k: int)
    requires
        before.status == Status::Playing,
        before.states@.len() == before.width * before.height,
        before.cells@.len() == before.width * before.height,
        chord_trace(before, x, y, gs),
        0 <= k <= nbr_pts(before.width as int, before.height as int, x as int, y as int).len(),
        forall|j: int|
            0 <= j < nbr_pts(before.width as int, before.height as int, x as int, y as int).len()
                ==> 0 <= #[trigger] pos_idx(
                before.width as int,
                nbr_pts(before.width as int, before.height as int, x as int, y as int)[j].0,
                nbr_pts(before.width as int, before.height as int, x as int, y as int)[j].1,
            ) < before.width * before.height,
    ensures
        ({
            let w = before.width as int;
            let n = before.width * before.height;
            let nb = nbr_pts(before.width as int, before.height as int, x as int, y as int);
            &&& gs[k].width == before.width
            &&& gs[k].height == before.height
            &&& gs[k].states@.len() == n
            &&& gs[k].cells@.len() == n
            &&& gs[k].status != Status::Ready
            &&& gs[k].status == Status::Won ==> forall|c: int|
                0 <= c < n ==> #[trigger] gs[k].states@[c] != CellState::Hidden
            &&& forall|j: int|
                0 <= j < k && before.states@[pos_idx(w, nb[j].0, nb[j].1)] == CellState::Hidden
                    ==> gs[k].status == Status::Lost || #[trigger] gs[k].states@[pos_idx(
                    w,
                    nb[j].0,
                    nb[j].1,
                )] != CellState::Hidden
        }),
    decreases k,
{
    let w = before.width as int;
    let n = before.width * before.height;
    let nb = nbr_pts(before.width as int, before.height as int, x as int, y as int);
    if k > 0 {
        lemma_chord_trace_upto(before, x, y, gs, k - 1);
        lemma_nbr_pts_from_props(before.width as int, before.height as int, x as int, y as int, 0);
        let i = k - 1;
        let a = gs[i];
        let b = gs[k];
        let q = pos_idx(w, nb[i].0, nb[i].1);
        assert(0 <= q < n);
        if a.states@[q] == CellState::Hidden {
            assert(reveal_step(a, nb[i].0 as usize, nb[i].1 as usize, b));
            lemma_reveal_step_progress(a, nb[i].0 as usize, nb[i].1 as usize, b);
            assert(a.status != Status::Won);
        } else {
            assert(b == a);
        }
        assert forall|j: int|
            0 <= j < k && before.states@[pos_idx(w, nb[j].0, nb[j].1)] == CellState::Hidden
                implies b.status == Status::Lost || #[trigger] b.states@[pos_idx(
                w,
                nb[j].0,
                nb[j].1,
            )] != CellState::Hidden by {
            let qj = pos_idx(w, nb[j].0, nb[j].1);
            assert(0 <= qj < n);
            if j < i {
                if a.status != Status::Lost {
                    assert(a.states@[qj] != CellState::Hidden);
                }
            }
        }
    }
}

/// A chord that goes ahead opens every hidden neighbour of the number, unless one
/// of them was a mine and the game is lost: when the game is not lost afterwards,
/// none of the neighbours that were hidden is still hidden.
pub proof fn lemma_chord_opens_hidden_neighbours(before: Game, x: usize, y: usize, after: Game)
    requires
        before.wf(),
        x < before.width,
        y < before.height,
        chord_applies(before, x, y),
        chord_step(before, x, y, after),
        after.status != Status::Lost,
    ensures
        forall|k: int|
            0 <= k < nbr_pts(before.width as int, before.height as int, x as int, y as int).len()
                && before.states_view()[pos_idx(
                before.width as int,
                nbr_pts(before.width as int, before.height as int, x as int, y as int)[k].0,
                nbr_pts(before.width as int, before.height as int, x as int, y as int)[k].1,
            )] == CellState::Hidden ==> #[trigger] after.states_view()[pos_idx(
                before.width as int,
                nbr_pts(before.width as int, before.height as int, x as int, y as int)[k].0,
                nbr_pts(before.width as int, before.height as int, x as int, y as int)[k].1,
            )] != CellState::Hidden,
{
    reveal(chord_step);
    let w = before.width as int;
    let h = before.height as int;
    let n = w * h;
    let nb = nbr_pts(w, h, x as int, y as int);
    let gs = choose|gs: Seq<Game>| #[trigger] chord_trace(before, x, y, gs) && gs.last() == after;
    lemma_nbr_pts_from_props(w, h, x as int, y as int, 0);
    assert forall|k: int| 0 <= k < nb.len() implies 0 <= #[trigger] pos_idx(w, nb[k].0, nb[k].1) < n by {
        let p = nb[k];
        assert(0 <= p.1 * w + p.0 < n) by (nonlinear_arith)
            requires
                0 <= p.0 < w,
                0 <= p.1 < h,
                n == w * h,
        ;
    }
    lemma_chord_trace_upto(before, x, y, gs, nb.len() as int);
    assert(gs[nb.len() as int] == after);
}

/// A board that has left the Ready state holds exactly `mine_count` mines, and
/// every empty cell shows the number of mines around it.
pub proof fn lemma_layout_invariant(g: Game)
    requires
        g.wf(),
        g.status != Status::Ready,
    ensures
        count_true(mines_of(g.cells_view())) == g.mine_count,
        numbers_ok(g.width as int, g.height as int, g.cells_view()),
{
}

/// While a game is not lost, no revealed cell holds a mine.
pub proof fn lemma_revealed_are_safe(g: Game)
    requires
        g.wf(),
        g.status != Status::Lost,
    ensures
        forall|c: int|
            0 <= c < g.size() && #[trigger] g.states_view()[c] == CellState::Revealed
                ==> g.cells_view()[c] != Cell::Mine,
{
}

/// A won game has every cell without a mine revealed and every mine flagged, so
/// no mine remains unflagged.
pub proof fn lemma_won_board(g: Game)
    requires
        g.wf(),
        g.status == Status::Won,
    ensures
        all_safe_revealed(g.cells_view(), g.states_view()),
        flagged_of(g.states_view()) == mines_of(g.cells_view()),
        count_true(flagged_of(g.states_view())) == g.mine_count,
{
    assert(flagged_of(g.states@) =~= mines_of(g.cells@));
}

/// A lost game records the cell that detonated, which holds a mine, and shows or
/// flags every mine.
pub proof fn lemma_lost_board(g: Game)
    requires
        g.wf(),
        g.status == Status::Lost,
    ensures
        g.lost_at is Some,
        g.lost_at->0.x < g.width,
        g.lost_at->0.y < g.height,
        g.cells_view()[pos_idx(g.width as int, g.lost_at->0.x as int, g.lost_at->0.y as int)]
            == Cell::Mine,
        forall|c: int|
            0 <= c < g.size() && #[trigger] g.cells_view()[c] == Cell::Mine ==> g.states_view()[c]
                != CellState::Hidden,
{
}

/// The first reveal is always safe: it lays out a board with no mine under the
/// click, so the game is not lost and the clicked cell is revealed.
pub proof fn lemma_first_click_safe(before: Game, x: usize, y: usize, after: Game)
    requires
        before.wf(),
        before.status == Status::Ready,
        x < before.width,
        y < before.height,
        before.states_view()[pos_idx(before.width as int, x as int, y as int)] == CellState::Hidden,
        reveal_step(before, x, y, after),
    ensures
        after.status != Status::Lost,
        after.status != Status::Ready,
        after.cells_view()[pos_idx(before.width as int, x as int, y as int)] != Cell::Mine,
        after.states_view()[pos_idx(before.width as int, x as int, y as int)]
            == CellState::Revealed,
{
    reveal(reveal_step);
    let w = before.width as int;
    let h = before.height as int;
    let t = pos_idx(w, x as int, y as int);
    assert(0 <= t < w * h) by (nonlinear_arith)
        requires
            t == y * w + x,
            x < w,
            y < h,
    ;
    let o = choose|o: Seq<bool>|
        #[trigger] is_flood(w, h, zeros_of(after.cells@), hidden_of(before.states@), t, o)
            && reveal_outcome(
            after.cells@,
            revealed_states(before.states@, o),
            x,
            y,
            t,
            before.lost_at,
            after,
        );
    assert(hidden_of(before.states@)[t]);
    assert(o[t]);
}

/// No-guess generation: on a fully hidden board whose first reveal found a no-guess
/// layout (not a Fallback board), the position after that reveal can be finished
/// with Deductions alone.
pub proof fn lemma_first_click_no_guess(before: Game, x: usize, y: usize, after: Game)
    requires
        before.wf(),
        before.status == Status::Ready,
        x < before.width,
        y < before.height,
        forall|c: int| 0 <= c < before.size() ==> #[trigger] before.states_view()[c] == CellState::Hidden,
        reveal_step(before, x, y, after),
        !after.is_fallback,
    ensures
        finishable_by_deductions(
            before.width as int,
            before.height as int,
            before.mine_count as int,
            mines_of(after.cells_view()),
            revealed_of(after.states_view()),
        ),
{
    reveal(reveal_step);
    let w = before.width as int;
    let h = before.height as int;
    let n = w * h;
    let mc = before.mine_count as int;
    let t = pos_idx(w, x as int, y as int);
    assert(0 <= t < n) by (nonlinear_arith)
        requires
            t == y * w + x,
            x < w,
            y < h,
            n == w * h,
    ;
    assert(before.states_view()[t] == CellState::Hidden);
    assert(before.states@[t] == CellState::Hidden);
    let cells = after.cells@;
    let o1 = choose|o: Seq<bool>|
        #[trigger] is_flood(w, h, zeros_of(cells), hidden_of(before.states@), t, o)
            && reveal_outcome(
            cells,
            revealed_states(before.states@, o),
            x,
            y,
            t,
            before.lost_at,
            after,
        );
    let o2 = choose|o: Seq<bool>|
        #[trigger] opening(w, h, cells, t, o) && finishable_by_deductions(
            w,
            h,
            mc,
            mines_of(cells),
            o,
        );
    lemma_first_click_flood(w, h, cells, before.states@, t, o1, o2);
    let s = revealed_states(before.states@, o1);
    assert(revealed_of(after.states@) =~= o2) by {
        if all_safe_revealed(cells, s) {
            assert(after.states@ == flag_mines(cells, s));
        }
    }
}

/// A Fallback board is one the no-guess test turned down: on a fully hidden board
/// whose first reveal kept a Fallback layout, if at most 22 cells stay hidden after
/// the opening, or every position reachable from it by Deductions has a frontier of
/// at most 22 cells, that position cannot be finished with Deductions alone.
pub proof fn lemma_first_click_fallback(before: Game, x: usize, y: usize, after: Game)
    requires
        before.wf(),
        before.status == Status::Ready,
        x < before.width,
        y < before.height,
        forall|c: int| 0 <= c < before.size() ==> #[trigger] before.states_view()[c] == CellState::Hidden,
        reveal_step(before, x, y, after),
        after.is_fallback,
        count_false(revealed_of(after.states_view())) <= 22 || frontiers_small(
            before.width as int,
            before.height as int,
            before.mine_count as int,
            mines_of(after.cells_view()),
            revealed_of(after.states_view()),
        ) || all_safe_open(mines_of(after.cells_view()), revealed_of(after.states_view())),
    ensures
        !finishable_by_deductions(
            before.width as int,
            before.height as int,
            before.mine_count as int,
            mines_of(after.cells_view()),
            revealed_of(after.states_view()),
        ),
{
    reveal(reveal_step);
    let w = before.width as int;
    let h = before.height as int;
    let n = w * h;
    let mc = before.mine_count as int;
    let t = pos_idx(w, x as int, y as int);
    assert(0 <= t < n) by (nonlinear_arith)
        requires
            t == y * w + x,
            x < w,
            y < h,
            n == w * h,
    ;
    assert(before.states_view()[t] == CellState::Hidden);
    assert(before.states@[t] == CellState::Hidden);
    let cells = after.cells@;
    let o1 = choose|o: Seq<bool>|
        #[trigger] is_flood(w, h, zeros_of(cells), hidden_of(before.states@), t, o)
            && reveal_outcome(
            cells,
            revealed_states(before.states@, o),
            x,
            y,
            t,
            before.lost_at,
            after,
        );
    let s = revealed_states(before.states@, o1);
    assert(revealed_of(after.states@) =~= o1) by {
        if all_safe_revealed(cells, s) {
            assert(after.states@ == flag_mines(cells, s));
        }
    }
    assert(opening(w, h, cells, t, o1)) by {
        assert(is_flood(w, h, zeros_of(cells), safe_of(cells), t, o1)) by {
            lemma_flood_safe(w, h, cells, hidden_of(before.states@), t, o1);
            assert(flood_closed(w, h, zeros_of(cells), safe_of(cells), o1)) by {
                assert forall|c: int, k: int|
                    0 <= c < n && 0 <= k < nbr_idx(w, h, c).len() && o1[c] && zeros_of(cells)[c]
                        && safe_of(cells)[nbr_idx(w, h, c)[k]] implies #[trigger] o1[nbr_idx(
                    w,
                    h,
                    c,
                )[k]] by {
                    lemma_nbr_idx_props(w, h, c);
                    assert(hidden_of(before.states@)[nbr_idx(w, h, c)[k]]);
                }
            }
            assert forall|s2: Seq<bool>|
                s2.len() == n && #[trigger] flood_closed(w, h, zeros_of(cells), safe_of(cells), s2)
                    && (safe_of(cells)[t] ==> s2[t]) implies forall|c: int|
                0 <= c < n && o1[c] ==> s2[c] by {
                // s2 restricted to safe cells is closed for hidden cells too
                let s3 = Seq::new(n as nat, |c: int| s2[c] && safe_of(cells)[c]);
                assert(flood_closed(w, h, zeros_of(cells), hidden_of(before.states@), s3)) by {
                    assert forall|c: int, k: int|
                        0 <= c < n && 0 <= k < nbr_idx(w, h, c).len() && s3[c] && zeros_of(cells)[c]
                            && hidden_of(before.states@)[nbr_idx(w, h, c)[k]] implies #[trigger] s3[nbr_idx(
                        w,
                        h,
                        c,
                    )[k]] by {
                        lemma_zero_nbrs_safe(w, h, cells, c);
                        lemma_nbr_idx_props(w, h, c);
                    }
                }
                assert(hidden_of(before.states@)[t] ==> s3[t]);
            }
        }
    }
    assert(search_rejects(w, h, mc, cells, t));
}

/// A Fallback layout never leaves the game won by its generating first click: the
/// opening of a turned-down layout always leaves a cell without a mine hidden, so
/// play goes on (and the player is told that the board may need guesses).
pub proof fn lemma_fallback_first_click_plays(before: Game, x: usize, y: usize, after: Game)
    requires
        before.wf(),
        after.wf(),
        before.status == Status::Ready,
        x < before.width,
        y < before.height,
        forall|c: int| 0 <= c < before.size() ==> #[trigger] before.states_view()[c] == CellState::Hidden,
        reveal_step(before, x, y, after),
        after.is_fallback,
    ensures
        after.status == Status::Playing,
{
    reveal(reveal_step);
    let w = before.width as int;
    let h = before.height as int;
    let n = w * h;
    let mc = before.mine_count as int;
    let t = pos_idx(w, x as int, y as int);
    assert(0 <= t < n) by (nonlinear_arith)
        requires
            t == y * w + x,
            x < w,
            y < h,
            n == w * h,
    ;
    assert(before.states_view()[t] == CellState::Hidden);
    let cells = after.cells@;
    let o = revealed_of(after.states@);
    if after.status == Status::Won {
        assert(all_safe_open(mines_of(cells), o)) by {
            assert forall|i: int| 0 <= i < mines_of(cells).len() && !mines_of(cells)[i] implies #[trigger] o[i] by {
                assert(after.states@[i] == CellState::Revealed);
            }
        }
        lemma_first_click_fallback(before, x, y, after);
        let p = Seq::<int>::empty();
        assert(deduction_path(w, h, mc, mines_of(cells), o, p));
        assert(after_reveals(o, p) =~= mines_of(cells).map_values(|b: bool| !b));
        assert(false);
    }
    if after.status == Status::Lost {
        let o1 = choose|o: Seq<bool>|
            #[trigger] is_flood(w, h, zeros_of(cells), hidden_of(before.states@), t, o)
                && reveal_outcome(
                cells,
                revealed_states(before.states@, o),
                x,
                y,
                t,
                before.lost_at,
                after,
            );
        assert(cells[t] != Cell::Mine);
    }
}

} // verus!
