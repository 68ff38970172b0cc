# minesweeper

Terminal Minesweeper with no-guess boards after the opening click, as a Verus
library with a thin terminal front end.

## Layout

- `src/` — the verified library.
  - `game.rs`: the board, deferred mine placement around the first click,
    flood-fill reveals, flags, chords, and the reveal/win/loss rules.
  - `solver.rs`: the no-guess test (Deductions from local rules, the mine count,
    and full enumeration of the frontier's completions).
  - `app.rs`: difficulties, screens, overlays, and the key and mouse handling of
    the application, as a state machine driven by the front end.
  - `state.rs`: score history and the saved state.
  - `ui.rs`, `text.rs`, `theme.rs`: what the screens show, decided from plain values.
  - `count.rs`, `grid.rs`: counting and neighbourhood facts the proofs share.
  - `rng.rs`: the seeded generator that proposes layouts.
- `app/` — the program: command line, terminal drawing, the game clock, and the
  state file on disk.
- `tests/` — tests of the library.

## Guarantees

- A new game's generator is the one its seed gives: two new games of one
  Difficulty from one seed are the same game, generator included.
- Each candidate layout is the one the generator's draws give: every drawn cell
  outside the opening safe zone that is not already a mine becomes one, until
  all mines are placed.
- A board accepted by the no-guess search can be finished from its opening with
  Deductions alone; a Fallback board is kept only after the whole search budget
  (tiered by Difficulty) was spent on layouts the test turned down, its first
  click never wins at once, and the player is told so once.
- The no-guess test never accepts a position that needs a guess. It accepts
  every position that can be finished without one when at most 22 cells are
  hidden, or when every position reachable by Deductions has a frontier of at
  most 22 cells; beyond that, the enumeration is skipped and a finishable
  position may be turned down.
- The first click never hits a mine, and its neighbours are mine-free when the
  board has room.
