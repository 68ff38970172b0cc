//! Full-information no-guess acceptance for mine layouts (generation only).
use vstd::prelude::*;

use crate::count::{
    along, and_not_p, and_p, count_false, count_idx, count_true, enumerate, false_at,
    lemma_count_bound, lemma_count_ext, lemma_count_false_mono, lemma_count_mono,
    lemma_count_mono_eq, lemma_count_mono_strict, lemma_count_none, lemma_count_prefix_bounds,
    lemma_count_split, lemma_count_true_false, lemma_count_zero, lemma_enumerate,
    lemma_enumerate_count, lemma_pick, lemma_pick_avoiding, true_at,
};
use crate::grid::{
    flood_closed, flood_partial, is_flood, lemma_flood_step, lemma_nbr_idx_props,
    lemma_nbr_pts_from_props, minus, nbr_idx, nbr_pts, neighbor_points, newly_set, union,
};

verus! {

/// Number of mines that layout `m` puts around flat cell `i`.
pub open spec fn adj_count(w: int, h: int, m: Seq<bool>, i: int) -> nat {
    let nb = nbr_idx(w, h, i);
    count_idx(nb.len() as int, |k: int| m[nb[k]])
}

/// `m` is a complete layout with `mine_count` mines that has no mine on a revealed
/// cell and shows there the same number as the real layout `is_mine`.
pub open spec fn consistent(
    w: int,
    h: int,
    mine_count: int,
    is_mine: Seq<bool>,
    revealed: Seq<bool>,
    m: Seq<bool>,
) -> bool {
    &&& m.len() == w * h
    &&& count_true(m) == mine_count
    &&& forall|i: int|
        0 <= i < w * h && #[trigger] revealed[i] ==> !m[i] && adj_count(w, h, m, i) == adj_count(
            w,
            h,
            is_mine,
            i,
        )
}

/// Deduction: cell `c` is safe in every completion consistent with what is revealed.
pub open spec fn deduced_safe(
    w: int,
    h: int,
    mine_count: int,
    is_mine: Seq<bool>,
    revealed: Seq<bool>,
    c: int,
) -> bool {
    forall|m: Seq<bool>| #[trigger] consistent(w, h, mine_count, is_mine, revealed, m) ==> !m[c]
}

/// Deduction: cell `c` is a mine in every completion consistent with what is revealed.
pub open spec fn deduced_mine(
    w: int,
    h: int,
    mine_count: int,
    is_mine: Seq<bool>,
    revealed: Seq<bool>,
    c: int,
) -> bool {
    forall|m: Seq<bool>| #[trigger] consistent(w, h, mine_count, is_mine, revealed, m) ==> m[c]
}

/// The revealed cells after opening the cells of `path` in order.
pub open spec fn after_reveals(start: Seq<bool>, path: Seq<int>) -> Seq<bool>
    decreases path.len(),
{
    if path.len() == 0 {
        start
    } else {
        after_reveals(start, path.drop_last()).update(path.last(), true)
    }
}

/// Every cell of `path` is, when it is opened, a Deduction (safe in every
/// consistent completion of what is revealed at that moment).
pub open spec fn deduction_path(
    w: int,
    h: int,
    mine_count: int,
    is_mine: Seq<bool>,
    start: Seq<bool>,
    path: Seq<int>,
) -> bool
    decreases path.len(),
{
    if path.len() == 0 {
        true
    } else {
        &&& deduction_path(w, h, mine_count, is_mine, start, path.drop_last())
        &&& 0 <= path.last() < w * h
        &&& deduced_safe(
            w,
            h,
            mine_count,
            is_mine,
            after_reveals(start, path.drop_last()),
            path.last(),
        )
    }
}

/// No-guess position: from `revealed`, a sequence of Deductions opens exactly the
/// cells without a mine — the board can be finished without a Forced guess.
pub open spec fn finishable_by_deductions(
    w: int,
    h: int,
    mine_count: int,
    is_mine: Seq<bool>,
    revealed: Seq<bool>,
) -> bool {
    exists|path: Seq<int>|
        #[trigger] deduction_path(w, h, mine_count, is_mine, revealed, path) && after_reveals(
            revealed,
            path,
        ) =~= is_mine.map_values(|b: bool| !b)
}

/// A position reachable from `start` by sound steps: the cells opened after `start`
/// are a chain of Deductions, and every flag is a mine Deduced at that point.
pub open spec fn deduced_position(
    w: int,
    h: int,
    mine_count: int,
    is_mine: Seq<bool>,
    start: Seq<bool>,
    path: Seq<int>,
    flagged: Seq<bool>,
) -> bool {
    &&& flagged.len() == w * h
    &&& deduction_path(w, h, mine_count, is_mine, start, path)
    &&& forall|f: int|
        0 <= f < w * h && #[trigger] flagged[f] ==> is_mine[f] && deduced_mine(
            w,
            h,
            mine_count,
            is_mine,
            after_reveals(start, path),
            f,
        )
}

/// Every position reachable from `start` by sound steps has a frontier (undecided
/// cells next to a revealed cell) of at most 22 cells, so the completions of each
/// can be enumerated.
pub open spec fn frontiers_small(
    w: int,
    h: int,
    mine_count: int,
    is_mine: Seq<bool>,
    start: Seq<bool>,
) -> bool {
    forall|path: Seq<int>, flagged: Seq<bool>|
        #[trigger] deduced_position(w, h, mine_count, is_mine, start, path, flagged)
            ==> frontier_size(w, h, after_reveals(start, path), flagged) <= 22
}

/// Every cell without a mine is revealed.
pub open spec fn all_safe_open(is_mine: Seq<bool>, revealed: Seq<bool>) -> bool {
    forall|i: int| 0 <= i < is_mine.len() && !is_mine[i] ==> #[trigger] revealed[i]
}

/// Opening the cells of a path of Deductions keeps what was revealed.
proof fn lemma_after_reveals_grows(
    w: int,
    h: int,
    mine_count: int,
    is_mine: Seq<bool>,
    start: Seq<bool>,
    path: Seq<int>,
)
    requires
        start.len() == w * h,
        deduction_path(w, h, mine_count, is_mine, start, path),
    ensures
        after_reveals(start, path).len() == w * h,
        subset(w * h, start, after_reveals(start, path)),
    decreases path.len(),
{
    if path.len() > 0 {
        lemma_after_reveals_grows(w, h, mine_count, is_mine, start, path.drop_last());
    }
}

/// While some cell that a path of Deductions opens is still unrevealed in `rev`
/// (which holds the start), some unrevealed cell of `rev` is a Deduced safe cell.
proof fn lemma_path_reaches(
    w: int,
    h: int,
    mine_count: int,
    is_mine: Seq<bool>,
    start: Seq<bool>,
    path: Seq<int>,
    rev: Seq<bool>,
)
    requires
        start.len() == w * h,
        rev.len() == w * h,
        subset(w * h, start, rev),
        deduction_path(w, h, mine_count, is_mine, start, path),
        exists|x: int| 0 <= x < w * h && after_reveals(start, path)[x] && !rev[x],
    ensures
        exists|c: int|
            0 <= c < w * h && !rev[c] && #[trigger] deduced_safe(w, h, mine_count, is_mine, rev, c),
    decreases path.len(),
{
    if path.len() == 0 {
        let x = choose|x: int| 0 <= x < w * h && after_reveals(start, path)[x] && !rev[x];
        assert(start[x]);
    } else {
        let prev = path.drop_last();
        let before = after_reveals(start, prev);
        lemma_after_reveals_grows(w, h, mine_count, is_mine, start, prev);
        if exists|x: int| 0 <= x < w * h && before[x] && !rev[x] {
            lemma_path_reaches(w, h, mine_count, is_mine, start, prev, rev);
        } else {
            let c = path.last();
            let x = choose|x: int| 0 <= x < w * h && after_reveals(start, path)[x] && !rev[x];
            assert(x == c);
            assert(subset(w * h, before, rev));
            lemma_deduced_mono(w, h, mine_count, is_mine, before, rev);
            assert(deduced_safe(w, h, mine_count, is_mine, rev, c));
        }
    }
}

/// Shape and counting facts every board handed to the solver has.
pub open spec fn board_ok(w: int, h: int, mine_count: int, is_mine: Seq<bool>) -> bool {
    &&& w > 0
    &&& h > 0
    &&& w * h <= isize::MAX
    &&& is_mine.len() == w * h
    &&& count_true(is_mine) == mine_count
}

/// The layout `is_mine` covers a non-empty `w` by `h` board.
pub open spec fn grid_ok(w: int, h: int, is_mine: Seq<bool>) -> bool {
    &&& w > 0
    &&& h > 0
    &&& w * h <= isize::MAX
    &&& is_mine.len() == w * h
}

/// `a` only has cells that `b` has.
pub open spec fn subset(n: int, a: Seq<bool>, b: Seq<bool>) -> bool {
    forall|i: int| 0 <= i < n && #[trigger] a[i] ==> b[i]
}

/// The real layout is consistent with any revealed set that holds no mine.
pub proof fn lemma_truth_consistent(
    w: int,
    h: int,
    mine_count: int,
    is_mine: Seq<bool>,
    revealed: Seq<bool>,
)
    requires
        board_ok(w, h, mine_count, is_mine),
        forall|i: int| 0 <= i < w * h && #[trigger] revealed[i] ==> !is_mine[i],
    ensures
        consistent(w, h, mine_count, is_mine, revealed, is_mine),
{
}

/// Revealing more cells leaves fewer consistent completions.
pub proof fn lemma_consistent_weaken(
    w: int,
    h: int,
    mine_count: int,
    is_mine: Seq<bool>,
    small: Seq<bool>,
    big: Seq<bool>,
    m: Seq<bool>,
)
    requires
        subset(w * h, small, big),
        consistent(w, h, mine_count, is_mine, big, m),
    ensures
        consistent(w, h, mine_count, is_mine, small, m),
{
    assert forall|i: int| 0 <= i < w * h && #[trigger] small[i] implies !m[i] && adj_count(
        w,
        h,
        m,
        i,
    ) == adj_count(w, h, is_mine, i) by {
        assert(big[i]);
    }
}

/// Deductions stay valid when more cells are revealed.
pub proof fn lemma_deduced_mono(
    w: int,
    h: int,
    mine_count: int,
    is_mine: Seq<bool>,
    small: Seq<bool>,
    big: Seq<bool>,
)
    requires
        subset(w * h, small, big),
    ensures
        forall|c: int|
            #[trigger] deduced_safe(w, h, mine_count, is_mine, small, c) ==> deduced_safe(
                w,
                h,
                mine_count,
                is_mine,
                big,
                c,
            ),
        forall|c: int|
            #[trigger] deduced_mine(w, h, mine_count, is_mine, small, c) ==> deduced_mine(
                w,
                h,
                mine_count,
                is_mine,
                big,
                c,
            ),
{
    assert forall|m: Seq<bool>| #[trigger]
        consistent(w, h, mine_count, is_mine, big, m) implies consistent(
        w,
        h,
        mine_count,
        is_mine,
        small,
        m,
    ) by {
        lemma_consistent_weaken(w, h, mine_count, is_mine, small, big, m);
    }
}

/// All in-bounds orthogonal and diagonal neighbours of flat cell `i`.
fn neighbors(width: usize, height: usize, i: usize) -> (out: Vec<usize>)
    requires
        width > 0,
        height > 0,
        i < width * height,
        width * height <= isize::MAX,
    ensures
        out@.len() == nbr_idx(width as int, height as int, i as int).len(),
        forall|k: int|
            0 <= k < out@.len() ==> #[trigger] out@[k] as int == nbr_idx(
                width as int,
                height as int,
                i as int,
            )[k],
        forall|k: int| 0 <= k < out@.len() ==> #[trigger] out@[k] < width * height,
{
    let ghost w = width as int;
    let ghost h = height as int;
    let x = i % width;
    let y = i / width;
    assert(y < height) by (nonlinear_arith)
        requires
            y == i / width,
            i < width * height,
            width > 0,
    ;
    assert(width <= isize::MAX && height <= isize::MAX) by (nonlinear_arith)
        requires
            width > 0,
            height > 0,
            width * height <= isize::MAX,
    ;
    let pts = neighbor_points(width, height, x, y);
    let mut out: Vec<usize> = Vec::with_capacity(8);
    let mut k: usize = 0;
    while k < pts.len()
        invariant
            k <= pts@.len(),
            width > 0,
            height > 0,
            w == width,
            h == height,
            x == i % width,
            y == i / width,
            width * height <= isize::MAX,
            pts@.len() == nbr_pts(w, h, x as int, y as int).len(),
            forall|j: int|
                0 <= j < pts@.len() ==> (#[trigger] pts@[j]).0 as int == nbr_pts(
                    w,
                    h,
                    x as int,
                    y as int,
                )[j].0 && pts@[j].1 as int == nbr_pts(w, h, x as int, y as int)[j].1,
            out@.len() == k,
            forall|j: int|
                0 <= j < k ==> #[trigger] out@[j] as int == nbr_idx(w, h, i as int)[j],
            forall|j: int| 0 <= j < k ==> #[trigger] out@[j] < width * height,
        decreases pts@.len() - k,
    {
        proof {
            lemma_nbr_pts_from_props(w, h, x as int, y as int, 0);
        }
        let (px, py) = pts[k];
        assert(px < width && py < height);
        assert(py * width + px < width * height) by (nonlinear_arith)
            requires
                px < width,
                py < height,
        ;
        out.push(py * width + px);
        k = k + 1;
    }
    out
}

/// Number of mines around flat cell `i`.
pub(crate) fn adjacency(width: usize, height: usize, is_mine: &[bool], i: usize) -> (r: u8)
    requires
        width > 0,
        height > 0,
        i < width * height,
        width * height <= isize::MAX,
        is_mine@.len() == width * height,
    ensures
        r as int == adj_count(width as int, height as int, is_mine@, i as int),
{
    let ghost nb = nbr_idx(width as int, height as int, i as int);
    let nbrs = neighbors(width, height, i);
    proof {
        lemma_nbr_idx_props(width as int, height as int, i as int);
    }
    let mut c: u8 = 0;
    let mut k: usize = 0;
    while k < nbrs.len()
        invariant
            k <= nbrs@.len(),
            nbrs@.len() == nb.len(),
            nb.len() <= 9,
            forall|j: int| 0 <= j < nbrs@.len() ==> #[trigger] nbrs@[j] as int == nb[j],
            forall|j: int| 0 <= j < nbrs@.len() ==> #[trigger] nbrs@[j] < is_mine@.len(),
            c as int == count_idx(k as int, |j: int| is_mine@[nb[j]]),
        decreases nbrs@.len() - k,
    {
        proof {
            lemma_count_bound(k as int, |j: int| is_mine@[nb[j]]);
        }
        if is_mine[nbrs[k]] {
            c = c + 1;
        }
        k = k + 1;
    }
    c
}

/// Cells with no mine around them.
pub open spec fn no_mine_around(w: int, h: int, is_mine: Seq<bool>) -> Seq<bool> {
    Seq::new((w * h) as nat, |c: int| adj_count(w, h, is_mine, c) == 0)
}

/// Cells still closed and without a mine.
pub open spec fn closed_safe(revealed: Seq<bool>, is_mine: Seq<bool>) -> Seq<bool> {
    Seq::new(revealed.len(), |c: int| !revealed[c] && !is_mine[c])
}

/// Open a cell known to be safe, flood-filling through cells with no adjacent mine.
/// Every cell it opens is a Deduction; `path` records them after `start`.
fn reveal_safe(
    i: usize,
    width: usize,
    height: usize,
    is_mine: &[bool],
    revealed: &mut Vec<bool>,
    Ghost(mine_count): Ghost<int>,
    Ghost(start): Ghost<Seq<bool>>,
    Ghost(path): Ghost<Seq<int>>,
) -> (new_path: Ghost<Seq<int>>)
    requires
        board_ok(width as int, height as int, mine_count, is_mine@),
        i < width * height,
        old(revealed)@.len() == width * height,
        deduction_path(width as int, height as int, mine_count, is_mine@, start, path),
        after_reveals(start, path) == old(revealed)@,
        deduced_safe(width as int, height as int, mine_count, is_mine@, old(revealed)@, i as int),
        forall|j: int| 0 <= j < width * height && #[trigger] old(revealed)@[j] ==> !is_mine@[j],
    ensures
        final(revealed)@.len() == width * height,
        forall|j: int| 0 <= j < width * height && #[trigger] final(revealed)@[j] ==> !is_mine@[j],
        deduction_path(width as int, height as int, mine_count, is_mine@, start, new_path@),
        after_reveals(start, new_path@) == final(revealed)@,
        final(revealed)@[i as int],
        subset(width * height, old(revealed)@, final(revealed)@),
        forall|c: int|
            0 <= c < width * height ==> #[trigger] final(revealed)@[c] == (old(revealed)@[c]
                || newly_set(old(revealed)@, final(revealed)@)[c]),
        is_flood(
            width as int,
            height as int,
            no_mine_around(width as int, height as int, is_mine@),
            closed_safe(old(revealed)@, is_mine@),
            i as int,
            newly_set(old(revealed)@, final(revealed)@),
        ),
    decreases count_idx(width * height, |j: int| !old(revealed)@[j]),
{
    let ghost w = width as int;
    let ghost h = height as int;
    let ghost n = w * h;
    let ghost old_rev = revealed@;
    let ghost zero = no_mine_around(w, h, is_mine@);
    let ghost el = closed_safe(old_rev, is_mine@);
    let ghost t = i as int;
    proof {
        lemma_truth_consistent(w, h, mine_count, is_mine@, old_rev);
        assert(!is_mine@[t]);
    }
    if revealed[i] {
        proof {
            assert(newly_set(old_rev, revealed@) =~= Seq::new(n as nat, |c: int| false));
        }
        return Ghost(path);
    }
    revealed.set(i, true);
    let ghost path1 = path.push(i as int);
    assert(path1.drop_last() =~= path);
    assert(after_reveals(start, path1) =~= revealed@);
    assert(w > 0 && h > 0) by (nonlinear_arith)
        requires
            n == w * h,
            i < n,
            w >= 0,
            h >= 0,
    ;
    if adjacency(width, height, is_mine, i) == 0 {
        let nbrs = neighbors(width, height, i);
        let ghost nb = nbr_idx(w, h, i as int);
        let ghost mut p = path1;
        proof {
            lemma_nbr_idx_props(w, h, t);
            assert forall|c: int, j: int|
                0 <= c < n && c != t && 0 <= j < nbr_idx(w, h, c).len() && newly_set(old_rev, revealed@)[c]
                    && zero[c] && el[nbr_idx(w, h, c)[j]] implies #[trigger] newly_set(
                old_rev,
                revealed@,
            )[nbr_idx(w, h, c)[j]] by {}
        }
        let mut k: usize = 0;
        while k < nbrs.len()
            invariant
                board_ok(w, h, mine_count, is_mine@),
                w == width,
                h == height,
                n == w * h,
                w > 0,
                h > 0,
                i < n,
                t == i,
                0 <= k <= nbrs@.len(),
                nbrs@.len() == nb.len(),
                nb == nbr_idx(w, h, i as int),
                forall|j: int| 0 <= j < nbrs@.len() ==> #[trigger] nbrs@[j] as int == nb[j],
                forall|j: int| 0 <= j < nbrs@.len() ==> #[trigger] nbrs@[j] < n,
                adj_count(w, h, is_mine@, i as int) == 0,
                revealed@.len() == n,
                revealed@[i as int],
                !old_rev[i as int],
                old_rev.len() == n,
                old_rev == old(revealed)@,
                subset(n, old_rev, revealed@),
                forall|j: int| 0 <= j < n && #[trigger] revealed@[j] ==> !is_mine@[j],
                deduction_path(w, h, mine_count, is_mine@, start, p),
                after_reveals(start, p) == revealed@,
                zero == no_mine_around(w, h, is_mine@),
                el == closed_safe(old_rev, is_mine@),
                zero[t],
                el[t],
                forall|c: int|
                    0 <= c < n ==> #[trigger] revealed@[c] == (old_rev[c] || newly_set(
                        old_rev,
                        revealed@,
                    )[c]),
                newly_set(old_rev, revealed@)[t],
                forall|c: int| 0 <= c < n && #[trigger] newly_set(old_rev, revealed@)[c] ==> el[c],
                flood_partial(w, h, zero, el, t, k as int, newly_set(old_rev, revealed@)),
                forall|s: Seq<bool>|
                    s.len() == n && #[trigger] flood_closed(w, h, zero, el, s) && s[t] ==> forall|
                        c: int,
                    | 0 <= c < n && newly_set(old_rev, revealed@)[c] ==> s[c],
            decreases nbrs@.len() - k,
        {
            let j = nbrs[k];
            let ghost rk = revealed@;
            let ghost a = newly_set(old_rev, rk);
            if !is_mine[j] {
                proof {
                    let cur = revealed@;
                    assert forall|m: Seq<bool>| #[trigger]
                        consistent(w, h, mine_count, is_mine@, cur, m) implies !m[j as int] by {
                        assert(cur[i as int]);
                        assert(adj_count(w, h, m, i as int) == 0);
                        let q = |t: int| m[nbr_idx(w, h, i as int)[t]];
                        assert(count_idx(nb.len() as int, q) == 0);
                        lemma_count_zero(nb.len() as int, q);
                        assert(!q(k as int));
                        assert(nb[k as int] == j);
                    }
                    assert forall|x: int| 0 <= x < n && !revealed@[x] implies !old_rev[x] by {
                        if old_rev[x] {
                            assert(revealed@[x]);
                        }
                    }
                    lemma_count_mono_strict(
                        width * height,
                        |j: int| !revealed@[j],
                        |j: int| !old(revealed)@[j],
                        i as int,
                    );
                    assert(closed_safe(rk, is_mine@) =~= minus(el, a));
                }
                let Ghost(p2) = reveal_safe(
                    j,
                    width,
                    height,
                    is_mine,
                    revealed,
                    Ghost(mine_count),
                    Ghost(start),
                    Ghost(p),
                );
                proof {
                    p = p2;
                    let b = newly_set(rk, revealed@);
                    assert(newly_set(old_rev, revealed@) =~= union(a, b));
                    lemma_flood_step(w, h, zero, el, t, k as int, a, b);
                }
            } else {
                proof {
                    assert(!el[nb[k as int]]);
                    assert forall|jj: int|
                        0 <= jj < k + 1 && jj < nbr_idx(w, h, t).len() && el[nbr_idx(
                            w,
                            h,
                            t,
                        )[jj]] implies #[trigger] newly_set(old_rev, revealed@)[nbr_idx(
                        w,
                        h,
                        t,
                    )[jj]] by {}
                }
            }
            k = k + 1;
        }
        proof {
            let o = newly_set(old_rev, revealed@);
            assert forall|c: int, jj: int|
                0 <= c < n && 0 <= jj < nbr_idx(w, h, c).len() && o[c] && zero[c] && el[nbr_idx(
                    w,
                    h,
                    c,
                )[jj]] implies #[trigger] o[nbr_idx(w, h, c)[jj]] by {
                if c == t {
                    assert(jj < nbrs@.len());
                }
            }
        }
        return Ghost(p);
    }
    proof {
        let o = newly_set(old_rev, revealed@);
        assert forall|c: int| 0 <= c < n implies #[trigger] o[c] == (c == t) by {}
        assert(!zero[t]);
    }
    Ghost(path1)
}

/// The cells with neither a reveal nor a flag.
pub open spec fn unknown_pred(revealed: Seq<bool>, flagged: Seq<bool>) -> spec_fn(int) -> bool {
    |i: int| !revealed[i] && !flagged[i]
}

/// Positions `k` of `cells` whose cell is marked in `s`.
pub open spec fn marked_at(s: Seq<bool>, cells: Seq<usize>) -> spec_fn(int) -> bool {
    |k: int| s[cells[k] as int]
}

/// Positions `k` of `cells` whose cell is neither revealed nor flagged.
pub open spec fn unknown_at(revealed: Seq<bool>, flagged: Seq<bool>, cells: Seq<usize>) -> spec_fn(
    int,
) -> bool {
    |k: int| !revealed[cells[k] as int] && !flagged[cells[k] as int]
}

/// What the solver knows is sound: the cells it opened after `start` are a chain of
/// Deductions, nothing revealed is a mine, and every flag is a Deduced mine.
pub open spec fn state_ok(
    w: int,
    h: int,
    mine_count: int,
    is_mine: Seq<bool>,
    start: Seq<bool>,
    path: Seq<int>,
    revealed: Seq<bool>,
    flagged: Seq<bool>,
) -> bool {
    &&& revealed.len() == w * h
    &&& flagged.len() == w * h
    &&& deduction_path(w, h, mine_count, is_mine, start, path)
    &&& after_reveals(start, path) == revealed
    &&& forall|i: int| 0 <= i < w * h && #[trigger] revealed[i] ==> !is_mine[i]
    &&& forall|f: int|
        0 <= f < w * h && #[trigger] flagged[f] ==> is_mine[f] && deduced_mine(
            w,
            h,
            mine_count,
            is_mine,
            revealed,
            f,
        )
}

/// Cells still to be decided, counted once for reveals and once for flags.
pub open spec fn measure(revealed: Seq<bool>, flagged: Seq<bool>) -> nat {
    count_false(revealed) + count_false(flagged)
}

/// `nbrs` lists the neighbours of cell `i`.
pub open spec fn lists_nbrs(w: int, h: int, i: int, nbrs: Seq<usize>) -> bool {
    &&& nbrs.len() == nbr_idx(w, h, i).len()
    &&& forall|k: int| 0 <= k < nbrs.len() ==> #[trigger] nbrs[k] as int == nbr_idx(w, h, i)[k]
    &&& forall|k: int| 0 <= k < nbrs.len() ==> #[trigger] nbrs[k] < w * h
}

proof fn lemma_adj_marked(w: int, h: int, m: Seq<bool>, i: int, nbrs: Seq<usize>)
    requires
        lists_nbrs(w, h, i, nbrs),
    ensures
        count_idx(nbrs.len() as int, marked_at(m, nbrs)) == adj_count(w, h, m, i),
{
    let q = |k: int| m[nbr_idx(w, h, i)[k]];
    lemma_count_ext(nbrs.len() as int, marked_at(m, nbrs), q);
}

/// A number whose flagged neighbours already account for all its mines: every other
/// neighbour is a Deduced safe cell.
proof fn lemma_number_satisfied(
    w: int,
    h: int,
    mine_count: int,
    is_mine: Seq<bool>,
    revealed: Seq<bool>,
    flagged: Seq<bool>,
    i: int,
    nbrs: Seq<usize>,
    k: int,
)
    requires
        board_ok(w, h, mine_count, is_mine),
        revealed.len() == w * h,
        flagged.len() == w * h,
        0 <= i < w * h,
        revealed[i],
        lists_nbrs(w, h, i, nbrs),
        forall|f: int|
            0 <= f < w * h && #[trigger] flagged[f] ==> deduced_mine(
                w,
                h,
                mine_count,
                is_mine,
                revealed,
                f,
            ),
        count_idx(nbrs.len() as int, marked_at(flagged, nbrs)) == adj_count(w, h, is_mine, i),
        0 <= k < nbrs.len(),
        !flagged[nbrs[k] as int],
    ensures
        deduced_safe(w, h, mine_count, is_mine, revealed, nbrs[k] as int),
{
    let len = nbrs.len() as int;
    assert forall|m: Seq<bool>| #[trigger]
        consistent(w, h, mine_count, is_mine, revealed, m) implies !m[nbrs[k] as int] by {
        lemma_adj_marked(w, h, m, i, nbrs);
        assert forall|t: int| 0 <= t < len && #[trigger] marked_at(flagged, nbrs)(t) implies marked_at(
            m,
            nbrs,
        )(t) by {
            assert(flagged[nbrs[t] as int]);
        }
        lemma_count_mono_eq(len, marked_at(flagged, nbrs), marked_at(m, nbrs));
        assert(marked_at(flagged, nbrs)(k) == marked_at(m, nbrs)(k));
    }
}

/// A number whose hidden neighbours are exactly its missing mines: each of them is a
/// Deduced mine.
proof fn lemma_number_forces_mines(
    w: int,
    h: int,
    mine_count: int,
    is_mine: Seq<bool>,
    revealed: Seq<bool>,
    flagged: Seq<bool>,
    i: int,
    nbrs: Seq<usize>,
    k: int,
)
    requires
        board_ok(w, h, mine_count, is_mine),
        revealed.len() == w * h,
        flagged.len() == w * h,
        0 <= i < w * h,
        revealed[i],
        lists_nbrs(w, h, i, nbrs),
        forall|f: int|
            0 <= f < w * h && #[trigger] flagged[f] ==> deduced_mine(
                w,
                h,
                mine_count,
                is_mine,
                revealed,
                f,
            ),
        count_idx(nbrs.len() as int, marked_at(flagged, nbrs)) + count_idx(
            nbrs.len() as int,
            unknown_at(revealed, flagged, nbrs),
        ) == adj_count(w, h, is_mine, i),
        0 <= k < nbrs.len(),
        unknown_at(revealed, flagged, nbrs)(k),
    ensures
        deduced_mine(w, h, mine_count, is_mine, revealed, nbrs[k] as int),
{
    let len = nbrs.len() as int;
    assert forall|m: Seq<bool>| #[trigger]
        consistent(w, h, mine_count, is_mine, revealed, m) implies m[nbrs[k] as int] by {
        let pm = marked_at(m, nbrs);
        let pf = marked_at(flagged, nbrs);
        let pu = unknown_at(revealed, flagged, nbrs);
        lemma_adj_marked(w, h, m, i, nbrs);
        lemma_count_split(len, pm, pf);
        assert forall|t: int| 0 <= t < len implies #[trigger] and_p(pm, pf)(t) == pf(t) by {
            if flagged[nbrs[t] as int] {
                assert(m[nbrs[t] as int]);
            }
        }
        lemma_count_ext(len, and_p(pm, pf), pf);
        assert forall|t: int| 0 <= t < len && #[trigger] and_not_p(pm, pf)(t) implies pu(t) by {
            if revealed[nbrs[t] as int] {
                assert(!m[nbrs[t] as int]);
            }
        }
        lemma_count_mono_eq(len, and_not_p(pm, pf), pu);
        assert(and_not_p(pm, pf)(k) == pu(k));
    }
}

/// With every mine flagged, all other cells are Deduced safe.
proof fn lemma_all_mines_flagged(
    w: int,
    h: int,
    mine_count: int,
    is_mine: Seq<bool>,
    revealed: Seq<bool>,
    flagged: Seq<bool>,
    c: int,
)
    requires
        board_ok(w, h, mine_count, is_mine),
        revealed.len() == w * h,
        flagged.len() == w * h,
        forall|f: int|
            0 <= f < w * h && #[trigger] flagged[f] ==> deduced_mine(
                w,
                h,
                mine_count,
                is_mine,
                revealed,
                f,
            ),
        count_true(flagged) == mine_count,
        0 <= c < w * h,
        !flagged[c],
    ensures
        deduced_safe(w, h, mine_count, is_mine, revealed, c),
{
    let n = w * h;
    assert forall|m: Seq<bool>| #[trigger]
        consistent(w, h, mine_count, is_mine, revealed, m) implies !m[c] by {
        assert forall|t: int| 0 <= t < n && #[trigger] true_at(flagged)(t) implies true_at(m)(t) by {
            assert(flagged[t]);
        }
        lemma_count_mono_eq(n, true_at(flagged), true_at(m));
        assert(true_at(flagged)(c) == true_at(m)(c));
    }
}

/// When the unflagged mines are as many as the undecided cells, every undecided cell
/// is a Deduced mine.
proof fn lemma_unknowns_all_mines(
    w: int,
    h: int,
    mine_count: int,
    is_mine: Seq<bool>,
    revealed: Seq<bool>,
    flagged: Seq<bool>,
    c: int,
)
    requires
        board_ok(w, h, mine_count, is_mine),
        revealed.len() == w * h,
        flagged.len() == w * h,
        forall|f: int|
            0 <= f < w * h && #[trigger] flagged[f] ==> deduced_mine(
                w,
                h,
                mine_count,
                is_mine,
                revealed,
                f,
            ),
        count_true(flagged) + count_idx(w * h, unknown_pred(revealed, flagged)) == mine_count,
        0 <= c < w * h,
        unknown_pred(revealed, flagged)(c),
    ensures
        deduced_mine(w, h, mine_count, is_mine, revealed, c),
{
    let n = w * h;
    assert forall|m: Seq<bool>| #[trigger]
        consistent(w, h, mine_count, is_mine, revealed, m) implies m[c] by {
        let pm = true_at(m);
        let pf = true_at(flagged);
        let pu = unknown_pred(revealed, flagged);
        lemma_count_split(n, pm, pf);
        assert forall|t: int| 0 <= t < n implies #[trigger] and_p(pm, pf)(t) == pf(t) by {
            if flagged[t] {
                assert(m[t]);
            }
        }
        lemma_count_ext(n, and_p(pm, pf), pf);
        assert forall|t: int| 0 <= t < n && #[trigger] and_not_p(pm, pf)(t) implies pu(t) by {
            if revealed[t] {
                assert(!m[t]);
            }
        }
        lemma_count_mono_eq(n, and_not_p(pm, pf), pu);
        assert(and_not_p(pm, pf)(c) == pu(c));
    }
}

/// Opening more cells by Deduction keeps the solver's knowledge sound.
proof fn lemma_state_after_reveal(
    w: int,
    h: int,
    mine_count: int,
    is_mine: Seq<bool>,
    start: Seq<bool>,
    path: Seq<int>,
    revealed: Seq<bool>,
    new_path: Seq<int>,
    new_revealed: Seq<bool>,
    flagged: Seq<bool>,
)
    requires
        state_ok(w, h, mine_count, is_mine, start, path, revealed, flagged),
        new_revealed.len() == w * h,
        deduction_path(w, h, mine_count, is_mine, start, new_path),
        after_reveals(start, new_path) == new_revealed,
        forall|i: int| 0 <= i < w * h && #[trigger] new_revealed[i] ==> !is_mine[i],
        subset(w * h, revealed, new_revealed),
    ensures
        state_ok(w, h, mine_count, is_mine, start, new_path, new_revealed, flagged),
        measure(new_revealed, flagged) <= measure(revealed, flagged),
        (exists|i: int| 0 <= i < w * h && !revealed[i] && new_revealed[i]) ==> measure(
            new_revealed,
            flagged,
        ) < measure(revealed, flagged),
{
    lemma_deduced_mono(w, h, mine_count, is_mine, revealed, new_revealed);
    lemma_count_false_mono(revealed, new_revealed);
    assert forall|f: int| 0 <= f < w * h && #[trigger] flagged[f] implies is_mine[f]
        && deduced_mine(w, h, mine_count, is_mine, new_revealed, f) by {
        assert(deduced_mine(w, h, mine_count, is_mine, revealed, f));
    }
}

/// Number of `true` entries.
fn count_set(v: &Vec<bool>) -> (c: usize)
    ensures
        c == count_true(v@),
{
    let mut c: usize = 0;
    let mut k: usize = 0;
    while k < v.len()
        invariant
            k <= v@.len(),
            c == count_idx(k as int, true_at(v@)),
        decreases v@.len() - k,
    {
        proof {
            lemma_count_bound(k as int, true_at(v@));
        }
        if v[k] {
            c = c + 1;
        }
        k = k + 1;
    }
    c
}

/// The cells with neither a reveal nor a flag, in increasing order.
fn unknown_cells(revealed: &Vec<bool>, flagged: &Vec<bool>) -> (out: Vec<usize>)
    requires
        revealed@.len() == flagged@.len(),
    ensures
        out@.len() == enumerate(revealed@.len() as int, unknown_pred(revealed@, flagged@)).len(),
        forall|t: int|
            0 <= t < out@.len() ==> #[trigger] out@[t] as int == enumerate(
                revealed@.len() as int,
                unknown_pred(revealed@, flagged@),
            )[t],
{
    let ghost p = unknown_pred(revealed@, flagged@);
    let mut out: Vec<usize> = Vec::new();
    let mut i: usize = 0;
    while i < revealed.len()
        invariant
            i <= revealed@.len(),
            revealed@.len() == flagged@.len(),
            p == unknown_pred(revealed@, flagged@),
            out@.len() == enumerate(i as int, p).len(),
            forall|t: int| 0 <= t < out@.len() ==> #[trigger] out@[t] as int == enumerate(i as int, p)[t],
        decreases revealed@.len() - i,
    {
        if !revealed[i] && !flagged[i] {
            out.push(i);
        }
        i = i + 1;
    }
    out
}

/// How many of `cells` are marked in `s`.
fn count_marked(cells: &Vec<usize>, s: &Vec<bool>) -> (c: usize)
    requires
        forall|k: int| 0 <= k < cells@.len() ==> #[trigger] cells@[k] < s@.len(),
    ensures
        c == count_idx(cells@.len() as int, marked_at(s@, cells@)),
{
    let mut c: usize = 0;
    let mut k: usize = 0;
    while k < cells.len()
        invariant
            k <= cells@.len(),
            forall|j: int| 0 <= j < cells@.len() ==> #[trigger] cells@[j] < s@.len(),
            c == count_idx(k as int, marked_at(s@, cells@)),
        decreases cells@.len() - k,
    {
        proof {
            lemma_count_bound(k as int, marked_at(s@, cells@));
        }
        if s[cells[k]] {
            c = c + 1;
        }
        k = k + 1;
    }
    c
}

/// The entries of `cells` that are neither revealed nor flagged, in order.
fn unknown_among(cells: &Vec<usize>, revealed: &Vec<bool>, flagged: &Vec<bool>) -> (out: Vec<usize>)
    requires
        revealed@.len() == flagged@.len(),
        forall|k: int| 0 <= k < cells@.len() ==> #[trigger] cells@[k] < revealed@.len(),
    ensures
        out@.len() == enumerate(cells@.len() as int, unknown_at(revealed@, flagged@, cells@)).len(),
        forall|t: int|
            0 <= t < out@.len() ==> #[trigger] out@[t] == cells@[enumerate(
                cells@.len() as int,
                unknown_at(revealed@, flagged@, cells@),
            )[t]],
{
    let ghost p = unknown_at(revealed@, flagged@, cells@);
    let mut out: Vec<usize> = Vec::new();
    let mut k: usize = 0;
    while k < cells.len()
        invariant
            k <= cells@.len(),
            revealed@.len() == flagged@.len(),
            forall|j: int| 0 <= j < cells@.len() ==> #[trigger] cells@[j] < revealed@.len(),
            p == unknown_at(revealed@, flagged@, cells@),
            out@.len() == enumerate(k as int, p).len(),
            forall|t: int| 0 <= t < out@.len() ==> #[trigger] out@[t] == cells@[enumerate(k as int, p)[t]],
        decreases cells@.len() - k,
    {
        let c = cells[k];
        if !revealed[c] && !flagged[c] {
            out.push(c);
        }
        k = k + 1;
    }
    out
}

/// Local adjacency rules, one revealed number at a time: a number with all its mines
/// flagged opens its other hidden neighbours; a number whose hidden neighbours are all
/// its missing mines flags them.
fn apply_local_rules(
    width: usize,
    height: usize,
    is_mine: &[bool],
    revealed: &mut Vec<bool>,
    flagged: &mut Vec<bool>,
    Ghost(mine_count): Ghost<int>,
    Ghost(start): Ghost<Seq<bool>>,
    Ghost(path): Ghost<Seq<int>>,
) -> (res: (bool, Ghost<Seq<int>>))
    requires
        board_ok(width as int, height as int, mine_count, is_mine@),
        state_ok(
            width as int,
            height as int,
            mine_count,
            is_mine@,
            start,
            path,
            old(revealed)@,
            old(flagged)@,
        ),
    ensures
        state_ok(
            width as int,
            height as int,
            mine_count,
            is_mine@,
            start,
            res.1@,
            final(revealed)@,
            final(flagged)@,
        ),
        measure(final(revealed)@, final(flagged)@) <= measure(old(revealed)@, old(flagged)@),
        res.0 ==> measure(final(revealed)@, final(flagged)@) < measure(
            old(revealed)@,
            old(flagged)@,
        ),
        !res.0 ==> final(revealed)@ == old(revealed)@ && final(flagged)@ == old(flagged)@,
{
    let ghost w = width as int;
    let ghost h = height as int;
    let n = width * height;
    let ghost m0 = measure(revealed@, flagged@);
    let ghost r_in = revealed@;
    let ghost f_in = flagged@;
    let ghost mut p = path;
    let mut progress = false;
    let mut i: usize = 0;
    while i < n
        invariant
            board_ok(w, h, mine_count, is_mine@),
            w == width,
            h == height,
            n == w * h,
            i <= n,
            state_ok(w, h, mine_count, is_mine@, start, p, revealed@, flagged@),
            measure(revealed@, flagged@) <= m0,
            progress ==> measure(revealed@, flagged@) < m0,
            !progress ==> revealed@ == r_in && flagged@ == f_in,
        decreases n - i,
    {
        if !revealed[i] || is_mine[i] {
            i = i + 1;
            continue;
        }
        let need = adjacency(width, height, is_mine, i) as usize;
        let nbrs = neighbors(width, height, i);
        let flagged_n = count_marked(&nbrs, flagged);
        let hidden = unknown_among(&nbrs, revealed, flagged);
        let ghost rev0 = revealed@;
        let ghost fl0 = flagged@;
        let ghost len = nbrs@.len() as int;
        let ghost pu = unknown_at(rev0, fl0, nbrs@);
        let ghost e = enumerate(len, pu);
        proof {
            lemma_enumerate(len, pu);
            lemma_nbr_idx_props(w, h, i as int);
            lemma_count_bound(len, pu);
            lemma_count_bound(len, marked_at(fl0, nbrs@));
        }
        if flagged_n == need && hidden.len() > 0 {
            proof {
                assert forall|t: int| 0 <= t < hidden@.len() implies deduced_safe(
                    w,
                    h,
                    mine_count,
                    is_mine@,
                    rev0,
                    #[trigger] hidden@[t] as int,
                ) by {
                    lemma_number_satisfied(
                        w,
                        h,
                        mine_count,
                        is_mine@,
                        rev0,
                        fl0,
                        i as int,
                        nbrs@,
                        e[t],
                    );
                }
            }
            let mut t: usize = 0;
            while t < hidden.len()
                invariant
                    board_ok(w, h, mine_count, is_mine@),
                    w == width,
                    h == height,
                    n == w * h,
                    state_ok(w, h, mine_count, is_mine@, start, p, revealed@, flagged@),
                    rev0.len() == n,
                    flagged@ == fl0,
                    subset(n as int, rev0, revealed@),
                    t <= hidden@.len(),
                    hidden@.len() > 0,
                    forall|u: int| 0 <= u < hidden@.len() ==> #[trigger] hidden@[u] < n,
                    forall|u: int|
                        0 <= u < hidden@.len() ==> deduced_safe(
                            w,
                            h,
                            mine_count,
                            is_mine@,
                            rev0,
                            #[trigger] hidden@[u] as int,
                        ),
                    !rev0[hidden@[0] as int],
                    t == 0 ==> revealed@ == rev0,
                    measure(rev0, fl0) <= m0,
                    measure(revealed@, flagged@) <= measure(rev0, fl0),
                    t > 0 ==> measure(revealed@, flagged@) < measure(rev0, fl0),
                decreases hidden@.len() - t,
            {
                let j = hidden[t];
                let ghost rb = revealed@;
                proof {
                    lemma_deduced_mono(w, h, mine_count, is_mine@, rev0, rb);
                    assert(deduced_safe(w, h, mine_count, is_mine@, rev0, j as int));
                }
                let Ghost(p2) = reveal_safe(
                    j,
                    width,
                    height,
                    is_mine,
                    revealed,
                    Ghost(mine_count),
                    Ghost(start),
                    Ghost(p),
                );
                proof {
                    lemma_state_after_reveal(
                        w,
                        h,
                        mine_count,
                        is_mine@,
                        start,
                        p,
                        rb,
                        p2,
                        revealed@,
                        flagged@,
                    );
                    if t == 0 {
                        assert(!rb[j as int] && revealed@[j as int]);
                    }
                    p = p2;
                }
                t = t + 1;
            }
            progress = true;
        } else if flagged_n + hidden.len() == need && hidden.len() > 0 {
            proof {
                lemma_truth_consistent(w, h, mine_count, is_mine@, rev0);
                assert forall|t: int| 0 <= t < hidden@.len() implies deduced_mine(
                    w,
                    h,
                    mine_count,
                    is_mine@,
                    rev0,
                    #[trigger] hidden@[t] as int,
                ) by {
                    lemma_number_forces_mines(
                        w,
                        h,
                        mine_count,
                        is_mine@,
                        rev0,
                        fl0,
                        i as int,
                        nbrs@,
                        e[t],
                    );
                }
            }
            let mut t: usize = 0;
            while t < hidden.len()
                invariant
                    board_ok(w, h, mine_count, is_mine@),
                    w == width,
                    h == height,
                    n == w * h,
                    state_ok(w, h, mine_count, is_mine@, start, p, revealed@, flagged@),
                    revealed@ == rev0,
                    fl0.len() == n,
                    subset(n as int, fl0, flagged@),
                    t <= hidden@.len(),
                    hidden@.len() > 0,
                    consistent(w, h, mine_count, is_mine@, rev0, is_mine@),
                    forall|u: int| 0 <= u < hidden@.len() ==> #[trigger] hidden@[u] < n,
                    forall|u: int|
                        0 <= u < hidden@.len() ==> deduced_mine(
                            w,
                            h,
                            mine_count,
                            is_mine@,
                            rev0,
                            #[trigger] hidden@[u] as int,
                        ),
                    !fl0[hidden@[0] as int],
                    t == 0 ==> flagged@ == fl0,
                    measure(rev0, fl0) <= m0,
                    measure(revealed@, flagged@) <= measure(rev0, fl0),
                    t > 0 ==> measure(revealed@, flagged@) < measure(rev0, fl0),
                decreases hidden@.len() - t,
            {
                let j = hidden[t];
                let ghost fb = flagged@;
                assert(deduced_mine(w, h, mine_count, is_mine@, rev0, j as int));
                flagged.set(j, true);
                proof {
                    lemma_count_false_mono(fb, flagged@);
                    if t == 0 {
                        assert(!fb[j as int] && flagged@[j as int]);
                    }
                }
                t = t + 1;
            }
            progress = true;
        }
        i = i + 1;
    }
    (progress, Ghost(p))
}

/// Global mine-count rules: with every mine flagged the undecided cells are safe;
/// with as many unflagged mines as undecided cells they are all mines.
fn apply_global_rules(
    width: usize,
    height: usize,
    is_mine: &[bool],
    revealed: &mut Vec<bool>,
    flagged: &mut Vec<bool>,
    unknowns: &Vec<usize>,
    remaining_mines: usize,
    Ghost(mine_count): Ghost<int>,
    Ghost(start): Ghost<Seq<bool>>,
    Ghost(path): Ghost<Seq<int>>,
) -> (res: (bool, Ghost<Seq<int>>))
    requires
        board_ok(width as int, height as int, mine_count, is_mine@),
        state_ok(
            width as int,
            height as int,
            mine_count,
            is_mine@,
            start,
            path,
            old(revealed)@,
            old(flagged)@,
        ),
        remaining_mines + count_true(old(flagged)@) == mine_count,
        unknowns@.len() == enumerate(
            width * height,
            unknown_pred(old(revealed)@, old(flagged)@),
        ).len(),
        forall|t: int|
            0 <= t < unknowns@.len() ==> #[trigger] unknowns@[t] as int == enumerate(
                width * height,
                unknown_pred(old(revealed)@, old(flagged)@),
            )[t],
        unknowns@.len() > 0,
    ensures
        state_ok(
            width as int,
            height as int,
            mine_count,
            is_mine@,
            start,
            res.1@,
            final(revealed)@,
            final(flagged)@,
        ),
        measure(final(revealed)@, final(flagged)@) <= measure(old(revealed)@, old(flagged)@),
        res.0 ==> measure(final(revealed)@, final(flagged)@) < measure(
            old(revealed)@,
            old(flagged)@,
        ),
        !res.0 ==> final(revealed)@ == old(revealed)@ && final(flagged)@ == old(flagged)@,
{
    let ghost w = width as int;
    let ghost h = height as int;
    let ghost n = w * h;
    let ghost rev0 = revealed@;
    let ghost fl0 = flagged@;
    let ghost pu = unknown_pred(rev0, fl0);
    let ghost mut p = path;
    proof {
        lemma_enumerate(n, pu);
    }
    if remaining_mines == 0 {
        proof {
            assert forall|t: int| 0 <= t < unknowns@.len() implies deduced_safe(
                w,
                h,
                mine_count,
                is_mine@,
                rev0,
                #[trigger] unknowns@[t] as int,
            ) by {
                lemma_all_mines_flagged(
                    w,
                    h,
                    mine_count,
                    is_mine@,
                    rev0,
                    fl0,
                    unknowns@[t] as int,
                );
            }
        }
        let mut t: usize = 0;
        while t < unknowns.len()
            invariant
                board_ok(w, h, mine_count, is_mine@),
                w == width,
                h == height,
                n == w * h,
                state_ok(w, h, mine_count, is_mine@, start, p, revealed@, flagged@),
                rev0.len() == n,
                flagged@ == fl0,
                subset(n as int, rev0, revealed@),
                t <= unknowns@.len(),
                unknowns@.len() > 0,
                forall|u: int| 0 <= u < unknowns@.len() ==> #[trigger] unknowns@[u] < n,
                forall|u: int|
                    0 <= u < unknowns@.len() ==> deduced_safe(
                        w,
                        h,
                        mine_count,
                        is_mine@,
                        rev0,
                        #[trigger] unknowns@[u] as int,
                    ),
                !rev0[unknowns@[0] as int],
                t == 0 ==> revealed@ == rev0,
                measure(revealed@, flagged@) <= measure(rev0, fl0),
                t > 0 ==> measure(revealed@, flagged@) < measure(rev0, fl0),
            decreases unknowns@.len() - t,
        {
            let j = unknowns[t];
            let ghost rb = revealed@;
            proof {
                lemma_deduced_mono(w, h, mine_count, is_mine@, rev0, rb);
                assert(deduced_safe(w, h, mine_count, is_mine@, rev0, j as int));
            }
            let Ghost(p2) = reveal_safe(
                j,
                width,
                height,
                is_mine,
                revealed,
                Ghost(mine_count),
                Ghost(start),
                Ghost(p),
            );
            proof {
                lemma_state_after_reveal(
                    w,
                    h,
                    mine_count,
                    is_mine@,
                    start,
                    p,
                    rb,
                    p2,
                    revealed@,
                    flagged@,
                );
                if t == 0 {
                    assert(!rb[j as int] && revealed@[j as int]);
                }
                p = p2;
            }
            t = t + 1;
        }
        return (true, Ghost(p));
    } else if remaining_mines == unknowns.len() {
        proof {
            lemma_truth_consistent(w, h, mine_count, is_mine@, rev0);
            assert forall|t: int| 0 <= t < unknowns@.len() implies deduced_mine(
                w,
                h,
                mine_count,
                is_mine@,
                rev0,
                #[trigger] unknowns@[t] as int,
            ) by {
                lemma_unknowns_all_mines(
                    w,
                    h,
                    mine_count,
                    is_mine@,
                    rev0,
                    fl0,
                    unknowns@[t] as int,
                );
            }
        }
        let mut t: usize = 0;
        while t < unknowns.len()
            invariant
                board_ok(w, h, mine_count, is_mine@),
                w == width,
                h == height,
                n == w * h,
                state_ok(w, h, mine_count, is_mine@, start, p, revealed@, flagged@),
                revealed@ == rev0,
                fl0.len() == n,
                subset(n as int, fl0, flagged@),
                t <= unknowns@.len(),
                unknowns@.len() > 0,
                consistent(w, h, mine_count, is_mine@, rev0, is_mine@),
                forall|u: int| 0 <= u < unknowns@.len() ==> #[trigger] unknowns@[u] < n,
                forall|u: int|
                    0 <= u < unknowns@.len() ==> deduced_mine(
                        w,
                        h,
                        mine_count,
                        is_mine@,
                        rev0,
                        #[trigger] unknowns@[u] as int,
                    ),
                !fl0[unknowns@[0] as int],
                t == 0 ==> flagged@ == fl0,
                measure(revealed@, flagged@) <= measure(rev0, fl0),
                t > 0 ==> measure(revealed@, flagged@) < measure(rev0, fl0),
            decreases unknowns@.len() - t,
        {
            let j = unknowns[t];
            let ghost fb = flagged@;
            assert(deduced_mine(w, h, mine_count, is_mine@, rev0, j as int));
            flagged.set(j, true);
            proof {
                lemma_count_false_mono(fb, flagged@);
                if t == 0 {
                    assert(!fb[j as int] && flagged@[j as int]);
                }
            }
            t = t + 1;
        }
        return (true, Ghost(p));
    }
    (false, Ghost(p))
}

/// Whether the board can be finished from the current revealed cells using only
/// Deductions (every consistent completion agrees) — never a Forced guess.
///
/// A `true` answer is sound: the position is then finishable by Deductions. A
/// `false` answer means the solver found a Forced guess or gave up on a frontier too
/// large to enumerate.
pub fn is_no_guess(
    width: usize,
    height: usize,
    mine_count: usize,
    is_mine: &[bool],
    revealed: &[bool],
) -> (no_guess: bool)
    requires
        width * height <= isize::MAX,
        is_mine@.len() == width * height,
        revealed@.len() == width * height,
        count_true(is_mine@) == mine_count,
        forall|i: int| 0 <= i < width * height && #[trigger] revealed@[i] ==> !is_mine@[i],
    ensures
        no_guess ==> finishable_by_deductions(
            width as int,
            height as int,
            mine_count as int,
            is_mine@,
            revealed@,
        ),
        count_false(revealed@) <= 22 && finishable_by_deductions(
            width as int,
            height as int,
            mine_count as int,
            is_mine@,
            revealed@,
        ) ==> no_guess,
        frontiers_small(width as int, height as int, mine_count as int, is_mine@, revealed@)
            && finishable_by_deductions(
            width as int,
            height as int,
            mine_count as int,
            is_mine@,
            revealed@,
        ) ==> no_guess,
        all_safe_open(is_mine@, revealed@) ==> no_guess,
{
    let ghost w = width as int;
    let ghost h = height as int;
    let ghost mc = mine_count as int;
    let n = width * height;
    let mut rev = vstd::slice::slice_to_vec(revealed);
    let mut flagged = vec![false; n];
    let ghost start = revealed@;
    let ghost mut path: Seq<int> = Seq::empty();
    proof {
        lemma_count_bound(n as int, true_at(is_mine@));
        assert(after_reveals(start, path) == rev@);
        assert forall|f: int| 0 <= f < n && #[trigger] flagged@[f] implies is_mine@[f]
            && deduced_mine(w, h, mc, is_mine@, rev@, f) by {
            assert(!flagged@[f]);
        }
    }
    loop
        invariant
            w == width,
            h == height,
            mc == mine_count,
            n == w * h,
            n <= isize::MAX,
            mine_count <= n,
            is_mine@.len() == n,
            count_true(is_mine@) == mine_count,
            start == revealed@,
            start.len() == n,
            state_ok(w, h, mc, is_mine@, start, path, rev@, flagged@),
        decreases measure(rev@, flagged@),
    {
        let safe_count = count_set(&rev);
        let ghost rev_top = rev@;
        proof {
            if all_safe_open(is_mine@, start) {
                lemma_after_reveals_grows(w, h, mc, is_mine@, start, path);
                lemma_count_true_false(is_mine@);
                assert forall|i: int| 0 <= i < n implies #[trigger] true_at(rev@)(i) == false_at(
                    is_mine@,
                )(i) by {
                    if !is_mine@[i] {
                        assert(start[i]);
                    }
                }
                lemma_count_ext(n as int, true_at(rev@), false_at(is_mine@));
            }
        }
        if safe_count == n - mine_count {
            proof {
                lemma_count_true_false(is_mine@);
                assert forall|i: int| 0 <= i < n && #[trigger] true_at(rev@)(i) implies false_at(
                    is_mine@,
                )(i) by {
                    assert(rev@[i]);
                }
                lemma_count_mono_eq(n as int, true_at(rev@), false_at(is_mine@));
                assert(rev@ =~= is_mine@.map_values(|b: bool| !b)) by {
                    assert forall|i: int| 0 <= i < n implies rev@[i] == is_mine@.map_values(
                        |b: bool| !b,
                    )[i] by {
                        assert(true_at(rev@)(i) == false_at(is_mine@)(i));
                    }
                }
                assert(deduction_path(w, h, mc, is_mine@, start, path));
            }
            return true;
        }
        assert(w > 0 && h > 0) by (nonlinear_arith)
            requires
                n == w * h,
                n > 0,
                w >= 0,
                h >= 0,
        ;
        let flagged_count = count_set(&flagged);
        proof {
            assert forall|i: int| 0 <= i < n && #[trigger] true_at(flagged@)(i) implies true_at(
                is_mine@,
            )(i) by {
                assert(flagged@[i]);
            }
            lemma_count_mono(n as int, true_at(flagged@), true_at(is_mine@));
        }
        let remaining_mines = mine_count - flagged_count;
        let unknowns = unknown_cells(&rev, &flagged);
        if unknowns.len() == 0 {
            proof {
                lemma_enumerate(n as int, unknown_pred(rev@, flagged@));
                lemma_count_zero(n as int, unknown_pred(rev@, flagged@));
                lemma_count_true_false(is_mine@);
                assert forall|i: int| 0 <= i < n implies #[trigger] true_at(rev@)(i) == false_at(
                    is_mine@,
                )(i) by {
                    assert(!unknown_pred(rev@, flagged@)(i));
                    if rev@[i] {
                        assert(!is_mine@[i]);
                    } else {
                        assert(flagged@[i]);
                    }
                }
                lemma_count_ext(n as int, true_at(rev@), false_at(is_mine@));
            }
            return safe_count == n - mine_count;
        }
        let ghost m_top = measure(rev@, flagged@);
        let (by_count, Ghost(p1)) = apply_global_rules(
            width,
            height,
            is_mine,
            &mut rev,
            &mut flagged,
            &unknowns,
            remaining_mines,
            Ghost(mc),
            Ghost(start),
            Ghost(path),
        );
        let (by_numbers, Ghost(p2)) = apply_local_rules(
            width,
            height,
            is_mine,
            &mut rev,
            &mut flagged,
            Ghost(mc),
            Ghost(start),
            Ghost(p1),
        );
        proof {
            path = p2;
        }
        let mut progress = by_count || by_numbers;
        if progress {
            continue;
        }
        let ghost rev0 = rev@;
        let ghost fl0 = flagged@;
        let deduced = deduce_from_completions(
            width,
            height,
            is_mine,
            &rev,
            &flagged,
            remaining_mines,
        );
        proof {
            lemma_truth_consistent(w, h, mc, is_mine@, rev0);
            lemma_completions_match_deductions(w, h, mc, is_mine@, rev0, fl0, remaining_mines as int);
        }
        let (always_mine, always_safe) = match deduced {
            Some(pair) => pair,
            None => {
                return false;
            },
        };
        proof {
            assert forall|c: int|
                0 <= c < n && !rev0[c] && !fl0[c] && frontier_size(w, h, rev0, fl0) <= 22
                    && #[trigger] deduced_safe(w, h, mc, is_mine@, rev0, c) implies always_safe@[c] by {
                assert(safe_in_completions(w, h, is_mine@, rev0, fl0, remaining_mines as int, c));
            }
        }
        let mut i: usize = 0;
        while i < n
            invariant
                board_ok(w, h, mc, is_mine@),
                w == width,
                h == height,
                n == w * h,
                i <= n,
                state_ok(w, h, mc, is_mine@, start, path, rev@, flagged@),
                rev0.len() == n,
                fl0.len() == n,
                subset(n as int, rev0, rev@),
                subset(n as int, fl0, flagged@),
                consistent(w, h, mc, is_mine@, rev0, is_mine@),
                always_mine@.len() == n,
                always_safe@.len() == n,
                forall|c: int|
                    0 <= c < n && #[trigger] always_mine@[c] ==> deduced_mine(
                        w,
                        h,
                        mc,
                        is_mine@,
                        rev0,
                        c,
                    ),
                forall|c: int|
                    0 <= c < n && #[trigger] always_safe@[c] ==> deduced_safe(
                        w,
                        h,
                        mc,
                        is_mine@,
                        rev0,
                        c,
                    ),
                measure(rev@, flagged@) <= measure(rev0, fl0),
                progress ==> measure(rev@, flagged@) < measure(rev0, fl0),
                !progress ==> rev@ == rev0 && flagged@ == fl0,
                !progress ==> forall|j: int|
                    0 <= j < i ==> !(#[trigger] always_safe@[j] && !rev0[j] && !fl0[j]),
                frontier_size(w, h, rev0, fl0) <= 22 ==> forall|c: int|
                    0 <= c < n && !rev0[c] && !fl0[c] && #[trigger] deduced_safe(
                        w,
                        h,
                        mc,
                        is_mine@,
                        rev0,
                        c,
                    ) ==> always_safe@[c],
            decreases n - i,
        {
            if always_mine[i] && !flagged[i] {
                let ghost fb = flagged@;
                proof {
                    lemma_deduced_mono(w, h, mc, is_mine@, rev0, rev@);
                    assert(deduced_mine(w, h, mc, is_mine@, rev@, i as int));
                }
                flagged.set(i, true);
                proof {
                    lemma_count_false_mono(fb, flagged@);
                    assert(!fb[i as int] && flagged@[i as int]);
                }
                progress = true;
            }
            if always_safe[i] && !rev[i] && !flagged[i] {
                let ghost rb = rev@;
                proof {
                    lemma_deduced_mono(w, h, mc, is_mine@, rev0, rb);
                    assert(deduced_safe(w, h, mc, is_mine@, rb, i as int));
                }
                let Ghost(p3) = reveal_safe(
                    i,
                    width,
                    height,
                    is_mine,
                    &mut rev,
                    Ghost(mc),
                    Ghost(start),
                    Ghost(path),
                );
                proof {
                    lemma_state_after_reveal(
                        w,
                        h,
                        mc,
                        is_mine@,
                        start,
                        path,
                        rb,
                        p3,
                        rev@,
                        flagged@,
                    );
                    assert(!rb[i as int] && rev@[i as int]);
                    path = p3;
                }
                progress = true;
            }
            i = i + 1;
        }
        if !progress {
            proof {
                if (count_false(start) <= 22 || frontiers_small(w, h, mc, is_mine@, start))
                    && finishable_by_deductions(w, h, mc, is_mine@, start) {
                    let p = choose|p: Seq<int>|
                        #[trigger] deduction_path(w, h, mc, is_mine@, start, p) && after_reveals(
                            start,
                            p,
                        ) =~= is_mine@.map_values(|b: bool| !b);
                    lemma_after_reveals_grows(w, h, mc, is_mine@, start, path);
                    // some cell without a mine is still unrevealed
                    if forall|x: int| 0 <= x < n && !is_mine@[x] ==> rev0[x] {
                        lemma_count_true_false(is_mine@);
                        assert forall|x: int| 0 <= x < n implies #[trigger] true_at(rev0)(x)
                            == false_at(is_mine@)(x) by {
                            if rev0[x] {
                                assert(!is_mine@[x]);
                            }
                        }
                        lemma_count_ext(n as int, true_at(rev0), false_at(is_mine@));
                        assert(false);
                    }
                    let x = choose|x: int| 0 <= x < n && !is_mine@[x] && !rev0[x];
                    assert(after_reveals(start, p)[x]);
                    lemma_path_reaches(w, h, mc, is_mine@, start, p, rev0);
                    let c = choose|c: int|
                        0 <= c < n && !rev0[c] && #[trigger] deduced_safe(
                            w,
                            h,
                            mc,
                            is_mine@,
                            rev0,
                            c,
                        );
                    assert(!is_mine@[c]);
                    assert(!fl0[c]);
                    assert forall|v: int| 0 <= v < n && #[trigger] unknown_pred(rev0, fl0)(v) implies false_at(
                        rev0,
                    )(v) by {}
                    lemma_count_mono(n as int, unknown_pred(rev0, fl0), false_at(rev0));
                    assert forall|v: int| 0 <= v < n && #[trigger] border_p(w, h, rev0, fl0)(v) implies unknown_pred(
                        rev0,
                        fl0,
                    )(v) by {}
                    lemma_count_mono(n as int, border_p(w, h, rev0, fl0), unknown_pred(rev0, fl0));
                    lemma_count_false_mono(start, rev0);
                    if !(count_false(start) <= 22) {
                        assert(deduced_position(w, h, mc, is_mine@, start, path, fl0));
                    }
                    assert(always_safe@[c]);
                    assert(false);
                }
            }
            return false;
        }
    }
}

/// Positions `s` of `slots` whose frontier slot is a mine in assignment `a`.
pub open spec fn slot_val(slots: Seq<usize>, a: Seq<bool>) -> spec_fn(int) -> bool {
    |s: int| a[slots[s] as int]
}

/// Mines that assignment `a` puts on the frontier slots `slots`.
pub open spec fn slot_count(slots: Seq<usize>, a: Seq<bool>) -> nat {
    count_idx(slots.len() as int, slot_val(slots, a))
}

/// Assignment `a` of the frontier satisfies every constraint `(need, slots)`, and the
/// mines it leaves for the sea fit there.
pub open spec fn fits(
    constraints: Seq<(usize, Vec<usize>)>,
    remaining: int,
    sea_len: int,
    a: Seq<bool>,
) -> bool {
    &&& count_true(a) <= remaining
    &&& remaining - count_true(a) <= sea_len
    &&& forall|t: int|
        0 <= t < constraints.len() ==> #[trigger] slot_count(constraints[t].1@, a)
            == constraints[t].0
}

/// `a` is a fitting assignment of the whole frontier that agrees with `prefix` below
/// `idx`.
pub open spec fn candidate(
    constraints: Seq<(usize, Vec<usize>)>,
    remaining: int,
    sea_len: int,
    f_len: int,
    prefix: Seq<bool>,
    idx: int,
    a: Seq<bool>,
) -> bool {
    &&& a.len() == f_len
    &&& forall|k: int| 0 <= k < idx ==> a[k] == prefix[k]
    &&& fits(constraints, remaining, sea_len, a)
}

/// Every slot of every constraint is below `f_len`.
pub open spec fn slots_in(constraints: Seq<(usize, Vec<usize>)>, f_len: int) -> bool {
    forall|t: int, s: int|
        0 <= t < constraints.len() && 0 <= s < constraints[t].1@.len() ==> #[trigger] constraints[t].1@[s]
            < f_len
}

/// Slots decided so far: those below `idx` hold `Some(assign[k])`, the rest `None`.
pub open spec fn partial_of(partial: Seq<Option<bool>>, assign: Seq<bool>, idx: int) -> bool {
    &&& partial.len() == assign.len()
    &&& forall|k: int| 0 <= k < partial.len() ==> #[trigger] partial[k] == if k < idx {
        Some(assign[k])
    } else {
        None
    }
}

/// Positions `s` whose slot is decided as a mine.
pub open spec fn slot_decided_mine(slots: Seq<usize>, partial: Seq<Option<bool>>) -> spec_fn(
    int,
) -> bool {
    |s: int| partial[slots[s] as int] == Some(true)
}

/// Positions `s` whose slot is undecided.
pub open spec fn slot_open(slots: Seq<usize>, partial: Seq<Option<bool>>) -> spec_fn(int) -> bool {
    |s: int| partial[slots[s] as int] is None
}

/// A constraint needing `need` mines among `slots` can still be met: its decided mines
/// do not exceed `need`, and its decided mines with its undecided slots reach it.
pub open spec fn constraint_reachable(
    need: int,
    slots: Seq<usize>,
    partial: Seq<Option<bool>>,
) -> bool {
    let len = slots.len() as int;
    let mines = count_idx(len, slot_decided_mine(slots, partial));
    let open = count_idx(len, slot_open(slots, partial));
    mines <= need && need <= mines + open
}

/// The pruning test on a partial assignment with `mines_used` mines among its first
/// `idx` slots: those mines fit the remaining budget, the budget can still be spent on
/// the undecided slots and the sea, and every constraint can still be met.
pub open spec fn prune_passes(
    constraints: Seq<(usize, Vec<usize>)>,
    partial: Seq<Option<bool>>,
    mines_used: int,
    remaining: int,
    sea_len: int,
    idx: int,
) -> bool {
    &&& mines_used <= remaining
    &&& remaining <= mines_used + (partial.len() - idx) + sea_len
    &&& forall|t: int|
        0 <= t < constraints.len() ==> #[trigger] constraint_reachable(
            constraints[t].0 as int,
            constraints[t].1@,
            partial,
        )
}

/// Candidates agreeing with `prefix` below `idx` are those agreeing one slot further
/// with the slot set to `false`, and those with it set to `true`.
proof fn lemma_candidate_split(
    constraints: Seq<(usize, Vec<usize>)>,
    remaining: int,
    sea_len: int,
    f_len: int,
    prefix: Seq<bool>,
    idx: int,
    p_false: Seq<bool>,
    p_true: Seq<bool>,
)
    requires
        0 <= idx < f_len,
        forall|k: int| 0 <= k < idx ==> p_false[k] == prefix[k] && p_true[k] == prefix[k],
        p_false[idx] == false,
        p_true[idx] == true,
    ensures
        forall|a: Seq<bool>|
            #[trigger] candidate(constraints, remaining, sea_len, f_len, prefix, idx, a) == (
            candidate(constraints, remaining, sea_len, f_len, p_false, idx + 1, a) || candidate(
                constraints,
                remaining,
                sea_len,
                f_len,
                p_true,
                idx + 1,
                a,
            )),
{
    assert forall|a: Seq<bool>| #[trigger]
        candidate(constraints, remaining, sea_len, f_len, prefix, idx, a) == (candidate(
            constraints,
            remaining,
            sea_len,
            f_len,
            p_false,
            idx + 1,
            a,
        ) || candidate(constraints, remaining, sea_len, f_len, p_true, idx + 1, a)) by {
        if candidate(constraints, remaining, sea_len, f_len, prefix, idx, a) {
            if a[idx] {
                assert forall|k: int| 0 <= k < idx + 1 implies a[k] == p_true[k] by {
                    if k < idx {
                        assert(a[k] == prefix[k]);
                    }
                }
            } else {
                assert forall|k: int| 0 <= k < idx + 1 implies a[k] == p_false[k] by {
                    if k < idx {
                        assert(a[k] == prefix[k]);
                    }
                }
            }
        }
        if candidate(constraints, remaining, sea_len, f_len, p_false, idx + 1, a) {
            assert forall|k: int| 0 <= k < idx implies a[k] == prefix[k] by {
                assert(a[k] == p_false[k]);
            }
        }
        if candidate(constraints, remaining, sea_len, f_len, p_true, idx + 1, a) {
            assert forall|k: int| 0 <= k < idx implies a[k] == prefix[k] by {
                assert(a[k] == p_true[k]);
            }
        }
    }
}

/// Whether every constraint is met exactly by `assign`.
fn assignment_consistent(assign: &Vec<bool>, constraints: &Vec<(usize, Vec<usize>)>) -> (ok: bool)
    requires
        slots_in(constraints@, assign@.len() as int),
    ensures
        ok == forall|t: int|
            0 <= t < constraints@.len() ==> #[trigger] slot_count(constraints@[t].1@, assign@)
                == constraints@[t].0,
{
    let mut t: usize = 0;
    while t < constraints.len()
        invariant
            t <= constraints@.len(),
            slots_in(constraints@, assign@.len() as int),
            forall|u: int|
                0 <= u < t ==> #[trigger] slot_count(constraints@[u].1@, assign@)
                    == constraints@[u].0,
        decreases constraints@.len() - t,
    {
        let need = constraints[t].0;
        let vars = &constraints[t].1;
        let mut mines: usize = 0;
        let mut s: usize = 0;
        while s < vars.len()
            invariant
                s <= vars@.len(),
                t < constraints@.len(),
                vars@ == constraints@[t as int].1@,
                slots_in(constraints@, assign@.len() as int),
                mines == count_idx(s as int, slot_val(vars@, assign@)),
            decreases vars@.len() - s,
        {
            proof {
                lemma_count_bound(s as int, slot_val(vars@, assign@));
                assert(vars@[s as int] < assign@.len());
            }
            if assign[vars[s]] {
                mines = mines + 1;
            }
            s = s + 1;
        }
        if mines != need {
            assert(slot_count(constraints@[t as int].1@, assign@) != constraints@[t as int].0);
            return false;
        }
        t = t + 1;
    }
    true
}

/// Whether the decided slots can still be completed: the mine budget allows it and no
/// constraint is already over- or under-satisfiable.
fn prune_ok(
    partial: &Vec<Option<bool>>,
    constraints: &Vec<(usize, Vec<usize>)>,
    mines_used: usize,
    remaining_mines: usize,
    sea_len: usize,
    idx: usize,
    Ghost(assign): Ghost<Seq<bool>>,
) -> (ok: bool)
    requires
        idx <= partial@.len(),
        partial_of(partial@, assign, idx as int),
        slots_in(constraints@, partial@.len() as int),
        mines_used == count_idx(idx as int, true_at(assign)),
        partial@.len() + sea_len <= isize::MAX,
    ensures
        ok == prune_passes(
            constraints@,
            partial@,
            mines_used as int,
            remaining_mines as int,
            sea_len as int,
            idx as int,
        ),
        !ok ==> forall|a: Seq<bool>|
            !#[trigger] candidate(
                constraints@,
                remaining_mines as int,
                sea_len as int,
                partial@.len() as int,
                assign,
                idx as int,
                a,
            ),
{
    let ghost f_len = partial@.len() as int;
    let slots_left = partial.len() - idx;
    let min_total = mines_used;
    proof {
        lemma_count_bound(idx as int, true_at(assign));
    }
    let max_total = mines_used + slots_left;
    if min_total > remaining_mines || max_total + sea_len < remaining_mines {
        proof {
            assert forall|a: Seq<bool>|
                !#[trigger] candidate(
                    constraints@,
                    remaining_mines as int,
                    sea_len as int,
                    f_len,
                    assign,
                    idx as int,
                    a,
                ) by {
                if a.len() == f_len && forall|k: int| 0 <= k < idx ==> a[k] == assign[k] {
                    lemma_count_ext(idx as int, true_at(a), true_at(assign));
                    lemma_count_prefix_bounds(f_len, idx as int, true_at(a));
                }
            }
        }
        return false;
    }
    let mut t: usize = 0;
    while t < constraints.len()
        invariant
            t <= constraints@.len(),
            idx <= partial@.len(),
            f_len == partial@.len(),
            partial_of(partial@, assign, idx as int),
            slots_in(constraints@, f_len),
            mines_used <= remaining_mines,
            remaining_mines <= mines_used + (f_len - idx) + sea_len,
            forall|u: int|
                0 <= u < t ==> #[trigger] constraint_reachable(
                    constraints@[u].0 as int,
                    constraints@[u].1@,
                    partial@,
                ),
        decreases constraints@.len() - t,
    {
        let need = constraints[t].0;
        let vars = &constraints[t].1;
        let mut mines: usize = 0;
        let mut open: usize = 0;
        let mut s: usize = 0;
        while s < vars.len()
            invariant
                s <= vars@.len(),
                t < constraints@.len(),
                vars@ == constraints@[t as int].1@,
                f_len == partial@.len(),
                slots_in(constraints@, f_len),
                mines == count_idx(s as int, slot_decided_mine(vars@, partial@)),
                open == count_idx(s as int, slot_open(vars@, partial@)),
                mines + open <= s,
            decreases vars@.len() - s,
        {
            proof {
                assert(vars@[s as int] < f_len);
            }
            match partial[vars[s]] {
                Some(true) => mines = mines + 1,
                Some(false) => {},
                None => open = open + 1,
            }
            s = s + 1;
        }
        if mines > need || mines + open < need {
            proof {
                assert(!constraint_reachable(
                    constraints@[t as int].0 as int,
                    constraints@[t as int].1@,
                    partial@,
                ));
                let len = vars@.len() as int;
                let pm = slot_decided_mine(vars@, partial@);
                let po = slot_open(vars@, partial@);
                assert forall|a: Seq<bool>|
                    !#[trigger] candidate(
                        constraints@,
                        remaining_mines as int,
                        sea_len as int,
                        f_len,
                        assign,
                        idx as int,
                        a,
                    ) by {
                    if a.len() == f_len && (forall|k: int| 0 <= k < idx ==> a[k] == assign[k]) {
                        let pa = slot_val(vars@, a);
                        let known = |s: int| (vars@[s] as int) < idx;
                        lemma_count_split(len, pa, known);
                        assert forall|u: int| 0 <= u < len implies #[trigger] and_p(pa, known)(u)
                            == pm(u) by {
                            assert(vars@[u] < f_len);
                            assert(partial@[vars@[u] as int] == if (vars@[u] as int) < idx {
                                Some(assign[vars@[u] as int])
                            } else {
                                None
                            });
                        }
                        lemma_count_ext(len, and_p(pa, known), pm);
                        assert forall|u: int| 0 <= u < len && #[trigger] and_not_p(pa, known)(u)
                            implies po(u) by {
                            assert(vars@[u] < f_len);
                            assert(partial@[vars@[u] as int] == if (vars@[u] as int) < idx {
                                Some(assign[vars@[u] as int])
                            } else {
                                None
                            });
                        }
                        lemma_count_mono(len, and_not_p(pa, known), po);
                        assert(slot_count(constraints@[t as int].1@, a) == count_idx(len, pa));
                    }
                }
            }
            return false;
        }
        assert(constraint_reachable(
            constraints@[t as int].0 as int,
            constraints@[t as int].1@,
            partial@,
        ));
        t = t + 1;
    }
    true
}

/// Slot `k` is a mine in every candidate.
pub open spec fn mine_in_every(
    constraints: Seq<(usize, Vec<usize>)>,
    remaining: int,
    sea_len: int,
    f_len: int,
    prefix: Seq<bool>,
    idx: int,
    k: int,
) -> bool {
    forall|a: Seq<bool>|
        #[trigger] candidate(constraints, remaining, sea_len, f_len, prefix, idx, a) ==> a[k]
}

/// Slot `k` is safe in every candidate.
pub open spec fn safe_in_every(
    constraints: Seq<(usize, Vec<usize>)>,
    remaining: int,
    sea_len: int,
    f_len: int,
    prefix: Seq<bool>,
    idx: int,
    k: int,
) -> bool {
    forall|a: Seq<bool>|
        #[trigger] candidate(constraints, remaining, sea_len, f_len, prefix, idx, a) ==> !a[k]
}

/// Every candidate leaves exactly `sea_mines` mines for the sea.
pub open spec fn sea_in_every(
    constraints: Seq<(usize, Vec<usize>)>,
    remaining: int,
    sea_len: int,
    f_len: int,
    prefix: Seq<bool>,
    idx: int,
    sea_mines: int,
) -> bool {
    forall|a: Seq<bool>|
        #[trigger] candidate(constraints, remaining, sea_len, f_len, prefix, idx, a) ==> remaining
            - count_true(a) == sea_mines
}

/// Some candidate exists.
pub open spec fn some_candidate(
    constraints: Seq<(usize, Vec<usize>)>,
    remaining: int,
    sea_len: int,
    f_len: int,
    prefix: Seq<bool>,
    idx: int,
) -> bool {
    exists|a: Seq<bool>| #[trigger] candidate(constraints, remaining, sea_len, f_len, prefix, idx, a)
}

/// The per-slot summaries over candidates split along one more decided slot.
proof fn lemma_summaries_split(
    constraints: Seq<(usize, Vec<usize>)>,
    remaining: int,
    sea_len: int,
    f_len: int,
    prefix: Seq<bool>,
    idx: int,
    p_false: Seq<bool>,
    p_true: Seq<bool>,
)
    requires
        0 <= idx < f_len,
        forall|k: int| 0 <= k < idx ==> p_false[k] == prefix[k] && p_true[k] == prefix[k],
        p_false[idx] == false,
        p_true[idx] == true,
    ensures
        forall|k: int|
            #[trigger] mine_in_every(constraints, remaining, sea_len, f_len, prefix, idx, k) == (
            mine_in_every(constraints, remaining, sea_len, f_len, p_false, idx + 1, k)
                && mine_in_every(constraints, remaining, sea_len, f_len, p_true, idx + 1, k)),
        forall|k: int|
            #[trigger] safe_in_every(constraints, remaining, sea_len, f_len, prefix, idx, k) == (
            safe_in_every(constraints, remaining, sea_len, f_len, p_false, idx + 1, k)
                && safe_in_every(constraints, remaining, sea_len, f_len, p_true, idx + 1, k)),
        forall|v: int|
            #[trigger] sea_in_every(constraints, remaining, sea_len, f_len, prefix, idx, v) == (
            sea_in_every(constraints, remaining, sea_len, f_len, p_false, idx + 1, v)
                && sea_in_every(constraints, remaining, sea_len, f_len, p_true, idx + 1, v)),
        some_candidate(constraints, remaining, sea_len, f_len, prefix, idx) == (some_candidate(
            constraints,
            remaining,
            sea_len,
            f_len,
            p_false,
            idx + 1,
        ) || some_candidate(constraints, remaining, sea_len, f_len, p_true, idx + 1)),
{
    lemma_candidate_split(constraints, remaining, sea_len, f_len, prefix, idx, p_false, p_true);
    let cs = constraints;
    let r = remaining;
    let sl = sea_len;
    assert forall|k: int| #[trigger]
        mine_in_every(cs, r, sl, f_len, prefix, idx, k) == (mine_in_every(
            cs,
            r,
            sl,
            f_len,
            p_false,
            idx + 1,
            k,
        ) && mine_in_every(cs, r, sl, f_len, p_true, idx + 1, k)) by {
        if mine_in_every(cs, r, sl, f_len, prefix, idx, k) {
            assert forall|a: Seq<bool>| #[trigger]
                candidate(cs, r, sl, f_len, p_false, idx + 1, a) implies a[k] by {
                assert(candidate(cs, r, sl, f_len, prefix, idx, a));
            }
            assert forall|a: Seq<bool>| #[trigger]
                candidate(cs, r, sl, f_len, p_true, idx + 1, a) implies a[k] by {
                assert(candidate(cs, r, sl, f_len, prefix, idx, a));
            }
        }
        if mine_in_every(cs, r, sl, f_len, p_false, idx + 1, k) && mine_in_every(
            cs,
            r,
            sl,
            f_len,
            p_true,
            idx + 1,
            k,
        ) {
            assert forall|a: Seq<bool>| #[trigger]
                candidate(cs, r, sl, f_len, prefix, idx, a) implies a[k] by {
                if !candidate(cs, r, sl, f_len, p_false, idx + 1, a) {
                    assert(candidate(cs, r, sl, f_len, p_true, idx + 1, a));
                }
            }
        }
    }
    assert forall|k: int| #[trigger]
        safe_in_every(cs, r, sl, f_len, prefix, idx, k) == (safe_in_every(
            cs,
            r,
            sl,
            f_len,
            p_false,
            idx + 1,
            k,
        ) && safe_in_every(cs, r, sl, f_len, p_true, idx + 1, k)) by {
        if safe_in_every(cs, r, sl, f_len, prefix, idx, k) {
            assert forall|a: Seq<bool>| #[trigger]
                candidate(cs, r, sl, f_len, p_false, idx + 1, a) implies !a[k] by {
                assert(candidate(cs, r, sl, f_len, prefix, idx, a));
            }
            assert forall|a: Seq<bool>| #[trigger]
                candidate(cs, r, sl, f_len, p_true, idx + 1, a) implies !a[k] by {
                assert(candidate(cs, r, sl, f_len, prefix, idx, a));
            }
        }
        if safe_in_every(cs, r, sl, f_len, p_false, idx + 1, k) && safe_in_every(
            cs,
            r,
            sl,
            f_len,
            p_true,
            idx + 1,
            k,
        ) {
            assert forall|a: Seq<bool>| #[trigger]
                candidate(cs, r, sl, f_len, prefix, idx, a) implies !a[k] by {
                if !candidate(cs, r, sl, f_len, p_false, idx + 1, a) {
                    assert(candidate(cs, r, sl, f_len, p_true, idx + 1, a));
                }
            }
        }
    }
    assert forall|v: int| #[trigger]
        sea_in_every(cs, r, sl, f_len, prefix, idx, v) == (sea_in_every(
            cs,
            r,
            sl,
            f_len,
            p_false,
            idx + 1,
            v,
        ) && sea_in_every(cs, r, sl, f_len, p_true, idx + 1, v)) by {
        if sea_in_every(cs, r, sl, f_len, prefix, idx, v) {
            assert forall|a: Seq<bool>| #[trigger]
                candidate(cs, r, sl, f_len, p_false, idx + 1, a) implies r - count_true(a) == v by {
                assert(candidate(cs, r, sl, f_len, prefix, idx, a));
            }
            assert forall|a: Seq<bool>| #[trigger]
                candidate(cs, r, sl, f_len, p_true, idx + 1, a) implies r - count_true(a) == v by {
                assert(candidate(cs, r, sl, f_len, prefix, idx, a));
            }
        }
        if sea_in_every(cs, r, sl, f_len, p_false, idx + 1, v) && sea_in_every(
            cs,
            r,
            sl,
            f_len,
            p_true,
            idx + 1,
            v,
        ) {
            assert forall|a: Seq<bool>| #[trigger]
                candidate(cs, r, sl, f_len, prefix, idx, a) implies r - count_true(a) == v by {
                if !candidate(cs, r, sl, f_len, p_false, idx + 1, a) {
                    assert(candidate(cs, r, sl, f_len, p_true, idx + 1, a));
                }
            }
        }
    }
    if some_candidate(constraints, remaining, sea_len, f_len, prefix, idx) {
        let a = choose|a: Seq<bool>|
            #[trigger] candidate(constraints, remaining, sea_len, f_len, prefix, idx, a);
        if candidate(constraints, remaining, sea_len, f_len, p_false, idx + 1, a) {
        } else {
            assert(candidate(constraints, remaining, sea_len, f_len, p_true, idx + 1, a));
        }
    }
    if some_candidate(constraints, remaining, sea_len, f_len, p_false, idx + 1) {
        let a = choose|a: Seq<bool>|
            #[trigger] candidate(constraints, remaining, sea_len, f_len, p_false, idx + 1, a);
        assert(candidate(constraints, remaining, sea_len, f_len, prefix, idx, a));
    }
    if some_candidate(constraints, remaining, sea_len, f_len, p_true, idx + 1) {
        let a = choose|a: Seq<bool>|
            #[trigger] candidate(constraints, remaining, sea_len, f_len, p_true, idx + 1, a);
        assert(candidate(constraints, remaining, sea_len, f_len, prefix, idx, a));
    }
}

/// Depth-first enumeration of frontier assignments from slot `idx` on, recording for
/// each slot whether it is a mine (or safe) in every fitting assignment, the same for
/// the sea, and whether any fitting assignment exists.
fn search(
    idx: usize,
    mines_used: usize,
    remaining_mines: usize,
    sea_len: usize,
    assign: &mut Vec<bool>,
    partial: &mut Vec<Option<bool>>,
    constraints: &Vec<(usize, Vec<usize>)>,
    mine_in_all: &mut Vec<bool>,
    safe_in_all: &mut Vec<bool>,
    sea_always_mine: &mut bool,
    sea_always_safe: &mut bool,
    found: &mut bool,
)
    requires
        idx <= old(assign)@.len(),
        old(mine_in_all)@.len() == old(assign)@.len(),
        old(safe_in_all)@.len() == old(assign)@.len(),
        partial_of(old(partial)@, old(assign)@, idx as int),
        slots_in(constraints@, old(assign)@.len() as int),
        mines_used == count_idx(idx as int, true_at(old(assign)@)),
        old(assign)@.len() + sea_len <= isize::MAX,
    ensures
        final(assign)@.len() == old(assign)@.len(),
        forall|k: int| 0 <= k < idx ==> #[trigger] final(assign)@[k] == old(assign)@[k],
        final(partial)@ == old(partial)@,
        final(mine_in_all)@.len() == old(assign)@.len(),
        final(safe_in_all)@.len() == old(assign)@.len(),
        forall|k: int|
            0 <= k < old(assign)@.len() ==> #[trigger] final(mine_in_all)@[k] == (old(
                mine_in_all,
            )@[k] && mine_in_every(
                constraints@,
                remaining_mines as int,
                sea_len as int,
                old(assign)@.len() as int,
                old(assign)@,
                idx as int,
                k,
            )),
        forall|k: int|
            0 <= k < old(assign)@.len() ==> #[trigger] final(safe_in_all)@[k] == (old(
                safe_in_all,
            )@[k] && safe_in_every(
                constraints@,
                remaining_mines as int,
                sea_len as int,
                old(assign)@.len() as int,
                old(assign)@,
                idx as int,
                k,
            )),
        *final(sea_always_mine) == (*old(sea_always_mine) && sea_in_every(
            constraints@,
            remaining_mines as int,
            sea_len as int,
            old(assign)@.len() as int,
            old(assign)@,
            idx as int,
            sea_len as int,
        )),
        *final(sea_always_safe) == (*old(sea_always_safe) && sea_in_every(
            constraints@,
            remaining_mines as int,
            sea_len as int,
            old(assign)@.len() as int,
            old(assign)@,
            idx as int,
            0,
        )),
        *final(found) == (*old(found) || some_candidate(
            constraints@,
            remaining_mines as int,
            sea_len as int,
            old(assign)@.len() as int,
            old(assign)@,
            idx as int,
        )),
    decreases old(assign)@.len() - idx,
{
    let ghost f_len = assign@.len() as int;
    let ghost a0 = assign@;
    let ghost cons = constraints@;
    let ghost rem = remaining_mines as int;
    let ghost sl = sea_len as int;
    if idx == assign.len() {
        proof {
            lemma_count_bound(idx as int, true_at(a0));
        }
        let sea_mines = remaining_mines.saturating_sub(mines_used);
        if mines_used > remaining_mines || sea_mines > sea_len {
            proof {
                assert forall|a: Seq<bool>|
                    !#[trigger] candidate(cons, rem, sl, f_len, a0, idx as int, a) by {
                    if a.len() == f_len && forall|k: int| 0 <= k < idx ==> a[k] == a0[k] {
                        assert(a =~= a0);
                    }
                }
            }
            return;
        }
        if !assignment_consistent(assign, constraints) {
            proof {
                assert forall|a: Seq<bool>|
                    !#[trigger] candidate(cons, rem, sl, f_len, a0, idx as int, a) by {
                    if a.len() == f_len && forall|k: int| 0 <= k < idx ==> a[k] == a0[k] {
                        assert(a =~= a0);
                    }
                }
            }
            return;
        }
        proof {
            assert(candidate(cons, rem, sl, f_len, a0, idx as int, a0));
            assert forall|a: Seq<bool>| #[trigger]
                candidate(cons, rem, sl, f_len, a0, idx as int, a) implies a == a0 by {
                assert(a =~= a0);
            }
            assert forall|k: int| 0 <= k < f_len implies #[trigger] mine_in_every(
                cons,
                rem,
                sl,
                f_len,
                a0,
                idx as int,
                k,
            ) == a0[k] by {}
            assert forall|k: int| 0 <= k < f_len implies #[trigger] safe_in_every(
                cons,
                rem,
                sl,
                f_len,
                a0,
                idx as int,
                k,
            ) == !a0[k] by {}
            assert(sea_in_every(cons, rem, sl, f_len, a0, idx as int, sl) == (rem - count_true(a0)
                == sl));
            assert(sea_in_every(cons, rem, sl, f_len, a0, idx as int, 0) == (rem - count_true(a0)
                == 0));
        }
        *found = true;
        let ghost mi0 = mine_in_all@;
        let ghost si0 = safe_in_all@;
        let mut i: usize = 0;
        while i < assign.len()
            invariant
                i <= f_len,
                assign@ == a0,
                f_len == a0.len(),
                mine_in_all@.len() == f_len,
                safe_in_all@.len() == f_len,
                forall|k: int|
                    0 <= k < f_len ==> #[trigger] mine_in_all@[k] == if k < i {
                        mi0[k] && a0[k]
                    } else {
                        mi0[k]
                    },
                forall|k: int|
                    0 <= k < f_len ==> #[trigger] safe_in_all@[k] == if k < i {
                        si0[k] && !a0[k]
                    } else {
                        si0[k]
                    },
            decreases f_len - i,
        {
            if assign[i] {
                safe_in_all.set(i, false);
            } else {
                mine_in_all.set(i, false);
            }
            i = i + 1;
        }
        if sea_mines != sea_len {
            *sea_always_mine = false;
        }
        if sea_mines != 0 {
            *sea_always_safe = false;
        }
        return;
    }
    if !prune_ok(
        partial,
        constraints,
        mines_used,
        remaining_mines,
        sea_len,
        idx,
        Ghost(a0),
    ) {
        return;
    }
    assign.set(idx, false);
    partial.set(idx, Some(false));
    let ghost p_false = assign@;
    proof {
        assert(partial_of(partial@, assign@, idx + 1));
        lemma_count_ext(idx as int, true_at(a0), true_at(assign@));
    }
    search(
        idx + 1,
        mines_used,
        remaining_mines,
        sea_len,
        assign,
        partial,
        constraints,
        mine_in_all,
        safe_in_all,
        sea_always_mine,
        sea_always_safe,
        found,
    );
    assign.set(idx, true);
    partial.set(idx, Some(true));
    let ghost p_true = assign@;
    proof {
        assert(partial_of(partial@, assign@, idx + 1));
        lemma_count_ext(idx as int, true_at(a0), true_at(assign@));
        lemma_summaries_split(cons, rem, sl, f_len, a0, idx as int, p_false, p_true);
        lemma_count_bound(idx as int, true_at(a0));
    }
    search(
        idx + 1,
        mines_used + 1,
        remaining_mines,
        sea_len,
        assign,
        partial,
        constraints,
        mine_in_all,
        safe_in_all,
        sea_always_mine,
        sea_always_safe,
        found,
    );
    partial.set(idx, None);
    proof {
        assert(partial@ =~= old(partial)@);
    }
}

/// Neighbours of cell `i` as `usize` indices.
pub open spec fn nbr_cells(w: int, h: int, i: int) -> Seq<usize> {
    nbr_idx(w, h, i).map_values(|v: int| v as usize)
}

/// The undecided neighbours of cell `i`, in neighbour order.
pub open spec fn hidden_nbrs(
    w: int,
    h: int,
    revealed: Seq<bool>,
    flagged: Seq<bool>,
    i: int,
) -> Seq<usize> {
    let cells = nbr_cells(w, h, i);
    enumerate(cells.len() as int, unknown_at(revealed, flagged, cells)).map_values(
        |k: int| cells[k],
    )
}

/// Undecided cells next to a number (the frontier).
pub open spec fn front_p(revealed: Seq<bool>, flagged: Seq<bool>, on: Seq<bool>) -> spec_fn(
    int,
) -> bool {
    |i: int| !revealed[i] && !flagged[i] && on[i]
}

/// Undecided cells next to no number (the sea).
pub open spec fn sea_p(revealed: Seq<bool>, flagged: Seq<bool>, on: Seq<bool>) -> spec_fn(
    int,
) -> bool {
    |i: int| !revealed[i] && !flagged[i] && !on[i]
}

/// The frontier assignment that layout `m` induces.
pub open spec fn restrict(frontier: Seq<int>, m: Seq<bool>) -> Seq<bool> {
    Seq::new(frontier.len(), |k: int| m[frontier[k]])
}

/// Constraint `t` belongs to the revealed number `owner[t]`: it asks for the mines
/// still missing around it among its undecided neighbours.
pub open spec fn raw_ok(
    w: int,
    h: int,
    is_mine: Seq<bool>,
    revealed: Seq<bool>,
    flagged: Seq<bool>,
    raw: Seq<(usize, Vec<usize>)>,
    owner: Seq<int>,
) -> bool {
    &&& raw.len() == owner.len()
    &&& forall|t: int|
        0 <= t < raw.len() ==> {
            let c = #[trigger] owner[t];
            &&& 0 <= c < w * h
            &&& revealed[c]
            &&& !is_mine[c]
            &&& raw[t].0 + count_idx(
                nbr_cells(w, h, c).len() as int,
                marked_at(flagged, nbr_cells(w, h, c)),
            ) == adj_count(w, h, is_mine, c)
            &&& raw[t].1@ == hidden_nbrs(w, h, revealed, flagged, c)
        }
}

/// Every revealed number has its constraint, and `on` marks exactly the cells that
/// some constraint names.
pub open spec fn on_ok(
    w: int,
    h: int,
    is_mine: Seq<bool>,
    revealed: Seq<bool>,
    flagged: Seq<bool>,
    raw: Seq<(usize, Vec<usize>)>,
    owner: Seq<int>,
    on: Seq<bool>,
) -> bool {
    &&& raw_ok(w, h, is_mine, revealed, flagged, raw, owner)
    &&& forall|c: int|
        0 <= c < w * h && #[trigger] revealed[c] ==> exists|t: int|
            0 <= t < owner.len() && owner[t] == c
    &&& on.len() == w * h
    &&& forall|t: int, s: int|
        0 <= t < raw.len() && 0 <= s < raw[t].1@.len() ==> on[#[trigger] raw[t].1@[s] as int]
    &&& forall|v: int|
        0 <= v < w * h && #[trigger] on[v] ==> exists|t: int, s: int|
            0 <= t < raw.len() && 0 <= s < raw[t].1@.len() && raw[t].1@[s] as int == v
}

/// Cell `v` is next to some revealed cell.
pub open spec fn borders_revealed(w: int, h: int, revealed: Seq<bool>, v: int) -> bool {
    exists|c: int| 0 <= c < w * h && revealed[c] && #[trigger] nbr_idx(w, h, c).contains(v)
}

/// Undecided cells next to a revealed cell.
pub open spec fn border_p(w: int, h: int, revealed: Seq<bool>, flagged: Seq<bool>) -> spec_fn(
    int,
) -> bool {
    |v: int| !revealed[v] && !flagged[v] && borders_revealed(w, h, revealed, v)
}

/// Size of the frontier: the undecided cells next to a revealed cell.
pub open spec fn frontier_size(w: int, h: int, revealed: Seq<bool>, flagged: Seq<bool>) -> nat {
    count_idx(w * h, border_p(w, h, revealed, flagged))
}

/// The cells that the constraints name are the undecided cells next to a revealed cell.
proof fn lemma_front_is_border(
    w: int,
    h: int,
    is_mine: Seq<bool>,
    revealed: Seq<bool>,
    flagged: Seq<bool>,
    raw: Seq<(usize, Vec<usize>)>,
    owner: Seq<int>,
    on: Seq<bool>,
)
    requires
        w > 0,
        h > 0,
        w * h <= isize::MAX,
        revealed.len() == w * h,
        flagged.len() == w * h,
        on_ok(w, h, is_mine, revealed, flagged, raw, owner, on),
    ensures
        forall|v: int|
            0 <= v < w * h ==> #[trigger] front_p(revealed, flagged, on)(v) == border_p(
                w,
                h,
                revealed,
                flagged,
            )(v),
{
    let n = w * h;
    assert forall|v: int| 0 <= v < n implies #[trigger] front_p(revealed, flagged, on)(v)
        == border_p(w, h, revealed, flagged)(v) by {
        if front_p(revealed, flagged, on)(v) {
            let (t, s) = choose|t: int, s: int|
                0 <= t < raw.len() && 0 <= s < raw[t].1@.len() && raw[t].1@[s] as int == v;
            let c = owner[t];
            let cells = nbr_cells(w, h, c);
            let pu = unknown_at(revealed, flagged, cells);
            lemma_nbr_cells(w, h, c);
            lemma_enumerate(cells.len() as int, pu);
            let e = enumerate(cells.len() as int, pu);
            let k = e[s];
            assert(raw[t].1@ == hidden_nbrs(w, h, revealed, flagged, c));
            assert(raw[t].1@[s] == cells[k]);
            assert(nbr_idx(w, h, c)[k] == v);
            assert(nbr_idx(w, h, c).contains(v));
            assert(revealed[c]);
        }
        if border_p(w, h, revealed, flagged)(v) {
            let c = choose|c: int| 0 <= c < n && revealed[c] && #[trigger] nbr_idx(w, h, c).contains(v);
            let t = choose|t: int| 0 <= t < owner.len() && owner[t] == c;
            let cells = nbr_cells(w, h, c);
            let pu = unknown_at(revealed, flagged, cells);
            lemma_nbr_cells(w, h, c);
            let k = choose|k: int| 0 <= k < nbr_idx(w, h, c).len() && nbr_idx(w, h, c)[k] == v;
            assert(cells[k] as int == v);
            assert(pu(k));
            lemma_enumerate(cells.len() as int, pu);
            let e = enumerate(cells.len() as int, pu);
            assert(e.contains(k));
            let s = choose|s: int| 0 <= s < e.len() && e[s] == k;
            assert(raw[t].1@ == hidden_nbrs(w, h, revealed, flagged, c));
            assert(raw[t].1@[s] as int == v);
        }
    }
}

/// Everything the frontier search is built from: constraints per revealed number,
/// the frontier and sea, and the constraints rewritten over frontier slots.
pub open spec fn csp_setup(
    w: int,
    h: int,
    is_mine: Seq<bool>,
    revealed: Seq<bool>,
    flagged: Seq<bool>,
    raw: Seq<(usize, Vec<usize>)>,
    owner: Seq<int>,
    on: Seq<bool>,
    frontier: Seq<int>,
    slot_of: Seq<usize>,
    constraints: Seq<(usize, Vec<usize>)>,
    sea_len: int,
) -> bool {
    &&& on_ok(w, h, is_mine, revealed, flagged, raw, owner, on)
    &&& frontier == enumerate(w * h, front_p(revealed, flagged, on))
    &&& sea_len == count_idx(w * h, sea_p(revealed, flagged, on))
    &&& slot_of.len() == w * h
    &&& forall|k: int| 0 <= k < frontier.len() ==> slot_of[#[trigger] frontier[k]] == k
    &&& constraints.len() == raw.len()
    &&& forall|t: int|
        0 <= t < raw.len() ==> {
            &&& (#[trigger] constraints[t]).0 == raw[t].0
            &&& constraints[t].1@.len() == raw[t].1@.len()
            &&& forall|s: int|
                0 <= s < raw[t].1@.len() ==> #[trigger] constraints[t].1@[s] == slot_of[raw[t].1@[s] as int]
        }
}

proof fn lemma_nbr_cells(w: int, h: int, i: int)
    requires
        w > 0,
        h > 0,
        0 <= i < w * h,
        w * h <= isize::MAX,
    ensures
        lists_nbrs(w, h, i, nbr_cells(w, h, i)),
        nbr_cells(w, h, i).len() <= 9,
{
    lemma_nbr_idx_props(w, h, i);
    assert forall|k: int| 0 <= k < nbr_cells(w, h, i).len() implies #[trigger] nbr_cells(
        w,
        h,
        i,
    )[k] as int == nbr_idx(w, h, i)[k] by {
        assert(0 <= nbr_idx(w, h, i)[k] < w * h);
    }
}

/// Every number's constraint holds for the frontier assignment of a consistent layout.
/// `c` completes what is known of a board: it puts exactly `remaining` mines, each
/// on a cell neither revealed nor flagged, and together with the flags it shows
/// every revealed cell the number that cell shows on the real layout `is_mine`.
pub open spec fn completion(
    w: int,
    h: int,
    is_mine: Seq<bool>,
    revealed: Seq<bool>,
    flagged: Seq<bool>,
    remaining: int,
    c: Seq<bool>,
) -> bool {
    &&& c.len() == w * h
    &&& count_true(c) == remaining
    &&& forall|i: int| 0 <= i < w * h && #[trigger] c[i] ==> !revealed[i] && !flagged[i]
    &&& forall|i: int|
        0 <= i < w * h && #[trigger] revealed[i] ==> adj_count(w, h, union(flagged, c), i)
            == adj_count(w, h, is_mine, i)
}

/// Cell `x` is a mine in every completion.
pub open spec fn mine_in_completions(
    w: int,
    h: int,
    is_mine: Seq<bool>,
    revealed: Seq<bool>,
    flagged: Seq<bool>,
    remaining: int,
    x: int,
) -> bool {
    forall|c: Seq<bool>| #[trigger] completion(w, h, is_mine, revealed, flagged, remaining, c) ==> c[x]
}

/// Cell `x` is free of mines in every completion.
pub open spec fn safe_in_completions(
    w: int,
    h: int,
    is_mine: Seq<bool>,
    revealed: Seq<bool>,
    flagged: Seq<bool>,
    remaining: int,
    x: int,
) -> bool {
    forall|c: Seq<bool>|
        #[trigger] completion(w, h, is_mine, revealed, flagged, remaining, c) ==> !c[x]
}

/// A completion with the flags added is a full layout consistent with what is
/// revealed, holding `remaining` mines more than there are flags.
proof fn lemma_completion_layout(
    w: int,
    h: int,
    is_mine: Seq<bool>,
    revealed: Seq<bool>,
    flagged: Seq<bool>,
    remaining: int,
    c: Seq<bool>,
)
    requires
        revealed.len() == w * h,
        flagged.len() == w * h,
        forall|i: int| 0 <= i < w * h && #[trigger] revealed[i] ==> !flagged[i],
        completion(w, h, is_mine, revealed, flagged, remaining, c),
    ensures
        consistent(w, h, remaining + count_true(flagged), is_mine, revealed, union(flagged, c)),
        forall|i: int| 0 <= i < w * h && #[trigger] flagged[i] ==> union(flagged, c)[i],
        forall|i: int| 0 <= i < w * h && !flagged[i] ==> #[trigger] union(flagged, c)[i] == c[i],
{
    let n = w * h;
    let u = union(flagged, c);
    lemma_count_split(n, true_at(u), true_at(flagged));
    assert forall|i: int| 0 <= i < n implies #[trigger] and_p(true_at(u), true_at(flagged))(i)
        == true_at(flagged)(i) by {}
    lemma_count_ext(n, and_p(true_at(u), true_at(flagged)), true_at(flagged));
    assert forall|i: int| 0 <= i < n implies #[trigger] and_not_p(true_at(u), true_at(flagged))(i)
        == true_at(c)(i) by {
        if c[i] {
            assert(!flagged[i]);
        }
    }
    lemma_count_ext(n, and_not_p(true_at(u), true_at(flagged)), true_at(c));
    assert forall|i: int| 0 <= i < n && #[trigger] revealed[i] implies !u[i] && adj_count(
        w,
        h,
        u,
        i,
    ) == adj_count(w, h, is_mine, i) by {
        assert(!flagged[i]);
        if c[i] {
            assert(!revealed[i]);
        }
    }
}

/// A full layout consistent with what is revealed that holds every flag gives,
/// without its flags, a completion.
proof fn lemma_layout_completion(
    w: int,
    h: int,
    mine_count: int,
    is_mine: Seq<bool>,
    revealed: Seq<bool>,
    flagged: Seq<bool>,
    remaining: int,
    m: Seq<bool>,
)
    requires
        revealed.len() == w * h,
        flagged.len() == w * h,
        forall|i: int| 0 <= i < w * h && #[trigger] revealed[i] ==> !flagged[i],
        consistent(w, h, mine_count, is_mine, revealed, m),
        forall|f: int| 0 <= f < w * h && #[trigger] flagged[f] ==> m[f],
        remaining + count_true(flagged) == mine_count,
    ensures
        completion(w, h, is_mine, revealed, flagged, remaining, minus(m, flagged)),
        forall|i: int| 0 <= i < w * h && !flagged[i] ==> #[trigger] minus(m, flagged)[i] == m[i],
{
    let n = w * h;
    let c = minus(m, flagged);
    lemma_count_split(n, true_at(m), true_at(flagged));
    assert forall|i: int| 0 <= i < n implies #[trigger] and_p(true_at(m), true_at(flagged))(i)
        == true_at(flagged)(i) by {}
    lemma_count_ext(n, and_p(true_at(m), true_at(flagged)), true_at(flagged));
    lemma_count_ext(n, and_not_p(true_at(m), true_at(flagged)), true_at(c));
    assert(union(flagged, c) =~= m);
    assert forall|i: int| 0 <= i < n && #[trigger] c[i] implies !revealed[i] && !flagged[i] by {
        if revealed[i] {
            assert(!m[i]);
        }
    }
}

/// With every flag a Deduced mine and the remaining mines counted off the flags,
/// the completions decide an undecided cell exactly as Deductions do.
proof fn lemma_completions_match_deductions(
    w: int,
    h: int,
    mine_count: int,
    is_mine: Seq<bool>,
    revealed: Seq<bool>,
    flagged: Seq<bool>,
    remaining: int,
)
    requires
        revealed.len() == w * h,
        flagged.len() == w * h,
        forall|i: int| 0 <= i < w * h && #[trigger] revealed[i] ==> !flagged[i],
        forall|f: int|
            0 <= f < w * h && #[trigger] flagged[f] ==> deduced_mine(
                w,
                h,
                mine_count,
                is_mine,
                revealed,
                f,
            ),
        remaining + count_true(flagged) == mine_count,
    ensures
        forall|x: int|
            0 <= x < w * h && !flagged[x] ==> (#[trigger] mine_in_completions(
                w,
                h,
                is_mine,
                revealed,
                flagged,
                remaining,
                x,
            ) <==> deduced_mine(w, h, mine_count, is_mine, revealed, x)),
        forall|x: int|
            0 <= x < w * h && !flagged[x] ==> (#[trigger] safe_in_completions(
                w,
                h,
                is_mine,
                revealed,
                flagged,
                remaining,
                x,
            ) <==> deduced_safe(w, h, mine_count, is_mine, revealed, x)),
{
    assert forall|x: int|
        #![trigger mine_in_completions(w, h, is_mine, revealed, flagged, remaining, x)]
        #![trigger safe_in_completions(w, h, is_mine, revealed, flagged, remaining, x)]
        0 <= x < w * h && !flagged[x] implies (mine_in_completions(
        w,
        h,
        is_mine,
        revealed,
        flagged,
        remaining,
        x,
    ) <==> deduced_mine(w, h, mine_count, is_mine, revealed, x)) && (safe_in_completions(
        w,
        h,
        is_mine,
        revealed,
        flagged,
        remaining,
        x,
    ) <==> deduced_safe(w, h, mine_count, is_mine, revealed, x)) by {
        assert forall|c: Seq<bool>| #[trigger]
            completion(w, h, is_mine, revealed, flagged, remaining, c) implies consistent(
            w,
            h,
            mine_count,
            is_mine,
            revealed,
            union(flagged, c),
        ) && union(flagged, c)[x] == c[x] by {
            lemma_completion_layout(w, h, is_mine, revealed, flagged, remaining, c);
        }
        assert forall|m: Seq<bool>| #[trigger]
            consistent(w, h, mine_count, is_mine, revealed, m) implies completion(
            w,
            h,
            is_mine,
            revealed,
            flagged,
            remaining,
            minus(m, flagged),
        ) && minus(m, flagged)[x] == m[x] by {
            assert forall|f: int| 0 <= f < w * h && #[trigger] flagged[f] implies m[f] by {
                assert(deduced_mine(w, h, mine_count, is_mine, revealed, f));
            }
            lemma_layout_completion(w, h, mine_count, is_mine, revealed, flagged, remaining, m);
        }
        if deduced_mine(w, h, mine_count, is_mine, revealed, x) {
            assert forall|c: Seq<bool>| #[trigger]
                completion(w, h, is_mine, revealed, flagged, remaining, c) implies c[x] by {
                assert(consistent(w, h, mine_count, is_mine, revealed, union(flagged, c)));
            }
        }
        if mine_in_completions(w, h, is_mine, revealed, flagged, remaining, x) {
            assert forall|m: Seq<bool>| #[trigger]
                consistent(w, h, mine_count, is_mine, revealed, m) implies m[x] by {
                assert(completion(w, h, is_mine, revealed, flagged, remaining, minus(m, flagged)));
            }
        }
        if deduced_safe(w, h, mine_count, is_mine, revealed, x) {
            assert forall|c: Seq<bool>| #[trigger]
                completion(w, h, is_mine, revealed, flagged, remaining, c) implies !c[x] by {
                assert(consistent(w, h, mine_count, is_mine, revealed, union(flagged, c)));
            }
        }
        if safe_in_completions(w, h, is_mine, revealed, flagged, remaining, x) {
            assert forall|m: Seq<bool>| #[trigger]
                consistent(w, h, mine_count, is_mine, revealed, m) implies !m[x] by {
                assert(completion(w, h, is_mine, revealed, flagged, remaining, minus(m, flagged)));
            }
        }
    }
}

proof fn lemma_restrict_constraint(
    w: int,
    h: int,
    mine_count: int,
    is_mine: Seq<bool>,
    revealed: Seq<bool>,
    flagged: Seq<bool>,
    raw: Seq<(usize, Vec<usize>)>,
    owner: Seq<int>,
    on: Seq<bool>,
    frontier: Seq<int>,
    slot_of: Seq<usize>,
    constraints: Seq<(usize, Vec<usize>)>,
    sea_len: int,
    m: Seq<bool>,
    t: int,
)
    requires
        grid_ok(w, h, is_mine),
        revealed.len() == w * h,
        flagged.len() == w * h,
        forall|f: int| 0 <= f < w * h && #[trigger] flagged[f] ==> m[f],
        csp_setup(
            w,
            h,
            is_mine,
            revealed,
            flagged,
            raw,
            owner,
            on,
            frontier,
            slot_of,
            constraints,
            sea_len,
        ),
        consistent(w, h, mine_count, is_mine, revealed, m),
        0 <= t < raw.len(),
    ensures
        slot_count(constraints[t].1@, restrict(frontier, m)) == constraints[t].0,
{
    let n = w * h;
    let c = owner[t];
    let cells = nbr_cells(w, h, c);
    let len = cells.len() as int;
    let pu = unknown_at(revealed, flagged, cells);
    let pm = marked_at(m, cells);
    let pf = marked_at(flagged, cells);
    let e = enumerate(len, pu);
    let r = restrict(frontier, m);
    let slots = constraints[t].1@;
    lemma_nbr_cells(w, h, c);
    lemma_enumerate(len, pu);
    lemma_enumerate(n, front_p(revealed, flagged, on));
    // each slot reads the layout at the cell it stands for
    assert forall|s: int| 0 <= s < slots.len() implies #[trigger] slot_val(slots, r)(s) == along(
        e,
        pm,
    )(s) by {
        let v = raw[t].1@[s];
        assert(v == cells[e[s]]);
        assert(on[v as int]);
        assert(front_p(revealed, flagged, on)(v as int));
        assert(frontier.contains(v as int));
        let k = choose|k: int| 0 <= k < frontier.len() && frontier[k] == v as int;
        assert(slot_of[frontier[k]] == k);
        assert(slots[s] == slot_of[v as int]);
    }
    lemma_count_ext(slots.len() as int, slot_val(slots, r), along(e, pm));
    lemma_enumerate_count(len, pu, pm);
    // the number's count splits into flagged and undecided neighbours
    lemma_adj_marked(w, h, m, c, cells);
    lemma_count_split(len, pm, pf);
    assert forall|u: int| 0 <= u < len implies #[trigger] and_p(pm, pf)(u) == pf(u) by {
        if flagged[cells[u] as int] {
            assert(m[cells[u] as int]);
        }
    }
    lemma_count_ext(len, and_p(pm, pf), pf);
    assert forall|u: int| 0 <= u < len implies #[trigger] and_not_p(pm, pf)(u) == and_p(pu, pm)(
        u,
    ) by {
        if revealed[cells[u] as int] {
            assert(!m[cells[u] as int]);
        }
    }
    lemma_count_ext(len, and_not_p(pm, pf), and_p(pu, pm));
    assert(revealed[c]);
}

/// The frontier assignment of a consistent layout fits the frontier constraints, and
/// leaves for the sea exactly the mines the layout puts there.
proof fn lemma_restrict_fits(
    w: int,
    h: int,
    mine_count: int,
    is_mine: Seq<bool>,
    revealed: Seq<bool>,
    flagged: Seq<bool>,
    remaining: int,
    raw: Seq<(usize, Vec<usize>)>,
    owner: Seq<int>,
    on: Seq<bool>,
    frontier: Seq<int>,
    slot_of: Seq<usize>,
    constraints: Seq<(usize, Vec<usize>)>,
    sea_len: int,
    m: Seq<bool>,
)
    requires
        grid_ok(w, h, is_mine),
        revealed.len() == w * h,
        flagged.len() == w * h,
        forall|f: int| 0 <= f < w * h && #[trigger] flagged[f] ==> m[f],
        remaining + count_true(flagged) == mine_count,
        csp_setup(
            w,
            h,
            is_mine,
            revealed,
            flagged,
            raw,
            owner,
            on,
            frontier,
            slot_of,
            constraints,
            sea_len,
        ),
        consistent(w, h, mine_count, is_mine, revealed, m),
    ensures
        fits(constraints, remaining, sea_len, restrict(frontier, m)),
        remaining - count_true(restrict(frontier, m)) == count_idx(
            w * h,
            and_p(sea_p(revealed, flagged, on), true_at(m)),
        ),
{
    let n = w * h;
    let r = restrict(frontier, m);
    let pm = true_at(m);
    let pf = true_at(flagged);
    let pu = unknown_pred(revealed, flagged);
    let po = true_at(on);
    let fp = front_p(revealed, flagged, on);
    let sp = sea_p(revealed, flagged, on);
    // mines of `m` off the flags are exactly its undecided mines
    lemma_count_split(n, pm, pf);
    assert forall|i: int| 0 <= i < n implies #[trigger] and_p(pm, pf)(i) == pf(i) by {
        if flagged[i] {
            assert(m[i]);
        }
    }
    lemma_count_ext(n, and_p(pm, pf), pf);
    assert forall|i: int| 0 <= i < n implies #[trigger] and_not_p(pm, pf)(i) == and_p(pu, pm)(i) by {
        if revealed[i] {
            assert(!m[i]);
        }
    }
    lemma_count_ext(n, and_not_p(pm, pf), and_p(pu, pm));
    // undecided mines split into frontier and sea
    lemma_count_split(n, and_p(pu, pm), po);
    lemma_count_ext(n, and_p(and_p(pu, pm), po), and_p(fp, pm));
    lemma_count_ext(n, and_not_p(and_p(pu, pm), po), and_p(sp, pm));
    lemma_enumerate(n, fp);
    lemma_enumerate_count(n, fp, pm);
    lemma_count_ext(frontier.len() as int, true_at(r), along(frontier, pm));
    assert forall|i: int| 0 <= i < n && #[trigger] and_p(sp, pm)(i) implies sp(i) by {}
    lemma_count_mono(n, and_p(sp, pm), sp);
    assert forall|t: int| 0 <= t < constraints.len() implies #[trigger] slot_count(
        constraints[t].1@,
        r,
    ) == constraints[t].0 by {
        lemma_restrict_constraint(
            w,
            h,
            mine_count,
            is_mine,
            revealed,
            flagged,
            raw,
            owner,
            on,
            frontier,
            slot_of,
            constraints,
            sea_len,
            m,
            t,
        );
    }
}

/// The layout whose mines are the flags, the frontier slots that `a` sets, and the
/// cells of `sset`.
pub open spec fn extend(
    revealed: Seq<bool>,
    flagged: Seq<bool>,
    on: Seq<bool>,
    slot_of: Seq<usize>,
    a: Seq<bool>,
    sset: Seq<bool>,
) -> Seq<bool> {
    Seq::new(
        flagged.len(),
        |i: int|
            flagged[i] || (front_p(revealed, flagged, on)(i) && a[slot_of[i] as int]) || sset[i],
    )
}

/// A number sees in the extended layout the mines it shows, once its constraint
/// holds for the frontier assignment.
proof fn lemma_extend_adj(
    w: int,
    h: int,
    mine_count: int,
    is_mine: Seq<bool>,
    revealed: Seq<bool>,
    flagged: Seq<bool>,
    raw: Seq<(usize, Vec<usize>)>,
    owner: Seq<int>,
    on: Seq<bool>,
    frontier: Seq<int>,
    slot_of: Seq<usize>,
    constraints: Seq<(usize, Vec<usize>)>,
    sea_len: int,
    a: Seq<bool>,
    sset: Seq<bool>,
    t: int,
)
    requires
        grid_ok(w, h, is_mine),
        revealed.len() == w * h,
        flagged.len() == w * h,
        forall|i: int| 0 <= i < w * h && #[trigger] revealed[i] ==> !is_mine[i],
        forall|f: int| 0 <= f < w * h && #[trigger] flagged[f] ==> is_mine[f],
        csp_setup(
            w,
            h,
            is_mine,
            revealed,
            flagged,
            raw,
            owner,
            on,
            frontier,
            slot_of,
            constraints,
            sea_len,
        ),
        a.len() == frontier.len(),
        sset.len() == w * h,
        forall|i: int|
            0 <= i < w * h && #[trigger] sset[i] ==> sea_p(revealed, flagged, on)(i),
        0 <= t < raw.len(),
        slot_count(constraints[t].1@, a) == constraints[t].0,
    ensures
        adj_count(w, h, extend(revealed, flagged, on, slot_of, a, sset), owner[t]) == adj_count(
            w,
            h,
            is_mine,
            owner[t],
        ),
{
    let n = w * h;
    let c = owner[t];
    let m = extend(revealed, flagged, on, slot_of, a, sset);
    let cells = nbr_cells(w, h, c);
    let len = cells.len() as int;
    let pu = unknown_at(revealed, flagged, cells);
    let pm = marked_at(m, cells);
    let pf = marked_at(flagged, cells);
    let e = enumerate(len, pu);
    let slots = constraints[t].1@;
    lemma_nbr_cells(w, h, c);
    lemma_enumerate(len, pu);
    lemma_enumerate(n, front_p(revealed, flagged, on));
    // each slot reads the extended layout at the cell it stands for
    assert forall|s: int| 0 <= s < slots.len() implies #[trigger] slot_val(slots, a)(s) == along(
        e,
        pm,
    )(s) by {
        let v = raw[t].1@[s];
        assert(v == cells[e[s]]);
        assert(on[v as int]);
        assert(front_p(revealed, flagged, on)(v as int));
        assert(slots[s] == slot_of[v as int]);
        if sset[v as int] {
            assert(sea_p(revealed, flagged, on)(v as int));
        }
    }
    lemma_count_ext(slots.len() as int, slot_val(slots, a), along(e, pm));
    lemma_enumerate_count(len, pu, pm);
    // the layout's count splits into flagged and undecided neighbours
    lemma_adj_marked(w, h, m, c, cells);
    lemma_count_split(len, pm, pf);
    assert forall|u: int| 0 <= u < len implies #[trigger] and_p(pm, pf)(u) == pf(u) by {}
    lemma_count_ext(len, and_p(pm, pf), pf);
    assert forall|u: int| 0 <= u < len implies #[trigger] and_not_p(pm, pf)(u) == and_p(pu, pm)(
        u,
    ) by {
        let v = cells[u] as int;
        if revealed[v] {
            assert(!is_mine[v]);
            if sset[v] {
                assert(sea_p(revealed, flagged, on)(v));
            }
            assert(!m[v]);
        }
    }
    lemma_count_ext(len, and_not_p(pm, pf), and_p(pu, pm));
}

/// A frontier assignment that fits the constraints, with the mines it leaves for
/// the sea put on the sea cells of `sset`, is a layout consistent with what is
/// revealed.
proof fn lemma_extend_consistent(
    w: int,
    h: int,
    mine_count: int,
    is_mine: Seq<bool>,
    revealed: Seq<bool>,
    flagged: Seq<bool>,
    remaining: int,
    raw: Seq<(usize, Vec<usize>)>,
    owner: Seq<int>,
    on: Seq<bool>,
    frontier: Seq<int>,
    slot_of: Seq<usize>,
    constraints: Seq<(usize, Vec<usize>)>,
    sea_len: int,
    a: Seq<bool>,
    sset: Seq<bool>,
)
    requires
        grid_ok(w, h, is_mine),
        revealed.len() == w * h,
        flagged.len() == w * h,
        forall|i: int| 0 <= i < w * h && #[trigger] revealed[i] ==> !is_mine[i],
        forall|f: int| 0 <= f < w * h && #[trigger] flagged[f] ==> is_mine[f],
        remaining + count_true(flagged) == mine_count,
        csp_setup(
            w,
            h,
            is_mine,
            revealed,
            flagged,
            raw,
            owner,
            on,
            frontier,
            slot_of,
            constraints,
            sea_len,
        ),
        a.len() == frontier.len(),
        fits(constraints, remaining, sea_len, a),
        sset.len() == w * h,
        forall|i: int|
            0 <= i < w * h && #[trigger] sset[i] ==> sea_p(revealed, flagged, on)(i),
        count_true(sset) == remaining - count_true(a),
    ensures
        consistent(
            w,
            h,
            mine_count,
            is_mine,
            revealed,
            extend(revealed, flagged, on, slot_of, a, sset),
        ),
        forall|k: int|
            0 <= k < frontier.len() ==> #[trigger] extend(
                revealed,
                flagged,
                on,
                slot_of,
                a,
                sset,
            )[frontier[k]] == a[k],
        forall|i: int|
            0 <= i < w * h && sea_p(revealed, flagged, on)(i) ==> #[trigger] extend(
                revealed,
                flagged,
                on,
                slot_of,
                a,
                sset,
            )[i] == sset[i],
{
    let n = w * h;
    let m = extend(revealed, flagged, on, slot_of, a, sset);
    let pm = true_at(m);
    let pf = true_at(flagged);
    let po = true_at(on);
    let fp = front_p(revealed, flagged, on);
    let sp = sea_p(revealed, flagged, on);
    let q = |i: int| a[slot_of[i] as int];
    // the mines are the flags, the frontier mines and the sea mines
    lemma_count_split(n, pm, pf);
    assert forall|i: int| 0 <= i < n implies #[trigger] and_p(pm, pf)(i) == pf(i) by {}
    lemma_count_ext(n, and_p(pm, pf), pf);
    lemma_count_split(n, and_not_p(pm, pf), po);
    assert forall|i: int| 0 <= i < n implies #[trigger] and_p(and_not_p(pm, pf), po)(i) == and_p(
        fp,
        q,
    )(i) by {
        if sset[i] {
            assert(sp(i));
        }
    }
    lemma_count_ext(n, and_p(and_not_p(pm, pf), po), and_p(fp, q));
    assert forall|i: int| 0 <= i < n implies #[trigger] and_not_p(and_not_p(pm, pf), po)(i)
        == true_at(sset)(i) by {
        if sset[i] {
            assert(sp(i));
        }
    }
    lemma_count_ext(n, and_not_p(and_not_p(pm, pf), po), true_at(sset));
    lemma_enumerate(n, fp);
    lemma_enumerate_count(n, fp, q);
    assert forall|k: int| 0 <= k < frontier.len() implies #[trigger] along(frontier, q)(k)
        == true_at(a)(k) by {
        assert(slot_of[frontier[k]] == k);
    }
    lemma_count_ext(frontier.len() as int, along(frontier, q), true_at(a));
    // what each number sees
    assert forall|i: int| 0 <= i < n && #[trigger] revealed[i] implies !m[i] && adj_count(
        w,
        h,
        m,
        i,
    ) == adj_count(w, h, is_mine, i) by {
        if sset[i] {
            assert(sp(i));
        }
        let t = choose|t: int| 0 <= t < owner.len() && owner[t] == i;
        lemma_extend_adj(
            w,
            h,
            mine_count,
            is_mine,
            revealed,
            flagged,
            raw,
            owner,
            on,
            frontier,
            slot_of,
            constraints,
            sea_len,
            a,
            sset,
            t,
        );
    }
    assert forall|k: int| 0 <= k < frontier.len() implies #[trigger] m[frontier[k]] == a[k] by {
        let v = frontier[k];
        assert(fp(v));
        assert(slot_of[v] == k);
        if sset[v] {
            assert(sp(v));
        }
    }
}

/// The frontier assignment of a completion fits the frontier constraints, and
/// leaves for the sea exactly the mines the completion puts there.
proof fn lemma_completion_fits(
    w: int,
    h: int,
    mine_count: int,
    is_mine: Seq<bool>,
    revealed: Seq<bool>,
    flagged: Seq<bool>,
    remaining: int,
    raw: Seq<(usize, Vec<usize>)>,
    owner: Seq<int>,
    on: Seq<bool>,
    frontier: Seq<int>,
    slot_of: Seq<usize>,
    constraints: Seq<(usize, Vec<usize>)>,
    sea_len: int,
    c: Seq<bool>,
)
    requires
        grid_ok(w, h, is_mine),
        revealed.len() == w * h,
        flagged.len() == w * h,
        forall|i: int| 0 <= i < w * h && #[trigger] revealed[i] ==> !flagged[i],
        remaining + count_true(flagged) == mine_count,
        csp_setup(
            w,
            h,
            is_mine,
            revealed,
            flagged,
            raw,
            owner,
            on,
            frontier,
            slot_of,
            constraints,
            sea_len,
        ),
        completion(w, h, is_mine, revealed, flagged, remaining, c),
    ensures
        fits(constraints, remaining, sea_len, restrict(frontier, c)),
        remaining - count_true(restrict(frontier, c)) == count_idx(
            w * h,
            and_p(sea_p(revealed, flagged, on), true_at(c)),
        ),
{
    let n = w * h;
    let m = union(flagged, c);
    let sp = sea_p(revealed, flagged, on);
    lemma_completion_layout(w, h, is_mine, revealed, flagged, remaining, c);
    lemma_restrict_fits(
            w,
            h,
            mine_count,
            is_mine,
            revealed,
            flagged,
            remaining,
            raw,
            owner,
            on,
            frontier,
            slot_of,
            constraints,
            sea_len,
            m,
        );
    lemma_enumerate(n, front_p(revealed, flagged, on));
    assert(restrict(frontier, m) =~= restrict(frontier, c)) by {
        assert forall|k: int| 0 <= k < frontier.len() implies #[trigger] m[frontier[k]]
            == c[frontier[k]] by {
            assert(front_p(revealed, flagged, on)(frontier[k]));
        }
    }
    assert forall|i: int| 0 <= i < n implies #[trigger] and_p(sp, true_at(m))(i) == and_p(
        sp,
        true_at(c),
    )(i) by {}
    lemma_count_ext(n, and_p(sp, true_at(m)), and_p(sp, true_at(c)));
}

/// A frontier assignment that fits the constraints, with the mines it leaves for
/// the sea put on the sea cells of `sset`, gives a completion.
proof fn lemma_extend_completion(
    w: int,
    h: int,
    mine_count: int,
    is_mine: Seq<bool>,
    revealed: Seq<bool>,
    flagged: Seq<bool>,
    remaining: int,
    raw: Seq<(usize, Vec<usize>)>,
    owner: Seq<int>,
    on: Seq<bool>,
    frontier: Seq<int>,
    slot_of: Seq<usize>,
    constraints: Seq<(usize, Vec<usize>)>,
    sea_len: int,
    a: Seq<bool>,
    sset: Seq<bool>,
)
    requires
        grid_ok(w, h, is_mine),
        revealed.len() == w * h,
        flagged.len() == w * h,
        forall|i: int| 0 <= i < w * h && #[trigger] revealed[i] ==> !is_mine[i],
        forall|f: int| 0 <= f < w * h && #[trigger] flagged[f] ==> is_mine[f],
        remaining + count_true(flagged) == mine_count,
        csp_setup(
            w,
            h,
            is_mine,
            revealed,
            flagged,
            raw,
            owner,
            on,
            frontier,
            slot_of,
            constraints,
            sea_len,
        ),
        a.len() == frontier.len(),
        fits(constraints, remaining, sea_len, a),
        sset.len() == w * h,
        forall|i: int|
            0 <= i < w * h && #[trigger] sset[i] ==> sea_p(revealed, flagged, on)(i),
        count_true(sset) == remaining - count_true(a),
    ensures
        completion(
            w,
            h,
            is_mine,
            revealed,
            flagged,
            remaining,
            minus(extend(revealed, flagged, on, slot_of, a, sset), flagged),
        ),
        forall|k: int|
            0 <= k < frontier.len() ==> #[trigger] minus(
                extend(revealed, flagged, on, slot_of, a, sset),
                flagged,
            )[frontier[k]] == a[k],
        forall|i: int|
            0 <= i < w * h && sea_p(revealed, flagged, on)(i) ==> #[trigger] minus(
                extend(revealed, flagged, on, slot_of, a, sset),
                flagged,
            )[i] == sset[i],
{
    let n = w * h;
    let m = extend(revealed, flagged, on, slot_of, a, sset);
    lemma_extend_consistent(
            w,
            h,
            mine_count,
            is_mine,
            revealed,
            flagged,
            remaining,
            raw,
            owner,
            on,
            frontier,
            slot_of,
            constraints,
            sea_len,
            a,
            sset,
        );
    lemma_layout_completion(w, h, mine_count, is_mine, revealed, flagged, remaining, m);
    lemma_enumerate(n, front_p(revealed, flagged, on));
    assert forall|k: int| 0 <= k < frontier.len() implies #[trigger] minus(m, flagged)[frontier[k]]
        == a[k] by {
        assert(front_p(revealed, flagged, on)(frontier[k]));
        assert(m[frontier[k]] == a[k]);
    }
}

/// Enumerate the completions of what is known on the constraint frontier and
/// return, per cell, whether every completion agrees that it is a mine or that it
/// is free. Sea cells (next to no revealed number) share the mines the frontier
/// leaves. A frontier of more than 22 cells is not enumerated: nothing is decided.
fn deduce_from_completions(
    width: usize,
    height: usize,
    is_mine: &[bool],
    revealed: &Vec<bool>,
    flagged: &Vec<bool>,
    remaining_mines: usize,
) -> (res: Option<(Vec<bool>, Vec<bool>)>)
    requires
        width * height <= isize::MAX,
        is_mine@.len() == width * height,
        revealed@.len() == width * height,
        flagged@.len() == width * height,
        forall|i: int|
            0 <= i < width * height && #[trigger] revealed@[i] ==> !flagged@[i] && !is_mine@[i],
        forall|f: int| 0 <= f < width * height && #[trigger] flagged@[f] ==> is_mine@[f],
    ensures
        res is None ==> forall|c: Seq<bool>|
            !#[trigger] completion(
                width as int,
                height as int,
                is_mine@,
                revealed@,
                flagged@,
                remaining_mines as int,
                c,
            ),
        count_true(is_mine@) == remaining_mines + count_true(flagged@) ==> res is Some,
        frontier_size(width as int, height as int, revealed@, flagged@) > 22 ==> res is Some,
        res is Some && frontier_size(width as int, height as int, revealed@, flagged@) <= 22 && (exists|
            c: int,
        | 0 <= c < width * height && !revealed@[c] && !flagged@[c]) ==> exists|c: Seq<bool>|
            #[trigger] completion(
                width as int,
                height as int,
                is_mine@,
                revealed@,
                flagged@,
                remaining_mines as int,
                c,
            ),
        res matches Some(r) ==> {
            &&& r.0@.len() == width * height
            &&& r.1@.len() == width * height
            &&& forall|c: int|
                0 <= c < width * height && #[trigger] r.0@[c] ==> mine_in_completions(
                    width as int,
                    height as int,
                    is_mine@,
                    revealed@,
                    flagged@,
                    remaining_mines as int,
                    c,
                )
            &&& forall|c: int|
                0 <= c < width * height && #[trigger] r.1@[c] ==> safe_in_completions(
                    width as int,
                    height as int,
                    is_mine@,
                    revealed@,
                    flagged@,
                    remaining_mines as int,
                    c,
                )
            &&& forall|c: int|
                0 <= c < width * height && #[trigger] r.0@[c] ==> !revealed@[c] && !flagged@[c]
            &&& forall|c: int|
                0 <= c < width * height && #[trigger] r.1@[c] ==> !revealed@[c] && !flagged@[c]
            &&& frontier_size(width as int, height as int, revealed@, flagged@) <= 22 ==> forall|c: int|
                0 <= c < width * height && !revealed@[c] && !flagged@[c] && #[trigger] safe_in_completions(
                    width as int,
                    height as int,
                    is_mine@,
                    revealed@,
                    flagged@,
                    remaining_mines as int,
                    c,
                ) ==> r.1@[c]
            &&& frontier_size(width as int, height as int, revealed@, flagged@) <= 22 ==> forall|c: int|
                0 <= c < width * height && !revealed@[c] && !flagged@[c] && #[trigger] mine_in_completions(
                    width as int,
                    height as int,
                    is_mine@,
                    revealed@,
                    flagged@,
                    remaining_mines as int,
                    c,
                ) ==> r.0@[c]
            &&& frontier_size(width as int, height as int, revealed@, flagged@) > 22 ==> forall|c: int|
                0 <= c < width * height ==> !#[trigger] r.0@[c] && !r.1@[c]
        },
{
    let ghost w = width as int;
    let ghost h = height as int;
    let ghost mc = remaining_mines + count_true(flagged@);
    let ghost rem = remaining_mines as int;
    let n = width * height;
    let ghost rev = revealed@;
    let ghost fl = flagged@;
    let unknowns = unknown_cells(revealed, flagged);
    if unknowns.len() == 0 {
        proof {
            lemma_enumerate(n as int, unknown_pred(rev, fl));
            lemma_count_zero(n as int, unknown_pred(rev, fl));
            assert forall|c: int| 0 <= c < n implies rev[c] || fl[c] by {
                assert(!unknown_pred(rev, fl)(c));
            }
            assert forall|c: int| 0 <= c < n implies !#[trigger] border_p(w, h, rev, fl)(c) by {
                assert(!unknown_pred(rev, fl)(c));
            }
            lemma_count_none(n as int, border_p(w, h, rev, fl));
        }
        return Some((vec![false; n], vec![false; n]));
    }
    proof {
        lemma_enumerate(n as int, unknown_pred(rev, fl));
        lemma_count_bound(n as int, unknown_pred(rev, fl));
        assert(w > 0 && h > 0) by (nonlinear_arith)
            requires
                n == w * h,
                n > 0,
                w >= 0,
                h >= 0,
        ;
    }
    // One constraint per revealed number: mines still missing among its undecided
    // neighbours.

    let mut constraints: Vec<(usize, Vec<usize>)> = Vec::new();
    let ghost mut owner: Seq<int> = Seq::empty();
    let mut i: usize = 0;
    while i < n
        invariant
            grid_ok(w, h, is_mine@),
            w == width,
            h == height,
            n == w * h,
            i <= n,
            rev == revealed@,
            fl == flagged@,
            rev.len() == n,
            fl.len() == n,
            forall|f: int| 0 <= f < n && #[trigger] fl[f] ==> is_mine@[f],
            raw_ok(w, h, is_mine@, rev, fl, constraints@, owner),
            forall|t: int, s: int|
                0 <= t < constraints@.len() && 0 <= s < constraints@[t].1@.len()
                    ==> #[trigger] constraints@[t].1@[s] < n,
            forall|c: int|
                0 <= c < i && #[trigger] rev[c] && !is_mine@[c] ==> exists|t: int|
                    0 <= t < owner.len() && owner[t] == c,
        decreases n - i,
    {
        if !revealed[i] || is_mine[i] {
            i = i + 1;
            continue;
        }
        let need = adjacency(width, height, is_mine, i) as usize;
        let nbrs = neighbors(width, height, i);
        let flagged_n = count_marked(&nbrs, flagged);
        let vars = unknown_among(&nbrs, revealed, flagged);
        proof {
            lemma_nbr_cells(w, h, i as int);
            assert(nbrs@ =~= nbr_cells(w, h, i as int));
            assert(vars@ =~= hidden_nbrs(w, h, rev, fl, i as int));
            lemma_adj_marked(w, h, is_mine@, i as int, nbrs@);
            assert forall|k: int|
                0 <= k < nbrs@.len() && #[trigger] marked_at(fl, nbrs@)(k) implies marked_at(
                is_mine@,
                nbrs@,
            )(k) by {
                assert(fl[nbrs@[k] as int]);
            }
            lemma_count_mono(nbrs@.len() as int, marked_at(fl, nbrs@), marked_at(is_mine@, nbrs@));
        }
        constraints.push((need.saturating_sub(flagged_n), vars));
        proof {
            let old_owner = owner;
            owner = owner.push(i as int);
            assert forall|c: int| 0 <= c < i + 1 && #[trigger] rev[c] && !is_mine@[c] implies exists|
                t: int,
            | 0 <= t < owner.len() && owner[t] == c by {
                if c == i {
                    assert(owner[old_owner.len() as int] == c);
                } else {
                    let t = choose|t: int| 0 <= t < old_owner.len() && old_owner[t] == c;
                    assert(owner[t] == c);
                }
            }
            assert forall|t: int|
                0 <= t < constraints@.len() implies {
                let c = #[trigger] owner[t];
                &&& 0 <= c < w * h
                &&& rev[c]
                &&& !is_mine@[c]
                &&& constraints@[t].0 + count_idx(
                    nbr_cells(w, h, c).len() as int,
                    marked_at(fl, nbr_cells(w, h, c)),
                ) == adj_count(w, h, is_mine@, c)
                &&& constraints@[t].1@ == hidden_nbrs(w, h, rev, fl, c)
            } by {}
            assert forall|t: int, s: int|
                0 <= t < constraints@.len() && 0 <= s < constraints@[t].1@.len() implies #[trigger] constraints@[t].1@[s]
                < n by {
                if t == constraints@.len() - 1 {
                    lemma_enumerate(
                        nbrs@.len() as int,
                        unknown_at(revealed@, flagged@, nbrs@),
                    );
                }
            }
        }
        i = i + 1;
    }
    let ghost raw = constraints@;
    // Cells named by some constraint form the frontier; the other undecided cells
    // are the sea.

    let mut on_frontier = vec![false; n];
    let mut t: usize = 0;
    while t < constraints.len()
        invariant
            t <= constraints@.len(),
            raw == constraints@,
            on_frontier@.len() == n,
            forall|v: int|
                0 <= v < n && #[trigger] on_frontier@[v] ==> exists|u: int, s2: int|
                    0 <= u < raw.len() && 0 <= s2 < raw[u].1@.len() && raw[u].1@[s2] as int == v,
            forall|u: int, s: int|
                0 <= u < raw.len() && 0 <= s < raw[u].1@.len() ==> #[trigger] raw[u].1@[s] < n,
            forall|u: int, s: int|
                0 <= u < t && 0 <= s < raw[u].1@.len() ==> on_frontier@[#[trigger] raw[u].1@[s] as int],
        decreases constraints@.len() - t,
    {
        let vars = &constraints[t].1;
        let mut s: usize = 0;
        while s < vars.len()
            invariant
                t < raw.len(),
                raw == constraints@,
                vars@ == raw[t as int].1@,
                s <= vars@.len(),
                on_frontier@.len() == n,
                forall|u: int, s2: int|
                    0 <= u < raw.len() && 0 <= s2 < raw[u].1@.len() ==> #[trigger] raw[u].1@[s2] < n,
                forall|u: int, s2: int|
                    0 <= u < t && 0 <= s2 < raw[u].1@.len() ==> on_frontier@[#[trigger] raw[u].1@[s2] as int],
                forall|s2: int| 0 <= s2 < s ==> on_frontier@[#[trigger] vars@[s2] as int],
                forall|v: int|
                    0 <= v < n && #[trigger] on_frontier@[v] ==> exists|u: int, s2: int|
                        0 <= u < raw.len() && 0 <= s2 < raw[u].1@.len() && raw[u].1@[s2] as int == v,
            decreases vars@.len() - s,
        {
            assert(vars@[s as int] < n);
            let ghost before = on_frontier@;
            on_frontier.set(vars[s], true);
            proof {
                assert forall|v: int| 0 <= v < n && #[trigger] on_frontier@[v] implies exists|
                    u: int,
                    s2: int,
                | 0 <= u < raw.len() && 0 <= s2 < raw[u].1@.len() && raw[u].1@[s2] as int == v by {
                    if v == vars@[s as int] as int {
                        assert(raw[t as int].1@[s as int] as int == v);
                    } else {
                        assert(before[v]);
                    }
                }
            }
            s = s + 1;
        }
        t = t + 1;
    }
    let ghost on = on_frontier@;
    let ghost fp = front_p(rev, fl, on);
    let ghost sp = sea_p(rev, fl, on);
    let mut frontier: Vec<usize> = Vec::new();
    let mut sea_len: usize = 0;
    let mut i: usize = 0;
    while i < n
        invariant
            i <= n,
            rev == revealed@,
            fl == flagged@,
            on == on_frontier@,
            rev.len() == n,
            fl.len() == n,
            on.len() == n,
            n <= isize::MAX,
            fp == front_p(rev, fl, on),
            sp == sea_p(rev, fl, on),
            frontier@.len() == enumerate(i as int, fp).len(),
            forall|k: int| 0 <= k < frontier@.len() ==> #[trigger] frontier@[k] as int == enumerate(i as int, fp)[k],
            sea_len == count_idx(i as int, sp),
        decreases n - i,
    {
        proof {
            lemma_count_bound(i as int, sp);
        }
        if !revealed[i] && !flagged[i] {
            if on_frontier[i] {
                frontier.push(i);
            } else {
                sea_len = sea_len + 1;
            }
        }
        i = i + 1;
    }
    let ghost fr = enumerate(n as int, fp);
    proof {
        lemma_enumerate(n as int, fp);
        lemma_enumerate(n as int, sp);
        assert forall|v: int| 0 <= v < n && #[trigger] fp(v) implies !sp(v) by {}
        lemma_count_bound(n as int, fp);
    }
    // Frontier too large for one enumeration: no progress this step (conservative —
    // may increase the Fallback rate; never marks a Forced-guess board as No-guess).
    proof {
        assert(w > 0 && h > 0) by (nonlinear_arith)
            requires
                n == w * h,
                n > 0,
                w >= 0,
                h >= 0,
        ;
        assert(on_ok(w, h, is_mine@, rev, fl, raw, owner, on));
        lemma_front_is_border(w, h, is_mine@, rev, fl, raw, owner, on);
        lemma_count_ext(n as int, fp, border_p(w, h, rev, fl));
    }
    if frontier.len() > 22 {
        return Some((vec![false; n], vec![false; n]));
    }
    let f_len = frontier.len();
    let mut slot_of: Vec<usize> = vec![0; n];
    let mut k: usize = 0;
    while k < f_len
        invariant
            k <= f_len,
            f_len == frontier@.len(),
            slot_of@.len() == n,
            frontier@.len() == fr.len(),
            forall|j: int| 0 <= j < frontier@.len() ==> #[trigger] frontier@[j] as int == fr[j],
            forall|j: int| 0 <= j < fr.len() ==> 0 <= #[trigger] fr[j] < n,
            forall|j1: int, j2: int| 0 <= j1 < j2 < fr.len() ==> #[trigger] fr[j1] < #[trigger] fr[j2],
            forall|j: int| 0 <= j < k ==> slot_of@[#[trigger] fr[j]] == j,
        decreases f_len - k,
    {
        let v = frontier[k];
        slot_of.set(v, k);
        proof {
            assert forall|j: int| 0 <= j < k + 1 implies slot_of@[#[trigger] fr[j]] == j by {
                if j < k {
                    assert(fr[j] < fr[k as int]);
                }
            }
        }
        k = k + 1;
    }
    // Constraints over frontier slots.
    let mut slot_constraints: Vec<(usize, Vec<usize>)> = Vec::new();
    let mut t: usize = 0;
    while t < constraints.len()
        invariant
            t <= raw.len(),
            raw == constraints@,
            slot_of@.len() == n,
            forall|u: int, s: int|
                0 <= u < raw.len() && 0 <= s < raw[u].1@.len() ==> #[trigger] raw[u].1@[s] < n,
            slot_constraints@.len() == t,
            forall|u: int|
                0 <= u < t ==> {
                    &&& (#[trigger] slot_constraints@[u]).0 == raw[u].0
                    &&& slot_constraints@[u].1@.len() == raw[u].1@.len()
                    &&& forall|s: int|
                        0 <= s < raw[u].1@.len() ==> #[trigger] slot_constraints@[u].1@[s]
                            == slot_of@[raw[u].1@[s] as int]
                },
        decreases raw.len() - t,
    {
        let vars = &constraints[t].1;
        let mut slots: Vec<usize> = Vec::with_capacity(vars.len());
        let mut s: usize = 0;
        while s < vars.len()
            invariant
                t < raw.len(),
                raw == constraints@,
                vars@ == raw[t as int].1@,
                s <= vars@.len(),
                slot_of@.len() == n,
                forall|u: int, s2: int|
                    0 <= u < raw.len() && 0 <= s2 < raw[u].1@.len() ==> #[trigger] raw[u].1@[s2] < n,
                slots@.len() == s,
                forall|s2: int| 0 <= s2 < s ==> #[trigger] slots@[s2] == slot_of@[vars@[s2] as int],
            decreases vars@.len() - s,
        {
            assert(vars@[s as int] < n);
            slots.push(slot_of[vars[s]]);
            s = s + 1;
        }
        slot_constraints.push((constraints[t].0, slots));
        t = t + 1;
    }
    let ghost cons = slot_constraints@;
    proof {
        assert(fr == frontier@.map_values(|v: usize| v as int));
        assert(csp_setup(w, h, is_mine@, rev, fl, raw, owner, on, fr, slot_of@, cons, sea_len as int));
        // every slot names a frontier cell
        assert forall|u: int, s: int|
            0 <= u < cons.len() && 0 <= s < cons[u].1@.len() implies #[trigger] cons[u].1@[s]
            < f_len by {
            let v = raw[u].1@[s];
            let c = owner[u];
            let cells = nbr_cells(w, h, c);
            let pu = unknown_at(rev, fl, cells);
            lemma_enumerate(cells.len() as int, pu);
            assert(raw[u].1@ == hidden_nbrs(w, h, rev, fl, c));
            assert(on[v as int]);
            assert(fp(v as int));
            assert(fr.contains(v as int));
            let kk = choose|kk: int| 0 <= kk < fr.len() && fr[kk] == v as int;
            assert(slot_of@[fr[kk]] == kk);
        }
        assert(slots_in(cons, f_len as int));
        assert(f_len + sea_len <= isize::MAX) by {
            lemma_count_split(n as int, unknown_pred(rev, fl), true_at(on));
            lemma_count_ext(n as int, and_p(unknown_pred(rev, fl), true_at(on)), fp);
            lemma_count_ext(n as int, and_not_p(unknown_pred(rev, fl), true_at(on)), sp);
            lemma_count_bound(n as int, unknown_pred(rev, fl));
        }
    }
    let mut mine_in_all = vec![true; f_len];
    let mut safe_in_all = vec![true; f_len];
    let mut sea_always_mine = true;
    let mut sea_always_safe = true;
    let mut found = false;
    let mut assign = vec![false; f_len];
    let mut partial: Vec<Option<bool>> = vec![None; f_len];
    let ghost a0 = assign@;
    proof {
        assert(partial_of(partial@, assign@, 0));
    }
    search(
        0,
        0,
        remaining_mines,
        sea_len,
        &mut assign,
        &mut partial,
        &slot_constraints,
        &mut mine_in_all,
        &mut safe_in_all,
        &mut sea_always_mine,
        &mut sea_always_safe,
        &mut found,
    );
    let ghost sl = sea_len as int;
    let ghost fl_len = f_len as int;
    proof {
        assert forall|m: Seq<bool>| #[trigger]
            completion(w, h, is_mine@, rev, fl, rem, m) implies candidate(
            cons,
            rem,
            sl,
            fl_len,
            a0,
            0,
            restrict(fr, m),
        ) by {
            lemma_completion_fits(
                w,
                h,
                mc,
                is_mine@,
                rev,
                fl,
                rem,
                raw,
                owner,
                on,
                fr,
                slot_of@,
                cons,
                sl,
                m,
            );
        }
    }
    if !found {
        proof {
            assert forall|m: Seq<bool>|
                !#[trigger] completion(w, h, is_mine@, rev, fl, rem, m) by {
                if completion(w, h, is_mine@, rev, fl, rem, m) {
                    assert(candidate(cons, rem, sl, fl_len, a0, 0, restrict(fr, m)));
                }
            }
            // the real layout, without its flags, would be a completion
            if count_true(is_mine@) == remaining_mines + count_true(fl) {
                let truth = count_true(is_mine@) as int;
                lemma_truth_consistent(w, h, truth, is_mine@, rev);
                lemma_layout_completion(w, h, truth, is_mine@, rev, fl, rem, is_mine@);
                assert(completion(w, h, is_mine@, rev, fl, rem, minus(is_mine@, fl)));
            }
        }
        return None;
    }
    let mut always_mine = vec![false; n];
    let mut always_safe = vec![false; n];
    let mut k: usize = 0;
    while k < f_len
        invariant
            k <= f_len,
            f_len == frontier@.len(),
            frontier@.len() == fr.len(),
            forall|j: int| 0 <= j < frontier@.len() ==> #[trigger] frontier@[j] as int == fr[j],
            forall|j: int| 0 <= j < fr.len() ==> 0 <= #[trigger] fr[j] < n,
            mine_in_all@.len() == f_len,
            safe_in_all@.len() == f_len,
            forall|j: int|
                0 <= j < f_len ==> #[trigger] mine_in_all@[j] == (true && mine_in_every(
                    cons,
                    rem,
                    sl,
                    fl_len,
                    a0,
                    0,
                    j,
                )),
            forall|j: int|
                0 <= j < f_len ==> #[trigger] safe_in_all@[j] == (true && safe_in_every(
                    cons,
                    rem,
                    sl,
                    fl_len,
                    a0,
                    0,
                    j,
                )),
            forall|m: Seq<bool>| #[trigger]
                completion(w, h, is_mine@, rev, fl, rem, m) ==> candidate(
                    cons,
                    rem,
                    sl,
                    fl_len,
                    a0,
                    0,
                    restrict(fr, m),
                ),
            always_mine@.len() == n,
            always_safe@.len() == n,
            forall|c: int|
                0 <= c < n && #[trigger] always_mine@[c] ==> mine_in_completions(w, h, is_mine@, rev, fl, rem, c),
            forall|c: int|
                0 <= c < n && #[trigger] always_safe@[c] ==> safe_in_completions(w, h, is_mine@, rev, fl, rem, c),
            forall|j: int| 0 <= j < k && #[trigger] safe_in_all@[j] ==> always_safe@[fr[j]],
            forall|j: int| 0 <= j < k && #[trigger] mine_in_all@[j] ==> always_mine@[fr[j]],
            forall|j: int| 0 <= j < fr.len() ==> #[trigger] fp(fr[j]),
            fp == front_p(rev, fl, on),
            rev.len() == n,
            fl.len() == n,
            forall|c: int| 0 <= c < n && #[trigger] always_mine@[c] ==> !rev[c] && !fl[c],
            forall|c: int| 0 <= c < n && #[trigger] always_safe@[c] ==> !rev[c] && !fl[c],
        decreases f_len - k,
    {
        let cell = frontier[k];
        proof {
            assert(fr[k as int] == cell as int);
            assert(fp(cell as int));
        }
        if mine_in_all[k] {
            proof {
                assert forall|m: Seq<bool>| #[trigger]
                    completion(w, h, is_mine@, rev, fl, rem, m) implies m[cell as int] by {
                    assert(candidate(cons, rem, sl, fl_len, a0, 0, restrict(fr, m)));
                }
            }
            always_mine.set(cell, true);
        }
        if safe_in_all[k] {
            proof {
                assert forall|m: Seq<bool>| #[trigger]
                    completion(w, h, is_mine@, rev, fl, rem, m) implies !m[cell as int] by {
                    assert(candidate(cons, rem, sl, fl_len, a0, 0, restrict(fr, m)));
                }
            }
            always_safe.set(cell, true);
        }
        k = k + 1;
    }
    if sea_len > 0 {
        proof {
            lemma_enumerate(n as int, unknown_pred(rev, fl));
        }
        let mut u: usize = 0;
        while u < unknowns.len()
            invariant
                u <= unknowns@.len(),
                grid_ok(w, h, is_mine@),
                n == w * h,
                rev.len() == n,
                fl.len() == n,
                on == on_frontier@,
                on.len() == n,
                sp == sea_p(rev, fl, on),
                sl == count_idx(n as int, sp),
                forall|f: int| 0 <= f < n && #[trigger] fl[f] ==> is_mine@[f],
                forall|i: int| 0 <= i < n && #[trigger] rev[i] ==> !fl[i] && !is_mine@[i],
                rem + count_true(fl) == mc,
                csp_setup(w, h, is_mine@, rev, fl, raw, owner, on, fr, slot_of@, cons, sl),
                unknowns@.len() == enumerate(n as int, unknown_pred(rev, fl)).len(),
                forall|t: int|
                    0 <= t < unknowns@.len() ==> #[trigger] unknowns@[t] as int == enumerate(
                        n as int,
                        unknown_pred(rev, fl),
                    )[t],
                forall|t: int|
                    0 <= t < enumerate(n as int, unknown_pred(rev, fl)).len() ==> 0
                        <= #[trigger] enumerate(n as int, unknown_pred(rev, fl))[t] < n && unknown_pred(rev, fl)(
                        enumerate(n as int, unknown_pred(rev, fl))[t],
                    ),
                forall|m: Seq<bool>| #[trigger]
                    completion(w, h, is_mine@, rev, fl, rem, m) ==> candidate(
                        cons,
                        rem,
                        sl,
                        fl_len,
                        a0,
                        0,
                        restrict(fr, m),
                    ),
                sea_always_mine == sea_in_every(cons, rem, sl, fl_len, a0, 0, sl),
                sea_always_safe == sea_in_every(cons, rem, sl, fl_len, a0, 0, 0),
                mine_in_all@.len() == f_len,
                forall|j: int| 0 <= j < f_len && #[trigger] mine_in_all@[j] ==> always_mine@[fr[j]],
                forall|j: int|
                    0 <= j < f_len ==> #[trigger] mine_in_all@[j] == (true && mine_in_every(
                        cons,
                        rem,
                        sl,
                        fl_len,
                        a0,
                        0,
                        j,
                    )),
                forall|t: int|
                    0 <= t < u && sp(#[trigger] unknowns@[t] as int) && sea_always_mine
                        ==> always_mine@[unknowns@[t] as int],
                forall|c: int| 0 <= c < n && #[trigger] always_mine@[c] ==> !rev[c] && !fl[c],
                forall|c: int| 0 <= c < n && #[trigger] always_safe@[c] ==> !rev[c] && !fl[c],
                f_len == fr.len(),
                forall|j: int| 0 <= j < fr.len() ==> 0 <= #[trigger] fr[j] < n,
                safe_in_all@.len() == f_len,
                forall|j: int| 0 <= j < f_len && #[trigger] safe_in_all@[j] ==> always_safe@[fr[j]],
                forall|j: int|
                    0 <= j < f_len ==> #[trigger] safe_in_all@[j] == (true && safe_in_every(
                        cons,
                        rem,
                        sl,
                        fl_len,
                        a0,
                        0,
                        j,
                    )),
                forall|t: int|
                    0 <= t < u && sp(#[trigger] unknowns@[t] as int) && sea_always_safe
                        ==> always_safe@[unknowns@[t] as int],
                always_mine@.len() == n,
                always_safe@.len() == n,
                forall|c: int|
                    0 <= c < n && #[trigger] always_mine@[c] ==> mine_in_completions(w, h, is_mine@, rev, fl, rem, c),
                forall|c: int|
                    0 <= c < n && #[trigger] always_safe@[c] ==> safe_in_completions(w, h, is_mine@, rev, fl, rem, c),
            decreases unknowns@.len() - u,
        {
            let cell = unknowns[u];
            if on_frontier[cell] {
                u = u + 1;
                continue;
            }
            proof {
                assert(sp(cell as int));
            }
            if sea_always_mine {
                proof {
                    assert forall|m: Seq<bool>| #[trigger]
                        completion(w, h, is_mine@, rev, fl, rem, m) implies m[cell as int] by {
                        lemma_completion_fits(
                            w,
                            h,
                            mc,
                            is_mine@,
                            rev,
                            fl,
                            rem,
                            raw,
                            owner,
                            on,
                            fr,
                            slot_of@,
                            cons,
                            sl,
                            m,
                        );
                        assert(candidate(cons, rem, sl, fl_len, a0, 0, restrict(fr, m)));
                        assert forall|x: int| 0 <= x < n && #[trigger] and_p(sp, true_at(m))(x)
                            implies sp(x) by {}
                        lemma_count_mono_eq(n as int, and_p(sp, true_at(m)), sp);
                        assert(and_p(sp, true_at(m))(cell as int) == sp(cell as int));
                    }
                }
                always_mine.set(cell, true);
            }
            if sea_always_safe {
                proof {
                    assert forall|m: Seq<bool>| #[trigger]
                        completion(w, h, is_mine@, rev, fl, rem, m) implies !m[cell as int] by {
                        lemma_completion_fits(
                            w,
                            h,
                            mc,
                            is_mine@,
                            rev,
                            fl,
                            rem,
                            raw,
                            owner,
                            on,
                            fr,
                            slot_of@,
                            cons,
                            sl,
                            m,
                        );
                        assert(candidate(cons, rem, sl, fl_len, a0, 0, restrict(fr, m)));
                        lemma_count_zero(n as int, and_p(sp, true_at(m)));
                        assert(!and_p(sp, true_at(m))(cell as int));
                    }
                }
                always_safe.set(cell, true);
            }
            u = u + 1;
        }
    }
    proof {
        let a = choose|a: Seq<bool>| #[trigger] candidate(cons, rem, sl, fl_len, a0, 0, a);
        let sset = lemma_pick(n as int, sp, rem - count_true(a), 0);
        lemma_extend_completion(
            w,
            h,
            mc,
            is_mine@,
            rev,
            fl,
            rem,
            raw,
            owner,
            on,
            fr,
            slot_of@,
            cons,
            sl,
            a,
            sset,
        );
        let ep = enumerate(n as int, unknown_pred(rev, fl));
        lemma_enumerate(n as int, unknown_pred(rev, fl));
        assert forall|c: int|
            0 <= c < n && !rev[c] && !fl[c] && #[trigger] safe_in_completions(
                w,
                h,
                is_mine@,
                rev,
                fl,
                rem,
                c,
            ) implies always_safe@[c] by {
            if on[c] {
                assert(fp(c));
                assert(fr.contains(c));
                let k = choose|k: int| 0 <= k < fr.len() && fr[k] == c;
                assert(safe_in_every(cons, rem, sl, fl_len, a0, 0, k)) by {
                    assert forall|a: Seq<bool>| #[trigger]
                        candidate(cons, rem, sl, fl_len, a0, 0, a) implies !a[k] by {
                        if a[k] {
                            let sset = lemma_pick(n as int, sp, rem - count_true(a), c);
                            lemma_extend_completion(
                                w,
                                h,
                                mc,
                                is_mine@,
                                rev,
                                fl,
                                rem,
                                raw,
                                owner,
                                on,
                                fr,
                                slot_of@,
                                cons,
                                sl,
                                a,
                                sset,
                            );
                            let m = minus(extend(rev, fl, on, slot_of@, a, sset), fl);
                            assert(m[fr[k]] == a[k]);
                            assert(completion(w, h, is_mine@, rev, fl, rem, m));
                        }
                    }
                }
                assert(safe_in_all@[k]);
            } else {
                assert(sp(c));
                if sl == 0 {
                    lemma_count_zero(n as int, sp);
                }
                assert(sea_in_every(cons, rem, sl, fl_len, a0, 0, 0)) by {
                    assert forall|a: Seq<bool>| #[trigger]
                        candidate(cons, rem, sl, fl_len, a0, 0, a) implies rem - count_true(a)
                        == 0 by {
                        if rem - count_true(a) != 0 {
                            let sset = lemma_pick(n as int, sp, rem - count_true(a), c);
                            lemma_extend_completion(
                                w,
                                h,
                                mc,
                                is_mine@,
                                rev,
                                fl,
                                rem,
                                raw,
                                owner,
                                on,
                                fr,
                                slot_of@,
                                cons,
                                sl,
                                a,
                                sset,
                            );
                            let m = minus(extend(rev, fl, on, slot_of@, a, sset), fl);
                            assert(m[c] == sset[c]);
                            assert(completion(w, h, is_mine@, rev, fl, rem, m));
                        }
                    }
                }
                assert(unknown_pred(rev, fl)(c));
                assert(ep.contains(c));
                let t = choose|t: int| 0 <= t < ep.len() && ep[t] == c;
                assert(unknowns@[t] as int == c);
            }
        }
        assert forall|c: int|
            0 <= c < n && !rev[c] && !fl[c] && #[trigger] mine_in_completions(
                w,
                h,
                is_mine@,
                rev,
                fl,
                rem,
                c,
            ) implies always_mine@[c] by {
            if on[c] {
                assert(fp(c));
                assert(fr.contains(c));
                let k = choose|k: int| 0 <= k < fr.len() && fr[k] == c;
                assert(mine_in_every(cons, rem, sl, fl_len, a0, 0, k)) by {
                    assert forall|a: Seq<bool>| #[trigger]
                        candidate(cons, rem, sl, fl_len, a0, 0, a) implies a[k] by {
                        if !a[k] {
                            let sset = lemma_pick(n as int, sp, rem - count_true(a), c);
                            lemma_extend_completion(
                                w,
                                h,
                                mc,
                                is_mine@,
                                rev,
                                fl,
                                rem,
                                raw,
                                owner,
                                on,
                                fr,
                                slot_of@,
                                cons,
                                sl,
                                a,
                                sset,
                            );
                            let m = minus(extend(rev, fl, on, slot_of@, a, sset), fl);
                            assert(m[fr[k]] == a[k]);
                            assert(completion(w, h, is_mine@, rev, fl, rem, m));
                        }
                    }
                }
                assert(mine_in_all@[k]);
            } else {
                assert(sp(c));
                if sl == 0 {
                    lemma_count_zero(n as int, sp);
                }
                assert(sea_in_every(cons, rem, sl, fl_len, a0, 0, sl)) by {
                    assert forall|a: Seq<bool>| #[trigger]
                        candidate(cons, rem, sl, fl_len, a0, 0, a) implies rem - count_true(a)
                        == sl by {
                        if rem - count_true(a) != sl {
                            let sset = lemma_pick_avoiding(n as int, sp, rem - count_true(a), c);
                            lemma_extend_completion(
                                w,
                                h,
                                mc,
                                is_mine@,
                                rev,
                                fl,
                                rem,
                                raw,
                                owner,
                                on,
                                fr,
                                slot_of@,
                                cons,
                                sl,
                                a,
                                sset,
                            );
                            let m = minus(extend(rev, fl, on, slot_of@, a, sset), fl);
                            assert(m[c] == sset[c]);
                            assert(completion(w, h, is_mine@, rev, fl, rem, m));
                        }
                    }
                }
                assert(unknown_pred(rev, fl)(c));
                assert(ep.contains(c));
                let t = choose|t: int| 0 <= t < ep.len() && ep[t] == c;
                assert(unknowns@[t] as int == c);
            }
        }
    }
    Some((always_mine, always_safe))
}

} // verus!
