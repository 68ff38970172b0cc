use vstd::prelude::*;

verus! {

/// The cells around `(x, y)` from offset number `k` on, in row-major order of the
/// offsets: offset `k` (for `k` in `0..9`) is `(k % 3 - 1, k / 3 - 1)`, and offset 4
/// is the cell itself, which is skipped. Only in-bounds cells are listed.
pub open spec fn nbr_pts_from(w: int, h: int, x: int, y: int, k: int) -> Seq<(int, int)>
    decreases 9 - k,
{
    if k < 0 || k >= 9 {
        Seq::empty()
    } else {
        let nx = x + k % 3 - 1;
        let ny = y + k / 3 - 1;
        let rest = nbr_pts_from(w, h, x, y, k + 1);
        if k != 4 && 0 <= nx < w && 0 <= ny < h {
            seq![(nx, ny)] + rest
        } else {
            rest
        }
    }
}

/// All in-bounds orthogonal and diagonal neighbours of `(x, y)`, row by row.
pub open spec fn nbr_pts(w: int, h: int, x: int, y: int) -> Seq<(int, int)> {
    nbr_pts_from(w, h, x, y, 0)
}

/// The neighbours of flat cell `i` (row-major, `i = y * w + x`) as flat indices.
pub open spec fn nbr_idx(w: int, h: int, i: int) -> Seq<int> {
    nbr_pts(w, h, i % w, i / w).map_values(|p: (int, int)| p.1 * w + p.0)
}

/// Every listed neighbour is in bounds and differs from the centre by at most one
/// in each coordinate, and is not the centre itself.
pub proof fn lemma_nbr_pts_from_props(w: int, h: int, x: int, y: int, k: int)
    requires
        k >= 0,
    ensures
        nbr_pts_from(w, h, x, y, k).len() + k <= 9 || nbr_pts_from(w, h, x, y, k).len() == 0,
        forall|j: int|
            0 <= j < nbr_pts_from(w, h, x, y, k).len() ==> {
                let p = #[trigger] nbr_pts_from(w, h, x, y, k)[j];
                &&& 0 <= p.0 < w
                &&& 0 <= p.1 < h
                &&& x - 1 <= p.0 <= x + 1
                &&& y - 1 <= p.1 <= y + 1
                &&& !(p.0 == x && p.1 == y)
            },
    decreases 9 - k,
{
    if 0 <= k < 9 {
        lemma_nbr_pts_from_props(w, h, x, y, k + 1);
        let rest = nbr_pts_from(w, h, x, y, k + 1);
        let nx = x + k % 3 - 1;
        let ny = y + k / 3 - 1;
        if k != 4 && 0 <= nx < w && 0 <= ny < h {
            let s = seq![(nx, ny)] + rest;
            assert forall|j: int| 0 <= j < s.len() implies {
                let p = #[trigger] s[j];
                &&& 0 <= p.0 < w
                &&& 0 <= p.1 < h
                &&& x - 1 <= p.0 <= x + 1
                &&& y - 1 <= p.1 <= y + 1
                &&& !(p.0 == x && p.1 == y)
            } by {
                if j > 0 {
                    assert(s[j] == rest[j - 1]);
                }
            }
        }
    }
}

/// Flat neighbour indices are in `0..w * h` and are not the centre.
pub proof fn lemma_nbr_idx_props(w: int, h: int, i: int)
    requires
        w > 0,
        h > 0,
        0 <= i < w * h,
    ensures
        nbr_idx(w, h, i).len() <= 9,
        forall|j: int|
            0 <= j < nbr_idx(w, h, i).len() ==> 0 <= #[trigger] nbr_idx(w, h, i)[j] < w * h
                && nbr_idx(w, h, i)[j] != i,
{
    let x = i % w;
    let y = i / w;
    lemma_nbr_pts_from_props(w, h, x, y, 0);
    assert(i == y * w + x) by (nonlinear_arith)
        requires
            w > 0,
            x == i % w,
            y == i / w,
    ;
    assert forall|j: int| 0 <= j < nbr_idx(w, h, i).len() implies 0 <= #[trigger] nbr_idx(
        w,
        h,
        i,
    )[j] < w * h && nbr_idx(w, h, i)[j] != i by {
        let p = nbr_pts(w, h, x, y)[j];
        assert(0 <= p.0 < w && 0 <= p.1 < h);
        assert(nbr_idx(w, h, i)[j] == p.1 * w + p.0);
        assert(0 <= p.1 * w + p.0 < w * h) by (nonlinear_arith)
            requires
                0 <= p.0 < w,
                0 <= p.1 < h,
        ;
        if p.1 * w + p.0 == i {
            assert(p.1 == y && p.0 == x) by (nonlinear_arith)
                requires
                    p.1 * w + p.0 == y * w + x,
                    0 <= p.0 < w,
                    0 <= x < w,
            ;
        }
    }
}

/// All in-bounds orthogonal and diagonal neighbours of `(x, y)`, row by row.
pub fn neighbor_points(width: usize, height: usize, x: usize, y: usize) -> (out: Vec<(usize, usize)>)
    requires
        x < isize::MAX,
        y < isize::MAX,
        width <= isize::MAX,
        height <= isize::MAX,
    ensures
        out@.len() == nbr_pts(width as int, height as int, x as int, y as int).len(),
        forall|j: int|
            0 <= j < out@.len() ==> (#[trigger] out@[j]).0 as int == nbr_pts(
                width as int,
                height as int,
                x as int,
                y as int,
            )[j].0 && out@[j].1 as int == nbr_pts(
                width as int,
                height as int,
                x as int,
                y as int,
            )[j].1,
{
    let ghost w = width as int;
    let ghost h = height as int;
    let mut out: Vec<(usize, usize)> = Vec::with_capacity(8);
    let mut dy: usize = 0;
    while dy < 3
        invariant
            dy <= 3,
            x < isize::MAX,
            y < isize::MAX,
            width <= isize::MAX,
            height <= isize::MAX,
            w == width,
            h == height,
            out@.map_values(|p: (usize, usize)| (p.0 as int, p.1 as int)) + nbr_pts_from(
                w,
                h,
                x as int,
                y as int,
                3 * dy,
            ) == nbr_pts(w, h, x as int, y as int),
        decreases 3 - dy,
    {
        let mut dx: usize = 0;
        while dx < 3
            invariant
                dy < 3,
                dx <= 3,
                x < isize::MAX,
                y < isize::MAX,
                width <= isize::MAX,
                height <= isize::MAX,
                w == width,
                h == height,
                out@.map_values(|p: (usize, usize)| (p.0 as int, p.1 as int)) + nbr_pts_from(
                    w,
                    h,
                    x as int,
                    y as int,
                    3 * dy + dx,
                ) == nbr_pts(w, h, x as int, y as int),
            decreases 3 - dx,
        {
            let ghost k = 3 * dy + dx;
            let ghost old_out = out@;
            assert(k % 3 == dx && k / 3 == dy) by (nonlinear_arith)
                requires
                    k == 3 * dy + dx,
                    dx < 3,
            ;
            let inside = !(dx == 1 && dy == 1) && x + dx >= 1 && x + dx - 1 < width && y + dy
                >= 1 && y + dy - 1 < height;
            if inside {
                out.push((x + dx - 1, y + dy - 1));
                let ghost p = (x + dx - 1, y + dy - 1);
                assert(out@.map_values(|p: (usize, usize)| (p.0 as int, p.1 as int))
                    =~= old_out.map_values(|p: (usize, usize)| (p.0 as int, p.1 as int)).push(
                    (p.0 as int, p.1 as int),
                ));
            }
            assert(out@.map_values(|p: (usize, usize)| (p.0 as int, p.1 as int)) + nbr_pts_from(
                w,
                h,
                x as int,
                y as int,
                k + 1,
            ) =~= nbr_pts(w, h, x as int, y as int));
            dx = dx + 1;
        }
        dy = dy + 1;
    }
    assert(nbr_pts_from(w, h, x as int, y as int, 9) =~= Seq::empty());
    assert(out@.map_values(|p: (usize, usize)| (p.0 as int, p.1 as int)) =~= nbr_pts(
        w,
        h,
        x as int,
        y as int,
    ));
    assert forall|j: int| 0 <= j < out@.len() implies (#[trigger] out@[j]).0 as int == nbr_pts(
        w,
        h,
        x as int,
        y as int,
    )[j].0 && out@[j].1 as int == nbr_pts(w, h, x as int, y as int)[j].1 by {
        assert(out@.map_values(|p: (usize, usize)| (p.0 as int, p.1 as int))[j] == (
        out@[j].0 as int, out@[j].1 as int));
    }
    out
}

/// `s` is closed under opening: each zero cell in `s` has every eligible neighbour
/// in `s` too.
pub open spec fn flood_closed(w: int, h: int, zero: Seq<bool>, elig: Seq<bool>, s: Seq<bool>) -> bool {
    forall|c: int, k: int|
        0 <= c < w * h && 0 <= k < nbr_idx(w, h, c).len() && s[c] && zero[c] && elig[nbr_idx(
            w,
            h,
            c,
        )[k]] ==> #[trigger] s[nbr_idx(w, h, c)[k]]
}

/// `o` is what a click on `t` opens: the least flood-closed set of eligible cells
/// that holds `t` when `t` is eligible — the eligible cells reachable from `t`
/// through cells with no adjacent mine.
pub open spec fn is_flood(w: int, h: int, zero: Seq<bool>, elig: Seq<bool>, t: int, o: Seq<bool>) -> bool {
    &&& o.len() == w * h
    &&& forall|c: int| 0 <= c < w * h && #[trigger] o[c] ==> elig[c]
    &&& elig[t] ==> o[t]
    &&& flood_closed(w, h, zero, elig, o)
    &&& forall|s: Seq<bool>|
        s.len() == w * h && #[trigger] flood_closed(w, h, zero, elig, s) && (elig[t] ==> s[t])
            ==> forall|c: int| 0 <= c < w * h && o[c] ==> s[c]
}

/// Cells unset before and set after.
pub open spec fn newly_set(before: Seq<bool>, after: Seq<bool>) -> Seq<bool> {
    Seq::new(before.len(), |c: int| !before[c] && after[c])
}

/// Eligible cells not in `a`.
pub open spec fn minus(elig: Seq<bool>, a: Seq<bool>) -> Seq<bool> {
    Seq::new(elig.len(), |c: int| elig[c] && !a[c])
}

/// Cells in `a` or `b`.
pub open spec fn union(a: Seq<bool>, b: Seq<bool>) -> Seq<bool> {
    Seq::new(a.len(), |c: int| a[c] || b[c])
}

/// Flood closure everywhere but at `t`, whose first `k` neighbours are covered.
pub open spec fn flood_partial(
    w: int,
    h: int,
    zero: Seq<bool>,
    elig: Seq<bool>,
    t: int,
    k: int,
    s: Seq<bool>,
) -> bool {
    &&& forall|c: int, j: int|
        0 <= c < w * h && c != t && 0 <= j < nbr_idx(w, h, c).len() && s[c] && zero[c] && elig[nbr_idx(
            w,
            h,
            c,
        )[j]] ==> #[trigger] s[nbr_idx(w, h, c)[j]]
    &&& forall|j: int|
        0 <= j < k && j < nbr_idx(w, h, t).len() && elig[nbr_idx(w, h, t)[j]] ==> #[trigger] s[nbr_idx(
            w,
            h,
            t,
        )[j]]
}

/// One neighbour of an opened zero cell `t` flooded: the union stays partially
/// closed one neighbour further, and stays least.
pub(crate) proof fn lemma_flood_step(
    w: int,
    h: int,
    zero: Seq<bool>,
    elig: Seq<bool>,
    t: int,
    k: int,
    a: Seq<bool>,
    b: Seq<bool>,
)
    requires
        w > 0,
        h > 0,
        0 <= t < w * h,
        zero.len() == w * h,
        elig.len() == w * h,
        a.len() == w * h,
        zero[t],
        a[t],
        0 <= k < nbr_idx(w, h, t).len(),
        forall|c: int| 0 <= c < w * h && #[trigger] a[c] ==> elig[c],
        flood_partial(w, h, zero, elig, t, k, a),
        forall|s: Seq<bool>|
            s.len() == w * h && #[trigger] flood_closed(w, h, zero, elig, s) && s[t] ==> forall|c: int|
                0 <= c < w * h && a[c] ==> s[c],
        is_flood(w, h, zero, minus(elig, a), nbr_idx(w, h, t)[k], b),
    ensures
        forall|c: int| 0 <= c < w * h && #[trigger] union(a, b)[c] ==> elig[c],
        union(a, b)[t],
        flood_partial(w, h, zero, elig, t, k + 1, union(a, b)),
        forall|s: Seq<bool>|
            s.len() == w * h && #[trigger] flood_closed(w, h, zero, elig, s) && s[t] ==> forall|c: int|
                0 <= c < w * h && union(a, b)[c] ==> s[c],
{
    let n = w * h;
    let u = union(a, b);
    let hk = minus(elig, a);
    let p = nbr_idx(w, h, t)[k];
    lemma_nbr_idx_props(w, h, t);
    assert forall|c: int, j: int|
        0 <= c < n && c != t && 0 <= j < nbr_idx(w, h, c).len() && u[c] && zero[c] && elig[nbr_idx(
            w,
            h,
            c,
        )[j]] implies #[trigger] u[nbr_idx(w, h, c)[j]] by {
        let q = nbr_idx(w, h, c)[j];
        lemma_nbr_idx_props(w, h, c);
        if a[c] {
            assert(a[q]);
        } else {
            assert(b[c]);
            if !a[q] {
                assert(hk[q]);
                assert(b[q]);
            }
        }
    }
    assert forall|j: int|
        0 <= j < k + 1 && j < nbr_idx(w, h, t).len() && elig[nbr_idx(w, h, t)[j]] implies #[trigger] u[nbr_idx(
        w,
        h,
        t,
    )[j]] by {
        if j < k {
            assert(a[nbr_idx(w, h, t)[j]]);
        } else if !a[p] {
            assert(hk[p]);
        }
    }
    assert forall|s: Seq<bool>|
        s.len() == n && #[trigger] flood_closed(w, h, zero, elig, s) && s[t] implies forall|c: int|
        0 <= c < n && u[c] ==> s[c] by {
        assert(s[nbr_idx(w, h, t)[k]] || !elig[p]);
        assert(flood_closed(w, h, zero, hk, s)) by {
            assert forall|c: int, j: int|
                0 <= c < n && 0 <= j < nbr_idx(w, h, c).len() && s[c] && zero[c] && hk[nbr_idx(
                    w,
                    h,
                    c,
                )[j]] implies #[trigger] s[nbr_idx(w, h, c)[j]] by {
                lemma_nbr_idx_props(w, h, c);
            }
        }
        assert forall|c: int| 0 <= c < n && u[c] implies s[c] by {
            if !a[c] {
                assert(b[c]);
            }
        }
    }
    assert forall|c: int| 0 <= c < n && #[trigger] u[c] implies elig[c] by {
        if !a[c] {
            assert(b[c]);
            assert(hk[c]);
        }
    }
}

/// A click opens one flood only.
pub(crate) proof fn lemma_flood_unique(
    w: int,
    h: int,
    zero: Seq<bool>,
    elig: Seq<bool>,
    t: int,
    o1: Seq<bool>,
    o2: Seq<bool>,
)
    requires
        is_flood(w, h, zero, elig, t, o1),
        is_flood(w, h, zero, elig, t, o2),
    ensures
        o1 =~= o2,
{
    assert(flood_closed(w, h, zero, elig, o1));
    assert(flood_closed(w, h, zero, elig, o2));
}

} // verus!
