use vstd::prelude::*;

verus! {

/// Number of indices `i` in `0..len` at which `p` holds.
pub open spec fn count_idx(len: int, p: spec_fn(int) -> bool) -> nat
    decreases len,
{
    if len <= 0 {
        0
    } else {
        count_idx(len - 1, p) + if p(len - 1) { 1nat } else { 0nat }
    }
}

/// The indices at which `s` is `true`.
pub open spec fn true_at(s: Seq<bool>) -> spec_fn(int) -> bool {
    |i: int| s[i]
}

/// The indices at which `s` is `false`.
pub open spec fn false_at(s: Seq<bool>) -> spec_fn(int) -> bool {
    |i: int| !s[i]
}

/// Both predicates hold.
pub open spec fn and_p(p: spec_fn(int) -> bool, q: spec_fn(int) -> bool) -> spec_fn(int) -> bool {
    |i: int| p(i) && q(i)
}

/// The first predicate holds and the second does not.
pub open spec fn and_not_p(p: spec_fn(int) -> bool, q: spec_fn(int) -> bool) -> spec_fn(
    int,
) -> bool {
    |i: int| p(i) && !q(i)
}

/// Number of `true` entries of a boolean sequence.
pub open spec fn count_true(s: Seq<bool>) -> nat {
    count_idx(s.len() as int, true_at(s))
}

/// Number of `false` entries of a boolean sequence.
pub open spec fn count_false(s: Seq<bool>) -> nat {
    count_idx(s.len() as int, false_at(s))
}

pub proof fn lemma_count_bound(len: int, p: spec_fn(int) -> bool)
    requires
        len >= 0,
    ensures
        count_idx(len, p) <= len,
    decreases len,
{
    if len > 0 {
        lemma_count_bound(len - 1, p);
    }
}

pub proof fn lemma_count_ext(len: int, p: spec_fn(int) -> bool, q: spec_fn(int) -> bool)
    requires
        forall|i: int| 0 <= i < len ==> #[trigger] p(i) == q(i),
    ensures
        count_idx(len, p) == count_idx(len, q),
    decreases len,
{
    if len > 0 {
        lemma_count_ext(len - 1, p, q);
    }
}

pub proof fn lemma_count_mono(len: int, p: spec_fn(int) -> bool, q: spec_fn(int) -> bool)
    requires
        forall|i: int| 0 <= i < len && #[trigger] p(i) ==> q(i),
    ensures
        count_idx(len, p) <= count_idx(len, q),
    decreases len,
{
    if len > 0 {
        lemma_count_mono(len - 1, p, q);
    }
}

/// If `p` implies `q` and one index has `q` without `p`, `p` counts strictly fewer.
pub proof fn lemma_count_mono_strict(len: int, p: spec_fn(int) -> bool, q: spec_fn(int) -> bool, w: int)
    requires
        forall|i: int| 0 <= i < len && #[trigger] p(i) ==> q(i),
        0 <= w < len,
        q(w),
        !p(w),
    ensures
        count_idx(len, p) < count_idx(len, q),
    decreases len,
{
    if w == len - 1 {
        lemma_count_mono(len - 1, p, q);
    } else {
        lemma_count_mono_strict(len - 1, p, q, w);
    }
}

/// Equal counts under an implication make the two predicates agree.
pub proof fn lemma_count_mono_eq(len: int, p: spec_fn(int) -> bool, q: spec_fn(int) -> bool)
    requires
        forall|i: int| 0 <= i < len && #[trigger] p(i) ==> q(i),
        count_idx(len, p) == count_idx(len, q),
    ensures
        forall|i: int| 0 <= i < len ==> #[trigger] p(i) == q(i),
{
    assert forall|i: int| 0 <= i < len implies #[trigger] p(i) == q(i) by {
        if q(i) && !p(i) {
            lemma_count_mono_strict(len, p, q, i);
        }
    }
}

pub proof fn lemma_count_split(len: int, p: spec_fn(int) -> bool, q: spec_fn(int) -> bool)
    ensures
        count_idx(len, p) == count_idx(len, and_p(p, q)) + count_idx(len, and_not_p(p, q)),
    decreases len,
{
    if len > 0 {
        lemma_count_split(len - 1, p, q);
    }
}

pub proof fn lemma_count_zero(len: int, p: spec_fn(int) -> bool)
    requires
        count_idx(len, p) == 0,
    ensures
        forall|i: int| 0 <= i < len ==> !#[trigger] p(i),
    decreases len,
{
    if len > 0 {
        lemma_count_zero(len - 1, p);
    }
}

/// A count over `0..len` lies between the count over `0..k` and that plus `len - k`.
pub proof fn lemma_count_prefix_bounds(len: int, k: int, p: spec_fn(int) -> bool)
    requires
        0 <= k <= len,
    ensures
        count_idx(k, p) <= count_idx(len, p) <= count_idx(k, p) + (len - k),
    decreases len,
{
    if len > k {
        lemma_count_prefix_bounds(len - 1, k, p);
    }
}

/// The indices `i` in `0..len` at which `p` holds, in increasing order.
pub open spec fn enumerate(len: int, p: spec_fn(int) -> bool) -> Seq<int>
    decreases len,
{
    if len <= 0 {
        Seq::empty()
    } else {
        let e = enumerate(len - 1, p);
        if p(len - 1) {
            e.push(len - 1)
        } else {
            e
        }
    }
}

pub proof fn lemma_enumerate(len: int, p: spec_fn(int) -> bool)
    ensures
        enumerate(len, p).len() == count_idx(len, p),
        forall|t: int|
            0 <= t < enumerate(len, p).len() ==> 0 <= #[trigger] enumerate(len, p)[t] < len && p(
                enumerate(len, p)[t],
            ),
        forall|t1: int, t2: int|
            0 <= t1 < t2 < enumerate(len, p).len() ==> #[trigger] enumerate(len, p)[t1]
                < #[trigger] enumerate(len, p)[t2],
        forall|i: int| 0 <= i < len && #[trigger] p(i) ==> enumerate(len, p).contains(i),
    decreases len,
{
    if len > 0 {
        lemma_enumerate(len - 1, p);
        let e = enumerate(len - 1, p);
        if p(len - 1) {
            let f = e.push(len - 1);
            assert forall|i: int| 0 <= i < len && #[trigger] p(i) implies f.contains(i) by {
                if i == len - 1 {
                    assert(f[f.len() - 1] == i);
                } else {
                    assert(e.contains(i));
                    let t = choose|t: int| 0 <= t < e.len() && e[t] == i;
                    assert(f[t] == i);
                }
            }
        }
    }
}

/// `q` read at the entries of `e`.
pub open spec fn along(e: Seq<int>, q: spec_fn(int) -> bool) -> spec_fn(int) -> bool {
    |t: int| q(e[t])
}

/// Counting `q` along the enumeration of `p` counts the indices where both hold.
pub proof fn lemma_enumerate_count(len: int, p: spec_fn(int) -> bool, q: spec_fn(int) -> bool)
    ensures
        count_idx(enumerate(len, p).len() as int, along(enumerate(len, p), q)) == count_idx(
            len,
            and_p(p, q),
        ),
    decreases len,
{
    if len > 0 {
        lemma_enumerate_count(len - 1, p, q);
        let e = enumerate(len - 1, p);
        lemma_count_ext(e.len() as int, along(enumerate(len, p), q), along(e, q));
    }
}

/// A `true`/`false` sequence has as many entries as its two counts together.
pub proof fn lemma_count_true_false(s: Seq<bool>)
    ensures
        count_true(s) + count_false(s) == s.len(),
    decreases s.len(),
{
    lemma_count_true_false_upto(s, s.len() as int);
}

proof fn lemma_count_true_false_upto(s: Seq<bool>, k: int)
    requires
        0 <= k,
    ensures
        count_idx(k, true_at(s)) + count_idx(k, false_at(s)) == k,
    decreases k,
{
    if k > 0 {
        lemma_count_true_false_upto(s, k - 1);
    }
}

/// When every `true` of `a` is `true` in `b` (same length), `b` has no more `false`s,
/// and strictly fewer when some `false` of `a` became `true`.
pub proof fn lemma_count_false_mono(a: Seq<bool>, b: Seq<bool>)
    requires
        a.len() == b.len(),
        forall|i: int| 0 <= i < a.len() && #[trigger] a[i] ==> b[i],
    ensures
        count_false(b) <= count_false(a),
        (exists|i: int| 0 <= i < a.len() && !a[i] && b[i]) ==> count_false(b) < count_false(a),
{
    assert forall|i: int| 0 <= i < a.len() && #[trigger] false_at(b)(i) implies false_at(a)(i) by {
        if a[i] {
            assert(b[i]);
        }
    }
    lemma_count_mono(a.len() as int, false_at(b), false_at(a));
    if exists|i: int| 0 <= i < a.len() && !a[i] && b[i] {
        let w = choose|i: int| 0 <= i < a.len() && !a[i] && b[i];
        lemma_count_mono_strict(a.len() as int, false_at(b), false_at(a), w);
    }
}

/// A predicate false everywhere counts zero.
pub proof fn lemma_count_none(len: int, p: spec_fn(int) -> bool)
    requires
        forall|i: int| 0 <= i < len ==> !#[trigger] p(i),
    ensures
        count_idx(len, p) == 0,
    decreases len,
{
    if len > 0 {
        lemma_count_none(len - 1, p);
    }
}

/// Setting one `false` entry to `true` adds one to the count.
pub proof fn lemma_count_true_update(s: Seq<bool>, i: int)
    requires
        0 <= i < s.len(),
        !s[i],
    ensures
        count_true(s.update(i, true)) == count_true(s) + 1,
{
    lemma_count_update_upto(s, i, s.len() as int);
}

proof fn lemma_count_update_upto(s: Seq<bool>, i: int, k: int)
    requires
        0 <= i < s.len(),
        0 <= k <= s.len(),
        !s[i],
    ensures
        count_idx(k, true_at(s.update(i, true))) == count_idx(k, true_at(s)) + if i < k {
            1int
        } else {
            0int
        },
    decreases k,
{
    if k > 0 {
        lemma_count_update_upto(s, i, k - 1);
    }
}

/// The first `k` indices at which `p` holds.
pub open spec fn first_k(p: spec_fn(int) -> bool, k: int) -> spec_fn(int) -> bool {
    |i: int| p(i) && count_idx(i, p) < k
}

/// Taking the first `k` indices of `p` takes `k` of them, or all when there are fewer.
pub proof fn lemma_first_k(len: int, p: spec_fn(int) -> bool, k: int)
    requires
        0 <= len,
        0 <= k,
    ensures
        count_idx(len, first_k(p, k)) == if k < count_idx(len, p) {
            k
        } else {
            count_idx(len, p) as int
        },
    decreases len,
{
    if len > 0 {
        lemma_first_k(len - 1, p, k);
    }
}

/// Some `s` of the cells where `p` holds, with `c` among them when `p(c)` and `s > 0`.
pub proof fn lemma_pick(len: int, p: spec_fn(int) -> bool, s: int, c: int) -> (pick: Seq<bool>)
    requires
        0 <= c < len,
        0 <= s <= count_idx(len, p),
    ensures
        pick.len() == len,
        forall|i: int| 0 <= i < len && #[trigger] pick[i] ==> p(i),
        count_true(pick) == s,
        p(c) && s > 0 ==> pick[c],
{
    if p(c) && s > 0 {
        let q = |i: int| p(i) && i != c;
        let sq = Seq::new(len as nat, |i: int| q(i));
        let sp = Seq::new(len as nat, |i: int| p(i));
        lemma_count_true_update(sq, c);
        assert(sq.update(c, true) =~= sp);
        lemma_count_ext(len, true_at(sq), q);
        lemma_count_ext(len, true_at(sp), p);
        lemma_first_k(len, q, s - 1);
        let base = Seq::new(len as nat, |i: int| first_k(q, s - 1)(i));
        lemma_count_ext(len, true_at(base), first_k(q, s - 1));
        lemma_count_true_update(base, c);
        base.update(c, true)
    } else {
        lemma_first_k(len, p, s);
        let pick = Seq::new(len as nat, |i: int| first_k(p, s)(i));
        lemma_count_ext(len, true_at(pick), first_k(p, s));
        pick
    }
}

/// Some `s` of the cells where `p` holds, leaving out `c`, when there are more than
/// `s` of them.
pub proof fn lemma_pick_avoiding(len: int, p: spec_fn(int) -> bool, s: int, c: int) -> (pick: Seq<
    bool,
>)
    requires
        0 <= c < len,
        0 <= s < count_idx(len, p),
    ensures
        pick.len() == len,
        forall|i: int| 0 <= i < len && #[trigger] pick[i] ==> p(i),
        count_true(pick) == s,
        !pick[c],
{
    let q = |i: int| p(i) && i != c;
    let sq = Seq::new(len as nat, |i: int| q(i));
    let sp = Seq::new(len as nat, |i: int| p(i));
    lemma_count_ext(len, true_at(sq), q);
    lemma_count_ext(len, true_at(sp), p);
    if p(c) {
        lemma_count_true_update(sq, c);
        assert(sq.update(c, true) =~= sp);
    } else {
        assert(sq =~= sp);
    }
    lemma_first_k(len, q, s);
    let pick = Seq::new(len as nat, |i: int| first_k(q, s)(i));
    lemma_count_ext(len, true_at(pick), first_k(q, s));
    pick
}

} // verus!
