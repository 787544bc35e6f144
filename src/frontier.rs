//! The furthest point that the search reaches on each diagonal of the edit graph.
//!
//! A point `(x, y)` of the edit graph stands for the prefixes `a[..x]` and `b[..y]`;
//! it lies on diagonal `k == y - x`.
use vstd::prelude::*;
use crate::script::{
    all_of, edits, is_script, is_shortest, keeps, lemma_edits_count, lemma_sides_concat, new_side,
    old_side, Ses,
};

verus! {

/// The end of the run of equal characters that starts at `(x, x + k)`.
pub open spec fn snake_end(a: Seq<char>, b: Seq<char>, k: int, x: int) -> int
    decreases a.len() - x,
{
    if 0 <= x < a.len() && 0 <= x + k < b.len() && a[x] == b[x + k] {
        snake_end(a, b, k, x + 1)
    } else {
        x
    }
}

/// The `Keep` steps for `a[from..to]`; none when the run is empty.
pub open spec fn keep_run(a: Seq<char>, from: int, to: int) -> Seq<(Ses, char)> {
    if from < to {
        all_of(Ses::Keep, a.subrange(from, to))
    } else {
        Seq::empty()
    }
}

/// Diagonal `k` is searched at depth `d`: it has the parity of `d`, lies within `-d..=d`,
/// and holds points of the graph (`-|a| <= k <= |b|`).
pub open spec fn searched(a: Seq<char>, b: Seq<char>, d: int, k: int) -> bool {
    &&& 0 <= d
    &&& -d <= k <= d
    &&& (d - k) % 2 == 0
    &&& -a.len() <= k <= b.len()
}

/// The furthest row reached on diagonal `k` with `d` edits, and the script that reaches it;
/// `-1` where the diagonal is not reached.
///
/// A diagonal extends the neighbour `k + 1` by a `Delete` when that stays in the graph and
/// goes further than the neighbour `k - 1` extended by an `Insert`; otherwise the `Insert`.
/// Then it follows its run of equal characters.
pub open spec fn frontier(a: Seq<char>, b: Seq<char>, d: int, k: int) -> (int, Seq<(Ses, char)>)
    decreases d,
{
    if !searched(a, b, d, k) {
        (-1, Seq::empty())
    } else if d == 0 {
        let e = snake_end(a, b, 0, 0);
        (e, keep_run(a, 0, e))
    } else {
        let (xd, pd) = frontier(a, b, d - 1, k + 1);
        let (xi, pi) = frontier(a, b, d - 1, k - 1);
        let del_ok = 0 <= xd < a.len();
        let ins_ok = 0 <= xi && 0 <= xi + k - 1 < b.len();
        if del_ok && (!ins_ok || xd + 1 > xi) {
            let e = snake_end(a, b, k, xd + 1);
            (e, pd.push((Ses::Delete, a[xd])) + keep_run(a, xd + 1, e))
        } else if ins_ok {
            let e = snake_end(a, b, k, xi);
            (e, pi.push((Ses::Insert, b[xi + k - 1])) + keep_run(a, xi, e))
        } else {
            (-1, Seq::empty())
        }
    }
}

/// The run from `x` stays in the graph, matches, and ends at a mismatch or an edge.
pub proof fn lemma_snake(a: Seq<char>, b: Seq<char>, k: int, x: int)
    requires
        0 <= x <= a.len(),
        0 <= x + k <= b.len(),
    ensures
        x <= snake_end(a, b, k, x) <= a.len(),
        snake_end(a, b, k, x) + k <= b.len(),
        forall|i: int| x <= i < snake_end(a, b, k, x) ==> a[i] == b[i + k],
    decreases a.len() - x,
{
    if 0 <= x < a.len() && 0 <= x + k < b.len() && a[x] == b[x + k] {
        lemma_snake(a, b, k, x + 1);
    }
}

/// A run of matches from `from` to `to` is followed by every run that starts within it.
pub proof fn lemma_snake_reaches(a: Seq<char>, b: Seq<char>, k: int, from: int, start: int, to: int)
    requires
        0 <= from <= start,
        from <= to <= a.len(),
        0 <= from + k,
        to + k <= b.len(),
        forall|i: int| from <= i < to ==> a[i] == b[i + k],
    ensures
        snake_end(a, b, k, start) >= to,
    decreases a.len() - start,
{
    if start < to {
        assert(a[start] == b[start + k]);
        lemma_snake_reaches(a, b, k, from, start + 1, to);
    } else {
        lemma_snake_ge(a, b, k, start);
    }
}

/// A run never ends before it starts.
pub proof fn lemma_snake_ge(a: Seq<char>, b: Seq<char>, k: int, x: int)
    ensures
        snake_end(a, b, k, x) >= x,
    decreases a.len() - x,
{
    if 0 <= x < a.len() && 0 <= x + k < b.len() && a[x] == b[x + k] {
        lemma_snake_ge(a, b, k, x + 1);
    }
}

/// The `Keep` steps of a matching run consume `a[from..to]` and `b[from + k..to + k]`.
pub proof fn lemma_keep_run(a: Seq<char>, b: Seq<char>, k: int, from: int, to: int)
    requires
        0 <= from <= to <= a.len(),
        0 <= from + k,
        to + k <= b.len(),
        forall|i: int| from <= i < to ==> a[i] == b[i + k],
    ensures
        old_side(keep_run(a, from, to)) == a.subrange(from, to),
        new_side(keep_run(a, from, to)) == b.subrange(from + k, to + k),
        keeps(keep_run(a, from, to)) == a.subrange(from, to),
        edits(keep_run(a, from, to)) == 0,
    decreases to - from,
{
    if from < to {
        lemma_keep_run(a, b, k, from, to - 1);
        assert(keep_run(a, from, to).drop_last() =~= keep_run(a, from, to - 1));
        assert(a.subrange(from, to) =~= a.subrange(from, to - 1).push(a[to - 1]));
        assert(b.subrange(from + k, to + k) =~= b.subrange(from + k, to + k - 1).push(b[to + k - 1]));
    } else {
        assert(a.subrange(from, to) =~= Seq::empty());
        assert(b.subrange(from + k, to + k) =~= Seq::empty());
    }
}

/// A reached point lies in the graph on a searched diagonal, and its script turns
/// `a[..x]` into `b[..x + k]` with exactly `d` edits.
pub proof fn lemma_frontier_sound(a: Seq<char>, b: Seq<char>, d: int, k: int)
    ensures
        frontier(a, b, d, k).0 >= -1,
        frontier(a, b, d, k).0 >= 0 ==> {
            let (x, p) = frontier(a, b, d, k);
            &&& searched(a, b, d, k)
            &&& x <= a.len()
            &&& 0 <= x + k <= b.len()
            &&& is_script(a.subrange(0, x), b.subrange(0, x + k), p)
            &&& edits(p) == d
        },
    decreases d,
{
    if !searched(a, b, d, k) {
    } else if d == 0 {
        lemma_snake(a, b, 0, 0);
        let e = snake_end(a, b, 0, 0);
        lemma_keep_run(a, b, 0, 0, e);
    } else {
        lemma_frontier_sound(a, b, d - 1, k + 1);
        lemma_frontier_sound(a, b, d - 1, k - 1);
        let (xd, pd) = frontier(a, b, d - 1, k + 1);
        let (xi, pi) = frontier(a, b, d - 1, k - 1);
        let del_ok = 0 <= xd < a.len();
        let ins_ok = 0 <= xi && 0 <= xi + k - 1 < b.len();
        if del_ok && (!ins_ok || xd + 1 > xi) {
            let s = xd + 1;
            lemma_snake(a, b, k, s);
            let e = snake_end(a, b, k, s);
            lemma_keep_run(a, b, k, s, e);
            let q = pd.push((Ses::Delete, a[xd]));
            assert(q.drop_last() == pd);
            assert(old_side(q) =~= a.subrange(0, s));
            assert(new_side(q) =~= b.subrange(0, s + k));
            lemma_sides_concat(q, keep_run(a, s, e));
            assert(a.subrange(0, s) + a.subrange(s, e) =~= a.subrange(0, e));
            assert(b.subrange(0, s + k) + b.subrange(s + k, e + k) =~= b.subrange(0, e + k));
        } else if ins_ok {
            let s = xi;
            lemma_snake(a, b, k, s);
            let e = snake_end(a, b, k, s);
            lemma_keep_run(a, b, k, s, e);
            let q = pi.push((Ses::Insert, b[xi + k - 1]));
            assert(q.drop_last() == pi);
            assert(old_side(q) =~= a.subrange(0, s));
            assert(new_side(q) =~= b.subrange(0, s + k));
            lemma_sides_concat(q, keep_run(a, s, e));
            assert(a.subrange(0, s) + a.subrange(s, e) =~= a.subrange(0, e));
            assert(b.subrange(0, s + k) + b.subrange(s + k, e + k) =~= b.subrange(0, e + k));
        }
    }
}

/// Where the run of a searched diagonal starts: one past its `Delete`, or at its `Insert`.
pub open spec fn start_of(a: Seq<char>, b: Seq<char>, d: int, k: int) -> int {
    let xd = frontier(a, b, d - 1, k + 1).0;
    let xi = frontier(a, b, d - 1, k - 1).0;
    let del_ok = 0 <= xd < a.len();
    let ins_ok = 0 <= xi && 0 <= xi + k - 1 < b.len();
    if del_ok && (!ins_ok || xd + 1 > xi) {
        xd + 1
    } else {
        xi
    }
}

/// A diagonal goes at least as far as each of the two moves into it that stay in the graph.
pub proof fn lemma_frontier_mono(a: Seq<char>, b: Seq<char>, d: int, k: int)
    requires
        d >= 1,
        searched(a, b, d, k),
    ensures
        ({
            let xd = frontier(a, b, d - 1, k + 1).0;
            let xi = frontier(a, b, d - 1, k - 1).0;
            &&& (0 <= xd < a.len()) ==> start_of(a, b, d, k) >= xd + 1
            &&& (0 <= xi && 0 <= xi + k - 1 < b.len()) ==> start_of(a, b, d, k) >= xi
            &&& (0 <= xd < a.len() || (0 <= xi && 0 <= xi + k - 1 < b.len())) ==> frontier(
                a,
                b,
                d,
                k,
            ).0 == snake_end(a, b, k, start_of(a, b, d, k))
        }),
{
}

/// How many diagonals lie between diagonal `k` and the one that holds the end point.
pub open spec fn gap(a: Seq<char>, b: Seq<char>, k: int) -> int {
    let t = b.len() - a.len() - k;
    if t >= 0 {
        t
    } else {
        -t
    }
}

/// Some depth up to `e` reaches the end of both sequences.
pub open spec fn done_by(a: Seq<char>, b: Seq<char>, e: int) -> bool {
    exists|e2: int| 0 <= e2 <= e && #[trigger] frontier(a, b, e2, b.len() - a.len()).0 == a.len()
}

/// From a point on the last column, `Insert`s lead along it to the end.
pub proof fn lemma_right_edge(a: Seq<char>, b: Seq<char>, d: int, k: int)
    requires
        frontier(a, b, d, k).0 == a.len(),
        k <= b.len() - a.len(),
    ensures
        frontier(a, b, d + (b.len() - a.len() - k), b.len() - a.len()).0 == a.len(),
    decreases b.len() - a.len() - k,
{
    if k < b.len() - a.len() {
        lemma_frontier_sound(a, b, d, k);
        lemma_frontier_mono(a, b, d + 1, k + 1);
        lemma_snake_ge(a, b, k + 1, start_of(a, b, d + 1, k + 1));
        lemma_frontier_sound(a, b, d + 1, k + 1);
        lemma_right_edge(a, b, d + 1, k + 1);
    }
}

/// From a point on the last row, `Delete`s lead along it to the end.
pub proof fn lemma_bottom_edge(a: Seq<char>, b: Seq<char>, d: int, k: int)
    requires
        frontier(a, b, d, k).0 == b.len() - k,
        b.len() - a.len() <= k <= b.len(),
    ensures
        frontier(a, b, d + (k - (b.len() - a.len())), b.len() - a.len()).0 == a.len(),
    decreases k - (b.len() - a.len()),
{
    if k > b.len() - a.len() {
        lemma_frontier_sound(a, b, d, k);
        lemma_frontier_mono(a, b, d + 1, k - 1);
        lemma_snake_ge(a, b, k - 1, start_of(a, b, d + 1, k - 1));
        lemma_frontier_sound(a, b, d + 1, k - 1);
        lemma_bottom_edge(a, b, d + 1, k - 1);
    }
}

/// Any script that reaches `(x0, y0)` and then matches along its diagonal up to row `x` is
/// outdone by the search: its diagonal reaches row `x` with as many edits, or else the end
/// is reached with two edits fewer than the shortest way on from that diagonal would need.
pub proof fn lemma_dominates(
    a: Seq<char>,
    b: Seq<char>,
    s0: Seq<(Ses, char)>,
    x0: int,
    y0: int,
    x: int,
)
    requires
        0 <= x0 <= x <= a.len(),
        0 <= y0,
        y0 + (x - x0) <= b.len(),
        is_script(a.subrange(0, x0), b.subrange(0, y0), s0),
        forall|i: int| x0 <= i < x ==> a[i] == b[i + (y0 - x0)],
    ensures
        frontier(a, b, edits(s0) as int, y0 - x0).0 >= x || done_by(
            a,
            b,
            edits(s0) + gap(a, b, y0 - x0) - 2,
        ),
    decreases s0.len(),
{
    let k = y0 - x0;
    let e = edits(s0) as int;
    let m = a.len() as int;
    let n = b.len() as int;
    if s0.len() == 0 {
        assert(a.subrange(0, x0).len() == 0);
        assert(b.subrange(0, y0).len() == 0);
        lemma_snake_reaches(a, b, 0, 0, 0, x);
    } else {
        let s1 = s0.drop_last();
        let c = s0.last().1;
        if s0.last().0 == Ses::Keep {
            assert(old_side(s1).push(c) == a.subrange(0, x0));
            assert(new_side(s1) .push(c) == b.subrange(0, y0));
            assert(old_side(s1) =~= a.subrange(0, x0 - 1));
            assert(new_side(s1) =~= b.subrange(0, y0 - 1));
            assert(a[x0 - 1] == old_side(s1).push(c)[x0 - 1]);
            assert(b[y0 - 1] == new_side(s1).push(c)[y0 - 1]);
            lemma_dominates(a, b, s1, x0 - 1, y0 - 1, x);
        } else if s0.last().0 == Ses::Delete {
            assert(old_side(s1).push(c) == a.subrange(0, x0));
            assert(old_side(s1) =~= a.subrange(0, x0 - 1));
            lemma_dominates(a, b, s1, x0 - 1, y0, x0 - 1);
            let xd = frontier(a, b, e - 1, k + 1).0;
            if xd >= x0 - 1 {
                lemma_frontier_sound(a, b, e - 1, k + 1);
                if xd < m {
                    lemma_frontier_mono(a, b, e, k);
                    lemma_snake_reaches(a, b, k, x0, start_of(a, b, e, k), x);
                } else {
                    lemma_right_edge(a, b, e - 1, k + 1);
                }
            }
        } else {
            assert(new_side(s1).push(c) == b.subrange(0, y0));
            assert(new_side(s1) =~= b.subrange(0, y0 - 1));
            lemma_dominates(a, b, s1, x0, y0 - 1, x0);
            let xi = frontier(a, b, e - 1, k - 1).0;
            if xi >= x0 {
                lemma_frontier_sound(a, b, e - 1, k - 1);
                if xi + k - 1 < n {
                    lemma_frontier_mono(a, b, e, k);
                    lemma_snake_reaches(a, b, k, x0, start_of(a, b, e, k), x);
                } else {
                    lemma_bottom_edge(a, b, e - 1, k - 1);
                }
            }
        }
    }
}

/// Every script from `a` to `b` has at least as many edits as the first depth at which the
/// search reaches the end.
pub proof fn lemma_reached_within(a: Seq<char>, b: Seq<char>, t: Seq<(Ses, char)>)
    requires
        is_script(a, b, t),
    ensures
        done_by(a, b, edits(t) as int),
{
    let m = a.len() as int;
    let n = b.len() as int;
    assert(a.subrange(0, m) =~= a);
    assert(b.subrange(0, n) =~= b);
    lemma_dominates(a, b, t, m, n, m);
    if frontier(a, b, edits(t) as int, n - m).0 >= m {
        lemma_frontier_sound(a, b, edits(t) as int, n - m);
    }
}

/// The script that diagonal `|b| - |a|` holds at the first depth that reaches the end is a
/// shortest script from `a` to `b`, and its `Keep` steps form a longest common subsequence.
pub proof fn lemma_first_reach(a: Seq<char>, b: Seq<char>, d: int, p: Seq<(Ses, char)>)
    requires
        0 <= d,
        frontier(a, b, d, b.len() - a.len()) == (a.len() as int, p),
        forall|d2: int|
            0 <= d2 < d ==> #[trigger] frontier(a, b, d2, b.len() - a.len()).0 != a.len(),
    ensures
        is_shortest(a, b, p),
        edits(p) == d,
        forall|t: Seq<(Ses, char)>| #[trigger]
            is_script(a, b, t) ==> keeps(t).len() <= keeps(p).len(),
{
    lemma_frontier_sound(a, b, d, b.len() - a.len());
    assert(a.subrange(0, a.len() as int) =~= a);
    assert(b.subrange(0, b.len() as int) =~= b);
    assert forall|t: Seq<(Ses, char)>| #[trigger] is_script(a, b, t) implies edits(p) <= edits(t)
        && keeps(t).len() <= keeps(p).len() by {
        lemma_reached_within(a, b, t);
        let e2 = choose|e2: int|
            0 <= e2 <= edits(t) && #[trigger] frontier(a, b, e2, b.len() - a.len()).0 == a.len();
        lemma_edits_count(t);
        lemma_edits_count(p);
    }
}

} // verus!
