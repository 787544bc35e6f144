//! The search itself: Myers' O(ND) walk over the diagonals of the edit graph.
use vstd::prelude::*;
use vstd::std_specs::iter::IteratorSpec;
use crate::frontier::{
    frontier, keep_run, lemma_first_reach, lemma_frontier_sound, lemma_reached_within, searched,
    snake_end,
};
use crate::script::{
    edits, is_script, is_shortest, keeps, lemma_delete_then_insert, Ses,
};

verus! {

broadcast use vstd::string::axiom_spec_iter, vstd::string::next_postcondition;

/// A comparison of two character sequences, and, once `ond` has run, its result.
pub struct Diff {
    /// The old sequence.
    pub a: Vec<char>,
    /// The new sequence.
    pub b: Vec<char>,
    /// The edit distance: the fewest `Delete` and `Insert` steps; `-1` before the search.
    pub ed: isize,
    /// A longest common subsequence: the `Keep` characters of `ses`.
    pub lcs: String,
    /// A shortest edit script from the old sequence to the new one.
    pub ses: Vec<(Ses, char)>,
}

/// Relies on `String::push`: the character is appended at the end.
#[verifier::external_body]
fn push_char(s: &mut String, c: char)
    ensures
        final(s)@ == old(s)@.push(c),
{
    s.push(c);
}

/// The characters of `s`, in order.
fn chars_of(s: &str) -> (r: Vec<char>)
    ensures
        r@ == s@,
{
    let mut r: Vec<char> = Vec::new();
    let mut it = s.chars();
    loop
        invariant_except_break
            r@ + it.remaining() == s@,
            it.decrease() is Some,
        ensures
            r@ == s@,
        decreases it.decrease()->0,
    {
        match it.next() {
            Some(c) => {
                r.push(c);
            },
            None => {
                assert(r@ + it.remaining() =~= r@);
                break ;
            },
        }
    }
    r
}

/// A copy of a script.
fn copy_ops(s: &Vec<(Ses, char)>) -> (r: Vec<(Ses, char)>)
    ensures
        r@ == s@,
{
    let mut r: Vec<(Ses, char)> = Vec::new();
    let mut i: usize = 0;
    while i < s.len()
        invariant
            i <= s.len(),
            r@ == s@.subrange(0, i as int),
        decreases s.len() - i,
    {
        r.push(s[i]);
        i += 1;
        assert(r@ =~= s@.subrange(0, i as int));
    }
    assert(s@.subrange(0, s.len() as int) =~= s@);
    r
}

/// The `Keep` characters of a script, as a string.
fn kept_string(s: &Vec<(Ses, char)>) -> (r: String)
    ensures
        r@ == keeps(s@),
{
    let mut r = String::new();
    let mut i: usize = 0;
    while i < s.len()
        invariant
            i <= s.len(),
            r@ == keeps(s@.subrange(0, i as int)),
        decreases s.len() - i,
    {
        assert(s@.subrange(0, i + 1).drop_last() =~= s@.subrange(0, i as int));
        let (op, c) = s[i];
        if op == Ses::Keep {
            push_char(&mut r, c);
        }
        i += 1;
    }
    assert(s@.subrange(0, s.len() as int) =~= s@);
    r
}

/// What slot `j` holds while depth `d` is searched and its diagonals below `kk` are done.
spec fn slot(a: Seq<char>, b: Seq<char>, d: int, kk: int, j: int) -> (int, Seq<(Ses, char)>) {
    if (d - j) % 2 == 0 {
        if j < kk {
            frontier(a, b, d, j)
        } else {
            frontier(a, b, d - 2, j)
        }
    } else {
        frontier(a, b, d - 1, j)
    }
}

impl Diff {
    /// A comparison of `a` (old) with `b` (new), not yet searched.
    pub fn new(a: &str, b: &str) -> (r: Diff)
        ensures
            r.a@ == a@,
            r.b@ == b@,
            r.ed == -1,
            r.lcs@ == Seq::<char>::empty(),
            r.ses@ == Seq::<(Ses, char)>::empty(),
    {
        Diff { a: chars_of(a), b: chars_of(b), ed: -1, lcs: String::new(), ses: Vec::new() }
    }

    /// The end of the run of equal characters from `(i, i + k)`, and its `Keep` steps.
    fn snake(&self, k: isize, i: isize) -> (r: (isize, Vec<(Ses, char)>))
        requires
            0 <= i,
            0 <= i + k <= isize::MAX,
            self.a@.len() + self.b@.len() + 3 <= isize::MAX,
        ensures
            r.0 == snake_end(self.a@, self.b@, k as int, i as int),
            r.1@ == keep_run(self.a@, i as int, r.0 as int),
    {
        let m = self.a.len() as isize;
        let n = self.b.len() as isize;
        let mut x = i;
        let mut ops: Vec<(Ses, char)> = Vec::new();
        while x < m && x + k < n && self.a[x as usize] == self.b[(x + k) as usize]
            invariant
                0 <= i <= x,
                0 <= i + k <= isize::MAX,
                x == i || (x <= m && x + k <= n),
                m == self.a@.len(),
                n == self.b@.len(),
                self.a@.len() + self.b@.len() + 3 <= isize::MAX,
                snake_end(self.a@, self.b@, k as int, i as int) == snake_end(
                    self.a@,
                    self.b@,
                    k as int,
                    x as int,
                ),
                ops@ == keep_run(self.a@, i as int, x as int),
            decreases m - x,
        {
            ops.push((Ses::Keep, self.a[x as usize]));
            x += 1;
            assert(ops@ =~= keep_run(self.a@, i as int, x as int));
        }
        (x, ops)
    }

    /// Records the result when diagonal `k` has reached row `v` at the end of both
    /// sequences; otherwise leaves `self` as it was.
    fn at_end(&mut self, d: isize, k: isize, v: isize, ses: &Vec<(Ses, char)>) -> (r: bool)
        requires
            old(self).a@.len() + old(self).b@.len() + 3 <= isize::MAX,
        ensures
            r == (k == old(self).b@.len() - old(self).a@.len() && v == old(self).a@.len()),
            final(self).a == old(self).a,
            final(self).b == old(self).b,
            r ==> final(self).ed == d && final(self).ses@ == ses@ && final(self).lcs@ == keeps(
                ses@,
            ),
            !r ==> *final(self) == *old(self),
    {
        let m = self.a.len() as isize;
        let n = self.b.len() as isize;
        if k == n - m && v == m {
            self.ed = d;
            self.lcs = kept_string(ses);
            self.ses = copy_ops(ses);
            true
        } else {
            false
        }
    }

    /// Diagonal `k` at depth `d`, from its neighbours at depth `d - 1`: `(xd, pd)` on `k + 1`
    /// and `(xi, pi)` on `k - 1`. A `Delete` is taken when it stays in the graph and reaches
    /// further than the `Insert`; an `Insert` when it stays in the graph; then the run of
    /// equal characters is followed.
    fn advance(
        &self,
        d: isize,
        k: isize,
        xd: isize,
        pd: &Vec<(Ses, char)>,
        xi: isize,
        pi: &Vec<(Ses, char)>,
    ) -> (r: (isize, Vec<(Ses, char)>))
        requires
            d >= 1,
            searched(self.a@, self.b@, d as int, k as int),
            self.a@.len() + self.b@.len() + 3 <= isize::MAX,
            (xd as int, pd@) == frontier(self.a@, self.b@, d - 1, k + 1),
            (xi as int, pi@) == frontier(self.a@, self.b@, d - 1, k - 1),
        ensures
            (r.0 as int, r.1@) == frontier(self.a@, self.b@, d as int, k as int),
    {
        proof {
            lemma_frontier_sound(self.a@, self.b@, d - 1, k + 1);
            lemma_frontier_sound(self.a@, self.b@, d - 1, k - 1);
        }
        let m = self.a.len() as isize;
        let n = self.b.len() as isize;
        let del_ok = 0 <= xd && xd < m;
        let ins_ok = 0 <= xi && 0 <= xi + k - 1 && xi + k - 1 < n;
        let mut p: Vec<(Ses, char)>;
        let start: isize;
        if del_ok && (!ins_ok || xd + 1 > xi) {
            p = copy_ops(pd);
            p.push((Ses::Delete, self.a[xd as usize]));
            start = xd + 1;
        } else if ins_ok {
            p = copy_ops(pi);
            p.push((Ses::Insert, self.b[(xi + k - 1) as usize]));
            start = xi;
        } else {
            return (-1, Vec::new());
        }
        let (e, mut run) = self.snake(k, start);
        p.append(&mut run);
        (e, p)
    }

    /// Runs the search: fills `ed`, `lcs` and `ses`.
    ///
    /// The result is the script of diagonal `|b| - |a|` at the first depth whose search reaches
    /// the end of both sequences; it turns `a` into `b` with the fewest edits, and its `Keep`
    /// steps form a longest common subsequence.
    pub fn ond(self) -> (r: Diff)
        requires
            self.a@.len() + self.b@.len() + 3 <= isize::MAX,
        ensures
            r.a@ == self.a@,
            r.b@ == self.b@,
            0 <= r.ed,
            frontier(self.a@, self.b@, r.ed as int, self.b@.len() - self.a@.len()) == (
            self.a@.len() as int,
            r.ses@,
            ),
            forall|d: int|
                0 <= d < r.ed ==> #[trigger] frontier(self.a@, self.b@, d, self.b@.len() - self.a@.len()).0
                    != self.a@.len(),
            is_shortest(self.a@, self.b@, r.ses@),
            r.ed == edits(r.ses@),
            r.lcs@ == keeps(r.ses@),
            forall|t: Seq<(Ses, char)>| #[trigger]
                is_script(self.a@, self.b@, t) ==> keeps(t).len() <= r.lcs@.len(),
    {
        let mut this = self;
        let ghost a = this.a@;
        let ghost b = this.b@;
        let m = this.a.len() as isize;
        let n = this.b.len() as isize;
        // Slot `k + m + 1` holds diagonal `k`. Diagonals `-m..=n` are searched; the outer
        // slots, for `-m - 1` and `n + 1`, hold no point of the graph and stay unreached.
        let size = (m + n + 3) as usize;
        let offset = m + 1;
        let mut v: Vec<isize> = Vec::new();
        let mut ses: Vec<Vec<(Ses, char)>> = Vec::new();
        let mut j: usize = 0;
        while j < size
            invariant
                j <= size,
                v@.len() == j,
                ses@.len() == j,
                forall|i: int| 0 <= i < j ==> #[trigger] v@[i] == -1,
                forall|i: int| 0 <= i < j ==> #[trigger] ses@[i]@ == Seq::<(Ses, char)>::empty(),
            decreases size - j,
        {
            v.push(-1);
            ses.push(Vec::new());
            j += 1;
        }
        let (i0, s0) = this.snake(0, 0);
        v.set(offset as usize, i0);
        ses.set(offset as usize, s0);
        proof {
            assert(frontier(a, b, 0, 0) == (i0 as int, s0@));
            assert forall|i: int| 0 <= i < m + n + 3 implies #[trigger] v@[i] == slot(
                a,
                b,
                1,
                -m - 1,
                i - m - 1,
            ).0 && ses@[i]@ == slot(a, b, 1, -m - 1, i - m - 1).1 by {
                if i != m + 1 {
                    assert(v@[i] == -1 && ses@[i]@ == Seq::<(Ses, char)>::empty());
                    assert(frontier(a, b, 0, i - m - 1) == (-1int, Seq::<(Ses, char)>::empty()));
                    assert(frontier(a, b, -1, i - m - 1) == (-1int, Seq::<(Ses, char)>::empty()));
                }
            }
        }
        if this.at_end(0, 0, i0, &ses[offset as usize]) {
            proof {
                lemma_first_reach(a, b, 0, this.ses@);
            }
            return this;
        }
        let mut d: isize = 1;
        while d <= m + n
            invariant
                1 <= d <= m + n + 1,
                a == this.a@,
                b == this.b@,
                a == self.a@,
                b == self.b@,
                m == a.len(),
                n == b.len(),
                a.len() + b.len() + 3 <= isize::MAX,
                offset == m + 1,
                v@.len() == m + n + 3,
                ses@.len() == m + n + 3,
                forall|i: int|
                    0 <= i < m + n + 3 ==> #[trigger] v@[i] == slot(a, b, d as int, -m - 1, i - m - 1).0,
                forall|i: int|
                    0 <= i < m + n + 3 ==> #[trigger] ses@[i]@ == slot(a, b, d as int, -m - 1, i - m - 1).1,
                forall|d2: int| 0 <= d2 < d ==> #[trigger] frontier(a, b, d2, n - m).0 != m,
            decreases m + n + 1 - d,
        {
            let lo = if d <= m {
                -d
            } else if (d - m) % 2 == 0 {
                -m
            } else {
                -m + 1
            };
            let hi = if d <= n {
                d
            } else if (d - n) % 2 == 0 {
                n
            } else {
                n - 1
            };
            proof {
                assert forall|jj: int| -m - 1 <= jj < lo && (d - jj) % 2 == 0 implies frontier(
                    a,
                    b,
                    d as int,
                    jj,
                ) == frontier(a, b, d - 2, jj) by {}
            }
            let mut k = lo;
            while k <= hi
                invariant
                    1 <= d <= m + n,
                    a == this.a@,
                    b == this.b@,
                    a == self.a@,
                    b == self.b@,
                    m == a.len(),
                    n == b.len(),
                    a.len() + b.len() + 3 <= isize::MAX,
                    offset == m + 1,
                    v@.len() == m + n + 3,
                    ses@.len() == m + n + 3,
                    lo <= k <= hi + 2,
                    -m <= lo,
                    -d <= lo,
                    hi <= n,
                    hi <= d,
                    (d - k) % 2 == 0,
                    hi + 2 > n || hi + 2 > d,
                    forall|i: int|
                        0 <= i < m + n + 3 ==> #[trigger] v@[i] == slot(a, b, d as int, k as int, i - m - 1).0,
                    forall|i: int|
                        0 <= i < m + n + 3 ==> #[trigger] ses@[i]@ == slot(a, b, d as int, k as int, i - m - 1).1,
                    forall|d2: int| 0 <= d2 < d ==> #[trigger] frontier(a, b, d2, n - m).0 != m,
                    n - m < k ==> frontier(a, b, d as int, n - m).0 != m,
                decreases hi + 2 - k,
            {
                let cur = (k + offset) as usize;
                proof {
                    assert(v@[cur + 1] == slot(a, b, d as int, k as int, k + 1).0);
                    assert(ses@[cur + 1]@ == slot(a, b, d as int, k as int, k + 1).1);
                    assert(v@[cur - 1] == slot(a, b, d as int, k as int, k - 1).0);
                    assert(ses@[cur - 1]@ == slot(a, b, d as int, k as int, k - 1).1);
                }
                let (x, p) = this.advance(d, k, v[cur + 1], &ses[cur + 1], v[cur - 1], &ses[cur - 1]);
                v.set(cur, x);
                ses.set(cur, p);
                if this.at_end(d, k, x, &ses[cur]) {
                    proof {
                        lemma_first_reach(a, b, d as int, this.ses@);
                    }
                    return this;
                }
                k += 2;
            }
            d += 1;
        }
        proof {
            lemma_delete_then_insert(a, b);
            lemma_reached_within(
                a,
                b,
                crate::script::all_of(Ses::Delete, a) + crate::script::all_of(Ses::Insert, b),
            );
        }
        this
    }
}

} // verus!
