//! Edit operations and the mathematical model of an edit script.
use vstd::prelude::*;

verus! {

/// One step of an edit script.
#[derive(Clone, Copy, Debug, PartialEq, Eq, Structural)]
pub enum Ses {
    /// The character is present only in the old sequence.
    Delete,
    /// The character is present, in order, in both sequences.
    Keep,
    /// The character is present only in the new sequence.
    Insert,
}

/// The characters of the old sequence that a script consumes: its `Keep` and `Delete` steps.
pub open spec fn old_side(s: Seq<(Ses, char)>) -> Seq<char>
    decreases s.len(),
{
    if s.len() == 0 {
        Seq::empty()
    } else if s.last().0 == Ses::Insert {
        old_side(s.drop_last())
    } else {
        old_side(s.drop_last()).push(s.last().1)
    }
}

/// The characters of the new sequence that a script consumes: its `Keep` and `Insert` steps.
pub open spec fn new_side(s: Seq<(Ses, char)>) -> Seq<char>
    decreases s.len(),
{
    if s.len() == 0 {
        Seq::empty()
    } else if s.last().0 == Ses::Delete {
        new_side(s.drop_last())
    } else {
        new_side(s.drop_last()).push(s.last().1)
    }
}

/// The characters of the `Keep` steps: the common subsequence that the script aligns.
pub open spec fn keeps(s: Seq<(Ses, char)>) -> Seq<char>
    decreases s.len(),
{
    if s.len() == 0 {
        Seq::empty()
    } else if s.last().0 == Ses::Keep {
        keeps(s.drop_last()).push(s.last().1)
    } else {
        keeps(s.drop_last())
    }
}

/// The number of steps that are not `Keep`.
pub open spec fn edits(s: Seq<(Ses, char)>) -> nat
    decreases s.len(),
{
    if s.len() == 0 {
        0
    } else if s.last().0 == Ses::Keep {
        edits(s.drop_last())
    } else {
        edits(s.drop_last()) + 1
    }
}

/// `s` turns `a` into `b`: its `Keep`/`Delete` steps spell `a` and its `Keep`/`Insert` steps spell `b`.
pub open spec fn is_script(a: Seq<char>, b: Seq<char>, s: Seq<(Ses, char)>) -> bool {
    old_side(s) == a && new_side(s) == b
}

/// `s` turns `a` into `b` with no more edits than any other script.
pub open spec fn is_shortest(a: Seq<char>, b: Seq<char>, s: Seq<(Ses, char)>) -> bool {
    &&& is_script(a, b, s)
    &&& forall|t: Seq<(Ses, char)>| #[trigger] is_script(a, b, t) ==> edits(s) <= edits(t)
}

/// The script read from the other side: each `Delete` becomes an `Insert` and back.
pub open spec fn swap_roles(s: Seq<(Ses, char)>) -> Seq<(Ses, char)> {
    s.map_values(
        |p: (Ses, char)|
            if p.0 == Ses::Delete {
                (Ses::Insert, p.1)
            } else if p.0 == Ses::Insert {
                (Ses::Delete, p.1)
            } else {
                p
            },
    )
}

/// The script that uses only steps of one kind.
pub open spec fn all_of(op: Ses, a: Seq<char>) -> Seq<(Ses, char)> {
    a.map_values(|c: char| (op, c))
}

pub proof fn lemma_sides_concat(s: Seq<(Ses, char)>, t: Seq<(Ses, char)>)
    ensures
        old_side(s + t) == old_side(s) + old_side(t),
        new_side(s + t) == new_side(s) + new_side(t),
        keeps(s + t) == keeps(s) + keeps(t),
        edits(s + t) == edits(s) + edits(t),
    decreases t.len(),
{
    if t.len() == 0 {
        assert(s + t =~= s);
        assert(old_side(s) + old_side(t) =~= old_side(s));
        assert(new_side(s) + new_side(t) =~= new_side(s));
        assert(keeps(s) + keeps(t) =~= keeps(s));
    } else {
        lemma_sides_concat(s, t.drop_last());
        assert((s + t).drop_last() =~= s + t.drop_last());
        assert((s + t).last() == t.last());
        assert(old_side(s) + old_side(t.drop_last()).push(t.last().1) =~= (old_side(s)
            + old_side(t.drop_last())).push(t.last().1));
        assert(new_side(s) + new_side(t.drop_last()).push(t.last().1) =~= (new_side(s)
            + new_side(t.drop_last())).push(t.last().1));
        assert(keeps(s) + keeps(t.drop_last()).push(t.last().1) =~= (keeps(s) + keeps(
            t.drop_last())).push(t.last().1));
    }
}

/// Every script has `edits == |old| + |new| - 2 * |keeps|`.
pub proof fn lemma_edits_count(s: Seq<(Ses, char)>)
    ensures
        old_side(s).len() + new_side(s).len() == edits(s) + 2 * keeps(s).len(),
    decreases s.len(),
{
    if s.len() > 0 {
        lemma_edits_count(s.drop_last());
    }
}

/// Steps of a single kind consume their characters on that kind's side only.
pub proof fn lemma_all_of(op: Ses, a: Seq<char>)
    ensures
        old_side(all_of(op, a)) == (if op == Ses::Insert { Seq::<char>::empty() } else { a }),
        new_side(all_of(op, a)) == (if op == Ses::Delete { Seq::<char>::empty() } else { a }),
        keeps(all_of(op, a)) == (if op == Ses::Keep { a } else { Seq::<char>::empty() }),
        edits(all_of(op, a)) == (if op == Ses::Keep { 0 } else { a.len() }),
    decreases a.len(),
{
    if a.len() > 0 {
        lemma_all_of(op, a.drop_last());
        assert(all_of(op, a).drop_last() =~= all_of(op, a.drop_last()));
        assert(a.drop_last().push(a.last()) =~= a);
    } else {
        assert(all_of(op, a) =~= Seq::empty());
    }
}

/// Deleting all of `a`, then inserting all of `b`, turns `a` into `b` with `|a| + |b|` edits.
pub proof fn lemma_delete_then_insert(a: Seq<char>, b: Seq<char>)
    ensures
        is_script(a, b, all_of(Ses::Delete, a) + all_of(Ses::Insert, b)),
        edits(all_of(Ses::Delete, a) + all_of(Ses::Insert, b)) == a.len() + b.len(),
{
    lemma_all_of(Ses::Delete, a);
    lemma_all_of(Ses::Insert, b);
    lemma_sides_concat(all_of(Ses::Delete, a), all_of(Ses::Insert, b));
    assert(a + Seq::<char>::empty() =~= a);
    assert(Seq::<char>::empty() + b =~= b);
}

/// Reading a script from the other side exchanges its two sides and keeps its edits.
pub proof fn lemma_swap_sides(s: Seq<(Ses, char)>)
    ensures
        old_side(swap_roles(s)) == new_side(s),
        new_side(swap_roles(s)) == old_side(s),
        keeps(swap_roles(s)) == keeps(s),
        edits(swap_roles(s)) == edits(s),
    decreases s.len(),
{
    if s.len() > 0 {
        lemma_swap_sides(s.drop_last());
        assert(swap_roles(s).drop_last() =~= swap_roles(s.drop_last()));
    }
}

/// A script without edits keeps every character of its old side.
pub proof fn lemma_no_edits(s: Seq<(Ses, char)>)
    requires
        edits(s) == 0,
    ensures
        s == all_of(Ses::Keep, old_side(s)),
        keeps(s) == old_side(s),
        new_side(s) == old_side(s),
    decreases s.len(),
{
    if s.len() > 0 {
        let t = s.drop_last();
        let c = s.last().1;
        lemma_no_edits(t);
        assert(s.last() == (Ses::Keep, c));
        assert(s =~= t.push((Ses::Keep, c)));
        assert(all_of(Ses::Keep, old_side(t).push(c)) =~= all_of(Ses::Keep, old_side(t)).push(
            (Ses::Keep, c),
        ));
    } else {
        assert(s =~= all_of(Ses::Keep, old_side(s)));
    }
}

/// Swapping the roles of the two sequences keeps the edit distance: shortest scripts from
/// `a` to `b` and from `b` to `a` have equally many edits, and a shortest script from `a`
/// to `b` read with `Delete` and `Insert` exchanged is a shortest script from `b` to `a`.
pub proof fn lemma_swap_roles(
    a: Seq<char>,
    b: Seq<char>,
    s1: Seq<(Ses, char)>,
    s2: Seq<(Ses, char)>,
)
    requires
        is_shortest(a, b, s1),
        is_shortest(b, a, s2),
    ensures
        edits(s1) == edits(s2),
        is_shortest(b, a, swap_roles(s1)),
{
    lemma_swap_sides(s1);
    lemma_swap_sides(s2);
    assert(is_script(b, a, swap_roles(s1)));
    assert(is_script(a, b, swap_roles(s2)));
}

/// Comparing a sequence with itself takes no edit: a shortest script keeps every
/// character in order, and its `Keep` characters are the sequence itself.
pub proof fn lemma_equal_inputs(a: Seq<char>, s: Seq<(Ses, char)>)
    requires
        is_shortest(a, a, s),
    ensures
        edits(s) == 0,
        s == all_of(Ses::Keep, a),
        keeps(s) == a,
{
    lemma_all_of(Ses::Keep, a);
    assert(is_script(a, a, all_of(Ses::Keep, a)));
    lemma_no_edits(s);
}

} // verus!
