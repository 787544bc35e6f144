use diff::{Diff, Ses};

fn old_side(ses: &[(Ses, char)]) -> String {
    ses.iter().filter(|(op, _)| *op != Ses::Insert).map(|(_, c)| *c).collect()
}

fn new_side(ses: &[(Ses, char)]) -> String {
    ses.iter().filter(|(op, _)| *op != Ses::Delete).map(|(_, c)| *c).collect()
}

fn kept(ses: &[(Ses, char)]) -> String {
    ses.iter().filter(|(op, _)| *op == Ses::Keep).map(|(_, c)| *c).collect()
}

fn edit_count(ses: &[(Ses, char)]) -> isize {
    ses.iter().filter(|(op, _)| *op != Ses::Keep).count() as isize
}

const PAIRS: [(&str, &str); 10] = [
    ("", ""),
    ("", "abc"),
    ("abc", ""),
    ("a", "b"),
    ("ab", "ba"),
    ("kitten", "sitting"),
    ("abcdef", "dacfea"),
    ("abcabba", "cbabac"),
    ("xyz", "xyz"),
    ("héllo wörld", "hello world"),
];

#[test]
fn new_is_unsearched() {
    let diff = Diff::new("abc", "xbz");
    assert_eq!(-1, diff.ed);
    assert_eq!("", diff.lcs.as_str());
    assert!(diff.ses.is_empty());
    assert_eq!(vec!['a', 'b', 'c'], diff.a);
    assert_eq!(vec!['x', 'b', 'z'], diff.b);
}

#[test]
fn script_rebuilds_both_sequences() {
    for (a, b) in PAIRS {
        let diff = Diff::new(a, b).ond();
        assert_eq!(a, old_side(&diff.ses));
        assert_eq!(b, new_side(&diff.ses));
    }
}

#[test]
fn distance_counts_edits() {
    for (a, b) in PAIRS {
        let diff = Diff::new(a, b).ond();
        assert_eq!(diff.ed, edit_count(&diff.ses));
    }
}

#[test]
fn swapped_inputs_same_distance() {
    for (a, b) in PAIRS {
        let ab = Diff::new(a, b).ond();
        let ba = Diff::new(b, a).ond();
        assert_eq!(ab.ed, ba.ed);
        assert_eq!(ab.lcs.chars().count(), ba.lcs.chars().count());
        let swapped: Vec<(Ses, char)> = ab
            .ses
            .iter()
            .map(|(op, c)| match op {
                Ses::Delete => (Ses::Insert, *c),
                Ses::Insert => (Ses::Delete, *c),
                Ses::Keep => (Ses::Keep, *c),
            })
            .collect();
        assert_eq!(b, old_side(&swapped));
        assert_eq!(a, new_side(&swapped));
        assert_eq!(ba.ed, edit_count(&swapped));
    }
}

#[test]
fn equal_inputs_keep_everything() {
    for a in ["", "a", "hello", "aaaa"] {
        let diff = Diff::new(a, a).ond();
        assert_eq!(0, diff.ed);
        assert_eq!(a, diff.lcs.as_str());
        let keeps: Vec<(Ses, char)> = a.chars().map(|c| (Ses::Keep, c)).collect();
        assert_eq!(keeps, diff.ses);
    }
}

#[test]
fn lcs_is_kept_characters() {
    for (a, b) in PAIRS {
        let diff = Diff::new(a, b).ond();
        assert_eq!(kept(&diff.ses), diff.lcs);
        let m = a.chars().count() as isize;
        let n = b.chars().count() as isize;
        assert_eq!(m + n, diff.ed + 2 * diff.lcs.chars().count() as isize);
    }
}

#[test]
fn empty_sides() {
    let diff = Diff::new("", "").ond();
    assert_eq!(0, diff.ed);
    assert!(diff.ses.is_empty());
    let diff = Diff::new("", "ab").ond();
    assert_eq!(2, diff.ed);
    assert_eq!(vec![(Ses::Insert, 'a'), (Ses::Insert, 'b')], diff.ses);
    let diff = Diff::new("ab", "").ond();
    assert_eq!(2, diff.ed);
    assert_eq!(vec![(Ses::Delete, 'a'), (Ses::Delete, 'b')], diff.ses);
}

#[test]
fn nothing_in_common() {
    let diff = Diff::new("a", "b").ond();
    assert_eq!(2, diff.ed);
    assert_eq!("", diff.lcs.as_str());
    assert_eq!(vec![(Ses::Delete, 'a'), (Ses::Insert, 'b')], diff.ses);
}

#[test]
fn known_distance() {
    let diff = Diff::new("abcabba", "cbabac").ond();
    assert_eq!(5, diff.ed);
    assert_eq!(4, diff.lcs.chars().count());
}

#[test]
fn multibyte_characters() {
    let diff = Diff::new("héllo", "hello").ond();
    assert_eq!(2, diff.ed);
    assert_eq!("hllo", diff.lcs.as_str());
}
