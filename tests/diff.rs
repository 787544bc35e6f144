use diff::{Diff, Ses};

#[test]
fn ed0() {
    for (lhs, rhs, lcs, ses) in vec![
        ("a", "a", "a", vec![(Ses::Keep, 'a')]),
        (
            "abc",
            "abc",
            "abc",
            vec![(Ses::Keep, 'a'), (Ses::Keep, 'b'), (Ses::Keep, 'c')],
        ),
    ] {
        let diff = Diff::new(lhs, rhs).ond();
        assert_eq!(0, diff.ed);
        assert_eq!(lcs, diff.lcs.as_str());
        assert_eq!(ses, diff.ses);
    }
}

#[test]
fn ed1() {
    for (lhs, rhs, lcs, ses) in vec![
        ("a", "ab", "a", vec![(Ses::Keep, 'a'), (Ses::Insert, 'b')]),
        ("ab", "a", "a", vec![(Ses::Keep, 'a'), (Ses::Delete, 'b')]),
    ] {
        let diff = Diff::new(lhs, rhs).ond();
        assert_eq!(1, diff.ed);
        assert_eq!(lcs, diff.lcs.as_str());
        assert_eq!(ses, diff.ses);
    }
}

#[test]
fn diff_test() {
    for (lhs, rhs, ed, lcs, ses) in vec![
        (
            "kitten",
            "sitting",
            5,
            "ittn",
            vec![
                (Ses::Delete, 'k'),
                (Ses::Insert, 's'),
                (Ses::Keep, 'i'),
                (Ses::Keep, 't'),
                (Ses::Keep, 't'),
                (Ses::Delete, 'e'),
                (Ses::Insert, 'i'),
                (Ses::Keep, 'n'),
                (Ses::Insert, 'g'),
            ],
        ),
        (
            "abcdef",
            "dacfea",
            6,
            "acf",
            vec![
                (Ses::Insert, 'd'),
                (Ses::Keep, 'a'),
                (Ses::Delete, 'b'),
                (Ses::Keep, 'c'),
                (Ses::Delete, 'd'),
                (Ses::Delete, 'e'),
                (Ses::Keep, 'f'),
                (Ses::Insert, 'e'),
                (Ses::Insert, 'a'),
            ],
        ),
    ] {
        let diff = Diff::new(lhs, rhs).ond();
        assert_eq!(ed, diff.ed);
        assert_eq!(lcs, diff.lcs.as_str());
        assert_eq!(ses, diff.ses);
    }
}
