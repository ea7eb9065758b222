use loom::layout::{Counter, GlueKind};
use loom::stream::{merge, push_branch, Entry};

type E = Entry<&'static str, u32, (), ()>;

fn w(x: &'static str) -> E {
    Entry::Word(x)
}

fn sp(breaking: bool, m: u32) -> E {
    Entry::Space(breaking, m)
}

const ALL: [GlueKind; 5] = [
    GlueKind::Nothing,
    GlueKind::Space { breaking: true },
    GlueKind::Space { breaking: false },
    GlueKind::Newline { fill: false },
    GlueKind::Newline { fill: true },
];

#[test]
fn glue_nothing_wins() {
    for g in ALL.iter() {
        assert!(GlueKind::Nothing.can_combine(*g));
        assert_eq!(GlueKind::Nothing.combine(*g), GlueKind::Nothing);
        assert_eq!(g.combine(GlueKind::Nothing), GlueKind::Nothing);
    }
}

#[test]
fn glue_non_breaking_wins_over_breaking() {
    let b = GlueKind::Space { breaking: true };
    let nb = GlueKind::Space { breaking: false };
    assert_eq!(b.combine(nb), nb);
    assert_eq!(nb.combine(b), nb);
    assert_eq!(b.combine(b), b);
}

#[test]
fn glue_newline_wins_over_breaking_space() {
    let b = GlueKind::Space { breaking: true };
    let nl = GlueKind::Newline { fill: false };
    let fill = GlueKind::Newline { fill: true };
    assert_eq!(b.combine(nl), nl);
    assert_eq!(fill.combine(b), fill);
    assert_eq!(nl.combine(fill), fill);
    assert_eq!(nl.combine(nl), nl);
}

#[test]
fn glue_newline_and_non_breaking_conflict() {
    let nb = GlueKind::Space { breaking: false };
    let nl = GlueKind::Newline { fill: false };
    let fill = GlueKind::Newline { fill: true };
    assert!(!nb.can_combine(nl));
    assert!(!fill.can_combine(nb));
    assert!(nb.can_combine(nb));
}

#[test]
fn glue_laws_on_all_values() {
    for a in ALL.iter() {
        assert!(a.can_combine(*a));
        assert_eq!(a.combine(*a), *a);
        for b in ALL.iter() {
            assert_eq!(a.can_combine(*b), b.can_combine(*a));
            if a.can_combine(*b) {
                assert_eq!(a.combine(*b), b.combine(*a));
            }
            for c in ALL.iter() {
                if a.can_combine(*b)
                    && a.combine(*b).can_combine(*c)
                    && b.can_combine(*c)
                    && a.can_combine(b.combine(*c))
                {
                    assert_eq!(a.combine(*b).combine(*c), a.combine(b.combine(*c)));
                }
            }
        }
    }
}

#[test]
fn counters_differ() {
    assert_ne!(Counter::Uncounted, Counter::Page);
    assert_ne!(Counter::Chapter, Counter::Document);
}

#[test]
fn merge_with_an_empty_stream_needs_no_branch() {
    let mut out: Vec<E> = vec![w("x")];
    merge(&mut out, vec![], vec![w("b")]);
    assert_eq!(out, vec![w("x"), w("b")]);
    let mut out: Vec<E> = vec![];
    merge(&mut out, vec![w("a")], vec![]);
    assert_eq!(out, vec![w("a")]);
}

#[test]
fn merge_different_ends() {
    let mut out: Vec<E> = vec![];
    merge(&mut out, vec![w("a"), sp(true, 1)], vec![w("b")]);
    assert_eq!(
        out,
        vec![Entry::BranchEntry(2), w("b"), Entry::BranchExit(2), w("a"), sp(true, 1)]
    );
    let mut out: Vec<E> = vec![];
    merge(&mut out, vec![w("a"), sp(true, 1)], vec![w("b"), sp(false, 1)]);
    assert_eq!(
        out,
        vec![
            Entry::BranchEntry(3),
            w("b"),
            sp(false, 1),
            Entry::BranchExit(2),
            w("a"),
            sp(true, 1)
        ]
    );
    let mut out: Vec<E> = vec![];
    merge(&mut out, vec![w("a"), sp(true, 1)], vec![w("b"), sp(true, 2)]);
    assert_eq!(out.len(), 6);
}

#[test]
fn merge_shares_an_equal_last_space() {
    let mut out: Vec<E> = vec![w("x")];
    merge(&mut out, vec![w("a"), w("c"), sp(true, 3)], vec![w("b"), sp(true, 3)]);
    assert_eq!(
        out,
        vec![
            w("x"),
            Entry::BranchEntry(2),
            w("b"),
            Entry::BranchExit(2),
            w("a"),
            w("c"),
            sp(true, 3)
        ]
    );
}

#[test]
fn push_branch_of_no_way_and_of_one_way() {
    let mut out: Vec<E> = vec![w("x")];
    push_branch(&mut out, vec![]);
    assert_eq!(out, vec![w("x")]);
    push_branch(&mut out, vec![vec![w("a"), w("b")]]);
    assert_eq!(out, vec![w("x"), w("a"), w("b")]);
}

#[test]
fn push_branch_of_two_ways() {
    let mut out: Vec<E> = vec![];
    push_branch(&mut out, vec![vec![w("a")], vec![w("b")]]);
    assert_eq!(out, vec![Entry::BranchEntry(2), w("b"), Entry::BranchExit(1), w("a")]);
}

#[test]
fn push_branch_of_four_ways_pairs_first_with_last() {
    let mut out: Vec<E> = vec![];
    push_branch(&mut out, vec![vec![w("d")], vec![w("p")], vec![w("q")], vec![w("r")]]);
    // the alternatives p, q, r: first p with r, then that with q
    let pr = vec![Entry::BranchEntry(2), w("r"), Entry::BranchExit(1), w("p")];
    let mut alt = vec![Entry::BranchEntry(2), w("q"), Entry::BranchExit(4)];
    alt.extend(pr);
    let mut expected = vec![Entry::BranchEntry(alt.len() + 1)];
    expected.extend(alt.clone());
    expected.push(Entry::BranchExit(1));
    expected.push(w("d"));
    assert_eq!(out, expected);
}

#[test]
fn push_branch_of_five_ways_keeps_the_middle_one() {
    let mut out: Vec<E> = vec![];
    push_branch(
        &mut out,
        vec![vec![w("d")], vec![w("a")], vec![w("b")], vec![w("c")], vec![w("e")]],
    );
    // round one: a with e, b with c; round two: (a|e) with (b|c)
    let ae = vec![Entry::BranchEntry(2), w("e"), Entry::BranchExit(1), w("a")];
    let bc = vec![Entry::BranchEntry(2), w("c"), Entry::BranchExit(1), w("b")];
    let mut alt = vec![Entry::BranchEntry(bc.len() + 1)];
    alt.extend(bc);
    alt.push(Entry::BranchExit(ae.len()));
    alt.extend(ae);
    let mut expected = vec![Entry::BranchEntry(alt.len() + 1)];
    expected.extend(alt);
    expected.push(Entry::BranchExit(1));
    expected.push(w("d"));
    assert_eq!(out, expected);
}

/// Reads a stream along a path, as the paragraph layout does.
fn read(s: &[E], path: &[bool]) -> Vec<E> {
    let mut out = vec![];
    let mut pos = 0;
    let mut k = 0;
    while pos < s.len() {
        match &s[pos] {
            Entry::BranchEntry(n) => {
                let take = k < path.len() && path[k];
                k += 1;
                if !take {
                    pos += n;
                }
            }
            Entry::BranchExit(n) => pos += n,
            e => out.push(e.clone()),
        }
        pos += 1;
    }
    out
}

#[test]
fn merged_branch_reads_both_ways() {
    let a = vec![w("a1"), Entry::BranchEntry(2), w("x"), Entry::BranchExit(1), w("y"), sp(true, 1)];
    let b = vec![w("b1"), w("b2"), sp(true, 1)];
    let mut out: Vec<E> = vec![];
    merge(&mut out, a.clone(), b.clone());
    assert_eq!(read(&out, &[true]), read(&b, &[]));
    assert_eq!(read(&out, &[false, false]), read(&a, &[false]));
    assert_eq!(read(&out, &[false, true]), read(&a, &[true]));
    assert_eq!(read(&out, &[false, true]), vec![w("a1"), w("x"), sp(true, 1)]);
}

fn all_reads(s: &[E], bits: usize) -> Vec<Vec<E>> {
    (0..(1u32 << bits))
        .map(|m| {
            let path: Vec<bool> = (0..bits).map(|i| m & (1 << i) != 0).collect();
            read(s, &path)
        })
        .collect()
}

#[test]
fn push_branch_keeps_every_way_ending_in_the_same_space() {
    let ways = vec![
        vec![w("d"), sp(true, 1)],
        vec![w("p"), sp(true, 1)],
        vec![w("q"), w("q2"), sp(true, 1)],
        vec![w("r"), sp(true, 1)],
        vec![w("s"), sp(true, 1)],
    ];
    let mut out: Vec<E> = vec![];
    push_branch(&mut out, ways.clone());
    let reads = all_reads(&out, 4);
    for way in ways.iter() {
        assert!(reads.contains(way), "{:?}", way);
    }
}

#[test]
fn push_branch_with_float_measures() {
    type F = Entry<&'static str, f32, (), ()>;
    let ways: Vec<Vec<F>> = vec![
        vec![Entry::Word("d"), Entry::Space(true, 1.5)],
        vec![Entry::Word("x"), Entry::Space(true, 1.5)],
    ];
    let mut out: Vec<F> = vec![];
    push_branch(&mut out, ways);
    assert_eq!(
        out,
        vec![
            Entry::BranchEntry(2),
            Entry::Word("x"),
            Entry::BranchExit(1),
            Entry::Word("d"),
            Entry::Space(true, 1.5)
        ]
    );
}
