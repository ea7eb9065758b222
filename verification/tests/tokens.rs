use loom::layout::TokenStream;
use loom::stream::Entry;

type T = TokenStream<&'static str, u32>;
type E = Entry<&'static str, u32, (), ()>;

fn w(x: &'static str) -> E {
    Entry::Word(x)
}

fn stream(words: &[&'static str]) -> T {
    let mut t = T::new();
    for x in words {
        t.word(x);
    }
    t
}

#[test]
fn building_a_stream() {
    let mut t = T::new();
    assert_eq!(t.len(), 0);
    t.word("a").space(2).word("b").nbspace(3).word("c");
    assert_eq!(
        t.buf,
        vec![w("a"), Entry::Space(true, 2), w("b"), Entry::Space(false, 3), w("c")]
    );
    assert_eq!(t.len(), 5);
}

#[test]
fn newline_is_not_doubled() {
    let mut t = stream(&["a"]);
    t.newline().newline();
    assert_eq!(t.buf, vec![w("a"), Entry::Linebreak(false)]);
    let mut e = T::new();
    e.newline();
    assert_eq!(e.buf, vec![Entry::Linebreak(false)]);
}

#[test]
fn extend_appends_a_copy() {
    let mut t = stream(&["a"]);
    let u = stream(&["b", "c"]);
    t.extend(&u).word("d");
    assert_eq!(t.buf, vec![w("a"), w("b"), w("c"), w("d")]);
    assert_eq!(u.buf, vec![w("b"), w("c")]);
}

#[test]
fn branch_marks_both_ways() {
    let mut t = T::new();
    t.branch(&stream(&["d"]), &stream(&["x", "y"]));
    assert_eq!(
        t.buf,
        vec![Entry::BranchEntry(3), w("x"), w("y"), Entry::BranchExit(1), w("d")]
    );
    let mut e = T::new();
    e.branch(&T::new(), &T::new());
    assert_eq!(e.buf, vec![Entry::BranchEntry(1), Entry::BranchExit(0)]);
}

#[test]
fn branch_many_without_others_is_the_default() {
    let mut t = stream(&["a"]);
    t.branch_many(stream(&["d"]), vec![]);
    assert_eq!(t.buf, vec![w("a"), w("d")]);
}

#[test]
fn branch_many_with_one_other() {
    let mut t = T::new();
    t.branch_many(stream(&["d"]), vec![stream(&["x"])]);
    assert_eq!(t.buf, vec![Entry::BranchEntry(2), w("x"), Entry::BranchExit(1), w("d")]);
}

#[test]
fn branch_many_with_three_others() {
    let mut t = T::new();
    t.branch_many(stream(&["d"]), vec![stream(&["p"]), stream(&["q"]), stream(&["r"])]);
    // round one: p with r, q stays; round two: (p|r) with q
    let pr = vec![Entry::BranchEntry(2), w("r"), Entry::BranchExit(1), w("p")];
    let mut alt = vec![Entry::BranchEntry(2), w("q"), Entry::BranchExit(4)];
    alt.extend(pr);
    let mut expected = vec![Entry::BranchEntry(alt.len() + 1)];
    expected.extend(alt);
    expected.push(Entry::BranchExit(1));
    expected.push(w("d"));
    assert_eq!(t.buf, expected);
}

/// Reads a stream along a path, as the paragraph layout does.
fn read(s: &[E], path: &[bool]) -> Vec<E> {
    let mut out = vec![];
    let mut pos = 0;
    let mut k = 0;
    while pos < s.len() {
        match &s[pos] {
            Entry::BranchEntry(n) => {
                let take = k < path.len() && path[k];
                k += 1;
                if !take {
                    pos += n;
                }
            }
            Entry::BranchExit(n) => pos += n,
            e => out.push(e.clone()),
        }
        pos += 1;
    }
    out
}

fn all_reads(s: &[E], bits: usize) -> Vec<Vec<E>> {
    (0..(1u32 << bits))
        .map(|m| {
            let path: Vec<bool> = (0..bits).map(|i| m & (1 << i) != 0).collect();
            read(s, &path)
        })
        .collect()
}

#[test]
fn branch_many_keeps_every_way() {
    let mut t = T::new();
    let mut q = stream(&["q"]);
    q.space(1).word("qq");
    t.branch_many(
        stream(&["d"]),
        vec![stream(&["p"]), q, stream(&["r", "s"]), stream(&["u"])],
    );
    let reads = all_reads(&t.buf, 4);
    for way in [vec![w("d")], vec![w("p")], vec![w("q"), Entry::Space(true, 1), w("qq")], vec![w("r"), w("s")], vec![w("u")]].iter() {
        assert!(reads.contains(way), "{:?}", way);
    }
}
