//! The stream of entries that paragraphs are laid out from, how a path
//! through its branches is read, and how two alternatives are joined into
//! one branch.
//!
//! A branch is written as `BranchEntry(n)`, the `n - 1` entries of the
//! alternative, `BranchExit(m)`, and the `m` entries of the default. A reader
//! that takes the branch goes on after the `BranchEntry` and jumps over the
//! default at the `BranchExit`; one that does not take it jumps over the
//! alternative and its `BranchExit`. Each `BranchEntry` met costs one choice
//! of the path.
use vstd::prelude::*;
use vstd::std_specs::cmp::PartialEqSpec;
use crate::layout::Counter;

verus! {

/// One entry of a stream: `W` is a measured word, `M` the measure of a
/// space, `B` an object and `S` a style.
#[derive(Debug, Clone, PartialEq)]
pub enum Entry<W, M, B, S> {
    /// A single word.
    Word(W),
    /// Punctuation, which may hang into the margin at either end of a line.
    Punctuation(W),
    Object(B),
    /// A line break; `true` fills the rest of the line.
    Linebreak(bool),
    /// A space: whether the line may break there, and its measure.
    Space(bool, M),
    /// The start of a branch; the alternative is one shorter than the count.
    BranchEntry(usize),
    /// The end of the alternative of a branch; the default that follows
    /// has the given count of entries.
    BranchExit(usize),
    Style(S),
    /// A reference to something, to be located once the layout is done.
    Anchor(Counter),
}

/// Where a reader goes on after the entry at `i`, unless it takes a branch
/// there.
pub open spec fn next_pos<W, M, B, S>(s: Seq<Entry<W, M, B, S>>, i: int) -> int {
    match s[i] {
        Entry::BranchEntry(n) => i + 1 + n,
        Entry::BranchExit(n) => i + 1 + n,
        _ => i + 1,
    }
}

/// No entry of `s` sends a reader beyond its end.
pub open spec fn closed<W, M, B, S>(s: Seq<Entry<W, M, B, S>>) -> bool {
    forall|i: int| 0 <= i < s.len() ==> #[trigger] next_pos(s, i) <= s.len()
}

/// What is left of a path after one choice.
pub open spec fn tail(path: Seq<bool>) -> Seq<bool> {
    if path.len() > 0 {
        path.drop_first()
    } else {
        path
    }
}

/// The choice a path makes at its next branch: `true` takes it.
pub open spec fn takes(path: Seq<bool>) -> bool {
    path.len() > 0 && path[0]
}

/// A place to go on reading from `s`: past the end is the end.
pub open spec fn bounded(t: int, len: int) -> int {
    if t > len {
        len
    } else {
        t
    }
}

/// What a reader meets in `s` from `pos` on, following `path`: one choice
/// per branch, `true` to take it (a path that has run out takes none).
/// Gives the entries read, branch marks left out, and what is left of the
/// path.
pub open spec fn read<W, M, B, S>(s: Seq<Entry<W, M, B, S>>, pos: int, path: Seq<bool>) -> (
    Seq<Entry<W, M, B, S>>,
    Seq<bool>,
)
    decreases s.len() - pos,
{
    if pos < 0 || pos >= s.len() {
        (seq![], path)
    } else {
        match s[pos] {
            Entry::BranchEntry(n) => if takes(path) {
                read(s, pos + 1, tail(path))
            } else {
                read(s, bounded(pos + 1 + n, s.len() as int), tail(path))
            },
            Entry::BranchExit(n) => read(s, bounded(pos + 1 + n, s.len() as int), path),
            _ => {
                let r = read(s, pos + 1, path);
                (seq![s[pos]] + r.0, r.1)
            },
        }
    }
}

/// Reading from a place in the second part of `x + y` is reading `y`.
pub proof fn lemma_read_shift<W, M, B, S>(
    x: Seq<Entry<W, M, B, S>>,
    y: Seq<Entry<W, M, B, S>>,
    j: int,
    path: Seq<bool>,
)
    requires
        0 <= j,
    ensures
        read(x + y, x.len() + j, path) == read(y, j, path),
    decreases y.len() - j,
{
    let s = x + y;
    if j >= y.len() {
    } else {
        assert(s[x.len() + j] == y[j]);
        match y[j] {
            Entry::BranchEntry(n) => {
                if takes(path) {
                    lemma_read_shift(x, y, j + 1, tail(path));
                } else {
                    lemma_read_shift(x, y, bounded(j + 1 + n, y.len() as int), tail(path));
                }
            },
            Entry::BranchExit(n) => {
                lemma_read_shift(x, y, bounded(j + 1 + n, y.len() as int), path);
            },
            _ => {
                lemma_read_shift(x, y, j + 1, path);
            },
        }
    }
}

/// Reading `x + y` where `x` is closed: first `x`, then `y` with what is
/// left of the path.
pub proof fn lemma_read_concat<W, M, B, S>(
    x: Seq<Entry<W, M, B, S>>,
    y: Seq<Entry<W, M, B, S>>,
    pos: int,
    path: Seq<bool>,
)
    requires
        closed(x),
        0 <= pos <= x.len(),
    ensures
        read(x + y, pos, path) == ({
            let rx = read(x, pos, path);
            let ry = read(y, 0, rx.1);
            (rx.0 + ry.0, ry.1)
        }),
    decreases x.len() - pos,
{
    let s = x + y;
    if pos == x.len() {
        lemma_read_shift(x, y, 0, path);
        assert(seq![] + read(y, 0, path).0 =~= read(y, 0, path).0);
    } else {
        assert(s[pos] == x[pos]);
        assert(next_pos(x, pos) <= x.len());
        match x[pos] {
            Entry::BranchEntry(n) => {
                if takes(path) {
                    lemma_read_concat(x, y, pos + 1, tail(path));
                } else {
                    lemma_read_concat(x, y, pos + 1 + n, tail(path));
                }
            },
            Entry::BranchExit(n) => {
                lemma_read_concat(x, y, pos + 1 + n, path);
            },
            _ => {
                lemma_read_concat(x, y, pos + 1, path);
                let rx = read(x, pos + 1, path);
                let ry = read(y, 0, rx.1);
                assert(seq![x[pos]] + (rx.0 + ry.0) =~= (seq![x[pos]] + rx.0) + ry.0);
            },
        }
    }
}

/// An entry that a reader hands on, as opposed to the marks of a branch.
pub open spec fn is_content<W, M, B, S>(e: Entry<W, M, B, S>) -> bool {
    !(e is BranchEntry) && !(e is BranchExit)
}

/// Reading a stream whose last entry is content, and which every path
/// reaches: the rest of it, then that entry.
pub proof fn lemma_read_last<W, M, B, S>(x: Seq<Entry<W, M, B, S>>, path: Seq<bool>)
    requires
        x.len() > 0,
        closed(x.drop_last()),
        is_content(x.last()),
    ensures
        read(x, 0, path) == ({
            let r = read(x.drop_last(), 0, path);
            (r.0.push(x.last()), r.1)
        }),
{
    let e = x.last();
    assert(x =~= x.drop_last() + seq![e]);
    lemma_read_concat(x.drop_last(), seq![e], 0, path);
    let r = read(x.drop_last(), 0, path);
    assert(read(seq![e], 1, r.1) == (Seq::<Entry<W, M, B, S>>::empty(), r.1));
    assert(read(seq![e], 0, r.1) == (seq![e], r.1));
    assert(r.0 + seq![e] =~= r.0.push(e));
}

/// Both streams end in a space, and the line may break at both or at
/// neither.
pub open spec fn ends_alike<W, M, B, S>(a: Seq<Entry<W, M, B, S>>, b: Seq<Entry<W, M, B, S>>) -> bool {
    a.len() > 0 && b.len() > 0 && match (a.last(), b.last()) {
        (Entry::Space(x, _), Entry::Space(y, _)) => x == y,
        _ => false,
    }
}

/// Both streams end in the same space, as `==` of the measures tells.
pub open spec fn ends_equal<W, M: PartialEq, B, S>(
    a: Seq<Entry<W, M, B, S>>,
    b: Seq<Entry<W, M, B, S>>,
) -> bool {
    a.len() > 0 && b.len() > 0 && match (a.last(), b.last()) {
        (Entry::Space(x, m), Entry::Space(y, n)) => x == y && m.eq_spec(&n),
        _ => false,
    }
}

/// The branch that joins the default `a` and the alternative `b`; where
/// `shared` holds, their last entries are set once, after the branch, as
/// the last entry of `b`. A stream that is empty needs no branch.
pub open spec fn merged<W, M, B, S>(
    a: Seq<Entry<W, M, B, S>>,
    b: Seq<Entry<W, M, B, S>>,
    shared: bool,
) -> Seq<Entry<W, M, B, S>> {
    if a.len() == 0 {
        b
    } else if b.len() == 0 {
        a
    } else if shared {
        seq![Entry::BranchEntry(b.len() as usize)] + b.drop_last() + seq![
            Entry::BranchExit((a.len() - 1) as usize),
        ] + a.drop_last() + seq![b.last()]
    } else {
        branched(a, b)
    }
}

/// The branch with the default `a` and the alternative `b`.
pub open spec fn branched<W, M, B, S>(a: Seq<Entry<W, M, B, S>>, b: Seq<Entry<W, M, B, S>>) -> Seq<
    Entry<W, M, B, S>,
> {
    seq![Entry::BranchEntry((b.len() + 1) as usize)] + b + seq![Entry::BranchExit(a.len() as usize)]
        + a
}

/// Appends to `out` the branch that joins the default `a` and the
/// alternative `b`. Where both end in the same space, that space is taken
/// out of both and set once after the branch.
pub fn merge<W, M: PartialEq, B, S>(
    out: &mut Vec<Entry<W, M, B, S>>,
    a: Vec<Entry<W, M, B, S>>,
    b: Vec<Entry<W, M, B, S>>,
)
    requires
        b@.len() < usize::MAX,
    ensures
        final(out)@ == old(out)@ + merged(a@, b@, false) || (ends_alike(a@, b@) && final(out)@
            == old(out)@ + merged(a@, b@, true)),
        M::obeys_eq_spec() ==> final(out)@ == old(out)@ + merged(a@, b@, ends_equal(a@, b@)),
{
    let ghost a0 = a@;
    let ghost b0 = b@;
    let ghost out0 = out@;
    let mut a = a;
    let mut b = b;
    if a.len() == 0 {
        out.append(&mut b);
    } else if b.len() == 0 {
        out.append(&mut a);
    } else {
        let equal_end = match (&a[a.len() - 1], &b[b.len() - 1]) {
            (Entry::Space(x, m), Entry::Space(y, n)) => *x == *y && m.eq(n),
            _ => false,
        };
        let end_sym = if equal_end {
            a.pop();
            b.pop()
        } else {
            None
        };
        out.push(Entry::BranchEntry(b.len() + 1));
        out.append(&mut b);
        out.push(Entry::BranchExit(a.len()));
        out.append(&mut a);
        match end_sym {
            Some(end) => {
                out.push(end);
                assert(out@ =~= out0 + merged(a0, b0, true));
            },
            None => {
                assert(out@ =~= out0 + merged(a0, b0, false));
            },
        }
    }
}

/// A branch keeps both its ways: the path that takes it reads the
/// alternative `b`, and the one that does not reads the default `a`, each
/// path then going on as it would in that stream.
pub proof fn law_branch_keeps_both<W, M, B, S>(
    a: Seq<Entry<W, M, B, S>>,
    b: Seq<Entry<W, M, B, S>>,
    path: Seq<bool>,
)
    requires
        closed(a),
        closed(b),
        a.len() <= usize::MAX,
        b.len() < usize::MAX,
    ensures
        read(branched(a, b), 0, seq![true] + path) == read(b, 0, path),
        read(branched(a, b), 0, seq![false] + path) == read(a, 0, path),
{
    let m = branched(a, b);
    let t = seq![true] + path;
    let f = seq![false] + path;
    assert(tail(t) =~= path);
    assert(tail(f) =~= path);
    let be = seq![Entry::<W, M, B, S>::BranchEntry((b.len() + 1) as usize)];
    let bx = seq![Entry::<W, M, B, S>::BranchExit(a.len() as usize)];
    // taking the branch
    assert(m =~= be + (b + (bx + a)));
    lemma_read_shift(be, b + (bx + a), 0, path);
    lemma_read_concat(b, bx + a, 0, path);
    let rb = read(b, 0, path);
    assert(read(bx + a, 0, rb.1) == read(bx + a, (1 + a.len()) as int, rb.1));
    assert(rb.0 + seq![] =~= rb.0);
    // not taking it
    assert(m =~= (be + b + bx) + a);
    lemma_read_shift(be + b + bx, a, 0, path);
    assert(read(m, 0, f) == read(m, (b.len() + 2) as int, path));
}

/// Joining two streams into one branch keeps both: the path that takes
/// the branch reads the alternative `b`, and the one that does not reads
/// the default `a`, each path then going on as it would in that stream.
/// Where the last space is shared, the default ends in the space of `b`,
/// which is alike to its own.
pub proof fn law_merge_keeps_both<W, M, B, S>(
    a: Seq<Entry<W, M, B, S>>,
    b: Seq<Entry<W, M, B, S>>,
    shared: bool,
    path: Seq<bool>,
)
    requires
        a.len() > 0,
        b.len() > 0,
        a.len() <= usize::MAX,
        b.len() < usize::MAX,
        shared ==> ends_alike(a, b) && closed(a.drop_last()) && closed(b.drop_last()),
        !shared ==> closed(a) && closed(b),
    ensures
        read(merged(a, b, shared), 0, seq![true] + path) == read(b, 0, path),
        !shared ==> read(merged(a, b, shared), 0, seq![false] + path) == read(a, 0, path),
        shared ==> read(merged(a, b, shared), 0, seq![false] + path) == ({
            let r = read(a.drop_last(), 0, path);
            (r.0.push(b.last()), r.1)
        }),
{
    let m = merged(a, b, shared);
    let t = seq![true] + path;
    let f = seq![false] + path;
    assert(tail(t) =~= path);
    assert(tail(f) =~= path);
    if !shared {
        law_branch_keeps_both(a, b, path);
    } else {
        let b1 = b.drop_last();
        let a1 = a.drop_last();
        let e = b.last();
        let be = seq![Entry::<W, M, B, S>::BranchEntry(b.len() as usize)];
        let bx = seq![Entry::<W, M, B, S>::BranchExit((a.len() - 1) as usize)];
        assert(is_content(e));
        assert(is_content(a.last()));
        // taking the branch
        assert(m =~= be + (b1 + ((bx + a1) + seq![e])));
        lemma_read_shift(be, b1 + ((bx + a1) + seq![e]), 0, path);
        lemma_read_concat(b1, (bx + a1) + seq![e], 0, path);
        let rb = read(b1, 0, path);
        lemma_read_shift(bx + a1, seq![e], 0, rb.1);
        assert(read((bx + a1) + seq![e], 0, rb.1) == read((bx + a1) + seq![e], (1 + a1.len()) as int, rb.1));
        assert(read(seq![e], 1, rb.1) == (Seq::<Entry<W, M, B, S>>::empty(), rb.1));
        assert(read(seq![e], 0, rb.1) == (seq![e], rb.1));
        lemma_read_last(b, path);
        assert(rb.0 + seq![e] =~= rb.0.push(e));
        // not taking it
        assert(m =~= (be + b1 + bx) + (a1 + seq![e]));
        lemma_read_shift(be + b1 + bx, a1 + seq![e], 0, path);
        assert(read(m, 0, f) == read(m, (b1.len() + 2) as int, path));
        let a2 = a1 + seq![e];
        assert(a2.drop_last() =~= a1);
        assert(a2.last() == e);
        lemma_read_last(a2, path);
    }
}

/// Two closed streams one after the other are closed.
pub proof fn lemma_closed_concat<W, M, B, S>(x: Seq<Entry<W, M, B, S>>, y: Seq<Entry<W, M, B, S>>)
    requires
        closed(x),
        closed(y),
    ensures
        closed(x + y),
{
    let s = x + y;
    assert forall|i: int| 0 <= i < s.len() implies #[trigger] next_pos(s, i) <= s.len() by {
        if i < x.len() {
            assert(s[i] == x[i]);
            assert(next_pos(x, i) <= x.len());
        } else {
            assert(s[i] == y[i - x.len()]);
            assert(next_pos(y, i - x.len()) <= y.len());
        }
    }
}

/// A closed stream without its last entry sends no reader further than
/// one past its new end.
pub proof fn lemma_closed_drop_last<W, M, B, S>(x: Seq<Entry<W, M, B, S>>, i: int)
    requires
        closed(x),
        x.len() > 0,
        0 <= i < x.len() - 1,
    ensures
        next_pos(x.drop_last(), i) <= x.drop_last().len() + 1,
{
    assert(x.drop_last()[i] == x[i]);
    assert(next_pos(x, i) <= x.len());
}

/// Joining two closed streams gives a closed stream.
pub proof fn lemma_merged_closed<W, M, B, S>(
    a: Seq<Entry<W, M, B, S>>,
    b: Seq<Entry<W, M, B, S>>,
    shared: bool,
)
    requires
        closed(a),
        closed(b),
        a.len() <= usize::MAX,
        b.len() < usize::MAX,
        shared ==> ends_alike(a, b),
    ensures
        closed(merged(a, b, shared)),
{
    let m = merged(a, b, shared);
    if a.len() == 0 || b.len() == 0 {
    } else if shared {
        let b1 = b.drop_last();
        let a1 = a.drop_last();
        assert forall|i: int| 0 <= i < m.len() implies #[trigger] next_pos(m, i) <= m.len() by {
            if i == 0 {
            } else if i <= b1.len() {
                assert(m[i] == b1[i - 1]);
                lemma_closed_drop_last(b, i - 1);
            } else if i == b1.len() + 1 {
            } else if i < m.len() - 1 {
                assert(m[i] == a1[i - b1.len() - 2]);
                lemma_closed_drop_last(a, i - b1.len() - 2);
            } else {
                assert(m[i] == b.last());
            }
        }
    } else {
        assert forall|i: int| 0 <= i < m.len() implies #[trigger] next_pos(m, i) <= m.len() by {
            if i == 0 {
            } else if i <= b.len() {
                assert(m[i] == b[i - 1]);
                assert(next_pos(b, i - 1) <= b.len());
            } else if i == b.len() + 1 {
            } else {
                assert(m[i] == a[i - b.len() - 2]);
                assert(next_pos(a, i - b.len() - 2) <= a.len());
            }
        }
    }
}

/// The entries of each stream.
pub open spec fn views<W, M, B, S>(xs: Seq<Vec<Entry<W, M, B, S>>>) -> Seq<Seq<Entry<W, M, B, S>>> {
    xs.map_values(|v: Vec<Entry<W, M, B, S>>| v@)
}

/// All the entries of the streams, and two more for each stream: an upper
/// bound on the length of any branch that joins them.
pub open spec fn total<W, M, B, S>(xs: Seq<Seq<Entry<W, M, B, S>>>) -> nat
    decreases xs.len(),
{
    if xs.len() == 0 {
        0
    } else {
        total(xs.drop_last()) + xs.last().len() + 2
    }
}

/// Every stream of `xs` is closed.
pub open spec fn all_closed<W, M, B, S>(xs: Seq<Seq<Entry<W, M, B, S>>>) -> bool {
    forall|i: int| 0 <= i < xs.len() ==> closed(#[trigger] xs[i])
}

/// One round of joining: the first stream with the last as its
/// alternative, the second with the one before last, and so on; of an odd
/// number, the middle one stays as it is.
pub open spec fn round<W, M: PartialEq, B, S>(xs: Seq<Seq<Entry<W, M, B, S>>>) -> Seq<
    Seq<Entry<W, M, B, S>>,
> {
    let n = xs.len() as int;
    let h = n / 2;
    Seq::new(
        (n - h) as nat,
        |i: int|
            if i < h {
                merged(xs[i], xs[n - 1 - i], ends_equal(xs[i], xs[n - 1 - i]))
            } else {
                xs[h]
            },
    )
}

/// The streams joined, round after round, into one.
pub open spec fn join_all<W, M: PartialEq, B, S>(xs: Seq<Seq<Entry<W, M, B, S>>>) -> Seq<
    Entry<W, M, B, S>,
>
    decreases xs.len(),
{
    if xs.len() == 0 {
        seq![]
    } else if xs.len() == 1 {
        xs[0]
    } else {
        join_all(round(xs))
    }
}

pub proof fn lemma_total_concat<W, M, B, S>(
    x: Seq<Seq<Entry<W, M, B, S>>>,
    y: Seq<Seq<Entry<W, M, B, S>>>,
)
    ensures
        total(x + y) == total(x) + total(y),
    decreases y.len(),
{
    if y.len() == 0 {
        assert(x + y =~= x);
    } else {
        lemma_total_concat(x, y.drop_last());
        assert((x + y).drop_last() =~= x + y.drop_last());
    }
}

pub proof fn lemma_total_each<W, M, B, S>(xs: Seq<Seq<Entry<W, M, B, S>>>, i: int)
    requires
        0 <= i < xs.len(),
    ensures
        xs[i].len() + 2 <= total(xs),
    decreases xs.len(),
{
    if i < xs.len() - 1 {
        lemma_total_each(xs.drop_last(), i);
    }
}

pub proof fn lemma_total_push<W, M, B, S>(
    xs: Seq<Seq<Entry<W, M, B, S>>>,
    v: Seq<Entry<W, M, B, S>>,
)
    ensures
        total(xs.push(v)) == total(xs) + v.len() + 2,
{
    assert(xs.push(v).drop_last() =~= xs);
}

proof fn lemma_views_push<W, M, B, S>(xs: Seq<Vec<Entry<W, M, B, S>>>, v: Vec<Entry<W, M, B, S>>)
    ensures
        views(xs.push(v)) == views(xs).push(v@),
{
    assert(views(xs.push(v)) =~= views(xs).push(v@));
}

proof fn lemma_views_drop_last<W, M, B, S>(xs: Seq<Vec<Entry<W, M, B, S>>>)
    requires
        xs.len() > 0,
    ensures
        views(xs.subrange(0, xs.len() - 1)) == views(xs).drop_last(),
        views(xs).last() == xs.last()@,
{
    assert(views(xs.subrange(0, xs.len() - 1)) =~= views(xs).drop_last());
}

/// `m` joins the default `a` and the alternative `b`, with or without
/// sharing their last space, as `merge` does for any measure.
pub open spec fn join_of<W, M, B, S>(
    a: Seq<Entry<W, M, B, S>>,
    b: Seq<Entry<W, M, B, S>>,
    m: Seq<Entry<W, M, B, S>>,
) -> bool {
    m == merged(a, b, false) || (ends_alike(a, b) && m == merged(a, b, true))
}

/// `ys` is a round of joining `xs`, for any measure: the first with the
/// last, the second with the one before last, and so on, each join with or
/// without its shared last space; of an odd number, the middle one stays.
pub open spec fn is_round<W, M, B, S>(xs: Seq<Seq<Entry<W, M, B, S>>>, ys: Seq<Seq<Entry<W, M, B, S>>>) -> bool {
    let n = xs.len() as int;
    let h = n / 2;
    &&& ys.len() == n - h
    &&& forall|k: int| 0 <= k < h ==> join_of(xs[k], xs[n - 1 - k], #[trigger] ys[k])
    &&& forall|k: int| h <= k < n - h ==> #[trigger] ys[k] == xs[k]
}

/// `r` joins the streams `xs` round after round into one, for any measure.
pub open spec fn joins<W, M, B, S>(xs: Seq<Seq<Entry<W, M, B, S>>>, r: Seq<Entry<W, M, B, S>>) -> bool
    decreases xs.len(),
{
    if xs.len() == 0 {
        r == Seq::<Entry<W, M, B, S>>::empty()
    } else if xs.len() == 1 {
        r == xs[0]
    } else {
        exists|ys: Seq<Seq<Entry<W, M, B, S>>>|
            #[trigger] is_round(xs, ys) && ys.len() < xs.len() && joins(ys, r)
    }
}

/// One round of joining the streams.
fn pair_round<W, M: PartialEq, B, S>(xs: Vec<Vec<Entry<W, M, B, S>>>) -> (r: Vec<
    Vec<Entry<W, M, B, S>>,
>)
    requires
        total(views(xs@)) < usize::MAX,
    ensures
        r@.len() == xs@.len() - xs@.len() / 2,
        total(views(r@)) <= total(views(xs@)),
        all_closed(views(xs@)) ==> all_closed(views(r@)),
        M::obeys_eq_spec() ==> views(r@) == round(views(xs@)),
        is_round(views(xs@), views(r@)),
{
    let ghost xv = views(xs@);
    let n = xs.len();
    let h = n / 2;
    let mut others = xs;
    let mut back = others.split_off(h);
    proof {
        assert(xv =~= views(others@) + views(back@));
        lemma_total_concat(views(others@), views(back@));
    }
    let mut front: Vec<Vec<Entry<W, M, B, S>>> = Vec::new();
    while others.len() > 0
        invariant
            others@.len() + front@.len() == h,
            forall|k: int| 0 <= k < others@.len() ==> #[trigger] views(others@)[k] == xv[k],
            forall|k: int| 0 <= k < front@.len() ==> #[trigger] views(front@)[k] == xv[h - 1 - k],
            total(views(others@)) + total(views(front@)) + total(views(back@)) == total(xv),
            views(back@) == xv.subrange(h as int, n as int),
            xv.len() == n,
            h == n / 2,
        decreases others@.len(),
    {
        proof {
            lemma_views_drop_last(others@);
        }
        let x = others.pop().unwrap();
        proof {
            lemma_views_push(front@, x);
            lemma_total_push(views(front@), x@);
        }
        front.push(x);
    }
    let mut next: Vec<Vec<Entry<W, M, B, S>>> = Vec::new();
    let mut i: usize = 0;
    while i < h
        invariant
            front@.len() == h - i,
            back@.len() == n - h - i,
            i <= h,
            h == n / 2,
            xv.len() == n,
            next@.len() == i,
            forall|k: int| 0 <= k < front@.len() ==> #[trigger] views(front@)[k] == xv[h - 1 - k],
            forall|k: int| 0 <= k < back@.len() ==> #[trigger] views(back@)[k] == xv[h + k],
            total(views(next@)) + total(views(front@)) + total(views(back@)) <= total(xv),
            total(xv) < usize::MAX,
            all_closed(xv) ==> all_closed(views(next@)),
            M::obeys_eq_spec() ==> forall|k: int| 0 <= k < i ==> #[trigger] views(next@)[k] == round(xv)[k],
            forall|k: int| 0 <= k < i ==> join_of(xv[k], xv[n - 1 - k], #[trigger] views(next@)[k]),
        decreases h - i,
    {
        proof {
            lemma_views_drop_last(front@);
            lemma_views_drop_last(back@);
        }
        let ghost fv = views(front@);
        let ghost bv = views(back@);
        let x = front.pop().unwrap();
        let y = back.pop().unwrap();
        proof {
            assert(x@ == xv[i as int]);
            assert(y@ == xv[n - 1 - i]);
            lemma_total_each(bv, bv.len() - 1);
        }
        let mut m: Vec<Entry<W, M, B, S>> = Vec::new();
        merge(&mut m, x, y);
        proof {
            assert(m@.len() <= x@.len() + y@.len() + 2) by {
                assert(Seq::<Entry<W, M, B, S>>::empty() + merged(x@, y@, true) =~= merged(x@, y@, true));
                assert(Seq::<Entry<W, M, B, S>>::empty() + merged(x@, y@, false) =~= merged(x@, y@, false));
            }
            if all_closed(xv) {
                assert(closed(xv[i as int]));
                assert(closed(xv[n - 1 - i]));
                assert(Seq::<Entry<W, M, B, S>>::empty() + merged(x@, y@, true) =~= merged(x@, y@, true));
                assert(Seq::<Entry<W, M, B, S>>::empty() + merged(x@, y@, false) =~= merged(x@, y@, false));
                if m@ == merged(x@, y@, false) {
                    lemma_merged_closed(x@, y@, false);
                } else {
                    lemma_merged_closed(x@, y@, true);
                }
            }
            if M::obeys_eq_spec() {
                assert(Seq::<Entry<W, M, B, S>>::empty() + merged(x@, y@, ends_equal(x@, y@)) =~= merged(
                    x@,
                    y@,
                    ends_equal(x@, y@),
                ));
            }
            assert(Seq::<Entry<W, M, B, S>>::empty() + merged(x@, y@, true) =~= merged(x@, y@, true));
            assert(Seq::<Entry<W, M, B, S>>::empty() + merged(x@, y@, false) =~= merged(x@, y@, false));
            assert(join_of(x@, y@, m@));
            lemma_views_push(next@, m);
            lemma_total_push(views(next@), m@);
        }
        next.push(m);
        i = i + 1;
        proof {
            assert forall|k: int| 0 <= k < front@.len() implies #[trigger] views(front@)[k] == xv[h - 1 - k] by {
                assert(views(front@)[k] == fv[k]);
            }
            assert forall|k: int| 0 <= k < back@.len() implies #[trigger] views(back@)[k] == xv[h + k] by {
                assert(views(back@)[k] == bv[k]);
            }
            if all_closed(xv) {
                assert forall|k: int| 0 <= k < views(next@).len() implies closed(#[trigger] views(next@)[k]) by {
                    if k < i - 1 {
                        assert(views(next@)[k] == views(next@).drop_last()[k]);
                    }
                }
            }
            if M::obeys_eq_spec() {
                assert forall|k: int| 0 <= k < i implies #[trigger] views(next@)[k] == round(xv)[k] by {
                    if k < i - 1 {
                        assert(views(next@)[k] == views(next@).drop_last()[k]);
                    }
                }
            }
            assert forall|k: int| 0 <= k < i implies join_of(xv[k], xv[n - 1 - k], #[trigger] views(next@)[k]) by {
                if k < i - 1 {
                    assert(views(next@)[k] == views(next@).drop_last()[k]);
                }
            }
        }
    }
    if back.len() > 0 {
        proof {
            lemma_views_drop_last(back@);
            lemma_views_push(next@, back@.last());
            lemma_total_push(views(next@), back@.last()@);
            assert(views(back@)[0] == xv[h as int]);
        }
        let z = back.pop().unwrap();
        next.push(z);
        proof {
            if all_closed(xv) {
                assert forall|k: int| 0 <= k < views(next@).len() implies closed(#[trigger] views(next@)[k]) by {
                    if k < h {
                        assert(views(next@)[k] == views(next@).drop_last()[k]);
                    } else {
                        assert(views(next@)[k] == xv[h as int]);
                    }
                }
            }
        }
    }
    proof {
        assert forall|k: int| 0 <= k < h implies join_of(xv[k], xv[n - 1 - k], #[trigger] views(next@)[k]) by {
            if next@.len() > h {
                assert(views(next@)[k] == views(next@).drop_last()[k]);
            }
        }
        assert forall|k: int| h <= k < n - h implies #[trigger] views(next@)[k] == xv[k] by {
            assert(k == h);
        }
        if M::obeys_eq_spec() {
            assert forall|k: int| 0 <= k < next@.len() implies #[trigger] views(next@)[k] == round(xv)[k] by {
                if k < h && next@.len() > h {
                    assert(views(next@)[k] == views(next@).drop_last()[k]);
                }
            }
            assert(views(next@) =~= round(xv));
        }
    }
    next
}

/// The branch that joins the default `d` and the alternatives `alts`,
/// these joined round after round into one.
pub open spec fn branch_of<W, M: PartialEq, B, S>(
    d: Seq<Entry<W, M, B, S>>,
    alts: Seq<Seq<Entry<W, M, B, S>>>,
) -> Seq<Entry<W, M, B, S>> {
    let j = join_all(alts);
    merged(d, j, ends_equal(d, j))
}

/// Appends to `stream` the ways that a piece of the document can be set
/// in: the first is the default; the others are joined, round after round,
/// into one alternative to it. One way is appended as it is; none leaves
/// the stream as it was.
pub fn push_branch<W, M: PartialEq, B, S>(
    stream: &mut Vec<Entry<W, M, B, S>>,
    ways: Vec<Vec<Entry<W, M, B, S>>>,
)
    requires
        total(views(ways@)) < usize::MAX,
    ensures
        ways@.len() == 0 ==> final(stream)@ == old(stream)@,
        ways@.len() == 1 ==> final(stream)@ == old(stream)@ + ways@[0]@,
        ways@.len() >= 2 && M::obeys_eq_spec() ==> final(stream)@ == old(stream)@ + branch_of(
            ways@[0]@,
            views(ways@).drop_first(),
        ),
        ways@.len() >= 2 ==> exists|j: Seq<Entry<W, M, B, S>>|
            #[trigger] joins(views(ways@).drop_first(), j) && join_of(ways@[0]@, j, final(stream)@.subrange(
                old(stream)@.len() as int,
                final(stream)@.len() as int,
            )) && final(stream)@.subrange(0, old(stream)@.len() as int) == old(stream)@,
        closed(old(stream)@) && all_closed(views(ways@)) ==> closed(final(stream)@),
{
    let ghost wv = views(ways@);
    let ghost s0 = stream@;
    if ways.len() == 0 {
        return ;
    }
    let mut others = ways;
    let mut default = others.remove(0);
    proof {
        assert(wv =~= seq![default@] + views(others@));
        assert(views(others@) =~= wv.drop_first());
        lemma_total_concat(seq![default@], views(others@));
        assert(seq![default@].drop_last() =~= Seq::<Seq<Entry<W, M, B, S>>>::empty());
        if all_closed(wv) {
            assert(closed(wv[0]));
        }
    }
    if others.len() == 0 {
        stream.append(&mut default);
        proof {
            if closed(s0) && all_closed(wv) {
                lemma_closed_concat(s0, wv[0]);
            }
        }
        return ;
    }
    while others.len() > 1
        invariant
            others@.len() >= 1,
            total(views(others@)) < usize::MAX,
            all_closed(wv) ==> all_closed(views(others@)),
            M::obeys_eq_spec() ==> join_all(views(others@)) == join_all(wv.drop_first()),
            forall|j: Seq<Entry<W, M, B, S>>| #[trigger] joins(views(others@), j) ==> joins(wv.drop_first(), j),
        decreases others@.len(),
    {
        let ghost before = views(others@);
        others = pair_round(others);
        proof {
            assert forall|j: Seq<Entry<W, M, B, S>>| #[trigger] joins(views(others@), j) implies joins(
                wv.drop_first(),
                j,
            ) by {
                assert(is_round(before, views(others@)));
                assert(joins(before, j));
            }
        }
    }
    let ghost ov = views(others@);
    let last = others.pop().unwrap();
    proof {
        assert(views(others@).len() == 0);
        lemma_views_drop_last(seq![last].add(others@));
        assert(views(seq![last]) =~= seq![last@]);
        lemma_total_each(seq![last@], 0);
    }
    merge(stream, default, last);
    proof {
        assert(views(seq![last]) =~= seq![last@]);
        assert(ov[0] == last@);
        assert(joins(ov, last@));
        assert(joins(wv.drop_first(), last@));
        assert(wv[0] == default@);
        assert(s0 + merged(default@, last@, false) == s0 + merged(default@, last@, false));
        assert((s0 + merged(default@, last@, false)).subrange(s0.len() as int, (s0 + merged(default@, last@, false)).len() as int) =~= merged(default@, last@, false));
        assert((s0 + merged(default@, last@, true)).subrange(s0.len() as int, (s0 + merged(default@, last@, true)).len() as int) =~= merged(default@, last@, true));
        assert((s0 + merged(default@, last@, false)).subrange(0, s0.len() as int) =~= s0);
        assert((s0 + merged(default@, last@, true)).subrange(0, s0.len() as int) =~= s0);
        assert(join_of(default@, last@, stream@.subrange(s0.len() as int, stream@.len() as int)));
        if closed(s0) && all_closed(wv) {
            assert(closed(last@)) by {
                assert(views(seq![last])[0] == last@);
            }
            if stream@ == s0 + merged(default@, last@, false) {
                lemma_merged_closed(default@, last@, false);
                lemma_closed_concat(s0, merged(default@, last@, false));
            } else {
                lemma_merged_closed(default@, last@, true);
                lemma_closed_concat(s0, merged(default@, last@, true));
            }
        }
    }
}

/// One round of joining without sharing last spaces: the first stream
/// with the last as its alternative, the second with the one before last,
/// and so on; of an odd number, the middle one stays as it is.
pub open spec fn round_plain<W, M, B, S>(xs: Seq<Seq<Entry<W, M, B, S>>>) -> Seq<
    Seq<Entry<W, M, B, S>>,
> {
    let n = xs.len() as int;
    let h = n / 2;
    Seq::new(
        (n - h) as nat,
        |i: int|
            if i < h {
                branched(xs[i], xs[n - 1 - i])
            } else {
                xs[h]
            },
    )
}

/// The streams joined, round after round, into one, without sharing last
/// spaces.
pub open spec fn join_plain<W, M, B, S>(xs: Seq<Seq<Entry<W, M, B, S>>>) -> Seq<Entry<W, M, B, S>>
    decreases xs.len(),
{
    if xs.len() == 0 {
        seq![]
    } else if xs.len() == 1 {
        xs[0]
    } else {
        join_plain(round_plain(xs))
    }
}

pub proof fn lemma_total_update<W, M, B, S>(
    xs: Seq<Seq<Entry<W, M, B, S>>>,
    i: int,
    v: Seq<Entry<W, M, B, S>>,
)
    requires
        0 <= i < xs.len(),
    ensures
        total(xs.update(i, v)) + xs[i].len() == total(xs) + v.len(),
    decreases xs.len(),
{
    if i < xs.len() - 1 {
        lemma_total_update(xs.drop_last(), i, v);
        assert(xs.update(i, v).drop_last() =~= xs.drop_last().update(i, v));
    } else {
        assert(xs.update(i, v).drop_last() =~= xs.drop_last());
    }
}

/// A branch of two closed streams is closed.
pub proof fn lemma_branched_closed<W, M, B, S>(a: Seq<Entry<W, M, B, S>>, b: Seq<Entry<W, M, B, S>>)
    requires
        closed(a),
        closed(b),
        a.len() <= usize::MAX,
        b.len() < usize::MAX,
    ensures
        closed(branched(a, b)),
{
    let m = branched(a, b);
    assert forall|i: int| 0 <= i < m.len() implies #[trigger] next_pos(m, i) <= m.len() by {
        if i == 0 {
        } else if i <= b.len() {
            assert(m[i] == b[i - 1]);
            assert(next_pos(b, i - 1) <= b.len());
        } else if i == b.len() + 1 {
        } else {
            assert(m[i] == a[i - b.len() - 2]);
            assert(next_pos(a, i - b.len() - 2) <= a.len());
        }
    }
}

/// Some path through `s` meets what the path `q` meets in `w`.
pub open spec fn meets<W, M, B, S>(
    s: Seq<Entry<W, M, B, S>>,
    w: Seq<Entry<W, M, B, S>>,
    q: Seq<bool>,
) -> bool {
    exists|p: Seq<bool>| #[trigger] read(s, 0, p).0 == read(w, 0, q).0
}

/// Whatever a reader can meet in `w`, some path through `s` meets too.
pub open spec fn covers<W, M, B, S>(s: Seq<Entry<W, M, B, S>>, w: Seq<Entry<W, M, B, S>>) -> bool {
    forall|q: Seq<bool>| #[trigger] meets(s, w, q)
}

proof fn lemma_covers_refl<W, M, B, S>(s: Seq<Entry<W, M, B, S>>)
    ensures
        covers(s, s),
{
    assert forall|q: Seq<bool>| #[trigger] meets(s, s, q) by {
        assert(read(s, 0, q).0 == read(s, 0, q).0);
    }
}

proof fn lemma_covers_trans<W, M, B, S>(
    s: Seq<Entry<W, M, B, S>>,
    t: Seq<Entry<W, M, B, S>>,
    w: Seq<Entry<W, M, B, S>>,
)
    requires
        covers(s, t),
        covers(t, w),
    ensures
        covers(s, w),
{
    assert forall|q: Seq<bool>| #[trigger] meets(s, w, q) by {
        assert(meets(t, w, q));
        let p1 = choose|p1: Seq<bool>| #[trigger] read(t, 0, p1).0 == read(w, 0, q).0;
        assert(meets(s, t, p1));
        let p2 = choose|p2: Seq<bool>| #[trigger] read(s, 0, p2).0 == read(t, 0, p1).0;
        assert(read(s, 0, p2).0 == read(w, 0, q).0);
    }
}

proof fn lemma_branched_covers<W, M, B, S>(a: Seq<Entry<W, M, B, S>>, b: Seq<Entry<W, M, B, S>>)
    requires
        closed(a),
        closed(b),
        a.len() <= usize::MAX,
        b.len() < usize::MAX,
    ensures
        covers(branched(a, b), a),
        covers(branched(a, b), b),
{
    let m = branched(a, b);
    assert forall|q: Seq<bool>| #[trigger] meets(m, a, q) by {
        law_branch_keeps_both(a, b, q);
        assert(read(m, 0, seq![false] + q).0 == read(a, 0, q).0);
    }
    assert forall|q: Seq<bool>| #[trigger] meets(m, b, q) by {
        law_branch_keeps_both(a, b, q);
        assert(read(m, 0, seq![true] + q).0 == read(b, 0, q).0);
    }
}

/// A round pairs the first stream with the last, then goes on with those
/// in between.
pub proof fn lemma_round_plain_split<W, M, B, S>(xs: Seq<Seq<Entry<W, M, B, S>>>)
    requires
        xs.len() >= 2,
    ensures
        round_plain(xs) == seq![branched(xs[0], xs.last())] + round_plain(
            xs.subrange(1, xs.len() - 1),
        ),
{
    let m = xs.subrange(1, xs.len() - 1);
    let r = seq![branched(xs[0], xs.last())] + round_plain(m);
    assert(round_plain(xs).len() == r.len());
    assert forall|k: int| 0 <= k < r.len() implies #[trigger] round_plain(xs)[k] == r[k] by {
        if k > 0 {
            assert(r[k] == round_plain(m)[k - 1]);
        }
    }
    assert(round_plain(xs) =~= r);
}

/// A round of joining without shared spaces keeps the total size of the
/// streams: no entry is lost or added but the two branch marks of each
/// join.
pub proof fn lemma_round_plain_total<W, M, B, S>(xs: Seq<Seq<Entry<W, M, B, S>>>)
    ensures
        total(round_plain(xs)) == total(xs),
    decreases xs.len(),
{
    if xs.len() == 0 {
        assert(round_plain(xs) =~= xs);
    } else if xs.len() == 1 {
        assert(round_plain(xs) =~= xs);
    } else {
        let m = xs.subrange(1, xs.len() - 1);
        lemma_round_plain_split(xs);
        lemma_round_plain_total(m);
        let x0 = xs[0];
        let xl = xs.last();
        let e = Seq::<Seq<Entry<W, M, B, S>>>::empty();
        assert(xs =~= (seq![x0] + m) + seq![xl]);
        lemma_total_concat(seq![x0] + m, seq![xl]);
        lemma_total_concat(seq![x0], m);
        lemma_total_concat(seq![branched(x0, xl)], round_plain(m));
        lemma_total_push(e, x0);
        lemma_total_push(e, xl);
        lemma_total_push(e, branched(x0, xl));
        assert(e.push(x0) =~= seq![x0]);
        assert(e.push(xl) =~= seq![xl]);
        assert(e.push(branched(x0, xl)) =~= seq![branched(x0, xl)]);
        assert(branched(x0, xl).len() == x0.len() + xl.len() + 2);
    }
}

/// Joining streams loses none of them: whatever a reader can meet in any
/// of the closed streams `xs`, some path through the stream they are
/// joined into meets too. That stream is closed.
pub proof fn law_join_plain_keeps_every_way<W, M, B, S>(xs: Seq<Seq<Entry<W, M, B, S>>>)
    requires
        all_closed(xs),
        total(xs) < usize::MAX,
    ensures
        closed(join_plain(xs)),
        xs.len() > 0 ==> join_plain(xs).len() + 2 <= total(xs),
        forall|i: int| 0 <= i < xs.len() ==> covers(join_plain(xs), #[trigger] xs[i]),
    decreases xs.len(),
{
    if xs.len() == 0 {
        assert(closed(join_plain(xs)));
    } else if xs.len() == 1 {
        lemma_covers_refl(xs[0]);
        lemma_total_each(xs, 0);
        assert(closed(xs[0]));
    } else {
        let n = xs.len() as int;
        let h = n / 2;
        let ys = round_plain(xs);
        lemma_round_plain_total(xs);
        assert forall|k: int| 0 <= k < ys.len() implies closed(#[trigger] ys[k]) && (k < h ==> covers(
            ys[k],
            xs[k],
        ) && covers(ys[k], xs[n - 1 - k])) by {
            if k < h {
                lemma_total_each(xs, k);
                lemma_total_each(xs, n - 1 - k);
                assert(closed(xs[k]));
                assert(closed(xs[n - 1 - k]));
                lemma_branched_closed(xs[k], xs[n - 1 - k]);
                lemma_branched_covers(xs[k], xs[n - 1 - k]);
            } else {
                assert(closed(xs[h]));
            }
        }
        law_join_plain_keeps_every_way(ys);
        assert forall|i: int| 0 <= i < xs.len() implies covers(join_plain(xs), #[trigger] xs[i]) by {
            let j = join_plain(ys);
            if i < h {
                assert(covers(j, ys[i]));
                lemma_covers_trans(j, ys[i], xs[i]);
            } else if i >= n - h {
                let k = n - 1 - i;
                assert(covers(j, ys[k]));
                assert(n - 1 - k == i);
                lemma_covers_trans(j, ys[k], xs[i]);
            } else {
                assert(i == h);
                assert(ys[h] == xs[h]);
                assert(covers(j, ys[h]));
            }
        }
    }
}

/// A branch between a default and alternatives joined into one loses
/// none of them: whatever a reader can meet in the default or in any of the
/// alternatives, some path through the branch meets too.
pub proof fn law_branch_keeps_every_way<W, M, B, S>(
    d: Seq<Entry<W, M, B, S>>,
    alts: Seq<Seq<Entry<W, M, B, S>>>,
)
    requires
        closed(d),
        all_closed(alts),
        alts.len() > 0,
        d.len() <= usize::MAX,
        total(alts) < usize::MAX,
    ensures
        covers(branched(d, join_plain(alts)), d),
        forall|i: int| 0 <= i < alts.len() ==> covers(branched(d, join_plain(alts)), #[trigger] alts[i]),
{
    let j = join_plain(alts);
    law_join_plain_keeps_every_way(alts);
    lemma_branched_covers(d, j);
    assert forall|i: int| 0 <= i < alts.len() implies covers(branched(d, j), #[trigger] alts[i]) by {
        lemma_covers_trans(branched(d, j), j, alts[i]);
    }
}

/// Every path through `x` ends in its last entry, `e`.
pub open spec fn ends_in<W, M, B, S>(x: Seq<Entry<W, M, B, S>>, e: Entry<W, M, B, S>) -> bool {
    x.len() > 0 && x.last() == e && closed(x.drop_last())
}

/// Every stream of `xs` ends in `e` on every path.
pub open spec fn all_end_in<W, M, B, S>(xs: Seq<Seq<Entry<W, M, B, S>>>, e: Entry<W, M, B, S>) -> bool {
    forall|i: int| 0 <= i < xs.len() ==> ends_in(#[trigger] xs[i], e)
}

/// `==` on the measures is equality.
pub open spec fn eq_is_equality<M: PartialEq>() -> bool {
    &&& M::obeys_eq_spec()
    &&& forall|x: M, y: M| #[trigger] x.eq_spec(&y) <==> x == y
}

/// Two streams that end in the same space on every path are joined into
/// one that does too, and that keeps both.
proof fn lemma_shared_merge<W, M, B, S>(
    a: Seq<Entry<W, M, B, S>>,
    b: Seq<Entry<W, M, B, S>>,
    e: Entry<W, M, B, S>,
)
    requires
        ends_in(a, e),
        ends_in(b, e),
        e is Space,
        a.len() <= usize::MAX,
        b.len() < usize::MAX,
    ensures
        ends_in(merged(a, b, true), e),
        merged(a, b, true).len() == a.len() + b.len() + 1,
        covers(merged(a, b, true), a),
        covers(merged(a, b, true), b),
{
    let m = merged(a, b, true);
    let b1 = b.drop_last();
    let a1 = a.drop_last();
    assert(ends_alike(a, b));
    assert(m.last() == e);
    assert forall|i: int| 0 <= i < m.drop_last().len() implies #[trigger] next_pos(m.drop_last(), i)
        <= m.drop_last().len() by {
        let d = m.drop_last();
        if i == 0 {
        } else if i <= b1.len() {
            assert(d[i] == b1[i - 1]);
            assert(next_pos(b1, i - 1) <= b1.len());
        } else if i == b1.len() + 1 {
        } else {
            assert(d[i] == a1[i - b1.len() - 2]);
            assert(next_pos(a1, i - b1.len() - 2) <= a1.len());
        }
    }
    assert forall|q: Seq<bool>| #[trigger] meets(m, a, q) by {
        law_merge_keeps_both(a, b, true, q);
        lemma_read_last(a, q);
        assert(read(m, 0, seq![false] + q).0 == read(a, 0, q).0);
    }
    assert forall|q: Seq<bool>| #[trigger] meets(m, b, q) by {
        law_merge_keeps_both(a, b, true, q);
        assert(read(m, 0, seq![true] + q).0 == read(b, 0, q).0);
    }
}

/// A round pairs the first stream with the last, then goes on with those
/// in between.
proof fn lemma_round_split<W, M: PartialEq, B, S>(xs: Seq<Seq<Entry<W, M, B, S>>>)
    requires
        xs.len() >= 2,
    ensures
        round(xs) == seq![merged(xs[0], xs.last(), ends_equal(xs[0], xs.last()))] + round(
            xs.subrange(1, xs.len() - 1),
        ),
{
    let m = xs.subrange(1, xs.len() - 1);
    let r = seq![merged(xs[0], xs.last(), ends_equal(xs[0], xs.last()))] + round(m);
    assert(round(xs).len() == r.len());
    assert forall|k: int| 0 <= k < r.len() implies #[trigger] round(xs)[k] == r[k] by {
        if k > 0 {
            assert(r[k] == round(m)[k - 1]);
        }
    }
    assert(round(xs) =~= r);
}

/// A round of streams that all end in the same space shares that space
/// at each join, and takes two entries less per join.
proof fn lemma_round_shared<W, M: PartialEq, B, S>(
    xs: Seq<Seq<Entry<W, M, B, S>>>,
    e: Entry<W, M, B, S>,
)
    requires
        all_end_in(xs, e),
        e is Space,
        eq_is_equality::<M>(),
        total(xs) < usize::MAX,
    ensures
        total(round(xs)) <= total(xs),
        all_end_in(round(xs), e),
        forall|k: int|
            0 <= k < xs.len() / 2 ==> covers(#[trigger] round(xs)[k], xs[k]) && covers(
                round(xs)[k],
                xs[xs.len() - 1 - k],
            ),
    decreases xs.len(),
{
    let n = xs.len() as int;
    let h = n / 2;
    if n < 2 {
        assert(round(xs) =~= xs);
    } else {
        let mid = xs.subrange(1, n - 1);
        let x0 = xs[0];
        let xl = xs.last();
        let emp = Seq::<Seq<Entry<W, M, B, S>>>::empty();
        assert(ends_in(x0, e));
        assert(ends_in(xs[n - 1], e));
        // the totals
        assert(xs =~= (seq![x0] + mid) + seq![xl]);
        lemma_total_concat(seq![x0] + mid, seq![xl]);
        lemma_total_concat(seq![x0], mid);
        lemma_total_push(emp, x0);
        lemma_total_push(emp, xl);
        assert(emp.push(x0) =~= seq![x0]);
        assert(emp.push(xl) =~= seq![xl]);
        assert(all_end_in(mid, e)) by {
            assert forall|i: int| 0 <= i < mid.len() implies ends_in(#[trigger] mid[i], e) by {
                assert(mid[i] == xs[i + 1]);
            }
        }
        lemma_round_shared(mid, e);
        lemma_round_split(xs);
        match e {
            Entry::Space(_, me) => {
                assert(me.eq_spec(&me));
            },
            _ => {},
        }
        assert(ends_equal(x0, xl));
        lemma_total_each(xs, 0);
        lemma_total_each(xs, n - 1);
        lemma_shared_merge(x0, xl, e);
        let first = merged(x0, xl, true);
        lemma_total_concat(seq![first], round(mid));
        lemma_total_push(emp, first);
        assert(emp.push(first) =~= seq![first]);
        assert(all_end_in(round(xs), e)) by {
            assert forall|i: int| 0 <= i < round(xs).len() implies ends_in(#[trigger] round(xs)[i], e) by {
                if i > 0 {
                    assert(round(xs)[i] == round(mid)[i - 1]);
                }
            }
        }
        assert forall|k: int| 0 <= k < h implies covers(#[trigger] round(xs)[k], xs[k]) && covers(
            round(xs)[k],
            xs[n - 1 - k],
        ) by {
            if k > 0 {
                assert(round(xs)[k] == round(mid)[k - 1]);
                assert(xs[k] == mid[k - 1]);
                assert(xs[n - 1 - k] == mid[mid.len() - 1 - (k - 1)]);
            }
        }
    }
}

/// Joining streams that all end in the same space loses none of them:
/// whatever a reader can meet in any of them, some path through the stream
/// they are joined into meets too. That stream ends in the same space.
pub proof fn law_join_all_keeps_every_way<W, M: PartialEq, B, S>(
    xs: Seq<Seq<Entry<W, M, B, S>>>,
    e: Entry<W, M, B, S>,
)
    requires
        xs.len() > 0,
        all_end_in(xs, e),
        e is Space,
        eq_is_equality::<M>(),
        total(xs) < usize::MAX,
    ensures
        ends_in(join_all(xs), e),
        join_all(xs).len() + 2 <= total(xs),
        forall|i: int| 0 <= i < xs.len() ==> covers(join_all(xs), #[trigger] xs[i]),
    decreases xs.len(),
{
    if xs.len() == 1 {
        assert(ends_in(xs[0], e));
        lemma_covers_refl(xs[0]);
        lemma_total_each(xs, 0);
    } else {
        let n = xs.len() as int;
        let h = n / 2;
        let ys = round(xs);
        lemma_round_shared(xs, e);
        law_join_all_keeps_every_way(ys, e);
        assert forall|i: int| 0 <= i < xs.len() implies covers(join_all(xs), #[trigger] xs[i]) by {
            let j = join_all(ys);
            if i < h {
                assert(covers(j, ys[i]));
                assert(covers(ys[i], xs[i]));
                lemma_covers_trans(j, ys[i], xs[i]);
            } else if i >= n - h {
                let k = n - 1 - i;
                assert(covers(j, ys[k]));
                assert(covers(ys[k], xs[n - 1 - k]));
                lemma_covers_trans(j, ys[k], xs[i]);
            } else {
                assert(ys[h] == xs[h]);
                assert(covers(j, ys[h]));
            }
        }
    }
}

/// The branch that `push_branch` appends loses none of the ways, where all
/// of them end in the same space on every path (and `==` on the measures
/// is equality): whatever a reader can meet in the default or in any of
/// the alternatives, some path through the branch meets too.
pub proof fn law_push_branch_keeps_every_way<W, M: PartialEq, B, S>(
    d: Seq<Entry<W, M, B, S>>,
    alts: Seq<Seq<Entry<W, M, B, S>>>,
    e: Entry<W, M, B, S>,
)
    requires
        alts.len() > 0,
        ends_in(d, e),
        all_end_in(alts, e),
        e is Space,
        eq_is_equality::<M>(),
        d.len() <= usize::MAX,
        total(alts) < usize::MAX,
    ensures
        covers(branch_of(d, alts), d),
        forall|i: int| 0 <= i < alts.len() ==> covers(branch_of(d, alts), #[trigger] alts[i]),
{
    let j = join_all(alts);
    law_join_all_keeps_every_way(alts, e);
    match e {
        Entry::Space(_, me) => {
            assert(me.eq_spec(&me));
        },
        _ => {},
    }
    assert(ends_equal(d, j));
    lemma_shared_merge(d, j, e);
    assert forall|i: int| 0 <= i < alts.len() implies covers(branch_of(d, alts), #[trigger] alts[i]) by {
        lemma_covers_trans(branch_of(d, alts), j, alts[i]);
    }
}

} // verus!
