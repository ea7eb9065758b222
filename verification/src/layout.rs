//! What the layout of a document is made of: how atoms are glued together,
//! how anchors are counted, and the surfaces that lines are set on.
use vstd::prelude::*;
use crate::stream::{Entry, branched, round_plain, join_plain, total, lemma_total_update, lemma_total_each};

verus! {

/// How a reference to something is counted once the layout is done.
#[derive(Debug, Clone, Copy, PartialEq, Eq)]
pub enum Counter {
    /// Not counted; fails if it cannot be positioned exactly.
    Uncounted,
    /// Unique on each page; different pages share the same numbers.
    Page,
    /// Unique within each chapter.
    Chapter,
    /// Unique within the whole document.
    Document,
}

/// Something that lines can be set on: its extent along the lines, and
/// across them where it is bounded.
pub trait Surface {
    type Length;

    fn primary(&self) -> Self::Length;

    fn secondary(&self) -> Option<Self::Length>;
}

/// The kind of glue between two atoms, apart from how much a space stretches.
#[derive(Debug, Clone, Copy, PartialEq, Eq, Structural)]
pub enum GlueKind {
    /// No space at all.
    Nothing,
    /// A space, where the line may break or not.
    Space { breaking: bool },
    /// A line break, where the line is filled or not.
    Newline { fill: bool },
}

/// A non-breaking space and a line break are asked for at the same place:
/// the two cannot be combined.
pub open spec fn conflicting(a: GlueKind, b: GlueKind) -> bool {
    match (a, b) {
        (GlueKind::Space { breaking: false }, GlueKind::Newline { .. }) => true,
        (GlueKind::Newline { .. }, GlueKind::Space { breaking: false }) => true,
        _ => false,
    }
}

/// The glue that results from the glue asked for on both sides of a place:
/// no glue wins over anything, a non-breaking space wins over a breaking one,
/// a line break wins over a breaking space, and two line breaks fill the line
/// if either does.
pub open spec fn combined(a: GlueKind, b: GlueKind) -> GlueKind
    recommends
        !conflicting(a, b),
{
    match (a, b) {
        (GlueKind::Nothing, _) => GlueKind::Nothing,
        (_, GlueKind::Nothing) => GlueKind::Nothing,
        (GlueKind::Space { breaking: x }, GlueKind::Space { breaking: y }) => GlueKind::Space {
            breaking: x && y,
        },
        (GlueKind::Newline { fill: f }, GlueKind::Space { .. }) => GlueKind::Newline { fill: f },
        (GlueKind::Space { .. }, GlueKind::Newline { fill: f }) => GlueKind::Newline { fill: f },
        (GlueKind::Newline { fill: f }, GlueKind::Newline { fill: g }) => GlueKind::Newline {
            fill: f || g,
        },
    }
}

impl GlueKind {
    /// Whether the two can be combined at all.
    pub fn can_combine(self, other: GlueKind) -> (r: bool)
        ensures
            r == !conflicting(self, other),
    {
        match (self, other) {
            (GlueKind::Space { breaking: false }, GlueKind::Newline { .. }) => false,
            (GlueKind::Newline { .. }, GlueKind::Space { breaking: false }) => false,
            _ => true,
        }
    }

    /// Combines the glue asked for on both sides of a place.
    pub fn combine(self, other: GlueKind) -> (r: GlueKind)
        requires
            !conflicting(self, other),
        ensures
            r == combined(self, other),
    {
        match (self, other) {
            (GlueKind::Nothing, _) => GlueKind::Nothing,
            (_, GlueKind::Nothing) => GlueKind::Nothing,
            (GlueKind::Space { breaking: x }, GlueKind::Space { breaking: y }) => GlueKind::Space {
                breaking: x && y,
            },
            (GlueKind::Newline { fill: f }, GlueKind::Space { .. }) => GlueKind::Newline { fill: f },
            (GlueKind::Space { .. }, GlueKind::Newline { fill: f }) => GlueKind::Newline { fill: f },
            (GlueKind::Newline { fill: f }, GlueKind::Newline { fill: g }) => GlueKind::Newline {
                fill: f || g,
            },
        }
    }
}

/// The order of the two sides does not matter: they conflict either way or
/// not at all, and they combine to the same glue.
pub proof fn law_glue_commutative(a: GlueKind, b: GlueKind)
    ensures
        conflicting(a, b) == conflicting(b, a),
        !conflicting(a, b) ==> combined(a, b) == combined(b, a),
{
}

/// No glue on either side leaves no glue.
pub proof fn law_glue_none_absorbs(a: GlueKind)
    ensures
        !conflicting(GlueKind::Nothing, a),
        combined(GlueKind::Nothing, a) == GlueKind::Nothing,
        combined(a, GlueKind::Nothing) == GlueKind::Nothing,
{
}

/// The same glue on both sides is that glue.
pub proof fn law_glue_idempotent(a: GlueKind)
    ensures
        !conflicting(a, a),
        combined(a, a) == a,
{
}

/// Combining three in either grouping gives the same glue, where neither
/// grouping meets a conflict.
pub proof fn law_glue_associative(a: GlueKind, b: GlueKind, c: GlueKind)
    requires
        !conflicting(a, b),
        !conflicting(combined(a, b), c),
        !conflicting(b, c),
        !conflicting(a, combined(b, c)),
    ensures
        combined(combined(a, b), c) == combined(a, combined(b, c)),
{
}

/// Which glue wins: a non-breaking space over a breaking one, a line break
/// over a breaking space, and of two line breaks the one that fills the
/// line; a non-breaking space and a line break cannot be combined, while a
/// breaking space gives way to a line break.
pub proof fn law_glue_precedence(f: bool, g: bool)
    ensures
        combined(GlueKind::Space { breaking: false }, GlueKind::Space { breaking: true }) == (GlueKind::Space {
            breaking: false,
        }),
        combined(GlueKind::Space { breaking: true }, GlueKind::Space { breaking: true }) == (GlueKind::Space {
            breaking: true,
        }),
        combined(GlueKind::Newline { fill: f }, GlueKind::Space { breaking: true }) == (GlueKind::Newline { fill: f }),
        combined(GlueKind::Newline { fill: f }, GlueKind::Newline { fill: g }) == (GlueKind::Newline { fill: f || g }),
        conflicting(GlueKind::Space { breaking: false }, GlueKind::Newline { fill: f }),
        !conflicting(GlueKind::Space { breaking: true }, GlueKind::Newline { fill: f }),
        !conflicting(GlueKind::Space { breaking: true }, GlueKind::Space { breaking: false }),
{
}

/// The stream ended by a line break: `s` itself where it ends in one.
pub open spec fn with_newline<W, F>(s: Seq<Entry<W, F, (), ()>>) -> Seq<Entry<W, F, (), ()>> {
    if s.len() > 0 && s.last() is Linebreak {
        s
    } else {
        s.push(Entry::Linebreak(false))
    }
}

/// Asking twice for a line break gives one line break.
pub proof fn law_newline_idempotent<W, F>(s: Seq<Entry<W, F, (), ()>>)
    ensures
        with_newline(with_newline(s)) == with_newline(s),
{
}

/// After a line break is asked for, the stream ends in a line break: a
/// stream that already ends in one is left as it is, and any other stream
/// keeps all its entries and gets one line break after them.
pub proof fn law_newline_ends_in_break<W, F>(s: Seq<Entry<W, F, (), ()>>)
    ensures
        with_newline(s).len() > 0,
        with_newline(s).last() is Linebreak,
        s.len() > 0 && s.last() is Linebreak ==> with_newline(s) == s,
        !(s.len() > 0 && s.last() is Linebreak) ==> with_newline(s).len() == s.len() + 1
            && with_newline(s).drop_last() == s,
{
    if !(s.len() > 0 && s.last() is Linebreak) {
        assert(s.push(Entry::Linebreak(false)).drop_last() =~= s);
    }
}

/// A copy of an entry whose payloads can be copied.
fn copy_entry<W: Copy, F: Copy>(e: &Entry<W, F, (), ()>) -> (r: Entry<W, F, (), ()>)
    ensures
        r == *e,
{
    match e {
        Entry::Word(w) => Entry::Word(*w),
        Entry::Punctuation(w) => Entry::Punctuation(*w),
        Entry::Object(b) => Entry::Object(*b),
        Entry::Linebreak(f) => Entry::Linebreak(*f),
        Entry::Space(b, m) => Entry::Space(*b, *m),
        Entry::BranchEntry(n) => Entry::BranchEntry(*n),
        Entry::BranchExit(n) => Entry::BranchExit(*n),
        Entry::Style(x) => Entry::Style(*x),
        Entry::Anchor(c) => Entry::Anchor(*c),
    }
}

/// A stream of words, spaces and line breaks, with branches for the
/// places that can be set in more than one way. `W` stands for a measured
/// word and `F` for the measure of a space.
pub struct TokenStream<W, F> {
    pub buf: Vec<Entry<W, F, (), ()>>,
}

impl<W: Copy, F: Copy> TokenStream<W, F> {
    pub fn new() -> (t: TokenStream<W, F>)
        ensures
            t.buf@ == Seq::<Entry<W, F, (), ()>>::empty(),
    {
        TokenStream { buf: Vec::new() }
    }

    pub fn len(&self) -> (n: usize)
        ensures
            n == self.buf@.len(),
    {
        self.buf.len()
    }

    fn add(&mut self, i: Entry<W, F, (), ()>)
        ensures
            final(self).buf@ == old(self).buf@.push(i),
    {
        self.buf.push(i);
    }

    /// Appends a copy of `t`.
    pub fn extend(&mut self, t: &TokenStream<W, F>) -> (r: &mut TokenStream<W, F>)
        ensures
            r.buf@ == old(self).buf@ + t.buf@,
            *final(self) == *final(r),
    {
        let ghost start = self.buf@;
        let mut i: usize = 0;
        while i < t.buf.len()
            invariant
                i <= t.buf@.len(),
                self.buf@ == start + t.buf@.subrange(0, i as int),
            decreases t.buf@.len() - i,
        {
            let e = copy_entry(&t.buf[i]);
            self.buf.push(e);
            i = i + 1;
            assert(self.buf@ =~= start + t.buf@.subrange(0, i as int));
        }
        assert(t.buf@.subrange(0, i as int) =~= t.buf@);
        self
    }

    /// Appends a word.
    pub fn word(&mut self, w: W) -> (r: &mut TokenStream<W, F>)
        ensures
            r.buf@ == old(self).buf@.push(Entry::Word(w)),
            *final(self) == *final(r),
    {
        self.add(Entry::Word(w));
        self
    }

    /// Appends a space where the line may not break.
    pub fn nbspace(&mut self, f: F) -> (r: &mut TokenStream<W, F>)
        ensures
            r.buf@ == old(self).buf@.push(Entry::Space(false, f)),
            *final(self) == *final(r),
    {
        self.add(Entry::Space(false, f));
        self
    }

    /// Appends a space where the line may break.
    pub fn space(&mut self, f: F) -> (r: &mut TokenStream<W, F>)
        ensures
            r.buf@ == old(self).buf@.push(Entry::Space(true, f)),
            *final(self) == *final(r),
    {
        self.add(Entry::Space(true, f));
        self
    }

    /// Appends a line break, unless the stream already ends in one.
    pub fn newline(&mut self) -> (r: &mut TokenStream<W, F>)
        ensures
            r.buf@ == with_newline(old(self).buf@),
            *final(self) == *final(r),
    {
        let n = self.buf.len();
        let ends_in_break = n > 0 && match self.buf[n - 1] {
            Entry::Linebreak(_) => true,
            _ => false,
        };
        if !ends_in_break {
            self.add(Entry::Linebreak(false));
        }
        self
    }

    /// Appends the branch with the default `a` and the alternative `b`.
    pub fn branch(&mut self, a: &TokenStream<W, F>, b: &TokenStream<W, F>) -> (r: &mut TokenStream<W, F>)
        requires
            b.buf@.len() < usize::MAX,
        ensures
            r.buf@ == old(self).buf@ + branched(a.buf@, b.buf@),
            *final(self) == *final(r),
    {
        let ghost start = self.buf@;
        self.add(Entry::BranchEntry(b.buf.len() + 1));
        self.extend(b);
        self.add(Entry::BranchExit(a.buf.len()));
        self.extend(a);
        assert(self.buf@ =~= start + branched(a.buf@, b.buf@));
        self
    }
}

/// The entries of each token stream.
pub open spec fn streams<W, F>(xs: Seq<TokenStream<W, F>>) -> Seq<Seq<Entry<W, F, (), ()>>> {
    xs.map_values(|t: TokenStream<W, F>| t.buf@)
}

impl<W: Copy, F: Copy> TokenStream<W, F> {
    /// Appends the ways that a piece can be set in: `default`, and as its
    /// alternative the `others` joined, round after round, into one (the
    /// first with the last, the second with the one before last, and so on).
    /// Without others, `default` is appended as it is.
    pub fn branch_many(&mut self, default: TokenStream<W, F>, others: Vec<TokenStream<W, F>>)
        requires
            total(streams(others@)) < usize::MAX,
        ensures
            others@.len() == 0 ==> final(self).buf@ == old(self).buf@ + default.buf@,
            others@.len() > 0 ==> final(self).buf@ == old(self).buf@ + branched(
                default.buf@,
                join_plain(streams(others@)),
            ),
    {
        let mut others = others;
        if others.len() == 0 {
            self.extend(&default);
            return ;
        }
        let ghost ways = streams(others@);
        while others.len() > 1
            invariant
                others@.len() >= 1,
                total(streams(others@)) < usize::MAX,
                join_plain(streams(others@)) == join_plain(ways),
            decreases others@.len(),
        {
            let ghost xs = streams(others@);
            let ghost len = others@.len() as int;
            let half = others.len() / 2;
            let mut n: usize = 0;
            while n < half
                invariant
                    half == len / 2,
                    n <= half,
                    others@.len() == len - n,
                    xs.len() == len,
                    total(streams(others@)) <= total(xs),
                    total(xs) < usize::MAX,
                    forall|k: int| 0 <= k < n ==> #[trigger] streams(others@)[k] == round_plain(xs)[k],
                    forall|k: int| n <= k < len - n ==> #[trigger] streams(others@)[k] == xs[k],
                decreases half - n,
            {
                let ghost before = streams(others@);
                let b = others.pop().unwrap();
                proof {
                    assert(streams(others@) =~= before.drop_last());
                    assert(b.buf@ == before.last());
                    lemma_total_each(before, before.len() - 1);
                    assert(total(before) == total(before.drop_last()) + b.buf@.len() + 2);
                }
                let mut merged = TokenStream::new();
                merged.branch(&others[n], &b);
                proof {
                    let at = streams(others@);
                    lemma_total_update(at, n as int, merged.buf@);
                    assert(streams(others@.update(n as int, merged)) =~= at.update(n as int, merged.buf@));
                    assert(merged.buf@ == branched(xs[n as int], xs[len - 1 - n]));
                }
                others.set(n, merged);
                n = n + 1;
                proof {
                    assert forall|k: int| 0 <= k < n implies #[trigger] streams(others@)[k] == round_plain(xs)[k] by {
                        if k < n - 1 {
                            assert(streams(others@)[k] == before[k]);
                        }
                    }
                    assert forall|k: int| n <= k < len - n implies #[trigger] streams(others@)[k] == xs[k] by {
                        assert(streams(others@)[k] == before[k]);
                    }
                }
            }
            proof {
                assert(streams(others@) =~= round_plain(xs));
            }
        }
        proof {
            assert(streams(others@)[0] == others@[0].buf@);
            lemma_total_each(streams(others@), 0);
        }
        let last = others.pop().unwrap();
        self.branch(&default, &last);
    }
}

} // verus!
