//! The parser of the Yarn source format.
//!
//! Every function here implements the rule of the same name in
//! [`crate::grammar`]: the `*_at` functions read a slice of characters from a
//! position, the public functions without that suffix read a whole `&str`
//! and hand back what is left of it.
use vstd::prelude::*;
use vstd::std_specs::iter::IteratorSpec;
use crate::chars::{is_letter, is_punctuation, is_symbol, is_opening, is_closing};
use crate::grammar::{
    self, CharClass, StopSet, Sep, SItem, SPlaceholder, SCommand, SParameter, SBlock, SBody,
    SBlockBody, prepend,
};
pub use crate::source::{Placeholder, Group, Item, Parameter, Command, Block, BlockBody, Body};
use crate::source::{
    item_view, items_view, item_lists_view, strings_view, command_view, commands_view,
    parameter_view, parameters_view, block_view, body_view, bodies_view, block_body_view,
};

verus! {

/// The separators between the items of a list.
#[derive(Clone, Copy)]
pub enum Separator {
    Space,
    Leaf(usize),
    List(usize),
}

impl View for Separator {
    type V = Sep;

    open spec fn view(&self) -> Sep {
        match self {
            Separator::Space => Sep::Space,
            Separator::Leaf(l) => Sep::Leaf(*l as nat),
            Separator::List(l) => Sep::List(*l as nat),
        }
    }
}

// ---------------------------------------------------------------------------
// How a result of the parser relates to a result of the grammar.

pub open spec fn pos_is(s: Seq<char>, p: int, r: Option<usize>, g: Option<int>) -> bool {
    match g {
        None => r is None,
        Some(q) => r matches Some(x) && x == q && p <= q <= s.len(),
    }
}

pub open spec fn text_is(s: Seq<char>, p: int, r: Option<(usize, String)>, g: Option<(int, Seq<char>)>) -> bool {
    match g {
        None => r is None,
        Some((q, v)) => r matches Some((x, t)) && x == q && p <= q <= s.len() && t@ == v,
    }
}

pub open spec fn placeholder_is(s: Seq<char>, p: int, r: Option<(usize, Placeholder)>, g: Option<(int, SPlaceholder)>) -> bool {
    match g {
        None => r is None,
        Some((q, v)) => r matches Some((x, t)) && x == q && p <= q <= s.len() && t@ == v,
    }
}

pub open spec fn item_is(s: Seq<char>, p: int, r: Option<(usize, Item)>, g: Option<(int, SItem)>) -> bool {
    match g {
        None => r is None,
        Some((q, v)) => r matches Some((x, t)) && x == q && p <= q <= s.len() && item_view(t) == v,
    }
}

pub open spec fn items_is(s: Seq<char>, p: int, r: Option<(usize, Vec<Item>)>, g: Option<(int, Seq<SItem>)>) -> bool {
    match g {
        None => r is None,
        Some((q, v)) => r matches Some((x, t)) && x == q && p <= q <= s.len() && items_view(t@) == v,
    }
}

pub open spec fn item_lists_is(s: Seq<char>, p: int, r: Option<(usize, Vec<Vec<Item>>)>, g: Option<(int, Seq<Seq<SItem>>)>) -> bool {
    match g {
        None => r is None,
        Some((q, v)) => r matches Some((x, t)) && x == q && p <= q <= s.len() && item_lists_view(t@) == v,
    }
}

pub open spec fn strings_is(s: Seq<char>, p: int, r: Option<(usize, Vec<String>)>, g: Option<(int, Seq<Seq<char>>)>) -> bool {
    match g {
        None => r is None,
        Some((q, v)) => r matches Some((x, t)) && x == q && p <= q <= s.len() && strings_view(t@) == v,
    }
}

pub open spec fn command_is(s: Seq<char>, p: int, r: Option<(usize, Command)>, g: Option<(int, SCommand)>) -> bool {
    match g {
        None => r is None,
        Some((q, v)) => r matches Some((x, t)) && x == q && p <= q <= s.len() && command_view(t) == v,
    }
}

pub open spec fn commands_is(s: Seq<char>, p: int, r: Option<(usize, Vec<Command>)>, g: Option<(int, Seq<SCommand>)>) -> bool {
    match g {
        None => r is None,
        Some((q, v)) => r matches Some((x, t)) && x == q && p <= q <= s.len() && commands_view(t@) == v,
    }
}

pub open spec fn parameter_is(s: Seq<char>, p: int, r: Option<(usize, Parameter)>, g: Option<(int, SParameter)>) -> bool {
    match g {
        None => r is None,
        Some((q, v)) => r matches Some((x, t)) && x == q && p <= q <= s.len() && parameter_view(t) == v,
    }
}

pub open spec fn parameters_is(s: Seq<char>, p: int, r: Option<(usize, Vec<Parameter>)>, g: Option<(int, Seq<SParameter>)>) -> bool {
    match g {
        None => r is None,
        Some((q, v)) => r matches Some((x, t)) && x == q && p <= q <= s.len() && parameters_view(t@) == v,
    }
}

pub open spec fn block_is(s: Seq<char>, p: int, r: Option<(usize, Block)>, g: Option<(int, SBlock)>) -> bool {
    match g {
        None => r is None,
        Some((q, v)) => r matches Some((x, t)) && x == q && p <= q <= s.len() && block_view(t) == v,
    }
}

pub open spec fn body_is(s: Seq<char>, p: int, r: Option<(usize, Body)>, g: Option<(int, SBody)>) -> bool {
    match g {
        None => r is None,
        Some((q, v)) => r matches Some((x, t)) && x == q && p <= q <= s.len() && body_view(t) == v,
    }
}

pub open spec fn bodies_is(s: Seq<char>, p: int, r: Option<(usize, Vec<Body>)>, g: Option<(int, Seq<SBody>)>) -> bool {
    match g {
        None => r is None,
        Some((q, v)) => r matches Some((x, t)) && x == q && p <= q <= s.len() && bodies_view(t@) == v,
    }
}

pub open spec fn block_body_is(s: Seq<char>, p: int, r: Option<(usize, BlockBody)>, g: Option<(int, SBlockBody)>) -> bool {
    match g {
        None => r is None,
        Some((q, v)) => r matches Some((x, t)) && x == q && p <= q <= s.len() && block_body_view(t) == v,
    }
}

// ---------------------------------------------------------------------------
// Building values.

/// Calls `String::push` of std: appends the character at the end.
#[verifier::external_body]
fn push_char(s: &mut String, c: char)
    ensures
        final(s)@ == old(s)@.push(c),
{
    s.push(c);
}

/// The characters `s[from..to]` as a string.
pub fn text(s: &[char], from: usize, to: usize) -> (r: String)
    requires
        from <= to <= s.len(),
    ensures
        r@ == s@.subrange(from as int, to as int),
{
    let mut r = String::new();
    let mut i = from;
    while i < to
        invariant
            from <= i <= to <= s.len(),
            r@ == s@.subrange(from as int, i as int),
        decreases to - i,
    {
        push_char(&mut r, s[i]);
        assert(s@.subrange(from as int, i + 1) =~= s@.subrange(from as int, i as int).push(s@[i as int]));
        i += 1;
    }
    r
}

/// A string of one character.
fn one_char(c: char) -> (r: String)
    ensures
        r@ == seq![c],
{
    let mut r = String::new();
    push_char(&mut r, c);
    assert(seq![].push(c) =~= seq![c]);
    r
}

/// The characters of a `&str`, one by one.
pub fn chars_of(input: &str) -> (v: Vec<char>)
    ensures
        v@ == input@,
{
    let n = input.unicode_len();
    let mut v: Vec<char> = Vec::new();
    let mut it = input.chars();
    let mut i: usize = 0;
    while i < n
        invariant
            n == input@.len(),
            i <= n,
            v@ == input@.subrange(0, i as int),
            it.remaining() == input@.subrange(i as int, n as int),
            it.obeys_prophetic_iter_laws(),
        decreases n - i,
    {
        match it.next() {
            Some(c) => {
                assert(c == input@[i as int]);
                v.push(c);
                i += 1;
                assert(v@ =~= input@.subrange(0, i as int));
                assert(it.remaining() =~= input@.subrange(i as int, n as int));
            },
            None => {
                assert(false);
                i = n;
            },
        }
    }
    assert(v@ =~= input@);
    v
}

} // verus!

verus! {

// ---------------------------------------------------------------------------
// Runs of characters.

fn char_in_class(c: char, k: CharClass) -> (b: bool)
    ensures
        b == grammar::in_class(c, k),
{
    match k {
        CharClass::Letter => is_letter(c),
        CharClass::Symbol => is_symbol(c),
        CharClass::Punctuation => is_punctuation(c),
        CharClass::Opening => is_opening(c),
        CharClass::Closing => is_closing(c),
    }
}

fn char_in_stop_set(c: char, k: StopSet) -> (b: bool)
    ensures
        b == grammar::in_stop_set(c, k),
{
    match k {
        StopSet::Escape => c == '\\' || c == '"',
        StopSet::Unquoted => c == '"' || c == ' ' || c == '\t' || c == '\n',
    }
}

fn blank_end_at(s: &[char], q: usize) -> (r: usize)
    requires
        q <= s.len(),
    ensures
        r == grammar::blank_end(s@, q as int),
        q <= r <= s.len(),
{
    let mut i = q;
    while i < s.len() && (s[i] == ' ' || s[i] == '\t')
        invariant
            q <= i <= s.len(),
            grammar::blank_end(s@, q as int) == grammar::blank_end(s@, i as int),
        decreases s.len() - i,
    {
        i += 1;
    }
    i
}

fn class_end_at(s: &[char], q: usize, k: CharClass) -> (r: usize)
    requires
        q <= s.len(),
    ensures
        r == grammar::class_end(s@, q as int, k),
        q <= r <= s.len(),
{
    let mut i = q;
    while i < s.len() && char_in_class(s[i], k)
        invariant
            q <= i <= s.len(),
            grammar::class_end(s@, q as int, k) == grammar::class_end(s@, i as int, k),
        decreases s.len() - i,
    {
        i += 1;
    }
    i
}

fn stop_end_at(s: &[char], q: usize, k: StopSet) -> (r: usize)
    requires
        q <= s.len(),
    ensures
        r == grammar::stop_end(s@, q as int, k),
        q <= r <= s.len(),
{
    let mut i = q;
    while i < s.len() && !char_in_stop_set(s[i], k)
        invariant
            q <= i <= s.len(),
            grammar::stop_end(s@, q as int, k) == grammar::stop_end(s@, i as int, k),
        decreases s.len() - i,
    {
        i += 1;
    }
    i
}

fn digit_end_at(s: &[char], q: usize) -> (r: usize)
    requires
        q <= s.len(),
    ensures
        r == grammar::digit_end(s@, q as int),
        q <= r <= s.len(),
{
    let mut i = q;
    while i < s.len() && ('0' <= s[i] && s[i] <= '9')
        invariant
            q <= i <= s.len(),
            grammar::digit_end(s@, q as int) == grammar::digit_end(s@, i as int),
        decreases s.len() - i,
    {
        i += 1;
    }
    i
}

proof fn lemma_digit_end(s: Seq<char>, q: int)
    requires
        0 <= q <= s.len(),
    ensures
        forall|i: int| q <= i < grammar::digit_end(s, q) ==> grammar::is_digit(#[trigger] s[i]),
        q <= grammar::digit_end(s, q) <= s.len(),
    decreases s.len() - q,
{
    if q < s.len() && grammar::is_digit(s[q]) {
        lemma_digit_end(s, q + 1);
    }
}

proof fn lemma_decimal_monotone(s: Seq<char>, p: int, i: int, j: int)
    requires
        p <= i <= j,
        forall|k: int| p <= k < j ==> grammar::is_digit(#[trigger] s[k]),
    ensures
        grammar::decimal(s, p, i) <= grammar::decimal(s, p, j),
    decreases j - i,
{
    if i < j {
        lemma_decimal_monotone(s, p, i, j - 1);
        assert(grammar::is_digit(s[j - 1]));
    }
}

/// The decimal number written by `s[p..q]`, if it fits a `usize`.
fn decimal_at(s: &[char], p: usize, q: usize) -> (r: Option<usize>)
    requires
        p <= q <= s.len(),
        forall|k: int| p <= k < q ==> grammar::is_digit(#[trigger] s@[k]),
    ensures
        match r {
            Some(v) => v == grammar::decimal(s@, p as int, q as int),
            None => grammar::decimal(s@, p as int, q as int) > usize::MAX,
        },
{
    let mut v: usize = 0;
    let mut i = p;
    while i < q
        invariant
            p <= i <= q <= s.len(),
            forall|k: int| p <= k < q ==> grammar::is_digit(#[trigger] s@[k]),
            v == grammar::decimal(s@, p as int, i as int),
        decreases q - i,
    {
        let c = s[i];
        assert(grammar::is_digit(s@[i as int]));
        let d: u32 = (c as u32) - ('0' as u32);
        match v.checked_mul(10) {
            None => {
                proof {
                    lemma_decimal_monotone(s@, p as int, i + 1, q as int);
                }
                return None;
            },
            Some(w) => match w.checked_add(d as usize) {
                None => {
                    proof {
                        lemma_decimal_monotone(s@, p as int, i + 1, q as int);
                    }
                    return None;
                },
                Some(x) => {
                    v = x;
                },
            },
        }
        i += 1;
    }
    Some(v)
}

// ---------------------------------------------------------------------------
// Blanks, line ends and indentation.

pub fn space_at(s: &[char], p: usize) -> (r: Option<usize>)
    requires
        p <= s.len(),
    ensures
        pos_is(s@, p as int, r, grammar::space(s@, p as int)),
{
    let q = blank_end_at(s, p);
    if p < q && q < s.len() {
        Some(q)
    } else {
        None
    }
}

pub fn opt_space_at(s: &[char], p: usize) -> (r: usize)
    requires
        p <= s.len(),
    ensures
        r == grammar::opt_space(s@, p as int),
        p <= r <= s.len(),
{
    match space_at(s, p) {
        Some(q) => q,
        None => p,
    }
}

pub fn endline_at(s: &[char], p: usize) -> (r: Option<usize>)
    requires
        p <= s.len(),
    ensures
        pos_is(s@, p as int, r, grammar::endline(s@, p as int)),
        r matches Some(q) ==> p < q,
{
    let q = blank_end_at(s, p);
    if q < s.len() && s[q] == '\n' {
        Some(q + 1)
    } else {
        None
    }
}

fn more_endlines_at(s: &[char], p: usize) -> (r: usize)
    requires
        p <= s.len(),
    ensures
        r == grammar::more_endlines(s@, p as int),
        p <= r <= s.len(),
{
    let mut cur = p;
    loop
        invariant
            p <= cur <= s.len(),
            grammar::more_endlines(s@, p as int) == grammar::more_endlines(s@, cur as int),
        decreases s.len() - cur,
    {
        if cur >= s.len() {
            return cur;
        }
        match endline_at(s, cur) {
            None => {
                return cur;
            },
            Some(q) => {
                cur = q;
            },
        }
    }
}

pub fn empty_lines_at(s: &[char], p: usize) -> (r: Option<usize>)
    requires
        p <= s.len(),
    ensures
        pos_is(s@, p as int, r, grammar::empty_lines(s@, p as int)),
{
    match endline_at(s, p) {
        None => None,
        Some(q) => Some(more_endlines_at(s, q)),
    }
}

pub fn opt_empty_lines_at(s: &[char], p: usize) -> (r: usize)
    requires
        p <= s.len(),
    ensures
        r == grammar::opt_empty_lines(s@, p as int),
        p <= r <= s.len(),
{
    match empty_lines_at(s, p) {
        Some(q) => q,
        None => p,
    }
}

pub fn indent_any_at(s: &[char], p: usize) -> (r: Option<usize>)
    requires
        p <= s.len(),
    ensures
        pos_is(s@, p as int, r, grammar::indent_any(s@, p as int)),
        r matches Some(q) ==> p < q,
{
    if s.len() - p >= 4 && s[p] == ' ' && s[p + 1] == ' ' && s[p + 2] == ' ' && s[p + 3] == ' ' {
        Some(p + 4)
    } else if p < s.len() && s[p] == '\t' {
        Some(p + 1)
    } else {
        None
    }
}

/// `n` levels of indentation.
pub fn indent_at(s: &[char], p: usize, n: usize) -> (r: Option<usize>)
    requires
        p <= s.len(),
    ensures
        pos_is(s@, p as int, r, grammar::indent(s@, p as int, n as nat)),
        r matches Some(q) ==> p + n <= q,
{
    let mut cur = p;
    let mut i: usize = 0;
    while i < n
        invariant
            p <= cur <= s.len(),
            i <= n,
            p + i <= cur,
            grammar::indent(s@, p as int, n as nat) == grammar::indent(s@, cur as int, (n - i) as nat),
        decreases n - i,
    {
        match indent_any_at(s, cur) {
            None => {
                return None;
            },
            Some(q) => {
                cur = q;
            },
        }
        i += 1;
    }
    Some(cur)
}

// ---------------------------------------------------------------------------
// Runs, placeholders and strings.

pub fn class_run_at(s: &[char], p: usize, k: CharClass) -> (r: Option<usize>)
    requires
        p <= s.len(),
    ensures
        pos_is(s@, p as int, r, grammar::class_run(s@, p as int, k)),
        r matches Some(q) ==> p < q,
{
    if p < s.len() && char_in_class(s[p], k) {
        Some(class_end_at(s, p + 1, k))
    } else {
        None
    }
}

pub fn letter_sequence_at(s: &[char], p: usize) -> (r: Option<usize>)
    requires
        p <= s.len(),
    ensures
        pos_is(s@, p as int, r, grammar::letter_sequence(s@, p as int)),
        r matches Some(q) ==> p < q,
{
    class_run_at(s, p, CharClass::Letter)
}

pub fn until_stop_at(s: &[char], p: usize, k: StopSet) -> (r: Option<usize>)
    requires
        p <= s.len(),
    ensures
        pos_is(s@, p as int, r, grammar::until_stop(s@, p as int, k)),
        r matches Some(q) ==> p < q,
{
    let q = stop_end_at(s, p, k);
    if p < q && q < s.len() {
        Some(q)
    } else {
        None
    }
}

pub fn placeholder_at(s: &[char], p: usize) -> (r: Option<(usize, Placeholder)>)
    requires
        p <= s.len(),
    ensures
        placeholder_is(s@, p as int, r, grammar::placeholder(s@, p as int)),
        r matches Some((q, _)) ==> p < q,
{
    if s.len() - p >= 4 && s[p] == 'b' && s[p + 1] == 'o' && s[p + 2] == 'd' && s[p + 3] == 'y' {
        return Some((p + 4, Placeholder::Body));
    }
    if s.len() - p >= 4 && s[p] == 'a' && s[p + 1] == 'r' && s[p + 2] == 'g' && s[p + 3] == 's' {
        return Some((p + 4, Placeholder::Arguments));
    }
    if p < s.len() && '0' <= s[p] && s[p] <= '9' {
        let q = digit_end_at(s, p + 1);
        proof {
            lemma_digit_end(s@, p as int);
        }
        match decimal_at(s, p, q) {
            Some(v) => {
                return Some((q, Placeholder::Argument(v)));
            },
            None => {},
        }
    }
    match letter_sequence_at(s, p) {
        Some(q) => Some((q, Placeholder::Unknown(text(s, p, q)))),
        None => None,
    }
}

pub fn escaped_piece_at(s: &[char], p: usize) -> (r: Option<(usize, String)>)
    requires
        p <= s.len(),
    ensures
        text_is(s@, p as int, r, grammar::escaped_piece(s@, p as int)),
        r matches Some((q, _)) ==> p < q,
{
    match until_stop_at(s, p, StopSet::Escape) {
        Some(q) => Some((q, text(s, p, q))),
        None => {
            if s.len() - p >= 2 && s[p] == '\\' {
                let c = s[p + 1];
                if c == '\\' {
                    Some((p + 2, one_char('\\')))
                } else if c == 't' {
                    Some((p + 2, one_char('\t')))
                } else if c == 'n' {
                    Some((p + 2, one_char('\n')))
                } else if c == ' ' {
                    Some((p + 2, one_char(' ')))
                } else if c == '"' {
                    Some((p + 2, one_char('"')))
                } else {
                    None
                }
            } else {
                None
            }
        },
    }
}

fn more_escaped_at(s: &[char], p: usize) -> (r: (usize, String))
    requires
        p <= s.len(),
    ensures
        r.0 == grammar::more_escaped(s@, p as int).0,
        r.1@ == grammar::more_escaped(s@, p as int).1,
        p <= r.0 <= s.len(),
{
    let mut cur = p;
    let mut acc = String::new();
    loop
        invariant
            p <= cur <= s.len(),
            grammar::more_escaped(s@, p as int).0 == grammar::more_escaped(s@, cur as int).0,
            grammar::more_escaped(s@, p as int).1 == acc@ + grammar::more_escaped(s@, cur as int).1,
        decreases s.len() - cur,
    {
        if cur >= s.len() {
            assert(acc@ + seq![] =~= acc@);
            return (cur, acc);
        }
        match escaped_piece_at(s, cur) {
            None => {
                assert(acc@ + seq![] =~= acc@);
                return (cur, acc);
            },
            Some((q, t)) => {
                assert(acc@ + (t@ + grammar::more_escaped(s@, q as int).1) =~= (acc@ + t@)
                    + grammar::more_escaped(s@, q as int).1);
                acc.append(t.as_str());
                cur = q;
            },
        }
    }
}

pub fn string_esc_at(s: &[char], p: usize) -> (r: Option<(usize, String)>)
    requires
        p <= s.len(),
    ensures
        text_is(s@, p as int, r, grammar::string_esc(s@, p as int)),
{
    match escaped_piece_at(s, p) {
        None => None,
        Some((q, t)) => {
            let (e, u) = more_escaped_at(s, q);
            let mut v = t;
            v.append(u.as_str());
            Some((e, v))
        },
    }
}

pub fn string_at(s: &[char], p: usize) -> (r: Option<(usize, String)>)
    requires
        p <= s.len(),
    ensures
        text_is(s@, p as int, r, grammar::string(s@, p as int)),
        r matches Some((q, _)) ==> p < q,
{
    if p < s.len() && s[p] == '"' {
        match string_esc_at(s, p + 1) {
            Some((q, v)) => {
                if q < s.len() && s[q] == '"' {
                    return Some((q + 1, v));
                }
            },
            None => {},
        }
    }
    match until_stop_at(s, p, StopSet::Unquoted) {
        Some(q) => Some((q, text(s, p, q))),
        None => None,
    }
}

pub fn leaf_indent_at(s: &[char], p: usize, lvl: usize) -> (r: Option<usize>)
    requires
        p <= s.len(),
    ensures
        pos_is(s@, p as int, r, grammar::leaf_indent(s@, p as int, lvl as nat)),
{
    match endline_at(s, p) {
        None => None,
        Some(q) => indent_at(s, q, lvl),
    }
}

pub fn separator_at(s: &[char], p: usize, sep: Separator) -> (r: Option<usize>)
    requires
        p <= s.len(),
        sep matches Separator::List(l) ==> l < usize::MAX,
    ensures
        pos_is(s@, p as int, r, grammar::separator(s@, p as int, sep@)),
{
    match sep {
        Separator::Space => space_at(s, p),
        Separator::Leaf(lvl) => match leaf_indent_at(s, p, lvl) {
            Some(q) => Some(q),
            None => space_at(s, p),
        },
        Separator::List(lvl) => match space_at(s, p) {
            Some(q) => Some(q),
            None => leaf_indent_at(s, p, lvl + 1),
        },
    }
}

} // verus!
verus! {

// ---------------------------------------------------------------------------
// How the views of lists grow.

proof fn lemma_items_view_push(s: Seq<Item>, x: Item)
    ensures
        items_view(s.push(x)) == items_view(s).push(item_view(x)),
{
    assert(s.push(x).drop_last() =~= s);
}

proof fn lemma_item_lists_view_push(s: Seq<Vec<Item>>, x: Vec<Item>)
    ensures
        item_lists_view(s.push(x)) == item_lists_view(s).push(items_view(x@)),
{
    assert(s.push(x).drop_last() =~= s);
}

proof fn lemma_strings_view_push(s: Seq<String>, x: String)
    ensures
        strings_view(s.push(x)) == strings_view(s).push(x@),
{
    assert(s.push(x).drop_last() =~= s);
}

proof fn lemma_commands_view_push(s: Seq<Command>, x: Command)
    ensures
        commands_view(s.push(x)) == commands_view(s).push(command_view(x)),
{
    assert(s.push(x).drop_last() =~= s);
}

proof fn lemma_parameters_view_push(s: Seq<Parameter>, x: Parameter)
    ensures
        parameters_view(s.push(x)) == parameters_view(s).push(parameter_view(x)),
{
    assert(s.push(x).drop_last() =~= s);
}

proof fn lemma_bodies_view_push(s: Seq<Body>, x: Body)
    ensures
        bodies_view(s.push(x)) == bodies_view(s).push(body_view(x)),
{
    assert(s.push(x).drop_last() =~= s);
}

// ---------------------------------------------------------------------------
// Items.

pub fn item_word_at(s: &[char], p: usize) -> (r: Option<(usize, Item)>)
    requires
        p <= s.len(),
    ensures
        item_is(s@, p as int, r, grammar::item_word(s@, p as int)),
{
    match letter_sequence_at(s, p) {
        Some(q) => Some((q, Item::Word(text(s, p, q)))),
        None => None,
    }
}

pub fn item_symbol_at(s: &[char], p: usize) -> (r: Option<(usize, Item)>)
    requires
        p <= s.len(),
    ensures
        item_is(s@, p as int, r, grammar::item_symbol(s@, p as int)),
{
    match class_run_at(s, p, CharClass::Symbol) {
        Some(q) => Some((q, Item::Symbol(text(s, p, q)))),
        None => None,
    }
}

pub fn item_punctuation_at(s: &[char], p: usize) -> (r: Option<(usize, Item)>)
    requires
        p <= s.len(),
    ensures
        item_is(s@, p as int, r, grammar::item_punctuation(s@, p as int)),
{
    match class_run_at(s, p, CharClass::Punctuation) {
        Some(q) => Some((q, Item::Punctuation(text(s, p, q)))),
        None => None,
    }
}

pub fn item_placeholder_at(s: &[char], p: usize) -> (r: Option<(usize, Item)>)
    requires
        p <= s.len(),
    ensures
        item_is(s@, p as int, r, grammar::item_placeholder(s@, p as int)),
{
    if p < s.len() && s[p] == '$' {
        match placeholder_at(s, p + 1) {
            Some((q, v)) => Some((q, Item::Placeholder(v))),
            None => None,
        }
    } else {
        None
    }
}

pub fn item_token_at(s: &[char], p: usize) -> (r: Option<(usize, Item)>)
    requires
        p <= s.len(),
    ensures
        item_is(s@, p as int, r, grammar::item_token(s@, p as int)),
{
    if p < s.len() && s[p] == '\\' {
        match letter_sequence_at(s, p + 1) {
            Some(q) => Some((q, Item::Token(text(s, p + 1, q)))),
            None => None,
        }
    } else {
        None
    }
}

pub fn item_group_at(s: &[char], p: usize) -> (r: Option<(usize, Item)>)
    requires
        p <= s.len(),
    ensures
        item_is(s@, p as int, r, grammar::item_group(s@, p as int)),
    decreases s.len() - p, 1int,
{
    match class_run_at(s, p, CharClass::Opening) {
        None => None,
        Some(p1) => {
            let p2 = opt_space_at(s, p1);
            match items1_at(s, p2, Separator::Space) {
                None => None,
                Some((p3, content)) => {
                    let p4 = opt_space_at(s, p3);
                    match class_run_at(s, p4, CharClass::Closing) {
                        None => None,
                        Some(p5) => {
                            let g = Group { opening: text(s, p, p1), closing: text(s, p4, p5), content };
                            Some((p5, Item::Group(g)))
                        },
                    }
                },
            }
        },
    }
}

pub fn item_at(s: &[char], p: usize) -> (r: Option<(usize, Item)>)
    requires
        p <= s.len(),
    ensures
        item_is(s@, p as int, r, grammar::item(s@, p as int)),
    decreases s.len() - p, 2int,
{
    if p >= s.len() {
        return None;
    }
    let c = s[p];
    if ('a' <= c && c <= 'z') || ('A' <= c && c <= 'Z') {
        item_word_at(s, p)
    } else if c == '.' || c == ',' || c == ':' || c == '!' || c == '?' {
        item_punctuation_at(s, p)
    } else if c == '$' {
        item_placeholder_at(s, p)
    } else if c == '\\' {
        item_token_at(s, p)
    } else if c == '<' || c == '(' || c == '[' || c == '{' {
        item_group_at(s, p)
    } else {
        match item_word_at(s, p) {
            Some(r) => Some(r),
            None => match item_symbol_at(s, p) {
                Some(r) => Some(r),
                None => match item_punctuation_at(s, p) {
                    Some(r) => Some(r),
                    None => item_group_at(s, p),
                },
            },
        }
    }
}

/// Further items after `p`, each after a separator, appended to `acc`.
pub fn more_items_at(s: &[char], p: usize, sep: Separator, acc: Vec<Item>) -> (r: (usize, Vec<Item>))
    requires
        p <= s.len(),
        sep matches Separator::List(l) ==> l < usize::MAX,
    ensures
        r.0 == grammar::more_items(s@, p as int, sep@).0,
        items_view(r.1@) == items_view(acc@) + grammar::more_items(s@, p as int, sep@).1,
        p <= r.0 <= s.len(),
    decreases s.len() - p, 0int,
{
    let mut cur = p;
    let ghost acc0 = acc@;
    let mut out = acc;
    loop
        invariant_except_break
            p <= cur <= s.len(),
            sep matches Separator::List(l) ==> l < usize::MAX,
            grammar::more_items(s@, p as int, sep@).0 == grammar::more_items(s@, cur as int, sep@).0,
            items_view(acc0) + grammar::more_items(s@, p as int, sep@).1 == items_view(out@)
                + grammar::more_items(s@, cur as int, sep@).1,
        ensures
            p <= cur <= s.len(),
            grammar::more_items(s@, p as int, sep@).0 == cur,
            items_view(acc0) + grammar::more_items(s@, p as int, sep@).1 == items_view(out@),
        decreases s.len() - cur,
    {
        let step = match separator_at(s, cur, sep) {
            None => None,
            Some(q) => if q <= cur {
                None
            } else {
                match item_at(s, q) {
                    None => None,
                    Some((e, i)) => if e <= q {
                        None
                    } else {
                        Some((e, i))
                    },
                }
            },
        };
        match step {
            None => {
                assert(grammar::more_items(s@, cur as int, sep@) == (cur as int, Seq::<SItem>::empty()));
                assert(items_view(out@) + Seq::<SItem>::empty() =~= items_view(out@));
                break;
            },
            Some((e, i)) => {
                proof {
                    lemma_items_view_push(out@, i);
                    grammar::lemma_pair_assoc(
                        items_view(out@),
                        item_view(i),
                        grammar::more_items(s@, e as int, sep@).1,
                    );
                }
                out.push(i);
                cur = e;
            },
        }
    }
    (cur, out)
}

/// One or more items, separated.
pub fn items1_at(s: &[char], p: usize, sep: Separator) -> (r: Option<(usize, Vec<Item>)>)
    requires
        p <= s.len(),
        sep matches Separator::List(l) ==> l < usize::MAX,
    ensures
        items_is(s@, p as int, r, grammar::items1(s@, p as int, sep@)),
    decreases s.len() - p, 3int,
{
    match item_at(s, p) {
        None => None,
        Some((q, i)) => {
            if q <= p {
                return None;
            }
            let mut first: Vec<Item> = Vec::new();
            first.push(i);
            proof {
                lemma_items_view_push(seq![], i);
                assert(seq![].push(i) =~= first@);
                assert(items_view(seq![]) =~= seq![]);
                assert(seq![].push(item_view(i)) =~= seq![item_view(i)]);
            }
            let (e, v) = more_items_at(s, q, sep, first);
            Some((e, v))
        },
    }
}

/// Zero or more items, separated.
pub fn items0_at(s: &[char], p: usize, sep: Separator) -> (r: Option<(usize, Vec<Item>)>)
    requires
        p <= s.len(),
        sep matches Separator::List(l) ==> l < usize::MAX,
    ensures
        items_is(s@, p as int, r, grammar::items0(s@, p as int, sep@)),
{
    match item_at(s, p) {
        None => {
            let v: Vec<Item> = Vec::new();
            assert(items_view(v@) =~= seq![]);
            Some((p, v))
        },
        Some((q, i)) => {
            if q <= p {
                return None;
            }
            let mut first: Vec<Item> = Vec::new();
            first.push(i);
            proof {
                lemma_items_view_push(seq![], i);
                assert(seq![].push(i) =~= first@);
                assert(items_view(seq![]) =~= seq![]);
                assert(seq![].push(item_view(i)) =~= seq![item_view(i)]);
            }
            let (e, v) = more_items_at(s, q, sep, first);
            Some((e, v))
        },
    }
}

} // verus!
verus! {

// ---------------------------------------------------------------------------
// Paragraphs, lists and placeholder lines.

pub fn leaf_at(s: &[char], p: usize, lvl: usize) -> (r: Option<(usize, Vec<Item>)>)
    requires
        p <= s.len(),
    ensures
        items_is(s@, p as int, r, grammar::leaf(s@, p as int, lvl as nat)),
        r matches Some((q, _)) ==> p < q,
{
    match indent_at(s, p, lvl) {
        None => None,
        Some(p1) => match items1_at(s, p1, Separator::Leaf(lvl)) {
            None => None,
            Some((p2, items)) => match endline_at(s, p2) {
                None => None,
                Some(p3) => Some((p3, items)),
            },
        },
    }
}

pub fn list_item_at(s: &[char], p: usize, lvl: usize) -> (r: Option<(usize, Vec<Item>)>)
    requires
        p <= s.len(),
    ensures
        items_is(s@, p as int, r, grammar::list_item(s@, p as int, lvl as nat)),
        r matches Some((q, _)) ==> p < q,
{
    match indent_at(s, p, lvl) {
        None => None,
        Some(p1) => {
            if s.len() - p1 >= 4 && s[p1] == ' ' && s[p1 + 1] == ' ' && s[p1 + 2] == '-' && s[p1
                + 3] == ' ' {
                items1_at(s, p1 + 4, Separator::List(lvl))
            } else {
                None
            }
        },
    }
}

/// Further list entries after `p`, appended to `acc`.
fn more_list_items_at(s: &[char], p: usize, lvl: usize, acc: Vec<Vec<Item>>) -> (r: (
    usize,
    Vec<Vec<Item>>,
))
    requires
        p <= s.len(),
    ensures
        r.0 == grammar::more_list_items(s@, p as int, lvl as nat).0,
        item_lists_view(r.1@) == item_lists_view(acc@) + grammar::more_list_items(
            s@,
            p as int,
            lvl as nat,
        ).1,
        p <= r.0 <= s.len(),
{
    let mut cur = p;
    let ghost acc0 = acc@;
    let mut out = acc;
    loop
        invariant_except_break
            p <= cur <= s.len(),
            grammar::more_list_items(s@, p as int, lvl as nat).0 == grammar::more_list_items(
                s@,
                cur as int,
                lvl as nat,
            ).0,
            item_lists_view(acc0) + grammar::more_list_items(s@, p as int, lvl as nat).1
                == item_lists_view(out@) + grammar::more_list_items(s@, cur as int, lvl as nat).1,
        ensures
            p <= cur <= s.len(),
            grammar::more_list_items(s@, p as int, lvl as nat).0 == cur,
            item_lists_view(acc0) + grammar::more_list_items(s@, p as int, lvl as nat).1
                == item_lists_view(out@),
        decreases s.len() - cur,
    {
        let step = if cur >= s.len() {
            None
        } else {
            match list_item_at(s, cur, lvl) {
                None => None,
                Some((q, it)) => if q <= cur {
                    None
                } else {
                    Some((q, it))
                },
            }
        };
        match step {
            None => {
                assert(grammar::more_list_items(s@, cur as int, lvl as nat) == (
                    cur as int,
                    Seq::<Seq<SItem>>::empty(),
                ));
                assert(item_lists_view(out@) + Seq::<Seq<SItem>>::empty() =~= item_lists_view(
                    out@,
                ));
                break ;
            },
            Some((q, it)) => {
                proof {
                    lemma_item_lists_view_push(out@, it);
                    grammar::lemma_pair_assoc(
                        item_lists_view(out@),
                        items_view(it@),
                        grammar::more_list_items(s@, q as int, lvl as nat).1,
                    );
                }
                out.push(it);
                cur = q;
            },
        }
    }
    (cur, out)
}

pub fn block_list_at(s: &[char], p: usize, lvl: usize) -> (r: Option<(usize, Vec<Vec<Item>>)>)
    requires
        p <= s.len(),
    ensures
        item_lists_is(s@, p as int, r, grammar::block_list(s@, p as int, lvl as nat)),
        r matches Some((q, _)) ==> p < q,
{
    match list_item_at(s, p, lvl) {
        None => None,
        Some((q, it)) => {
            let mut first: Vec<Vec<Item>> = Vec::new();
            proof {
                lemma_item_lists_view_push(first@, it);
                assert(item_lists_view(first@) =~= seq![]);
                assert(seq![].push(items_view(it@)) =~= seq![items_view(it@)]);
            }
            first.push(it);
            let (e, v) = more_list_items_at(s, q, lvl, first);
            Some((e, v))
        },
    }
}

pub fn block_placeholder_at(s: &[char], p: usize, lvl: usize) -> (r: Option<(usize, Placeholder)>)
    requires
        p <= s.len(),
    ensures
        placeholder_is(s@, p as int, r, grammar::block_placeholder(s@, p as int, lvl as nat)),
        r matches Some((q, _)) ==> p < q,
{
    match indent_at(s, p, lvl) {
        None => None,
        Some(p1) => {
            if p1 < s.len() && s[p1] == '$' {
                match placeholder_at(s, p1 + 1) {
                    None => None,
                    Some((p2, v)) => match endline_at(s, p2) {
                        None => None,
                        Some(p3) => Some((p3, v)),
                    },
                }
            } else {
                None
            }
        },
    }
}

pub fn args_at(s: &[char], p: usize) -> (r: Option<(usize, Vec<Item>)>)
    requires
        p <= s.len(),
    ensures
        items_is(s@, p as int, r, grammar::args(s@, p as int)),
{
    match endline_at(s, p) {
        Some(q) => {
            let v: Vec<Item> = Vec::new();
            assert(items_view(v@) =~= seq![]);
            Some((q, v))
        },
        None => match space_at(s, p) {
            None => None,
            Some(q1) => match items0_at(s, q1, Separator::Space) {
                None => None,
                Some((q2, items)) => match endline_at(s, q2) {
                    None => None,
                    Some(q3) => Some((q3, items)),
                },
            },
        },
    }
}

// ---------------------------------------------------------------------------
// Commands.

/// Further strings after `p`, each after blanks, appended to `acc`.
fn more_strings_at(s: &[char], p: usize, acc: Vec<String>) -> (r: (usize, Vec<String>))
    requires
        p <= s.len(),
    ensures
        r.0 == grammar::more_strings(s@, p as int).0,
        strings_view(r.1@) == strings_view(acc@) + grammar::more_strings(s@, p as int).1,
        p <= r.0 <= s.len(),
{
    let mut cur = p;
    let ghost acc0 = acc@;
    let mut out = acc;
    loop
        invariant_except_break
            p <= cur <= s.len(),
            grammar::more_strings(s@, p as int).0 == grammar::more_strings(s@, cur as int).0,
            strings_view(acc0) + grammar::more_strings(s@, p as int).1 == strings_view(out@)
                + grammar::more_strings(s@, cur as int).1,
        ensures
            p <= cur <= s.len(),
            grammar::more_strings(s@, p as int).0 == cur,
            strings_view(acc0) + grammar::more_strings(s@, p as int).1 == strings_view(out@),
        decreases s.len() - cur,
    {
        let step = match space_at(s, cur) {
            None => None,
            Some(q) => if q <= cur {
                None
            } else {
                match string_at(s, q) {
                    None => None,
                    Some((e, v)) => if e <= q {
                        None
                    } else {
                        Some((e, v))
                    },
                }
            },
        };
        match step {
            None => {
                assert(grammar::more_strings(s@, cur as int) == (
                    cur as int,
                    Seq::<Seq<char>>::empty(),
                ));
                assert(strings_view(out@) + Seq::<Seq<char>>::empty() =~= strings_view(out@));
                break ;
            },
            Some((e, v)) => {
                proof {
                    lemma_strings_view_push(out@, v);
                    grammar::lemma_pair_assoc(
                        strings_view(out@),
                        v@,
                        grammar::more_strings(s@, e as int).1,
                    );
                }
                out.push(v);
                cur = e;
            },
        }
    }
    (cur, out)
}

pub fn strings0_at(s: &[char], p: usize) -> (r: Option<(usize, Vec<String>)>)
    requires
        p <= s.len(),
    ensures
        strings_is(s@, p as int, r, grammar::strings0(s@, p as int)),
{
    match string_at(s, p) {
        None => {
            let v: Vec<String> = Vec::new();
            assert(strings_view(v@) =~= seq![]);
            Some((p, v))
        },
        Some((q, v)) => {
            let mut first: Vec<String> = Vec::new();
            proof {
                lemma_strings_view_push(first@, v);
                assert(strings_view(first@) =~= seq![]);
                assert(seq![].push(v@) =~= seq![v@]);
            }
            first.push(v);
            let (e, w) = more_strings_at(s, q, first);
            Some((e, w))
        },
    }
}

pub fn command_at(s: &[char], p: usize, lvl: usize) -> (r: Option<(usize, Command)>)
    requires
        p <= s.len(),
    ensures
        command_is(s@, p as int, r, grammar::command(s@, p as int, lvl as nat)),
        r matches Some((q, _)) ==> p < q,
{
    match indent_at(s, p, lvl) {
        None => None,
        Some(p1) => {
            if p1 < s.len() && s[p1] == '!' {
                match letter_sequence_at(s, p1 + 1) {
                    None => None,
                    Some(p2) => {
                        let o = opt_space_at(s, p2);
                        match strings0_at(s, o) {
                            None => None,
                            Some((p3, a)) => match endline_at(s, p3) {
                                None => None,
                                Some(p4) => {
                                    let c = Command { name: text(s, p1 + 1, p2), args: a };
                                    Some((opt_empty_lines_at(s, p4), c))
                                },
                            },
                        }
                    },
                }
            } else {
                None
            }
        },
    }
}

pub fn commands_at(s: &[char], p: usize, lvl: usize) -> (r: Option<(usize, Vec<Command>)>)
    requires
        p <= s.len(),
    ensures
        commands_is(s@, p as int, r, grammar::commands(s@, p as int, lvl as nat)),
        r is Some,
{
    let mut cur = p;
    let mut out: Vec<Command> = Vec::new();
    loop
        invariant_except_break
            p <= cur <= s.len(),
            grammar::commands(s@, p as int, lvl as nat) == prepend(
                commands_view(out@),
                grammar::commands(s@, cur as int, lvl as nat),
            ),
        ensures
            p <= cur <= s.len(),
            grammar::commands(s@, p as int, lvl as nat) == prepend(
                commands_view(out@),
                grammar::commands(s@, cur as int, lvl as nat),
            ),
            grammar::commands(s@, cur as int, lvl as nat) == Some((cur as int, Seq::<SCommand>::empty())),
        decreases s.len() - cur,
    {
        if cur >= s.len() {
            break ;
        }
        match command_at(s, cur, lvl) {
            None => {
                break ;
            },
            Some((q, c)) => {
                proof {
                    lemma_commands_view_push(out@, c);
                    grammar::lemma_prepend_assoc(
                        commands_view(out@),
                        command_view(c),
                        grammar::commands(s@, q as int, lvl as nat),
                    );
                }
                out.push(c);
                cur = q;
            },
        }
    }
    assert(commands_view(out@) + Seq::<SCommand>::empty() =~= commands_view(out@));
    Some((cur, out))
}

} // verus!
verus! {

// ---------------------------------------------------------------------------
// Blocks and block bodies.

pub fn pattern_at(s: &[char], p: usize, lvl: usize) -> (r: Option<(usize, Parameter)>)
    requires
        p <= s.len(),
    ensures
        parameter_is(s@, p as int, r, grammar::pattern(s@, p as int, lvl as nat)),
        r matches Some((q, _)) ==> p < q,
    decreases s.len() - p, 3int,
{
    match indent_at(s, p, lvl) {
        None => None,
        Some(p1) => {
            if p1 < s.len() && s[p1] == '/' {
                match letter_sequence_at(s, p1 + 1) {
                    None => None,
                    Some(p2) => {
                        let o = opt_space_at(s, p2);
                        match items0_at(s, o, Separator::Space) {
                            None => None,
                            Some((p3, a)) => match endline_at(s, p3) {
                                None => None,
                                Some(p4) => match block_body_at(s, p4, lvl + 1) {
                                    None => None,
                                    Some((p5, v)) => {
                                        let d = Parameter { name: text(s, p1 + 1, p2), args: a, value: v };
                                        Some((p5, d))
                                    },
                                },
                            },
                        }
                    },
                }
            } else {
                None
            }
        },
    }
}

pub fn patterns_at(s: &[char], p: usize, lvl: usize) -> (r: Option<(usize, Vec<Parameter>)>)
    requires
        p <= s.len(),
    ensures
        parameters_is(s@, p as int, r, grammar::patterns(s@, p as int, lvl as nat)),
        r is Some,
    decreases s.len() - p, 4int,
{
    let mut cur = p;
    let mut out: Vec<Parameter> = Vec::new();
    loop
        invariant_except_break
            p <= cur <= s.len(),
            grammar::patterns(s@, p as int, lvl as nat) == prepend(
                parameters_view(out@),
                grammar::patterns(s@, cur as int, lvl as nat),
            ),
        ensures
            p <= cur <= s.len(),
            grammar::patterns(s@, p as int, lvl as nat) == prepend(
                parameters_view(out@),
                grammar::patterns(s@, cur as int, lvl as nat),
            ),
            grammar::patterns(s@, cur as int, lvl as nat) == Some(
                (cur as int, Seq::<SParameter>::empty()),
            ),
        decreases s.len() - cur,
    {
        if cur >= s.len() {
            break ;
        }
        match pattern_at(s, cur, lvl) {
            None => {
                break ;
            },
            Some((q, d)) => {
                proof {
                    lemma_parameters_view_push(out@, d);
                    grammar::lemma_prepend_assoc(
                        parameters_view(out@),
                        parameter_view(d),
                        grammar::patterns(s@, q as int, lvl as nat),
                    );
                }
                out.push(d);
                cur = q;
            },
        }
    }
    assert(parameters_view(out@) + Seq::<SParameter>::empty() =~= parameters_view(out@));
    Some((cur, out))
}

pub fn block_at(s: &[char], p: usize, lvl: usize) -> (r: Option<(usize, Block)>)
    requires
        p <= s.len(),
    ensures
        block_is(s@, p as int, r, grammar::block(s@, p as int, lvl as nat)),
        r matches Some((q, _)) ==> p < q,
    decreases s.len() - p, 2int,
{
    match indent_at(s, p, lvl) {
        None => None,
        Some(p1) => {
            if p1 < s.len() && s[p1] == ':' {
                match letter_sequence_at(s, p1 + 1) {
                    None => None,
                    Some(p2) => match args_at(s, p2) {
                        None => None,
                        Some((p3, a)) => {
                            let p4 = opt_empty_lines_at(s, p3);
                            match block_body_at(s, p4, lvl + 1) {
                                None => None,
                                Some((p5, b)) => {
                                    let k = Block { name: text(s, p1 + 1, p2), argument: a, body: b };
                                    Some((p5, k))
                                },
                            }
                        },
                    },
                }
            } else {
                None
            }
        },
    }
}

pub fn body_at(s: &[char], p: usize, lvl: usize) -> (r: Option<(usize, Body)>)
    requires
        p <= s.len(),
    ensures
        body_is(s@, p as int, r, grammar::body(s@, p as int, lvl as nat)),
        r matches Some((q, _)) ==> p < q,
    decreases s.len() - p, 3int,
{
    match leaf_at(s, p, lvl) {
        Some((q, items)) => Some((q, Body::Leaf(items))),
        None => match block_list_at(s, p, lvl) {
            Some((q, l)) => Some((q, Body::List(l))),
            None => match block_at(s, p, lvl) {
                Some((q, b)) => Some((q, Body::Block(b))),
                None => match block_placeholder_at(s, p, lvl) {
                    Some((q, v)) => Some((q, Body::Placeholder(v))),
                    None => None,
                },
            },
        },
    }
}

pub fn childs_at(s: &[char], p: usize, lvl: usize) -> (r: Option<(usize, Vec<Body>)>)
    requires
        p <= s.len(),
    ensures
        bodies_is(s@, p as int, r, grammar::childs(s@, p as int, lvl as nat)),
        r is Some,
    decreases s.len() - p, 4int,
{
    let mut cur = p;
    let mut out: Vec<Body> = Vec::new();
    loop
        invariant_except_break
            p <= cur <= s.len(),
            grammar::childs(s@, p as int, lvl as nat) == prepend(
                bodies_view(out@),
                grammar::childs(s@, cur as int, lvl as nat),
            ),
        ensures
            p <= cur <= s.len(),
            grammar::childs(s@, p as int, lvl as nat) == prepend(
                bodies_view(out@),
                grammar::childs(s@, cur as int, lvl as nat),
            ),
            grammar::childs(s@, cur as int, lvl as nat) == Some((cur as int, Seq::<SBody>::empty())),
        decreases s.len() - cur,
    {
        if cur >= s.len() {
            break ;
        }
        match body_at(s, cur, lvl) {
            None => {
                break ;
            },
            Some((q, b)) => {
                let q2 = opt_empty_lines_at(s, q);
                proof {
                    lemma_bodies_view_push(out@, b);
                    grammar::lemma_prepend_assoc(
                        bodies_view(out@),
                        body_view(b),
                        grammar::childs(s@, q2 as int, lvl as nat),
                    );
                }
                out.push(b);
                cur = q2;
            },
        }
    }
    assert(bodies_view(out@) + Seq::<SBody>::empty() =~= bodies_view(out@));
    Some((cur, out))
}

pub fn block_body_at(s: &[char], p: usize, lvl: usize) -> (r: Option<(usize, BlockBody)>)
    requires
        p <= s.len(),
    ensures
        block_body_is(s@, p as int, r, grammar::block_body(s@, p as int, lvl as nat)),
        r is Some,
    decreases s.len() - p, 5int,
{
    match commands_at(s, p, lvl) {
        None => None,
        Some((p1, c)) => match patterns_at(s, p1, lvl) {
            None => None,
            Some((p2, d)) => match childs_at(s, p2, lvl) {
                None => None,
                Some((p3, ch)) => Some((p3, BlockBody { commands: c, parameters: d, childs: ch })),
            },
        },
    }
}

} // verus!
verus! {

// ---------------------------------------------------------------------------
// Reading a whole `&str`.

/// What is left of `s` after position `q`.
pub open spec fn rest_of(s: Seq<char>, q: int) -> Seq<char> {
    s.subrange(q, s.len() as int)
}

/// One or more blanks that are followed by some other character.
/// Hands back the rest and the blanks.
pub fn space<'a>(input: &'a str) -> (r: Option<(&'a str, &'a str)>)
    ensures
        match grammar::space(input@, 0) {
            None => r is None,
            Some(q) => r matches Some((rest, m)) && rest@ == rest_of(input@, q) && m@
                == input@.subrange(0, q),
        },
{
    let s = chars_of(input);
    match space_at(s.as_slice(), 0) {
        None => None,
        Some(q) => Some((input.substring_char(q, s.len()), input.substring_char(0, q))),
    }
}

/// Blanks, then a newline. Hands back the rest after the newline.
pub fn endline<'a>(input: &'a str) -> (r: Option<(&'a str, ())>)
    ensures
        match grammar::endline(input@, 0) {
            None => r is None,
            Some(q) => r matches Some((rest, _)) && rest@ == rest_of(input@, q),
        },
{
    let s = chars_of(input);
    match endline_at(s.as_slice(), 0) {
        None => None,
        Some(q) => Some((input.substring_char(q, s.len()), ())),
    }
}

/// One or more letters. Hands back the rest and the letters.
pub fn letter_sequence<'a>(input: &'a str) -> (r: Option<(&'a str, &'a str)>)
    ensures
        match grammar::letter_sequence(input@, 0) {
            None => r is None,
            Some(q) => r matches Some((rest, m)) && rest@ == rest_of(input@, q) && m@
                == input@.subrange(0, q),
        },
{
    let s = chars_of(input);
    match letter_sequence_at(s.as_slice(), 0) {
        None => None,
        Some(q) => Some((input.substring_char(q, s.len()), input.substring_char(0, q))),
    }
}

/// A string argument, quoted with escapes or unquoted.
pub fn string<'a>(input: &'a str) -> (r: Option<(&'a str, String)>)
    ensures
        match grammar::string(input@, 0) {
            None => r is None,
            Some((q, v)) => r matches Some((rest, t)) && rest@ == rest_of(input@, q) && t@ == v,
        },
{
    let s = chars_of(input);
    match string_at(s.as_slice(), 0) {
        None => None,
        Some((q, v)) => Some((input.substring_char(q, s.len()), v)),
    }
}

/// One item of running text.
pub fn item<'a>(input: &'a str) -> (r: Option<(&'a str, Item)>)
    ensures
        match grammar::item(input@, 0) {
            None => r is None,
            Some((q, v)) => r matches Some((rest, t)) && rest@ == rest_of(input@, q) && item_view(t)
                == v,
        },
{
    let s = chars_of(input);
    match item_at(s.as_slice(), 0) {
        None => None,
        Some((q, v)) => Some((input.substring_char(q, s.len()), v)),
    }
}

/// Zero or more items separated by blanks.
pub fn item_list<'a>(input: &'a str) -> (r: Option<(&'a str, Vec<Item>)>)
    ensures
        match grammar::items0(input@, 0, Sep::Space) {
            None => r is None,
            Some((q, v)) => r matches Some((rest, t)) && rest@ == rest_of(input@, q) && items_view(
                t@,
            ) == v,
        },
{
    let s = chars_of(input);
    match items0_at(s.as_slice(), 0, Separator::Space) {
        None => None,
        Some((q, v)) => Some((input.substring_char(q, s.len()), v)),
    }
}

/// A paragraph at the given indentation.
pub fn leaf<'a>(input: &'a str, expected_indent: usize) -> (r: Option<(&'a str, Vec<Item>)>)
    ensures
        match grammar::leaf(input@, 0, expected_indent as nat) {
            None => r is None,
            Some((q, v)) => r matches Some((rest, t)) && rest@ == rest_of(input@, q) && items_view(
                t@,
            ) == v,
        },
{
    let s = chars_of(input);
    match leaf_at(s.as_slice(), 0, expected_indent) {
        None => None,
        Some((q, v)) => Some((input.substring_char(q, s.len()), v)),
    }
}

/// One entry of a list at the given indentation.
pub fn list_item<'a>(input: &'a str, expected_indent: usize) -> (r: Option<(&'a str, Vec<Item>)>)
    ensures
        match grammar::list_item(input@, 0, expected_indent as nat) {
            None => r is None,
            Some((q, v)) => r matches Some((rest, t)) && rest@ == rest_of(input@, q) && items_view(
                t@,
            ) == v,
        },
{
    let s = chars_of(input);
    match list_item_at(s.as_slice(), 0, expected_indent) {
        None => None,
        Some((q, v)) => Some((input.substring_char(q, s.len()), v)),
    }
}

/// A placeholder on a line of its own, at the given indentation.
pub fn block_placeholder<'a>(input: &'a str, indent_level: usize) -> (r: Option<(&'a str, Body)>)
    ensures
        match grammar::block_placeholder(input@, 0, indent_level as nat) {
            None => r is None,
            Some((q, v)) => r matches Some((rest, t)) && rest@ == rest_of(input@, q) && body_view(t)
                == SBody::Placeholder(v),
        },
{
    let s = chars_of(input);
    match block_placeholder_at(s.as_slice(), 0, indent_level) {
        None => None,
        Some((q, v)) => Some((input.substring_char(q, s.len()), Body::Placeholder(v))),
    }
}

/// A command line at the given indentation.
pub fn command<'a>(input: &'a str, indent_level: usize) -> (r: Option<(&'a str, Command)>)
    ensures
        match grammar::command(input@, 0, indent_level as nat) {
            None => r is None,
            Some((q, v)) => r matches Some((rest, t)) && rest@ == rest_of(input@, q) && command_view(
                t,
            ) == v,
        },
{
    let s = chars_of(input);
    match command_at(s.as_slice(), 0, indent_level) {
        None => None,
        Some((q, v)) => Some((input.substring_char(q, s.len()), v)),
    }
}

/// A parameter definition at the given indentation.
pub fn pattern<'a>(input: &'a str, indent_level: usize) -> (r: Option<(&'a str, Parameter)>)
    ensures
        match grammar::pattern(input@, 0, indent_level as nat) {
            None => r is None,
            Some((q, v)) => r matches Some((rest, t)) && rest@ == rest_of(input@, q)
                && parameter_view(t) == v,
        },
{
    let s = chars_of(input);
    match pattern_at(s.as_slice(), 0, indent_level) {
        None => None,
        Some((q, v)) => Some((input.substring_char(q, s.len()), v)),
    }
}

/// A block at the given indentation.
pub fn block<'a>(input: &'a str, indent_level: usize) -> (r: Option<(&'a str, Block)>)
    ensures
        match grammar::block(input@, 0, indent_level as nat) {
            None => r is None,
            Some((q, v)) => r matches Some((rest, t)) && rest@ == rest_of(input@, q) && block_view(t)
                == v,
        },
{
    let s = chars_of(input);
    match block_at(s.as_slice(), 0, indent_level) {
        None => None,
        Some((q, v)) => Some((input.substring_char(q, s.len()), v)),
    }
}

/// A block body at the given indentation. Every input has one: its
/// commands, parameter definitions and children, each list possibly empty,
/// are read as far as they go.
pub fn block_body<'a>(input: &'a str, indent_level: usize) -> (r: Option<(&'a str, BlockBody)>)
    ensures
        r is Some,
        match grammar::block_body(input@, 0, indent_level as nat) {
            None => r is None,
            Some((q, v)) => r matches Some((rest, t)) && rest@ == rest_of(input@, q)
                && block_body_view(t) == v,
        },
{
    let s = chars_of(input);
    match block_body_at(s.as_slice(), 0, indent_level) {
        None => None,
        Some((q, v)) => Some((input.substring_char(q, s.len()), v)),
    }
}

} // verus!
