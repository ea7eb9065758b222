//! The grammar of the Yarn source format, as mathematical functions.
//!
//! Each function reads the characters `s` from position `p` and either fails
//! (`None`) or succeeds with the position just after what it read and the
//! value read. The input is taken to be complete: a rule that would need
//! characters beyond the end of `s` fails.
//!
//! Lists stop, as the parser does, when an element or separator no longer
//! moves forward; every position the rules return lies in `p ..= s.len()`,
//! which the executable parser establishes.
use vstd::prelude::*;
use crate::chars::{letter, punctuation, symbol, opening, closing};

verus! {

/// A placeholder: `$body`, `$args`, `$3`, or `$name` for any other name.
pub enum SPlaceholder {
    Body,
    Argument(usize),
    Arguments,
    Unknown(Seq<char>),
}

/// A bracketed group of items, such as `<foo bar>`.
pub struct SGroup {
    pub opening: Seq<char>,
    pub closing: Seq<char>,
    pub content: Seq<SItem>,
}

/// One item of running text.
pub enum SItem {
    Word(Seq<char>),
    Symbol(Seq<char>),
    Punctuation(Seq<char>),
    Placeholder(SPlaceholder),
    Token(Seq<char>),
    Group(SGroup),
}

/// A parameter definition `/name args` with its indented body.
pub struct SParameter {
    pub name: Seq<char>,
    pub args: Seq<SItem>,
    pub value: SBlockBody,
}

/// A command `!name "arg" ...`.
pub struct SCommand {
    pub name: Seq<char>,
    pub args: Seq<Seq<char>>,
}

/// A block `:name args` with its indented body.
pub struct SBlock {
    pub name: Seq<char>,
    pub argument: Seq<SItem>,
    pub body: SBlockBody,
}

/// The body of a block: its commands, then its parameters, then its children.
pub struct SBlockBody {
    pub commands: Seq<SCommand>,
    pub parameters: Seq<SParameter>,
    pub childs: Seq<SBody>,
}

/// One child of a block body.
pub enum SBody {
    Leaf(Seq<SItem>),
    List(Seq<Seq<SItem>>),
    Block(SBlock),
    Placeholder(SPlaceholder),
}

/// The classes of characters that runs of characters are made of.
#[derive(Clone, Copy)]
pub enum CharClass {
    Letter,
    Symbol,
    Punctuation,
    Opening,
    Closing,
}

/// The sets of characters at which an unquoted run stops.
#[derive(Clone, Copy)]
pub enum StopSet {
    /// Inside a quoted string: a backslash or a double quote.
    Escape,
    /// An unquoted string: a double quote, a space, a tab or a newline.
    Unquoted,
}

/// The separators between the items of a list.
pub enum Sep {
    /// Blanks.
    Space,
    /// Inside a paragraph at the given indentation: a line end followed by
    /// the indentation, else blanks.
    Leaf(nat),
    /// Inside a list entry at the given indentation: blanks, else a line end
    /// followed by one more level of indentation.
    List(nat),
}

pub open spec fn at(s: Seq<char>, p: int, c: char) -> bool {
    0 <= p < s.len() && s[p] == c
}

/// `q` lies strictly after `p` and within the input.
pub open spec fn advances(s: Seq<char>, p: int, q: int) -> bool {
    p < q <= s.len()
}

pub open spec fn in_class(c: char, k: CharClass) -> bool {
    match k {
        CharClass::Letter => letter(c),
        CharClass::Symbol => symbol(c),
        CharClass::Punctuation => punctuation(c),
        CharClass::Opening => opening(c),
        CharClass::Closing => closing(c),
    }
}

pub open spec fn in_stop_set(c: char, k: StopSet) -> bool {
    match k {
        StopSet::Escape => c == '\\' || c == '"',
        StopSet::Unquoted => c == '"' || c == ' ' || c == '\t' || c == '\n',
    }
}

pub open spec fn is_blank(c: char) -> bool {
    c == ' ' || c == '\t'
}

pub open spec fn is_digit(c: char) -> bool {
    '0' <= c && c <= '9'
}

/// The first position at or after `q` that is not a blank.
pub open spec fn blank_end(s: Seq<char>, q: int) -> int
    decreases s.len() - q,
{
    if 0 <= q < s.len() && is_blank(s[q]) {
        blank_end(s, q + 1)
    } else {
        q
    }
}

/// The first position at or after `q` whose character is not in the class.
pub open spec fn class_end(s: Seq<char>, q: int, k: CharClass) -> int
    decreases s.len() - q,
{
    if 0 <= q < s.len() && in_class(s[q], k) {
        class_end(s, q + 1, k)
    } else {
        q
    }
}

/// The first position at or after `q` whose character is in the stop set,
/// or the end of the input.
pub open spec fn stop_end(s: Seq<char>, q: int, k: StopSet) -> int
    decreases s.len() - q,
{
    if 0 <= q < s.len() && !in_stop_set(s[q], k) {
        stop_end(s, q + 1, k)
    } else {
        q
    }
}

/// The first position at or after `q` that is not a decimal digit.
pub open spec fn digit_end(s: Seq<char>, q: int) -> int
    decreases s.len() - q,
{
    if 0 <= q < s.len() && is_digit(s[q]) {
        digit_end(s, q + 1)
    } else {
        q
    }
}

/// The decimal number written by the characters `s[p..q]`.
pub open spec fn decimal(s: Seq<char>, p: int, q: int) -> nat
    decreases q - p,
{
    if q <= p {
        0
    } else {
        decimal(s, p, q - 1) * 10 + ((s[q - 1] as int) - ('0' as int)) as nat
    }
}

/// One or more blanks that are followed by some other character.
pub open spec fn space(s: Seq<char>, p: int) -> Option<int> {
    let q = blank_end(s, p);
    if p < q && q < s.len() {
        Some(q)
    } else {
        None
    }
}

/// Optional blanks.
pub open spec fn opt_space(s: Seq<char>, p: int) -> int {
    match space(s, p) {
        Some(q) => q,
        None => p,
    }
}

/// Blanks, then a newline.
pub open spec fn endline(s: Seq<char>, p: int) -> Option<int> {
    let q = blank_end(s, p);
    if at(s, q, '\n') {
        Some(q + 1)
    } else {
        None
    }
}

/// Further line ends after the first one of `empty_lines`.
pub open spec fn more_endlines(s: Seq<char>, p: int) -> int
    decreases s.len() - p,
{
    if p < 0 || p >= s.len() {
        p
    } else {
        match endline(s, p) {
            None => p,
            Some(q) => if advances(s, p, q) {
                more_endlines(s, q)
            } else {
                p
            },
        }
    }
}

/// One or more line ends.
pub open spec fn empty_lines(s: Seq<char>, p: int) -> Option<int> {
    match endline(s, p) {
        None => None,
        Some(q) => Some(more_endlines(s, q)),
    }
}

/// Optional empty lines.
pub open spec fn opt_empty_lines(s: Seq<char>, p: int) -> int {
    match empty_lines(s, p) {
        Some(q) => q,
        None => p,
    }
}

/// One level of indentation: four spaces, else a tab.
pub open spec fn indent_any(s: Seq<char>, p: int) -> Option<int> {
    if at(s, p, ' ') && at(s, p + 1, ' ') && at(s, p + 2, ' ') && at(s, p + 3, ' ') {
        Some(p + 4)
    } else if at(s, p, '\t') {
        Some(p + 1)
    } else {
        None
    }
}

/// `n` levels of indentation.
pub open spec fn indent(s: Seq<char>, p: int, n: nat) -> Option<int>
    decreases n,
{
    if n == 0 {
        Some(p)
    } else {
        match indent_any(s, p) {
            None => None,
            Some(q) => indent(s, q, (n - 1) as nat),
        }
    }
}

/// One or more characters of the class.
pub open spec fn class_run(s: Seq<char>, p: int, k: CharClass) -> Option<int> {
    if 0 <= p < s.len() && in_class(s[p], k) {
        Some(class_end(s, p + 1, k))
    } else {
        None
    }
}

/// One or more letters.
pub open spec fn letter_sequence(s: Seq<char>, p: int) -> Option<int> {
    class_run(s, p, CharClass::Letter)
}

/// One or more characters up to, and not including, a character of the stop
/// set, which must occur.
pub open spec fn until_stop(s: Seq<char>, p: int, k: StopSet) -> Option<int> {
    let q = stop_end(s, p, k);
    if p < q && q < s.len() {
        Some(q)
    } else {
        None
    }
}

/// The name of a placeholder, after its `$`.
pub open spec fn placeholder(s: Seq<char>, p: int) -> Option<(int, SPlaceholder)> {
    if at(s, p, 'b') && at(s, p + 1, 'o') && at(s, p + 2, 'd') && at(s, p + 3, 'y') {
        Some((p + 4, SPlaceholder::Body))
    } else if at(s, p, 'a') && at(s, p + 1, 'r') && at(s, p + 2, 'g') && at(s, p + 3, 's') {
        Some((p + 4, SPlaceholder::Arguments))
    } else if 0 <= p < s.len() && is_digit(s[p]) && decimal(s, p, digit_end(s, p))
        <= usize::MAX {
        Some((digit_end(s, p), SPlaceholder::Argument(decimal(s, p, digit_end(s, p)) as usize)))
    } else {
        match letter_sequence(s, p) {
            Some(q) => Some((q, SPlaceholder::Unknown(s.subrange(p, q)))),
            None => None,
        }
    }
}

/// One piece of a quoted string: unescaped text, or one escape sequence.
pub open spec fn escaped_piece(s: Seq<char>, p: int) -> Option<(int, Seq<char>)> {
    match until_stop(s, p, StopSet::Escape) {
        Some(q) => Some((q, s.subrange(p, q))),
        None => if at(s, p, '\\') && at(s, p + 1, '\\') {
            Some((p + 2, seq!['\\']))
        } else if at(s, p, '\\') && at(s, p + 1, 't') {
            Some((p + 2, seq!['\t']))
        } else if at(s, p, '\\') && at(s, p + 1, 'n') {
            Some((p + 2, seq!['\n']))
        } else if at(s, p, '\\') && at(s, p + 1, ' ') {
            Some((p + 2, seq![' ']))
        } else if at(s, p, '\\') && at(s, p + 1, '"') {
            Some((p + 2, seq!['"']))
        } else {
            None
        },
    }
}

/// The character that the escape of `c` (a backslash, then `c`) stands for
/// inside a quoted string.
pub open spec fn escaped_char(c: char) -> char {
    if c == 't' {
        '\t'
    } else if c == 'n' {
        '\n'
    } else {
        c
    }
}

/// Inside a quoted string each escape reads as the one character it stands
/// for: a backslash, a tab, a newline, a space or a double quote, after a
/// backslash, take two characters of the input and give that character.
pub proof fn law_escapes_resolve(s: Seq<char>, p: int, c: char)
    requires
        0 <= p,
        p + 1 < s.len(),
        s[p] == '\\',
        s[p + 1] == c,
        c == '\\' || c == 't' || c == 'n' || c == ' ' || c == '"',
    ensures
        escaped_piece(s, p) == Some((p + 2, seq![escaped_char(c)])),
{
    assert(stop_end(s, p, StopSet::Escape) == p);
}

/// A run of characters without a backslash or a double quote, closed by
/// one of them, reads as itself.
pub proof fn law_plain_piece(s: Seq<char>, p: int, q: int)
    requires
        0 <= p < q < s.len(),
        forall|i: int| p <= i < q ==> s[i] != '\\' && s[i] != '"',
        s[q] == '\\' || s[q] == '"',
    ensures
        escaped_piece(s, p) == Some((q, s.subrange(p, q))),
{
    lemma_stop_end_run(s, p, q);
}

proof fn lemma_stop_end_run(s: Seq<char>, p: int, q: int)
    requires
        0 <= p <= q < s.len(),
        forall|i: int| p <= i < q ==> s[i] != '\\' && s[i] != '"',
        s[q] == '\\' || s[q] == '"',
    ensures
        stop_end(s, p, StopSet::Escape) == q,
    decreases q - p,
{
    if p < q {
        lemma_stop_end_run(s, p + 1, q);
    }
}

/// Further pieces of a quoted string.
pub open spec fn more_escaped(s: Seq<char>, p: int) -> (int, Seq<char>)
    decreases s.len() - p,
{
    if p < 0 || p >= s.len() {
        (p, seq![])
    } else {
        match escaped_piece(s, p) {
            None => (p, seq![]),
            Some((q, t)) => if advances(s, p, q) {
                let (r, u) = more_escaped(s, q);
                (r, t + u)
            } else {
                (p, seq![])
            },
        }
    }
}

/// The inside of a quoted string: one or more pieces, with escapes resolved.
pub open spec fn string_esc(s: Seq<char>, p: int) -> Option<(int, Seq<char>)> {
    match escaped_piece(s, p) {
        None => None,
        Some((q, t)) => {
            let (r, u) = more_escaped(s, q);
            Some((r, t + u))
        },
    }
}

/// A string argument: quoted with escapes, else a run of characters up to
/// a quote, blank or newline.
pub open spec fn string(s: Seq<char>, p: int) -> Option<(int, Seq<char>)> {
    let quoted = if at(s, p, '"') {
        match string_esc(s, p + 1) {
            Some((q, v)) => if at(s, q, '"') {
                Some((q + 1, v))
            } else {
                None
            },
            None => None,
        }
    } else {
        None
    };
    match quoted {
        Some(r) => Some(r),
        None => match until_stop(s, p, StopSet::Unquoted) {
            Some(q) => Some((q, s.subrange(p, q))),
            None => None,
        },
    }
}

/// The separator of a list.
pub open spec fn separator(s: Seq<char>, p: int, sep: Sep) -> Option<int> {
    match sep {
        Sep::Space => space(s, p),
        Sep::Leaf(lvl) => match leaf_indent(s, p, lvl) {
            Some(q) => Some(q),
            None => space(s, p),
        },
        Sep::List(lvl) => match space(s, p) {
            Some(q) => Some(q),
            None => leaf_indent(s, p, lvl + 1),
        },
    }
}

/// A line end followed by `lvl` levels of indentation.
pub open spec fn leaf_indent(s: Seq<char>, p: int, lvl: nat) -> Option<int> {
    match endline(s, p) {
        None => None,
        Some(q) => indent(s, q, lvl),
    }
}

pub open spec fn item_word(s: Seq<char>, p: int) -> Option<(int, SItem)> {
    match letter_sequence(s, p) {
        Some(q) => Some((q, SItem::Word(s.subrange(p, q)))),
        None => None,
    }
}

pub open spec fn item_symbol(s: Seq<char>, p: int) -> Option<(int, SItem)> {
    match class_run(s, p, CharClass::Symbol) {
        Some(q) => Some((q, SItem::Symbol(s.subrange(p, q)))),
        None => None,
    }
}

pub open spec fn item_punctuation(s: Seq<char>, p: int) -> Option<(int, SItem)> {
    match class_run(s, p, CharClass::Punctuation) {
        Some(q) => Some((q, SItem::Punctuation(s.subrange(p, q)))),
        None => None,
    }
}

pub open spec fn item_placeholder(s: Seq<char>, p: int) -> Option<(int, SItem)> {
    if at(s, p, '$') {
        match placeholder(s, p + 1) {
            Some((q, v)) => Some((q, SItem::Placeholder(v))),
            None => None,
        }
    } else {
        None
    }
}

pub open spec fn item_token(s: Seq<char>, p: int) -> Option<(int, SItem)> {
    if at(s, p, '\\') {
        match letter_sequence(s, p + 1) {
            Some(q) => Some((q, SItem::Token(s.subrange(p + 1, q)))),
            None => None,
        }
    } else {
        None
    }
}

/// A group: opening brackets, items separated by blanks, closing brackets.
pub open spec fn item_group(s: Seq<char>, p: int) -> Option<(int, SItem)>
    decreases s.len() - p, 1int,
{
    match class_run(s, p, CharClass::Opening) {
        None => None,
        Some(p1) => {
            let p2 = opt_space(s, p1);
            if advances(s, p, p2) {
                match items1(s, p2, Sep::Space) {
                    None => None,
                    Some((p3, content)) => {
                        let p4 = opt_space(s, p3);
                        match class_run(s, p4, CharClass::Closing) {
                            None => None,
                            Some(p5) => Some(
                                (
                                    p5,
                                    SItem::Group(
                                        SGroup {
                                            opening: s.subrange(p, p1),
                                            closing: s.subrange(p4, p5),
                                            content,
                                        },
                                    ),
                                ),
                            ),
                        }
                    },
                }
            } else {
                None
            }
        },
    }
}

/// One item, chosen by its first character.
pub open spec fn item(s: Seq<char>, p: int) -> Option<(int, SItem)>
    decreases s.len() - p, 2int,
{
    if p < 0 || p >= s.len() {
        None
    } else {
        let c = s[p];
        if ('a' <= c && c <= 'z') || ('A' <= c && c <= 'Z') {
            item_word(s, p)
        } else if c == '.' || c == ',' || c == ':' || c == '!' || c == '?' {
            item_punctuation(s, p)
        } else if c == '$' {
            item_placeholder(s, p)
        } else if c == '\\' {
            item_token(s, p)
        } else if c == '<' || c == '(' || c == '[' || c == '{' {
            item_group(s, p)
        } else {
            match item_word(s, p) {
                Some(r) => Some(r),
                None => match item_symbol(s, p) {
                    Some(r) => Some(r),
                    None => match item_punctuation(s, p) {
                        Some(r) => Some(r),
                        None => item_group(s, p),
                    },
                },
            }
        }
    }
}

/// Further items of a list, each after a separator.
pub open spec fn more_items(s: Seq<char>, p: int, sep: Sep) -> (int, Seq<SItem>)
    decreases s.len() - p, 0int,
{
    match separator(s, p, sep) {
        None => (p, seq![]),
        Some(q) => if advances(s, p, q) {
            match item(s, q) {
                None => (p, seq![]),
                Some((r, i)) => if advances(s, q, r) {
                    let (e, rest) = more_items(s, r, sep);
                    (e, seq![i] + rest)
                } else {
                    (p, seq![])
                },
            }
        } else {
            (p, seq![])
        },
    }
}

/// One or more items, separated.
pub open spec fn items1(s: Seq<char>, p: int, sep: Sep) -> Option<(int, Seq<SItem>)>
    decreases s.len() - p, 3int,
{
    match item(s, p) {
        None => None,
        Some((q, i)) => if advances(s, p, q) {
            let (e, rest) = more_items(s, q, sep);
            Some((e, seq![i] + rest))
        } else {
            None
        },
    }
}

/// Zero or more items, separated.
pub open spec fn items0(s: Seq<char>, p: int, sep: Sep) -> Option<(int, Seq<SItem>)> {
    match item(s, p) {
        None => Some((p, seq![])),
        Some((q, i)) => if advances(s, p, q) {
            let (e, rest) = more_items(s, q, sep);
            Some((e, seq![i] + rest))
        } else {
            None
        },
    }
}

/// A paragraph at indentation `lvl`: items up to the end of a line.
pub open spec fn leaf(s: Seq<char>, p: int, lvl: nat) -> Option<(int, Seq<SItem>)> {
    match indent(s, p, lvl) {
        None => None,
        Some(p1) => match items1(s, p1, Sep::Leaf(lvl)) {
            None => None,
            Some((p2, items)) => match endline(s, p2) {
                None => None,
                Some(p3) => Some((p3, items)),
            },
        },
    }
}

/// One entry `  - items` of a list at indentation `lvl`.
pub open spec fn list_item(s: Seq<char>, p: int, lvl: nat) -> Option<(int, Seq<SItem>)> {
    match indent(s, p, lvl) {
        None => None,
        Some(p1) => if at(s, p1, ' ') && at(s, p1 + 1, ' ') && at(s, p1 + 2, '-') && at(
            s,
            p1 + 3,
            ' ',
        ) {
            items1(s, p1 + 4, Sep::List(lvl))
        } else {
            None
        },
    }
}

/// Further entries of a list.
pub open spec fn more_list_items(s: Seq<char>, p: int, lvl: nat) -> (int, Seq<Seq<SItem>>)
    decreases s.len() - p,
{
    if p < 0 || p >= s.len() {
        (p, seq![])
    } else {
        match list_item(s, p, lvl) {
            None => (p, seq![]),
            Some((q, it)) => if advances(s, p, q) {
                let (e, rest) = more_list_items(s, q, lvl);
                (e, seq![it] + rest)
            } else {
                (p, seq![])
            },
        }
    }
}

/// A list: one or more entries.
pub open spec fn block_list(s: Seq<char>, p: int, lvl: nat) -> Option<(int, Seq<Seq<SItem>>)> {
    match list_item(s, p, lvl) {
        None => None,
        Some((q, it)) => {
            let (e, rest) = more_list_items(s, q, lvl);
            Some((e, seq![it] + rest))
        },
    }
}

/// A placeholder on a line of its own.
pub open spec fn block_placeholder(s: Seq<char>, p: int, lvl: nat) -> Option<
    (int, SPlaceholder),
> {
    match indent(s, p, lvl) {
        None => None,
        Some(p1) => if at(s, p1, '$') {
            match placeholder(s, p1 + 1) {
                None => None,
                Some((p2, v)) => match endline(s, p2) {
                    None => None,
                    Some(p3) => Some((p3, v)),
                },
            }
        } else {
            None
        },
    }
}

/// The argument of a block: nothing up to the line end, else blanks and items
/// up to the line end.
pub open spec fn args(s: Seq<char>, p: int) -> Option<(int, Seq<SItem>)> {
    match endline(s, p) {
        Some(q) => Some((q, seq![])),
        None => match space(s, p) {
            None => None,
            Some(q1) => match items0(s, q1, Sep::Space) {
                None => None,
                Some((q2, items)) => match endline(s, q2) {
                    None => None,
                    Some(q3) => Some((q3, items)),
                },
            },
        },
    }
}

/// Further strings of a list, each after blanks.
pub open spec fn more_strings(s: Seq<char>, p: int) -> (int, Seq<Seq<char>>)
    decreases s.len() - p,
{
    match space(s, p) {
        None => (p, seq![]),
        Some(q) => if advances(s, p, q) {
            match string(s, q) {
                None => (p, seq![]),
                Some((r, v)) => if advances(s, q, r) {
                    let (e, rest) = more_strings(s, r);
                    (e, seq![v] + rest)
                } else {
                    (p, seq![])
                },
            }
        } else {
            (p, seq![])
        },
    }
}

/// Zero or more strings, separated by blanks.
pub open spec fn strings0(s: Seq<char>, p: int) -> Option<(int, Seq<Seq<char>>)> {
    match string(s, p) {
        None => Some((p, seq![])),
        Some((q, v)) => if advances(s, p, q) {
            let (e, rest) = more_strings(s, q);
            Some((e, seq![v] + rest))
        } else {
            None
        },
    }
}

/// A command line `!name args` at indentation `lvl`, with the empty lines after it.
pub open spec fn command(s: Seq<char>, p: int, lvl: nat) -> Option<(int, SCommand)> {
    match indent(s, p, lvl) {
        None => None,
        Some(p1) => if at(s, p1, '!') {
            match letter_sequence(s, p1 + 1) {
                None => None,
                Some(p2) => match strings0(s, opt_space(s, p2)) {
                    None => None,
                    Some((p3, a)) => match endline(s, p3) {
                        None => None,
                        Some(p4) => Some(
                            (
                                opt_empty_lines(s, p4),
                                SCommand { name: s.subrange(p1 + 1, p2), args: a },
                            ),
                        ),
                    },
                },
            }
        } else {
            None
        },
    }
}

/// Commands, one after the other, while they are found.
pub open spec fn commands(s: Seq<char>, p: int, lvl: nat) -> Option<(int, Seq<SCommand>)>
    decreases s.len() - p,
{
    if p < 0 || p >= s.len() {
        Some((p, seq![]))
    } else {
        match command(s, p, lvl) {
            None => Some((p, seq![])),
            Some((q, c)) => if advances(s, p, q) {
                match commands(s, q, lvl) {
                    None => None,
                    Some((e, rest)) => Some((e, seq![c] + rest)),
                }
            } else {
                None
            },
        }
    }
}

/// A parameter definition `/name items` at indentation `lvl`, with its body
/// one level deeper.
pub open spec fn pattern(s: Seq<char>, p: int, lvl: nat) -> Option<(int, SParameter)>
    decreases s.len() - p, 3int,
{
    match indent(s, p, lvl) {
        None => None,
        Some(p1) => if at(s, p1, '/') {
            match letter_sequence(s, p1 + 1) {
                None => None,
                Some(p2) => match items0(s, opt_space(s, p2), Sep::Space) {
                    None => None,
                    Some((p3, a)) => match endline(s, p3) {
                        None => None,
                        Some(p4) => if advances(s, p, p4) {
                            match block_body(s, p4, lvl + 1) {
                                None => None,
                                Some((p5, v)) => Some(
                                    (
                                        p5,
                                        SParameter {
                                            name: s.subrange(p1 + 1, p2),
                                            args: a,
                                            value: v,
                                        },
                                    ),
                                ),
                            }
                        } else {
                            None
                        },
                    },
                },
            }
        } else {
            None
        },
    }
}

/// Parameter definitions, one after the other, while they are found.
pub open spec fn patterns(s: Seq<char>, p: int, lvl: nat) -> Option<(int, Seq<SParameter>)>
    decreases s.len() - p, 4int,
{
    if p < 0 || p >= s.len() {
        Some((p, seq![]))
    } else {
        match pattern(s, p, lvl) {
            None => Some((p, seq![])),
            Some((q, d)) => if advances(s, p, q) {
                match patterns(s, q, lvl) {
                    None => None,
                    Some((e, rest)) => Some((e, seq![d] + rest)),
                }
            } else {
                None
            },
        }
    }
}

/// A block `:name args` at indentation `lvl`, with its body one level deeper.
pub open spec fn block(s: Seq<char>, p: int, lvl: nat) -> Option<(int, SBlock)>
    decreases s.len() - p, 2int,
{
    match indent(s, p, lvl) {
        None => None,
        Some(p1) => if at(s, p1, ':') {
            match letter_sequence(s, p1 + 1) {
                None => None,
                Some(p2) => match args(s, p2) {
                    None => None,
                    Some((p3, a)) => {
                        let p4 = opt_empty_lines(s, p3);
                        if advances(s, p, p4) {
                            match block_body(s, p4, lvl + 1) {
                                None => None,
                                Some((p5, b)) => Some(
                                    (
                                        p5,
                                        SBlock {
                                            name: s.subrange(p1 + 1, p2),
                                            argument: a,
                                            body: b,
                                        },
                                    ),
                                ),
                            }
                        } else {
                            None
                        }
                    },
                },
            }
        } else {
            None
        },
    }
}

/// One child of a block body: a paragraph, else a list, else a block, else
/// a placeholder line.
pub open spec fn body(s: Seq<char>, p: int, lvl: nat) -> Option<(int, SBody)>
    decreases s.len() - p, 3int,
{
    match leaf(s, p, lvl) {
        Some((q, items)) => Some((q, SBody::Leaf(items))),
        None => match block_list(s, p, lvl) {
            Some((q, l)) => Some((q, SBody::List(l))),
            None => match block(s, p, lvl) {
                Some((q, b)) => Some((q, SBody::Block(b))),
                None => match block_placeholder(s, p, lvl) {
                    Some((q, v)) => Some((q, SBody::Placeholder(v))),
                    None => None,
                },
            },
        },
    }
}

/// Children, each followed by optional empty lines, while they are found.
pub open spec fn childs(s: Seq<char>, p: int, lvl: nat) -> Option<(int, Seq<SBody>)>
    decreases s.len() - p, 4int,
{
    if p < 0 || p >= s.len() {
        Some((p, seq![]))
    } else {
        match body(s, p, lvl) {
            None => Some((p, seq![])),
            Some((q, b)) => {
                let q2 = opt_empty_lines(s, q);
                if advances(s, p, q2) {
                    match childs(s, q2, lvl) {
                        None => None,
                        Some((e, rest)) => Some((e, seq![b] + rest)),
                    }
                } else {
                    None
                }
            },
        }
    }
}

/// A block body at indentation `lvl`: commands, then parameter definitions,
/// then children.
pub open spec fn block_body(s: Seq<char>, p: int, lvl: nat) -> Option<(int, SBlockBody)>
    decreases s.len() - p, 5int,
{
    match commands(s, p, lvl) {
        None => None,
        Some((p1, c)) => if p <= p1 <= s.len() {
            match patterns(s, p1, lvl) {
                None => None,
                Some((p2, d)) => if p <= p2 <= s.len() {
                    match childs(s, p2, lvl) {
                        None => None,
                        Some((p3, ch)) => Some(
                            (p3, SBlockBody { commands: c, parameters: d, childs: ch }),
                        ),
                    }
                } else {
                    None
                },
            }
        } else {
            None
        },
    }
}

} // verus!

verus! {

/// Prepends `xs` to the list that a successful parse produced.
pub open spec fn prepend<T>(xs: Seq<T>, r: Option<(int, Seq<T>)>) -> Option<(int, Seq<T>)> {
    match r {
        None => None,
        Some((e, ys)) => Some((e, xs + ys)),
    }
}

pub proof fn lemma_prepend_assoc<T>(xs: Seq<T>, x: T, r: Option<(int, Seq<T>)>)
    ensures
        prepend(xs, prepend(seq![x], r)) == prepend(xs.push(x), r),
{
    match r {
        None => {},
        Some((e, ys)) => {
            assert(xs + (seq![x] + ys) =~= xs.push(x) + ys);
        },
    }
}

pub proof fn lemma_pair_assoc<T>(xs: Seq<T>, x: T, ys: Seq<T>)
    ensures
        xs + (seq![x] + ys) == xs.push(x) + ys,
{
    assert(xs + (seq![x] + ys) =~= xs.push(x) + ys);
}

/// Children are read as far as they go: where they stop, the input ends or
/// no child begins.
pub proof fn lemma_childs_stop(s: Seq<char>, p: int, lvl: nat)
    requires
        0 <= p,
        childs(s, p, lvl) is Some,
    ensures
        childs(s, p, lvl) matches Some((q, _)) && (q >= s.len() || body(s, q, lvl) is None),
    decreases s.len() - p,
{
    if p < s.len() {
        match body(s, p, lvl) {
            None => {},
            Some((q, b)) => {
                let q2 = opt_empty_lines(s, q);
                lemma_childs_stop(s, q2, lvl);
            },
        }
    }
}

/// A block body is read as far as it goes: where it stops, the input ends
/// or no child begins.
pub proof fn lemma_block_body_stop(s: Seq<char>, p: int, lvl: nat)
    requires
        0 <= p,
        block_body(s, p, lvl) is Some,
    ensures
        block_body(s, p, lvl) matches Some((q, _)) && (q >= s.len() || body(s, q, lvl) is None),
{
    let (p1, c) = commands(s, p, lvl)->0;
    let (p2, d) = patterns(s, p1, lvl)->0;
    lemma_childs_stop(s, p2, lvl);
}


proof fn lemma_class_end(s: Seq<char>, q: int, k: CharClass)
    requires
        0 <= q <= s.len(),
    ensures
        q <= class_end(s, q, k) <= s.len(),
        forall|i: int| q <= i < class_end(s, q, k) ==> in_class(#[trigger] s[i], k),
        class_end(s, q, k) < s.len() ==> !in_class(s[class_end(s, q, k)], k),
    decreases s.len() - q,
{
    if q < s.len() && in_class(s[q], k) {
        lemma_class_end(s, q + 1, k);
    }
}

/// A word, a symbol or punctuation is the longest run of characters of its
/// class where the item starts: its text is exactly the characters it
/// spans, each of that class, and the character after it is not of the
/// class. A token is a backslash and the run of letters after it, a
/// placeholder starts with `$`, a group with an opening bracket. A letter
/// starts a word, and each of `. , : ! ? ;` starts punctuation.
pub proof fn law_items_are_classed(s: Seq<char>, p: int)
    ensures
        item(s, p) matches Some((q, SItem::Word(w))) ==> (w == s.subrange(p, q) && p < q <= s.len() && (forall|i: int|
            p <= i < q ==> letter(#[trigger] s[i])) && (q < s.len() ==> !letter(s[q]))),
        item(s, p) matches Some((q, SItem::Punctuation(w))) ==> (w == s.subrange(p, q) && p < q <= s.len() && (forall|
            i: int,
        | p <= i < q ==> punctuation(#[trigger] s[i])) && (q < s.len() ==> !punctuation(s[q]))),
        item(s, p) matches Some((q, SItem::Symbol(w))) ==> (w == s.subrange(p, q) && p < q <= s.len() && (forall|i: int|
            p <= i < q ==> symbol(#[trigger] s[i])) && (q < s.len() ==> !symbol(s[q]))),
        item(s, p) matches Some((q, SItem::Token(t))) ==> (at(s, p, '\\') && t == s.subrange(p + 1, q) && p + 1 < q
            <= s.len() && (forall|i: int| p + 1 <= i < q ==> letter(#[trigger] s[i]))),
        item(s, p) matches Some((q, SItem::Placeholder(x))) ==> at(s, p, '$'),
        item(s, p) matches Some((q, SItem::Group(gr))) ==> (0 <= p < s.len() && opening(s[p])),
        0 <= p < s.len() && letter(s[p]) ==> item(s, p) matches Some((q, SItem::Word(w))),
        0 <= p < s.len() && (s[p] == '.' || s[p] == ',' || s[p] == ':' || s[p] == '!' || s[p] == '?' || s[p] == ';')
            ==> item(s, p) matches Some((q, SItem::Punctuation(w))),
{
    if 0 <= p < s.len() {
        lemma_class_end(s, p + 1, CharClass::Letter);
        lemma_class_end(s, p + 1, CharClass::Punctuation);
        lemma_class_end(s, p + 1, CharClass::Symbol);
        if p + 1 < s.len() {
            lemma_class_end(s, p + 2, CharClass::Letter);
        }
    }
}


/// A quoted string without escapes reads as the characters between its
/// quotes, and ends after the closing quote.
pub proof fn law_quoted_plain_string(s: Seq<char>, p: int, q: int)
    requires
        0 <= p,
        p + 1 < q < s.len(),
        s[p] == '"',
        s[q] == '"',
        forall|i: int| p < i < q ==> s[i] != '\\' && s[i] != '"',
    ensures
        string(s, p) == Some((q + 1, s.subrange(p + 1, q))),
{
    law_plain_piece(s, p + 1, q);
    assert(stop_end(s, q, StopSet::Escape) == q);
    assert(escaped_piece(s, q) is None);
    assert(more_escaped(s, q) == (q, Seq::<char>::empty()));
    assert(s.subrange(p + 1, q) + Seq::<char>::empty() =~= s.subrange(p + 1, q));
}

/// A command is named by the letters right after a `!`: its name is one or
/// more letters, and the source holds `!` followed by that name.
pub proof fn law_command_name(s: Seq<char>, p: int, lvl: nat)
    ensures
        command(s, p, lvl) matches Some((q, c)) ==> {
            &&& c.name.len() > 0
            &&& forall|i: int| 0 <= i < c.name.len() ==> letter(#[trigger] c.name[i])
            &&& exists|p1: int|
                0 <= p1 && p1 + c.name.len() < s.len() && #[trigger] s[p1] == '!' && c.name == s.subrange(
                    p1 + 1,
                    p1 + 1 + c.name.len(),
                )
        },
{
    if let Some(p1) = indent(s, p, lvl) {
        if at(s, p1, '!') && p1 + 1 < s.len() && in_class(s[p1 + 1], CharClass::Letter) {
            lemma_class_end(s, p1 + 2, CharClass::Letter);
            let p2 = class_end(s, p1 + 2, CharClass::Letter);
            let name = s.subrange(p1 + 1, p2);
            assert forall|i: int| 0 <= i < name.len() implies letter(#[trigger] name[i]) by {
                assert(name[i] == s[p1 + 1 + i]);
                if i > 0 {
                    assert(in_class(s[p1 + 1 + i], CharClass::Letter));
                }
            }
            assert(s[p1] == '!' && name == s.subrange(p1 + 1, p1 + 1 + name.len()));
        }
    }
}

} // verus!
