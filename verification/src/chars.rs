//! Character classes of the Yarn source format.
//!
//! ASCII characters are classified by fixed tables; every other character is
//! classified by its Unicode general category or bracket property.
use vstd::prelude::*;
use unicode_brackets::UnicodeBrackets;
use unicode_categories::UnicodeCategories;

verus! {

/// Whether the character is in one of the Unicode letter categories
/// (Lu, Ll, Lt, Lm, Lo), as `unicode_categories` tabulates them.
pub uninterp spec fn unicode_letter(c: char) -> bool;

/// Whether the character is in one of the Unicode punctuation categories
/// (Pc, Pd, Pe, Pf, Pi, Po, Ps), as `unicode_categories` tabulates them.
pub uninterp spec fn unicode_punctuation(c: char) -> bool;

/// Whether the character is in one of the Unicode symbol categories
/// (Sc, Sk, Sm, So), as `unicode_categories` tabulates them.
pub uninterp spec fn unicode_symbol(c: char) -> bool;

/// Whether the character is an opening bracket of the Unicode
/// bidirectional bracket pairs, as `unicode_brackets` tabulates them.
pub uninterp spec fn unicode_open_bracket(c: char) -> bool;

/// Whether the character is a closing bracket of the Unicode
/// bidirectional bracket pairs, as `unicode_brackets` tabulates them.
pub uninterp spec fn unicode_close_bracket(c: char) -> bool;

/// Calls `UnicodeCategories::is_letter` of `unicode_categories`.
/// Trusted: its result is the category table lookup named by `unicode_letter`.
#[verifier::external_body]
fn category_letter(c: char) -> (b: bool)
    ensures
        b == unicode_letter(c),
{
    UnicodeCategories::is_letter(c)
}

/// Calls `UnicodeCategories::is_punctuation` of `unicode_categories`.
/// Trusted: its result is the category table lookup named by `unicode_punctuation`.
#[verifier::external_body]
fn category_punctuation(c: char) -> (b: bool)
    ensures
        b == unicode_punctuation(c),
{
    UnicodeCategories::is_punctuation(c)
}

/// Calls `UnicodeCategories::is_symbol` of `unicode_categories`.
/// Trusted: its result is the category table lookup named by `unicode_symbol`.
#[verifier::external_body]
fn category_symbol(c: char) -> (b: bool)
    ensures
        b == unicode_symbol(c),
{
    UnicodeCategories::is_symbol(c)
}

/// Calls `UnicodeBrackets::is_open_bracket` of `unicode_brackets`.
/// Trusted: its result is the bracket table lookup named by `unicode_open_bracket`.
#[verifier::external_body]
fn bracket_open(c: char) -> (b: bool)
    ensures
        b == unicode_open_bracket(c),
{
    UnicodeBrackets::is_open_bracket(&c)
}

/// Calls `UnicodeBrackets::is_close_bracket` of `unicode_brackets`.
/// Trusted: its result is the bracket table lookup named by `unicode_close_bracket`.
#[verifier::external_body]
fn bracket_close(c: char) -> (b: bool)
    ensures
        b == unicode_close_bracket(c),
{
    UnicodeBrackets::is_close_bracket(&c)
}

/// ASCII letters.
pub open spec fn ascii_letter(c: char) -> bool {
    ('a' <= c && c <= 'z') || ('A' <= c && c <= 'Z')
}

/// Letters: ASCII letters, and beyond ASCII the Unicode letters.
pub open spec fn letter(c: char) -> bool {
    if ascii_letter(c) {
        true
    } else if c <= '\u{7E}' {
        false
    } else {
        unicode_letter(c)
    }
}

/// Punctuation: `. , : ! ? ;`, and beyond ASCII the Unicode punctuation.
pub open spec fn punctuation(c: char) -> bool {
    if c == '.' || c == ',' || c == ':' || c == '!' || c == '?' || c == ';' {
        true
    } else if c <= '\u{7E}' {
        false
    } else {
        unicode_punctuation(c)
    }
}

/// Symbols: `+ - # * / % &`, and beyond ASCII the Unicode symbols.
pub open spec fn symbol(c: char) -> bool {
    if c == '+' || c == '-' || c == '#' || c == '*' || c == '/' || c == '%' || c == '&' {
        true
    } else if c <= '\u{7E}' {
        false
    } else {
        unicode_symbol(c)
    }
}

/// Opening brackets: `( [ < {`, and beyond ASCII the Unicode opening brackets.
pub open spec fn opening(c: char) -> bool {
    if c == '(' || c == '[' || c == '<' || c == '{' {
        true
    } else if c <= '\u{7E}' {
        false
    } else {
        unicode_open_bracket(c)
    }
}

/// Closing brackets: `) ] > }`, and beyond ASCII the Unicode closing brackets.
pub open spec fn closing(c: char) -> bool {
    if c == ')' || c == ']' || c == '>' || c == '}' {
        true
    } else if c <= '\u{7E}' {
        false
    } else {
        unicode_close_bracket(c)
    }
}

/// Is the character a letter?
pub fn is_letter(c: char) -> (b: bool)
    ensures
        b == letter(c),
{
    if ('a' <= c && c <= 'z') || ('A' <= c && c <= 'Z') {
        true
    } else if c <= '\u{7E}' {
        false
    } else {
        category_letter(c)
    }
}

/// Is the character punctuation?
pub fn is_punctuation(c: char) -> (b: bool)
    ensures
        b == punctuation(c),
{
    if c == '.' || c == ',' || c == ':' || c == '!' || c == '?' || c == ';' {
        true
    } else if c <= '\u{7E}' {
        false
    } else {
        category_punctuation(c)
    }
}

/// Is the character a symbol?
pub fn is_symbol(c: char) -> (b: bool)
    ensures
        b == symbol(c),
{
    if c == '+' || c == '-' || c == '#' || c == '*' || c == '/' || c == '%' || c == '&' {
        true
    } else if c <= '\u{7E}' {
        false
    } else {
        category_symbol(c)
    }
}

/// Is the character an opening bracket?
pub fn is_opening(c: char) -> (b: bool)
    ensures
        b == opening(c),
{
    if c == '(' || c == '[' || c == '<' || c == '{' {
        true
    } else if c <= '\u{7E}' {
        false
    } else {
        bracket_open(c)
    }
}

/// Is the character a closing bracket?
pub fn is_closing(c: char) -> (b: bool)
    ensures
        b == closing(c),
{
    if c == ')' || c == ']' || c == '>' || c == '}' {
        true
    } else if c <= '\u{7E}' {
        false
    } else {
        bracket_close(c)
    }
}


/// Within ASCII the classes do not overlap: a character is at most one of
/// a letter, punctuation, a symbol, an opening and a closing bracket; the
/// letters are exactly `a` to `z` and `A` to `Z`, and digits, blanks and
/// line ends are of no class.
pub proof fn law_ascii_classes(c: char)
    requires
        c <= '\u{7E}',
    ensures
        letter(c) <==> (('a' <= c && c <= 'z') || ('A' <= c && c <= 'Z')),
        letter(c) ==> !punctuation(c) && !symbol(c) && !opening(c) && !closing(c),
        punctuation(c) ==> !symbol(c) && !opening(c) && !closing(c),
        symbol(c) ==> !opening(c) && !closing(c),
        opening(c) ==> !closing(c),
        ('0' <= c && c <= '9') || c == ' ' || c == '\t' || c == '\n' ==> !letter(c) && !punctuation(c) && !symbol(c)
            && !opening(c) && !closing(c),
{
}

} // verus!
