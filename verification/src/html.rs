//! The markup of the HTML output: the styles of named sections, the tags
//! that open and close them, and words with their special characters escaped.
use vstd::prelude::*;
use vstd::string::StringSliceAdditionalSpecFns;
use marksman_escape::Escape;

verus! {

/// A tag name as it is written into the markup: unchanged.
pub fn tag(s: &str) -> (r: &str)
    ensures
        r@ == s@,
{
    s
}

/// An attribute value as it is written into the markup: unchanged.
pub fn attr_val(s: &str) -> (r: &str)
    ensures
        r@ == s@,
{
    s
}

/// How a named section is marked up: the tag around it, and the tag around
/// its header, if it has one.
#[derive(Debug, Clone, PartialEq, Eq)]
pub struct HtmlStyle {
    pub tag: String,
    pub header: Option<String>,
}

/// The styles of the HTML output, each under the name of the sections it is
/// for; the name `*` is the style of every section without one of its own.
/// A name is looked up at its first entry.
pub struct HtmlOutput {
    pub styles: Vec<(String, HtmlStyle)>,
}

/// The first place at or after `i` where `styles` holds the name `name`.
pub open spec fn index_from(styles: Seq<(String, HtmlStyle)>, name: Seq<char>, i: int) -> Option<int>
    decreases styles.len() - i,
{
    if i < 0 || i >= styles.len() {
        None
    } else if styles[i].0@ == name {
        Some(i)
    } else {
        index_from(styles, name, i + 1)
    }
}

/// The style of the sections named `name`: their own, else the one named
/// `*`, else none.
pub open spec fn style_for(styles: Seq<(String, HtmlStyle)>, name: Seq<char>) -> Option<HtmlStyle> {
    match index_from(styles, name, 0) {
        Some(i) => Some(styles[i].1),
        None => match index_from(styles, "*"@, 0) {
            Some(k) => Some(styles[k].1),
            None => None,
        },
    }
}

fn find_style(styles: &Vec<(String, HtmlStyle)>, name: &str) -> (r: Option<usize>)
    ensures
        match index_from(styles@, name@, 0) {
            Some(i) => r matches Some(j) && j == i,
            None => r is None,
        },
        r matches Some(i) ==> i < styles.len(),
{
    let key = String::from_str(name);
    let mut i: usize = 0;
    while i < styles.len()
        invariant
            i <= styles.len(),
            index_from(styles@, name@, 0) == index_from(styles@, name@, i as int),
            key@ == name@,
        decreases styles.len() - i,
    {
        if styles[i].0 == key {
            return Some(i);
        }
        i = i + 1;
    }
    None
}

impl HtmlOutput {
    /// The style of the sections named `name`: their own, else the one named
    /// `*`; `None` where neither is there. Where a name is listed more than
    /// once, its first entry counts (the styles file, a JSON object, lists
    /// each name once).
    pub fn style(&self, name: &str) -> (r: Option<&HtmlStyle>)
        ensures
            match style_for(self.styles@, name@) {
                Some(st) => r matches Some(x) && *x == st,
                None => r is None,
            },
    {
        match find_style(&self.styles, name) {
            Some(i) => Some(&self.styles[i].1),
            None => match find_style(&self.styles, "*") {
                Some(k) => Some(&self.styles[k].1),
                None => None,
            },
        }
    }
}

/// The markup that opens the tag `t`: `<t>`.
pub fn open_tag(t: &str) -> (r: String)
    ensures
        r@ == "<"@ + t@ + ">"@,
{
    String::from_str("<").concat(tag(t)).concat(">")
}

/// The markup that closes the tag `t`: `</t>`.
pub fn close_tag(t: &str) -> (r: String)
    ensures
        r@ == "</"@ + t@ + ">"@,
{
    String::from_str("</").concat(tag(t)).concat(">")
}

/// The markup that opens a section named `name` in the tag `t`:
/// `<t name="name">`.
pub fn open_section(t: &str, name: &str) -> (r: String)
    ensures
        r@ == "<"@ + t@ + " name=\""@ + name@ + "\">"@,
{
    String::from_str("<").concat(tag(t)).concat(" name=\"").concat(attr_val(name)).concat("\">")
}

/// The bytes that `marksman_escape::Escape` hands out for the byte `b` of
/// its input: a numbered or named entity for each of the characters
/// `&`, `>`, `<`, `"`, `'`, the backquote, `!`, `$`, `%`, `(`, `)`, `+`,
/// `=`, `@`, `[`, `]`, `{` and `}`; the byte itself for every other byte.
pub open spec fn escape_byte(b: u8) -> Seq<u8> {
    if b == 0x26 {
        // &
        seq![0x26u8, 0x61, 0x6d, 0x70, 0x3b]
    } else if b == 0x3e {
        // >
        seq![0x26u8, 0x67, 0x74, 0x3b]
    } else if b == 0x3c {
        // <
        seq![0x26u8, 0x6c, 0x74, 0x3b]
    } else if b == 0x22 {
        // "
        seq![0x26u8, 0x23, 0x33, 0x34, 0x3b]
    } else if b == 0x27 {
        // '
        seq![0x26u8, 0x23, 0x33, 0x39, 0x3b]
    } else if b == 0x60 {
        // `
        seq![0x26u8, 0x23, 0x39, 0x36, 0x3b]
    } else if b == 0x21 {
        // !
        seq![0x26u8, 0x23, 0x33, 0x33, 0x3b]
    } else if b == 0x24 {
        // $
        seq![0x26u8, 0x23, 0x33, 0x36, 0x3b]
    } else if b == 0x25 {
        // %
        seq![0x26u8, 0x23, 0x33, 0x37, 0x3b]
    } else if b == 0x28 {
        // (
        seq![0x26u8, 0x23, 0x34, 0x30, 0x3b]
    } else if b == 0x29 {
        // )
        seq![0x26u8, 0x23, 0x34, 0x31, 0x3b]
    } else if b == 0x2b {
        // +
        seq![0x26u8, 0x23, 0x34, 0x33, 0x3b]
    } else if b == 0x3d {
        // =
        seq![0x26u8, 0x23, 0x36, 0x31, 0x3b]
    } else if b == 0x40 {
        // @
        seq![0x26u8, 0x23, 0x36, 0x34, 0x3b]
    } else if b == 0x5b {
        // [
        seq![0x26u8, 0x23, 0x39, 0x31, 0x3b]
    } else if b == 0x5d {
        // ]
        seq![0x26u8, 0x23, 0x39, 0x33, 0x3b]
    } else if b == 0x7b {
        // {
        seq![0x26u8, 0x23, 0x31, 0x32, 0x33, 0x3b]
    } else if b == 0x7d {
        // }
        seq![0x26u8, 0x23, 0x31, 0x32, 0x35, 0x3b]
    } else {
        seq![b]
    }
}

/// The escaped form of `bs`: each byte replaced by what the escape hands
/// out for it, in order.
pub open spec fn escaped(bs: Seq<u8>) -> Seq<u8>
    decreases bs.len(),
{
    if bs.len() == 0 {
        seq![]
    } else {
        escaped(bs.drop_last()) + escape_byte(bs.last())
    }
}

/// Escapes the bytes with `marksman_escape::Escape`.
/// Trusted: the escape works byte by byte, as `escape_byte` states.
#[verifier::external_body]
fn escape_bytes(bytes: &[u8]) -> (r: Vec<u8>)
    ensures
        r@ == escaped(bytes@),
{
    Escape::new(bytes.iter().cloned()).collect()
}

/// The markup of a word: its UTF-8 bytes, escaped, between `<w>` and
/// `</w>`.
pub fn text_markup(text: &str) -> (r: Vec<u8>)
    ensures
        r@ == seq![0x3cu8, 0x77, 0x3e] + escaped(text.spec_bytes()) + seq![0x3cu8, 0x2f, 0x77, 0x3e],
{
    let mut out: Vec<u8> = vec![0x3cu8, 0x77, 0x3e];
    let mut e = escape_bytes(text.as_bytes());
    out.append(&mut e);
    out.push(0x3c);
    out.push(0x2f);
    out.push(0x77);
    out.push(0x3e);
    out
}


/// The decimal digits of `n`, as ASCII bytes.
pub open spec fn decimal_bytes(n: nat) -> Seq<u8>
    decreases n,
{
    if n < 10 {
        seq![(0x30 + n) as u8]
    } else {
        decimal_bytes(n / 10).push((0x30 + n % 10) as u8)
    }
}

/// The characters that markup gives a meaning to, and that the escape
/// replaces: `& > < " ' ` ! $ % ( ) + = @ [ ] { }`.
pub open spec fn markup_byte(b: u8) -> bool {
    b == 0x26 || b == 0x3e || b == 0x3c || b == 0x22 || b == 0x27 || b == 0x60 || b == 0x21 || b == 0x24
        || b == 0x25 || b == 0x28 || b == 0x29 || b == 0x2b || b == 0x3d || b == 0x40 || b == 0x5b || b
        == 0x5d || b == 0x7b || b == 0x7d
}

/// Each markup character is replaced by an entity that names it: `&amp;`,
/// `&gt;` and `&lt;` for `&`, `>` and `<`, and for each of the others
/// `&#` with its code in decimal and `;`. Every other byte is left as it is.
pub proof fn law_escape_names_the_byte(b: u8)
    ensures
        !markup_byte(b) ==> escape_byte(b) == seq![b],
        b == 0x26 ==> escape_byte(b) == seq![0x26u8, 0x61, 0x6d, 0x70, 0x3b],
        b == 0x3e ==> escape_byte(b) == seq![0x26u8, 0x67, 0x74, 0x3b],
        b == 0x3c ==> escape_byte(b) == seq![0x26u8, 0x6c, 0x74, 0x3b],
        markup_byte(b) && b != 0x26 && b != 0x3e && b != 0x3c ==> escape_byte(b) == seq![0x26u8, 0x23]
            + decimal_bytes(b as nat) + seq![0x3bu8],
{
    reveal_with_fuel(decimal_bytes, 4);
    if markup_byte(b) && b != 0x26 && b != 0x3e && b != 0x3c {
        let d = decimal_bytes(b as nat);
        if b < 100 {
            assert(d =~= seq![(0x30 + b / 10) as u8, (0x30 + b % 10) as u8]);
        } else {
            assert(d =~= seq![(0x30 + b / 100) as u8, (0x30 + (b / 10) % 10) as u8, (0x30 + b % 10) as u8]);
        }
        assert(escape_byte(b) =~= seq![0x26u8, 0x23] + d + seq![0x3bu8]);
    }
}

proof fn lemma_escape_byte_plain(b: u8)
    ensures
        forall|i: int| 0 <= i < escape_byte(b).len() ==> {
            let x = #[trigger] escape_byte(b)[i];
            x != 0x3c && x != 0x3e && x != 0x22 && x != 0x27
        },
{
}

/// Escaped text holds none of `<`, `>`, `"` and `'`, so that it cannot open
/// or close a tag or an attribute value.
pub proof fn law_escaped_holds_no_markup(bs: Seq<u8>)
    ensures
        forall|i: int| 0 <= i < escaped(bs).len() ==> {
            let x = #[trigger] escaped(bs)[i];
            x != 0x3c && x != 0x3e && x != 0x22 && x != 0x27
        },
    decreases bs.len(),
{
    if bs.len() > 0 {
        law_escaped_holds_no_markup(bs.drop_last());
        lemma_escape_byte_plain(bs.last());
        let a = escaped(bs.drop_last());
        let e = escape_byte(bs.last());
        assert forall|i: int| 0 <= i < escaped(bs).len() implies {
            let x = #[trigger] escaped(bs)[i];
            x != 0x3c && x != 0x3e && x != 0x22 && x != 0x27
        } by {
            if i < a.len() {
                assert(escaped(bs)[i] == a[i]);
            } else {
                assert(escaped(bs)[i] == e[i - a.len()]);
            }
        }
    }
}

} // verus!
