//! Digits set as superscripts and subscripts.
use vstd::prelude::*;

verus! {

/// The superscript digits `⁰` to `⁹`.
pub open spec fn superscript_digits() -> Seq<char> {
    seq![
        '\u{2070}',
        '\u{00B9}',
        '\u{00B2}',
        '\u{00B3}',
        '\u{2074}',
        '\u{2075}',
        '\u{2076}',
        '\u{2077}',
        '\u{2078}',
        '\u{2079}',
    ]
}

/// Calls `char::from_u32` of std: the char of the given code point, if it
/// is a Unicode scalar value.
#[verifier::external_body]
fn char_from_u32(i: u32) -> (r: Option<char>)
    ensures
        r matches Some(c) ==> c as u32 == i,
        (i < 0xD800 || (0xE000 <= i && i <= 0x10FFFF)) ==> r is Some,
{
    char::from_u32(i)
}

/// The subscript form of the digit `n`: the code point `n` places after `₀`.
pub fn subscript_number(n: u8) -> (c: char)
    ensures
        c as u32 == 0x2080 + n,
{
    match char_from_u32(0x2080u32 + n as u32) {
        Some(c) => c,
        None => {
            proof {
                assert(false);
            }
            '\u{2080}'
        },
    }
}

/// The superscript form of the digit `n`.
pub fn superscript_number(n: u8) -> (c: char)
    requires
        n < 10,
    ensures
        c == superscript_digits()[n as int],
{
    let digits: [char; 10] = [
        '\u{2070}',
        '\u{00B9}',
        '\u{00B2}',
        '\u{00B3}',
        '\u{2074}',
        '\u{2075}',
        '\u{2076}',
        '\u{2077}',
        '\u{2078}',
        '\u{2079}',
    ];
    assert(digits@ =~= superscript_digits());
    digits[n as usize]
}


/// The superscript digits are ten different characters: `¹`, `²` and `³`
/// from Latin-1, and the others at the code point of the superscript zero
/// plus the digit.
pub proof fn law_superscript_digits()
    ensures
        superscript_digits().len() == 10,
        forall|i: int, j: int| 0 <= i < j < 10 ==> superscript_digits()[i] != superscript_digits()[j],
        superscript_digits()[1] == '\u{00B9}',
        superscript_digits()[2] == '\u{00B2}',
        superscript_digits()[3] == '\u{00B3}',
        forall|n: int| (n == 0 || 4 <= n < 10) ==> #[trigger] superscript_digits()[n] as u32 == 0x2070 + n,
{
}

} // verus!
