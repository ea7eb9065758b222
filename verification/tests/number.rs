use loom::number::{subscript_number, superscript_number};

#[test]
fn subscript_digits() {
    assert_eq!(subscript_number(0), '₀');
    assert_eq!(subscript_number(1), '₁');
    assert_eq!(subscript_number(9), '₉');
}

#[test]
fn superscript_digits() {
    assert_eq!(superscript_number(0), '⁰');
    assert_eq!(superscript_number(1), '¹');
    assert_eq!(superscript_number(2), '²');
    assert_eq!(superscript_number(3), '³');
    assert_eq!(superscript_number(4), '⁴');
    assert_eq!(superscript_number(9), '⁹');
}
