use loom::chars::{is_closing, is_letter, is_opening, is_punctuation, is_symbol};

#[test]
fn letters() {
    assert!(is_letter('a'));
    assert!(is_letter('Z'));
    assert!(is_letter('ä'));
    assert!(is_letter('ß'));
    assert!(is_letter('λ'));
    assert!(!is_letter('1'));
    assert!(!is_letter(' '));
    assert!(!is_letter('_'));
    assert!(!is_letter('€'));
}

#[test]
fn punctuation() {
    for c in ['.', ',', ':', '!', '?', ';', '«', '»', '—', '¿'].iter() {
        assert!(is_punctuation(*c), "{}", c);
    }
    assert!(!is_punctuation('"'));
    assert!(!is_punctuation('a'));
    assert!(!is_punctuation('+'));
}

#[test]
fn symbols() {
    for c in ['+', '-', '#', '*', '/', '%', '&', '€', '±', '→'].iter() {
        assert!(is_symbol(*c), "{}", c);
    }
    assert!(!is_symbol('='));
    assert!(!is_symbol('a'));
    assert!(!is_symbol('é'));
}

#[test]
fn brackets() {
    for c in ['(', '[', '<', '{', '⟨', '⁅'].iter() {
        assert!(is_opening(*c), "{}", c);
        assert!(!is_closing(*c), "{}", c);
    }
    for c in [')', ']', '>', '}', '⟩', '⁆'].iter() {
        assert!(is_closing(*c), "{}", c);
        assert!(!is_opening(*c), "{}", c);
    }
    assert!(!is_opening('a'));
    assert!(!is_closing('«'));
}
