use loom::nodes::Token;

#[test]
fn known_tokens() {
    assert_eq!(Token::new("hfill".to_string()), Token::HFill);
    assert_eq!(Token::new("quad".to_string()), Token::QuadSpace);
}

#[test]
fn other_tokens_keep_their_name() {
    assert_eq!(Token::new("pi".to_string()), Token::Other("pi".to_string()));
    assert_eq!(Token::new("".to_string()), Token::Other("".to_string()));
    assert_eq!(Token::new("hfil".to_string()), Token::Other("hfil".to_string()));
}
