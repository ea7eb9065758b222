//! Nodes of the document that the source's items become.
use vstd::prelude::*;

verus! {

/// A token `\name` of the source: a fill to the end of the line, a quad
/// space, or any other name, which is set as a word.
#[derive(Debug, PartialEq, Eq)]
pub enum Token {
    HFill,
    QuadSpace,
    Other(String),
}

impl Token {
    /// The token of the given name: `hfill` and `quad` are known, every other
    /// name stands for itself.
    pub fn new(s: String) -> (t: Token)
        ensures
            t == (if s@ == "hfill"@ {
                Token::HFill
            } else if s@ == "quad"@ {
                Token::QuadSpace
            } else {
                Token::Other(s)
            }),
    {
        let hfill = String::from_str("hfill");
        let quad = String::from_str("quad");
        if s == hfill {
            Token::HFill
        } else if s == quad {
            Token::QuadSpace
        } else {
            Token::Other(s)
        }
    }
}

} // verus!
