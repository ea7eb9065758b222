use loom::parser::{block_body, Block, BlockBody, Body, Command, Item};
use loom::source::parse;

fn word(x: &str) -> Item {
    Item::Word(x.to_string())
}

#[test]
fn a_paragraph_and_a_block() {
    let src = "!use \"x\"\nHello world\n\n:note\n    Hi\n";
    let (body, rest) = parse(src).unwrap();
    assert_eq!(rest, "");
    assert_eq!(body.commands, vec![Command { name: "use".to_string(), args: vec!["x".to_string()] }]);
    assert_eq!(body.parameters, vec![]);
    assert_eq!(
        body.childs,
        vec![
            Body::Leaf(vec![word("Hello"), word("world")]),
            Body::Block(Block {
                name: "note".to_string(),
                argument: vec![],
                body: BlockBody {
                    commands: vec![],
                    parameters: vec![],
                    childs: vec![Body::Leaf(vec![word("Hi")])]
                }
            }),
        ]
    );
}

#[test]
fn every_source_parses() {
    for src in ["", "\n", "    x\n", "x", "§§§", "  - a\n", "$body\n"].iter() {
        assert!(parse(src).is_ok(), "{:?}", src);
    }
}

#[test]
fn what_is_not_read_is_handed_back() {
    let (body, rest) = parse("x\n    y\n").unwrap();
    assert_eq!(body.childs, vec![Body::Leaf(vec![word("x")])]);
    assert_eq!(rest, "    y\n");
    let (body, rest) = parse("").unwrap();
    assert_eq!(body, BlockBody { commands: vec![], parameters: vec![], childs: vec![] });
    assert_eq!(rest, "");
}

#[test]
fn block_body_at_an_indentation() {
    let (rest, body) = block_body("    a\n    b\nc\n", 1).unwrap();
    assert_eq!(rest, "c\n");
    assert_eq!(body.childs, vec![Body::Leaf(vec![word("a"), word("b")])]);
}
