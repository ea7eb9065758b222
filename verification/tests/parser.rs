use loom::parser::{
    block, block_placeholder, command, endline, item, item_list, leaf, letter_sequence, list_item,
    pattern, space, string, Block, BlockBody, Body, Command, Group, Item, Parameter, Placeholder,
};

fn s(x: &str) -> String {
    x.to_string()
}

fn word(x: &str) -> Item {
    Item::Word(s(x))
}

fn empty_body() -> BlockBody {
    BlockBody { commands: vec![], parameters: vec![], childs: vec![] }
}

#[test]
fn test_space() {
    assert_eq!(space("  x"), Some(("x", "  ")));
    assert_eq!(space(" \t \nx"), Some(("\nx", " \t ")));
    assert_eq!(space("\nx"), None);
    assert_eq!(space("x"), None);
}

#[test]
fn test_endline() {
    assert_eq!(endline("  \n"), Some(("", ())));
    assert_eq!(endline("\t\n"), Some(("", ())));
    assert_eq!(endline("\n"), Some(("", ())));
}

#[test]
fn test_letter_sequence() {
    assert_eq!(letter_sequence("hello"), Some(("", "hello")));
    assert_eq!(letter_sequence("h"), Some(("", "h")));
    assert_eq!(letter_sequence("hello world"), Some((" world", "hello")));
    assert_eq!(letter_sequence("hello\nworld"), Some(("\nworld", "hello")));
    assert_eq!(letter_sequence(""), None);
}

#[test]
fn test_string() {
    assert_eq!(string("hallo "), Some((" ", s("hallo"))));
    assert_eq!(string("hallo welt"), Some((" welt", s("hallo"))));
    assert_eq!(string("<hallo >"), Some((" >", s("<hallo"))));
    assert_eq!(string(r"hallo\ welt"), Some((r" welt", s(r"hallo\"))));
    assert_eq!(string(r##""hallo welt""##), Some(("", s("hallo welt"))));
    assert_eq!(string(r##""hallo\ welt" .."##), Some((" ..", s(r"hallo welt"))));
    assert_eq!(string(r##""hallo\nwelt""##), Some(("", s("hallo\nwelt"))));
}

#[test]
fn test_item() {
    assert_eq!(
        item("<foo>\n"),
        Some(("\n", Item::Group(Group { opening: s("<"), content: vec![word("foo")], closing: s(">") })))
    );
    assert_eq!(
        item("<foo> baz"),
        Some((" baz", Item::Group(Group { opening: s("<"), content: vec![word("foo")], closing: s(">") })))
    );
    assert_eq!(
        item("<foo bar> baz"),
        Some((
            " baz",
            Item::Group(Group {
                opening: s("<"),
                content: vec![word("foo"), word("bar")],
                closing: s(">")
            })
        ))
    );
    assert_eq!(
        item("<baä>\n"),
        Some(("\n", Item::Group(Group { opening: s("<"), content: vec![word("baä")], closing: s(">") })))
    );
    assert_eq!(item("foo baz"), Some((" baz", word("foo"))));
    assert_eq!(item("$body\n"), Some(("\n", Item::Placeholder(Placeholder::Body))));
    assert_eq!(item("$3\n"), Some(("\n", Item::Placeholder(Placeholder::Argument(3)))));
    assert_eq!(item("\n"), None);
}

#[test]
fn test_leaf() {
    assert_eq!(leaf("x\n\ne", 0), Some(("\ne", vec![word("x")])));
    assert_eq!(leaf("x \n", 0), Some(("", vec![word("x")])));
    assert_eq!(
        leaf("x $args\n", 0),
        Some(("", vec![word("x"), Item::Placeholder(Placeholder::Arguments)]))
    );
    assert_eq!(leaf("x \ny\n", 0), Some(("", vec![word("x"), word("y")])));
    assert_eq!(
        leaf("Hello world\nThis is the End .\n", 0),
        Some((
            "",
            vec![
                word("Hello"),
                word("world"),
                word("This"),
                word("is"),
                word("the"),
                word("End"),
                Item::Punctuation(s("."))
            ]
        ))
    );
    assert_eq!(leaf("        foo\n        bar \n", 2), Some(("", vec![word("foo"), word("bar")])));
    assert_eq!(leaf("\tx  y\n\tz\nq", 1), Some(("q", vec![word("x"), word("y"), word("z")])));
}

#[test]
fn test_list_item() {
    assert_eq!(list_item("  - hello world", 0), Some(("", vec![word("hello"), word("world")])));
    assert_eq!(list_item("      - hello", 1), Some(("", vec![word("hello")])));
    assert_eq!(
        list_item("  - hello\n    world\n", 0),
        Some(("\n", vec![word("hello"), word("world")]))
    );
}

#[test]
fn test_block_placeholder() {
    assert_eq!(
        block_placeholder("    $foo\n", 1),
        Some(("", Body::Placeholder(Placeholder::Unknown(s("foo")))))
    );
}

#[test]
fn test_command() {
    assert_eq!(
        command("!foo \"<bar\" \"baz>\"\n", 0),
        Some(("", Command { name: s("foo"), args: vec!["<bar".to_owned(), "baz>".to_owned()] }))
    );
}

#[test]
fn test_pattern_1() {
    assert_eq!(
        pattern("/foo x\n", 0),
        Some(("", Parameter { name: s("foo"), args: vec![word("x")], value: empty_body() }))
    );
}

#[test]
fn test_pattern_2() {
    assert_eq!(
        pattern("/foo x\n    bar\nx", 0),
        Some((
            "x",
            Parameter {
                name: s("foo"),
                args: vec![word("x")],
                value: BlockBody {
                    commands: vec![],
                    parameters: vec![],
                    childs: vec![Body::Leaf(vec![word("bar")])]
                }
            }
        ))
    );
}

#[test]
fn test_pattern_3() {
    assert_eq!(
        pattern("/foo x\n    bar $baz\nx", 0),
        Some((
            "x",
            Parameter {
                name: s("foo"),
                args: vec![word("x")],
                value: BlockBody {
                    commands: vec![],
                    parameters: vec![],
                    childs: vec![Body::Leaf(vec![
                        word("bar"),
                        Item::Placeholder(Placeholder::Unknown(s("baz")))
                    ])]
                }
            }
        ))
    );
}

#[test]
fn test_separated_list() {
    assert_eq!(item_list("\n"), Some(("\n", Vec::<Item>::new())));
}

#[test]
fn test_block_1() {
    assert_eq!(
        block(":foo\n    x\nx", 0),
        Some((
            "x",
            Block {
                name: s("foo"),
                argument: vec![],
                body: BlockBody {
                    commands: vec![],
                    parameters: vec![],
                    childs: vec![Body::Leaf(vec![word("x")])]
                }
            }
        ))
    );
}

#[test]
fn test_block_2() {
    assert_eq!(
        block(":foo\n\n    x\nx", 0),
        Some((
            "x",
            Block {
                name: s("foo"),
                argument: vec![],
                body: BlockBody {
                    commands: vec![],
                    parameters: vec![],
                    childs: vec![Body::Leaf(vec![word("x")])]
                }
            }
        ))
    );
}

#[test]
fn test_block_3() {
    assert_eq!(
        block(":foo\n    !x\n    x\nx", 0),
        Some((
            "x",
            Block {
                name: s("foo"),
                argument: vec![],
                body: BlockBody {
                    commands: vec![Command { name: s("x"), args: vec![] }],
                    parameters: vec![],
                    childs: vec![Body::Leaf(vec![word("x")])]
                }
            }
        ))
    );
    assert_eq!(
        block(":foo A\n    !x\n    x\nx", 0),
        Some((
            "x",
            Block {
                name: s("foo"),
                argument: vec![word("A")],
                body: BlockBody {
                    commands: vec![Command { name: s("x"), args: vec![] }],
                    parameters: vec![],
                    childs: vec![Body::Leaf(vec![word("x")])]
                }
            }
        ))
    );
    assert_eq!(
        block(":foo A\n    :bar\n    x\nx", 0),
        Some((
            "x",
            Block {
                name: s("foo"),
                argument: vec![word("A")],
                body: BlockBody {
                    commands: vec![],
                    parameters: vec![],
                    childs: vec![
                        Body::Block(Block { name: s("bar"), argument: vec![], body: empty_body() }),
                        Body::Leaf(vec![word("x")])
                    ]
                }
            }
        ))
    );
    assert_eq!(
        block(":foo A\n    :bar\n\n    x  y\n\tz\nx", 0),
        Some((
            "x",
            Block {
                name: s("foo"),
                argument: vec![word("A")],
                body: BlockBody {
                    commands: vec![],
                    parameters: vec![],
                    childs: vec![
                        Body::Block(Block { name: s("bar"), argument: vec![], body: empty_body() }),
                        Body::Leaf(vec![word("x"), word("y"), word("z")])
                    ]
                }
            }
        ))
    );
}
