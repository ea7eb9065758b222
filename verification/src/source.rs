//! The syntax tree of a Yarn source, and the entry point that parses a
//! whole source.
use vstd::prelude::*;
use crate::grammar::{self, SPlaceholder, SItem, SGroup, SParameter, SCommand, SBlock, SBlockBody, SBody};
use crate::parser;

verus! {

/// A placeholder: `$body`, `$args`, `$3`, or `$name` for any other name.
#[derive(Debug, PartialEq, Eq)]
pub enum Placeholder {
    Body,
    Argument(usize),
    Arguments,
    Unknown(String),
}

/// A bracketed group of items, such as `<foo bar>`.
#[derive(Debug, PartialEq, Eq)]
pub struct Group {
    pub opening: String,
    pub closing: String,
    pub content: Vec<Item>,
}

/// One item of running text.
#[derive(Debug, PartialEq, Eq)]
pub enum Item {
    Word(String),
    Symbol(String),
    Punctuation(String),
    Placeholder(Placeholder),
    Token(String),
    Group(Group),
}

/// A parameter definition `/name args` with its indented body.
#[derive(Debug, PartialEq, Eq)]
pub struct Parameter {
    pub name: String,
    pub args: Vec<Item>,
    pub value: BlockBody,
}

/// A command `!name "arg" ...`.
#[derive(Debug, PartialEq, Eq)]
pub struct Command {
    pub name: String,
    pub args: Vec<String>,
}

/// A block `:name args` with its indented body.
#[derive(Debug, PartialEq, Eq)]
pub struct Block {
    pub name: String,
    pub argument: Vec<Item>,
    pub body: BlockBody,
}

/// The body of a block: its commands, then its parameters, then its children.
#[derive(Debug, PartialEq, Eq)]
pub struct BlockBody {
    pub commands: Vec<Command>,
    pub parameters: Vec<Parameter>,
    pub childs: Vec<Body>,
}

/// One child of a block body.
#[derive(Debug, PartialEq, Eq)]
pub enum Body {
    Leaf(Vec<Item>),
    List(Vec<Vec<Item>>),
    Block(Block),
    Placeholder(Placeholder),
}

/// Why a source could not be read.
#[derive(Debug, PartialEq, Eq)]
pub enum LoomError {
    /// The source is not well formed.
    Parser,
}

impl View for Placeholder {
    type V = SPlaceholder;

    open spec fn view(&self) -> SPlaceholder {
        match self {
            Placeholder::Body => SPlaceholder::Body,
            Placeholder::Argument(n) => SPlaceholder::Argument(*n),
            Placeholder::Arguments => SPlaceholder::Arguments,
            Placeholder::Unknown(s) => SPlaceholder::Unknown(s@),
        }
    }
}

pub open spec fn item_view(i: Item) -> SItem
    decreases i,
{
    match i {
        Item::Word(s) => SItem::Word(s@),
        Item::Symbol(s) => SItem::Symbol(s@),
        Item::Punctuation(s) => SItem::Punctuation(s@),
        Item::Placeholder(v) => SItem::Placeholder(v@),
        Item::Token(s) => SItem::Token(s@),
        Item::Group(g) => SItem::Group(group_view(g)),
    }
}

pub open spec fn group_view(g: Group) -> SGroup
    decreases g,
{
    SGroup { opening: g.opening@, closing: g.closing@, content: items_view(g.content@) }
}

pub open spec fn items_view(s: Seq<Item>) -> Seq<SItem>
    decreases s,
{
    if s.len() == 0 {
        seq![]
    } else {
        items_view(s.drop_last()).push(item_view(s.last()))
    }
}

pub open spec fn item_lists_view(s: Seq<Vec<Item>>) -> Seq<Seq<SItem>>
    decreases s.len(),
{
    if s.len() == 0 {
        seq![]
    } else {
        item_lists_view(s.drop_last()).push(items_view(s.last()@))
    }
}

pub open spec fn strings_view(s: Seq<String>) -> Seq<Seq<char>>
    decreases s.len(),
{
    if s.len() == 0 {
        seq![]
    } else {
        strings_view(s.drop_last()).push(s.last()@)
    }
}

pub open spec fn command_view(c: Command) -> SCommand {
    SCommand { name: c.name@, args: strings_view(c.args@) }
}

pub open spec fn commands_view(s: Seq<Command>) -> Seq<SCommand>
    decreases s.len(),
{
    if s.len() == 0 {
        seq![]
    } else {
        commands_view(s.drop_last()).push(command_view(s.last()))
    }
}

pub open spec fn parameter_view(d: Parameter) -> SParameter
    decreases d,
{
    SParameter { name: d.name@, args: items_view(d.args@), value: block_body_view(d.value) }
}

pub open spec fn parameters_view(s: Seq<Parameter>) -> Seq<SParameter>
    decreases s,
{
    if s.len() == 0 {
        seq![]
    } else {
        parameters_view(s.drop_last()).push(parameter_view(s.last()))
    }
}

pub open spec fn block_view(b: Block) -> SBlock
    decreases b,
{
    SBlock { name: b.name@, argument: items_view(b.argument@), body: block_body_view(b.body) }
}

pub open spec fn body_view(b: Body) -> SBody
    decreases b,
{
    match b {
        Body::Leaf(items) => SBody::Leaf(items_view(items@)),
        Body::List(l) => SBody::List(item_lists_view(l@)),
        Body::Block(k) => SBody::Block(block_view(k)),
        Body::Placeholder(v) => SBody::Placeholder(v@),
    }
}

pub open spec fn bodies_view(s: Seq<Body>) -> Seq<SBody>
    decreases s,
{
    if s.len() == 0 {
        seq![]
    } else {
        bodies_view(s.drop_last()).push(body_view(s.last()))
    }
}

pub open spec fn block_body_view(b: BlockBody) -> SBlockBody
    decreases b,
{
    SBlockBody {
        commands: commands_view(b.commands@),
        parameters: parameters_view(b.parameters@),
        childs: bodies_view(b.childs@),
    }
}

impl View for Item {
    type V = SItem;

    open spec fn view(&self) -> SItem {
        item_view(*self)
    }
}

impl View for BlockBody {
    type V = SBlockBody;

    open spec fn view(&self) -> SBlockBody {
        block_body_view(*self)
    }
}

/// Parses a whole Yarn source as the body of a block at indentation zero,
/// and hands back what of the source was left unread. Every source parses:
/// the error is never returned. The source is read as far as it goes: what
/// is left unread is empty or does not begin with a child.
pub fn parse<'a>(input: &'a str) -> (r: Result<(BlockBody, &'a str), LoomError>)
    ensures
        grammar::block_body(input@, 0, 0) matches Some((q, b)) && r matches Ok((body, rest))
            && body@ == b && rest@ == input@.subrange(q, input@.len() as int) && (q
            < input@.len() ==> grammar::body(input@, q, 0) is None),
{
    let read = parser::block_body(input, 0);
    proof {
        grammar::lemma_block_body_stop(input@, 0, 0);
    }
    match read {
        Some((rest, body)) => Ok((body, rest)),
        None => Err(LoomError::Parser),
    }
}

} // verus!
