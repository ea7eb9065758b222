//! The document graph: the nodes that a parsed source becomes, held by
//! index, and the environments in which names are bound while it is built.
//!
//! A name is looked up in the chain of environments from the innermost one
//! out; within one environment, the binding made last counts.
use vstd::prelude::*;
use indexmap::IndexMap;
use crate::grammar::{SPlaceholder, SItem, SBody, SBlock, SParameter, SCommand};
use crate::nodes::Token;
use crate::parser::{chars_of, text};
use crate::layout::GlueKind;
use crate::grammar::{self, SBlockBody};
use crate::source::parse;
use crate::source::{
    Placeholder, Item, Body, Block, Parameter, Command, item_view, items_view,
    body_view, bodies_view, block_view, parameter_view, parameters_view, command_view,
    commands_view, strings_view, item_lists_view,
};

verus! {

/// The index of a node in the graph.
pub type NodeId = usize;

/// The names bound in one scope: targets (nodes that blocks and `use`
/// refer to), symbols (replacement texts) and groups (nodes that a pair of
/// brackets stands for), and the file of hyphenation patterns set with
/// `!hyphens`, if any. A later binding of a name wins.
pub struct LocalEnv {
    pub targets: Vec<(String, NodeId)>,
    pub symbols: IndexMap<String, String>,
    pub groups: IndexMap<(String, String), NodeId>,
    pub hyphenator: Option<String>,
}

/// The map of the `indexmap` crate: a hash map that keeps its keys in the
/// order they were first inserted.
#[verifier::external_type_specification]
#[verifier::external_body]
#[verifier::reject_recursive_types(K)]
#[verifier::reject_recursive_types(V)]
#[verifier::reject_recursive_types(S)]
pub struct ExIndexMap<K, V, S>(IndexMap<K, V, S>);

/// What a map of symbols holds: each symbol with its replacement.
pub uninterp spec fn symbol_entries(m: IndexMap<String, String>) -> Map<Seq<char>, Seq<char>>;

/// What a map of groups holds: each pair of brackets with its node.
pub uninterp spec fn group_entries(m: IndexMap<(String, String), NodeId>) -> Map<(Seq<char>, Seq<char>), NodeId>;

/// `IndexMap::new`: a map that holds nothing.
#[verifier::external_body]
fn symbols_new() -> (r: IndexMap<String, String>)
    ensures
        symbol_entries(r) =~= Map::empty(),
{
    IndexMap::new()
}

/// `IndexMap::insert`: where the key is there, its value is replaced; else
/// the entry is added.
#[verifier::external_body]
fn symbols_insert(m: &mut IndexMap<String, String>, key: String, value: String)
    ensures
        symbol_entries(*final(m)) == symbol_entries(*old(m)).insert(key@, value@),
{
    m.insert(key, value);
}

/// `IndexMap::get`: the value of the key, where the map holds it.
#[verifier::external_body]
fn symbols_get(m: &IndexMap<String, String>, key: &str) -> (r: Option<String>)
    ensures
        match r {
            Some(v) => symbol_entries(*m).contains_key(key@) && v@ == symbol_entries(*m)[key@],
            None => !symbol_entries(*m).contains_key(key@),
        },
{
    m.get(key).cloned()
}

/// `IndexMap::new`: a map that holds nothing.
#[verifier::external_body]
fn groups_new() -> (r: IndexMap<(String, String), NodeId>)
    ensures
        group_entries(r) =~= Map::empty(),
{
    IndexMap::new()
}

/// `IndexMap::insert`: where the key is there, its value is replaced; else
/// the entry is added.
#[verifier::external_body]
fn groups_insert(m: &mut IndexMap<(String, String), NodeId>, opening: String, closing: String, node: NodeId)
    ensures
        group_entries(*final(m)) == group_entries(*old(m)).insert((opening@, closing@), node),
{
    m.insert((opening, closing), node);
}

/// `IndexMap::get`: the value of the key, where the map holds it.
#[verifier::external_body]
fn groups_get(m: &IndexMap<(String, String), NodeId>, opening: &str, closing: &str) -> (r: Option<NodeId>)
    ensures
        r == (if group_entries(*m).contains_key((opening@, closing@)) {
            Some(group_entries(*m)[(opening@, closing@)])
        } else {
            None
        }),
{
    m.get(&(opening.to_string(), closing.to_string())).copied()
}

/// What the scope binds, as maps.
pub struct SEnv {
    pub targets: Map<Seq<char>, NodeId>,
    pub symbols: Map<Seq<char>, Seq<char>>,
    pub groups: Map<(Seq<char>, Seq<char>), NodeId>,
    pub hyphenator: Option<Seq<char>>,
}

pub open spec fn targets_map(s: Seq<(String, NodeId)>) -> Map<Seq<char>, NodeId>
    decreases s.len(),
{
    if s.len() == 0 {
        Map::empty()
    } else {
        targets_map(s.drop_last()).insert(s.last().0@, s.last().1)
    }
}

impl View for LocalEnv {
    type V = SEnv;

    open spec fn view(&self) -> SEnv {
        SEnv {
            targets: targets_map(self.targets@),
            symbols: symbol_entries(self.symbols),
            groups: group_entries(self.groups),
            hyphenator: match self.hyphenator {
                Some(h) => Some(h@),
                None => None,
            },
        }
    }
}

/// The scope that binds nothing.
pub open spec fn empty_env() -> SEnv {
    SEnv { targets: Map::empty(), symbols: Map::empty(), groups: Map::empty(), hyphenator: None }
}

/// The scopes, outermost first.
pub struct GraphChain {
    pub scopes: Vec<LocalEnv>,
}

pub open spec fn envs_view(s: Seq<LocalEnv>) -> Seq<SEnv> {
    s.map_values(|e: LocalEnv| e@)
}

impl View for GraphChain {
    type V = Seq<SEnv>;

    open spec fn view(&self) -> Seq<SEnv> {
        envs_view(self.scopes@)
    }
}

/// The node that `name` is bound to, in the innermost scope that binds it.
pub open spec fn lookup(ch: Seq<SEnv>, name: Seq<char>) -> Option<NodeId>
    decreases ch.len(),
{
    if ch.len() == 0 {
        None
    } else if ch.last().targets.contains_key(name) {
        Some(ch.last().targets[name])
    } else {
        lookup(ch.drop_last(), name)
    }
}

/// The replacement of the symbol `name`, in the innermost scope that has one.
pub open spec fn symbol_lookup(ch: Seq<SEnv>, name: Seq<char>) -> Option<Seq<char>>
    decreases ch.len(),
{
    if ch.len() == 0 {
        None
    } else if ch.last().symbols.contains_key(name) {
        Some(ch.last().symbols[name])
    } else {
        symbol_lookup(ch.drop_last(), name)
    }
}

/// The node of the brackets `key`, in the innermost scope that has one.
pub open spec fn group_lookup(ch: Seq<SEnv>, key: (Seq<char>, Seq<char>)) -> Option<NodeId>
    decreases ch.len(),
{
    if ch.len() == 0 {
        None
    } else if ch.last().groups.contains_key(key) {
        Some(ch.last().groups[key])
    } else {
        group_lookup(ch.drop_last(), key)
    }
}

/// A name is looked up in the innermost scope first: where that scope
/// binds it, its binding is found; else the outer scopes are searched.
pub proof fn law_inner_scope_shadows(ch: Seq<SEnv>, e: SEnv, name: Seq<char>)
    ensures
        lookup(ch.push(e), name) == (if e.targets.contains_key(name) {
            Some(e.targets[name])
        } else {
            lookup(ch, name)
        }),
{
    assert(ch.push(e).drop_last() =~= ch);
}

/// Symbols and groups are looked up like names: the innermost scope that
/// has a replacement for a symbol, or a node for a pair of brackets, gives
/// it; an empty chain gives nothing.
pub proof fn law_inner_scope_shadows_symbols_and_groups(
    ch: Seq<SEnv>,
    e: SEnv,
    name: Seq<char>,
    key: (Seq<char>, Seq<char>),
)
    ensures
        symbol_lookup(ch.push(e), name) == (if e.symbols.contains_key(name) {
            Some(e.symbols[name])
        } else {
            symbol_lookup(ch, name)
        }),
        group_lookup(ch.push(e), key) == (if e.groups.contains_key(key) {
            Some(e.groups[key])
        } else {
            group_lookup(ch, key)
        }),
        symbol_lookup(Seq::<SEnv>::empty(), name) is None,
        group_lookup(Seq::<SEnv>::empty(), key) is None,
        lookup(Seq::<SEnv>::empty(), name) is None,
{
    assert(ch.push(e).drop_last() =~= ch);
}

impl LocalEnv {
    pub fn new() -> (e: LocalEnv)
        ensures
            e@ == empty_env(),
    {
        let e = LocalEnv { targets: Vec::new(), symbols: symbols_new(), groups: groups_new(), hyphenator: None };
        assert(e@.targets =~= Map::empty());
        assert(e@.symbols =~= Map::empty());
        assert(e@.groups =~= Map::empty());
        e
    }

    /// Sets the file of hyphenation patterns of this scope.
    pub fn set_hyphenator(&mut self, file: String)
        ensures
            final(self)@ == (SEnv { hyphenator: Some(file@), ..old(self)@ }),
    {
        self.hyphenator = Some(file);
    }

    /// Binds `name` to `target`, in place of any earlier binding.
    pub fn add_target(&mut self, name: String, target: NodeId)
        ensures
            final(self)@ == (SEnv { targets: old(self)@.targets.insert(name@, target), ..old(self)@ }),
    {
        self.targets.push((name, target));
        assert(self.targets@.drop_last() == old(self).targets@);
    }

    /// Binds the symbol `src` to the text `dst`.
    pub fn add_symbol(&mut self, src: String, dst: String)
        ensures
            final(self)@ == (SEnv { symbols: old(self)@.symbols.insert(src@, dst@), ..old(self)@ }),
    {
        symbols_insert(&mut self.symbols, src, dst);
    }

    /// Binds the brackets `opening` and `closing` to `node`.
    pub fn add_group(&mut self, opening: String, closing: String, node: NodeId)
        ensures
            final(self)@ == (SEnv {
                groups: old(self)@.groups.insert((opening@, closing@), node),
                ..old(self)@
            }),
    {
        groups_insert(&mut self.groups, opening, closing, node);
    }

    /// The node that this scope binds `name` to.
    pub fn get_target(&self, name: &str) -> (r: Option<NodeId>)
        ensures
            r == (if self@.targets.contains_key(name@) {
                Some(self@.targets[name@])
            } else {
                None
            }),
    {
        let key = String::from_str(name);
        let mut i = self.targets.len();
        while i > 0
            invariant
                i <= self.targets@.len(),
                key@ == name@,
                forall|k: int| i <= k < self.targets@.len() ==> (#[trigger] self.targets@[k]).0@ != name@,
            decreases i,
        {
            if self.targets[i - 1].0 == key {
                proof {
                    let s = self.targets@;
                    lemma_targets_tail(s, i as int, name@);
                    assert(s.subrange(0, i as int).drop_last() =~= s.subrange(0, i - 1));
                }
                return Some(self.targets[i - 1].1);
            }
            i = i - 1;
        }
        proof {
            lemma_targets_tail(self.targets@, 0, name@);
            assert(targets_map(self.targets@.subrange(0, 0)) =~= Map::empty());
        }
        None
    }
}

/// Entries after `i` that do not bind `name` leave its binding as the first
/// `i` entries make it.
proof fn lemma_targets_tail(s: Seq<(String, NodeId)>, i: int, name: Seq<char>)
    requires
        0 <= i <= s.len(),
        forall|k: int| i <= k < s.len() ==> (#[trigger] s[k]).0@ != name,
    ensures
        targets_map(s).contains_key(name) == targets_map(s.subrange(0, i)).contains_key(name),
        targets_map(s).contains_key(name) ==> targets_map(s)[name] == targets_map(s.subrange(0, i))[name],
    decreases s.len() - i,
{
    if i == s.len() {
        assert(s.subrange(0, i) =~= s);
    } else {
        lemma_targets_tail(s.drop_last(), i, name);
        assert(s.drop_last().subrange(0, i) =~= s.subrange(0, i));
    }
}

impl LocalEnv {
    /// The replacement that this scope gives the symbol `name`.
    pub fn get_symbol(&self, name: &str) -> (r: Option<String>)
        ensures
            match r {
                Some(t) => self@.symbols.contains_key(name@) && t@ == self@.symbols[name@],
                None => !self@.symbols.contains_key(name@),
            },
    {
        symbols_get(&self.symbols, name)
    }

    /// The node that this scope binds the brackets `opening` and `closing` to.
    pub fn get_group(&self, opening: &str, closing: &str) -> (r: Option<NodeId>)
        ensures
            r == (if self@.groups.contains_key((opening@, closing@)) {
                Some(self@.groups[(opening@, closing@)])
            } else {
                None
            }),
    {
        groups_get(&self.groups, opening, closing)
    }
}

impl GraphChain {
    /// The chain of the one scope `local`.
    pub fn root(local: LocalEnv) -> (c: GraphChain)
        ensures
            c@ == seq![local@],
    {
        let mut scopes = Vec::new();
        scopes.push(local);
        let c = GraphChain { scopes };
        assert(c@ =~= seq![local@]);
        c
    }

    /// Adds the innermost scope `local`.
    pub fn link(&mut self, local: LocalEnv)
        ensures
            final(self)@ == old(self)@.push(local@),
    {
        self.scopes.push(local);
        assert(envs_view(self.scopes@) =~= envs_view(old(self).scopes@).push(local@));
    }

    /// Takes the innermost scope back out.
    pub fn take(&mut self) -> (local: LocalEnv)
        requires
            old(self)@.len() > 0,
        ensures
            local@ == old(self)@.last(),
            final(self)@ == old(self)@.drop_last(),
    {
        let local = self.scopes.pop().unwrap();
        assert(envs_view(self.scopes@) =~= envs_view(old(self).scopes@).drop_last());
        local
    }

    /// The module that the outermost scope binds `name` to: see
    /// `outer_target`.
    pub fn get_outer(&self, name: &str) -> (r: Option<NodeId>)
        ensures
            r == outer_target(self@, name@),
    {
        if self.scopes.len() > 0 {
            self.scopes[0].get_target(name)
        } else {
            None
        }
    }

    /// The node that `name` is bound to, in the innermost scope that binds
    /// it.
    pub fn get_target(&self, name: &str) -> (r: Option<NodeId>)
        ensures
            r == lookup(self@, name@),
    {
        let mut i = self.scopes.len();
        assert(self@.subrange(0, i as int) =~= self@);
        while i > 0
            invariant
                i <= self.scopes@.len(),
                lookup(self@, name@) == lookup(self@.subrange(0, i as int), name@),
            decreases i,
        {
            let ghost sub = self@.subrange(0, i as int);
            assert(sub.last() == self.scopes@[i - 1]@);
            assert(sub.drop_last() =~= self@.subrange(0, i - 1));
            match self.scopes[i - 1].get_target(name) {
                Some(n) => {
                    return Some(n);
                },
                None => {},
            }
            i = i - 1;
        }
        None
    }

    /// The replacement of the symbol `name`, in the innermost scope that
    /// has one.
    pub fn get_symbol(&self, name: &str) -> (r: Option<String>)
        ensures
            match r {
                Some(t) => symbol_lookup(self@, name@) == Some(t@),
                None => symbol_lookup(self@, name@) is None,
            },
    {
        let mut i = self.scopes.len();
        assert(self@.subrange(0, i as int) =~= self@);
        while i > 0
            invariant
                i <= self.scopes@.len(),
                symbol_lookup(self@, name@) == symbol_lookup(self@.subrange(0, i as int), name@),
            decreases i,
        {
            let ghost sub = self@.subrange(0, i as int);
            assert(sub.last() == self.scopes@[i - 1]@);
            assert(sub.drop_last() =~= self@.subrange(0, i - 1));
            match self.scopes[i - 1].get_symbol(name) {
                Some(t) => {
                    return Some(t);
                },
                None => {},
            }
            i = i - 1;
        }
        None
    }

    /// The node of the brackets `opening` and `closing`, in the innermost
    /// scope that has one.
    pub fn get_group(&self, opening: &str, closing: &str) -> (r: Option<NodeId>)
        ensures
            r == group_lookup(self@, (opening@, closing@)),
    {
        let mut i = self.scopes.len();
        assert(self@.subrange(0, i as int) =~= self@);
        while i > 0
            invariant
                i <= self.scopes@.len(),
                group_lookup(self@, (opening@, closing@)) == group_lookup(self@.subrange(0, i as int), (opening@, closing@)),
            decreases i,
        {
            let ghost sub = self@.subrange(0, i as int);
            assert(sub.last() == self.scopes@[i - 1]@);
            assert(sub.drop_last() =~= self@.subrange(0, i - 1));
            match self.scopes[i - 1].get_group(opening, closing) {
                Some(n) => {
                    return Some(n);
                },
                None => {},
            }
            i = i - 1;
        }
        None
    }
}

/// A token node: a fill, a quad space, or any other name.
pub enum SToken {
    HFill,
    QuadSpace,
    Other(Seq<char>),
}

/// The token that `Token::new` makes of the name `s`.
pub open spec fn token_of(s: Seq<char>) -> SToken {
    if s == "hfill"@ {
        SToken::HFill
    } else if s == "quad"@ {
        SToken::QuadSpace
    } else {
        SToken::Other(s)
    }
}

pub open spec fn token_view(t: Token) -> SToken {
    match t {
        Token::HFill => SToken::HFill,
        Token::QuadSpace => SToken::QuadSpace,
        Token::Other(s) => SToken::Other(s@),
    }
}

/// A node of the document graph.
pub enum Node {
    Word(String),
    Punctuation(String),
    /// A symbol, already replaced where a scope gave it a replacement.
    Symbol(String),
    Placeholder(Placeholder),
    Token(Token),
    /// A bracketed group: its brackets, the `Nodes` node of its content, and
    /// the node its brackets stand for, if any.
    Group { opening: String, closing: String, content: NodeId, target: Option<NodeId> },
    /// A paragraph: its items.
    Leaf(Vec<NodeId>),
    /// A list: its entries, each a `Leaf`.
    List(Vec<NodeId>),
    /// A sequence of nodes.
    Nodes(Vec<NodeId>),
    /// A block: its name, the node its name is bound to, if any, its scope,
    /// and the `Nodes` nodes of its argument and of its body.
    Block { name: String, target: Option<NodeId>, env: LocalEnv, args: NodeId, body: NodeId },
    /// A parameter definition: its name, its scope, and the `Nodes` nodes of
    /// its arguments and of its body.
    Definition { name: String, env: LocalEnv, args: NodeId, body: NodeId },
    /// A whole source: its scope and the `Nodes` node of its children.
    Module { env: LocalEnv, body: NodeId },
}

pub enum SNode {
    Word(Seq<char>),
    Punctuation(Seq<char>),
    Symbol(Seq<char>),
    Placeholder(SPlaceholder),
    Token(SToken),
    Group { opening: Seq<char>, closing: Seq<char>, content: NodeId, target: Option<NodeId> },
    Leaf(Seq<NodeId>),
    List(Seq<NodeId>),
    Nodes(Seq<NodeId>),
    Block { name: Seq<char>, target: Option<NodeId>, env: SEnv, args: NodeId, body: NodeId },
    Definition { name: Seq<char>, env: SEnv, args: NodeId, body: NodeId },
    Module { env: SEnv, body: NodeId },
}

pub open spec fn node_view(n: Node) -> SNode {
    match n {
        Node::Word(s) => SNode::Word(s@),
        Node::Punctuation(s) => SNode::Punctuation(s@),
        Node::Symbol(s) => SNode::Symbol(s@),
        Node::Placeholder(p) => SNode::Placeholder(p@),
        Node::Token(t) => SNode::Token(token_view(t)),
        Node::Group { opening, closing, content, target } => SNode::Group {
            opening: opening@,
            closing: closing@,
            content,
            target,
        },
        Node::Leaf(v) => SNode::Leaf(v@),
        Node::List(v) => SNode::List(v@),
        Node::Nodes(v) => SNode::Nodes(v@),
        Node::Block { name, target, env, args, body } => SNode::Block {
            name: name@,
            target,
            env: env@,
            args,
            body,
        },
        Node::Definition { name, env, args, body } => SNode::Definition {
            name: name@,
            env: env@,
            args,
            body,
        },
        Node::Module { env, body } => SNode::Module { env: env@, body },
    }
}

/// The nodes of a document, each found by its index.
pub struct Graph {
    pub nodes: Vec<Node>,
}

impl View for Graph {
    type V = Seq<SNode>;

    open spec fn view(&self) -> Seq<SNode> {
        self.nodes@.map_values(|n: Node| node_view(n))
    }
}

/// The graph with `n` added, and the index of `n`.
pub open spec fn added(g: Seq<SNode>, n: SNode) -> (Seq<SNode>, NodeId) {
    (g.push(n), g.len() as NodeId)
}

/// The scope of the node `id`, where it has one.
pub open spec fn scope_of(g: Seq<SNode>, id: NodeId) -> Option<SEnv> {
    if id < g.len() {
        match g[id as int] {
            SNode::Block { env, .. } => Some(env),
            SNode::Definition { env, .. } => Some(env),
            SNode::Module { env, .. } => Some(env),
            _ => None,
        }
    } else {
        None
    }
}

/// The parts of `s` between slashes.
pub open spec fn split_slash(s: Seq<char>) -> Seq<Seq<char>>
    decreases s.len(),
{
    if s.len() == 0 {
        seq![seq![]]
    } else {
        let r = split_slash(s.drop_last());
        if s.last() == '/' {
            r.push(seq![])
        } else {
            r.update(r.len() - 1, r.last().push(s.last()))
        }
    }
}

/// Follows the path `rest` from the node `cur` through the scopes of the
/// nodes on the way: each part but the last names a node in the scope of
/// the one before; the last part binds that name to the node reached so
/// far, or, where it is `*`, takes in everything the node's scope binds. A
/// node without a scope, or a part that is bound to nothing, ends the walk
/// with nothing bound.
pub open spec fn walk(g: Seq<SNode>, cur: NodeId, rest: Seq<Seq<char>>, e: SEnv) -> SEnv
    decreases rest.len(),
{
    if rest.len() == 0 {
        e
    } else if rest.len() == 1 {
        if rest[0] == "*"@ {
            match scope_of(g, cur) {
                Some(ne) => SEnv { targets: e.targets.union_prefer_right(ne.targets), ..e },
                None => e,
            }
        } else {
            SEnv { targets: e.targets.insert(rest[0], cur), ..e }
        }
    } else {
        match scope_of(g, cur) {
            Some(ne) => if ne.targets.contains_key(rest[0]) {
                walk(g, ne.targets[rest[0]], rest.drop_first(), e)
            } else {
                e
            },
            None => e,
        }
    }
}

/// The node that the scope being built, else the chain, binds `name` to.
pub open spec fn find_target(ch: Seq<SEnv>, e: SEnv, name: Seq<char>) -> Option<NodeId> {
    if e.targets.contains_key(name) {
        Some(e.targets[name])
    } else {
        lookup(ch, name)
    }
}

/// One argument of `!use`: its first part names a node, in the scope being
/// built or else in the chain. An argument of one part binds that name to
/// the node; a longer path is followed from it (see `walk`). A name bound
/// nowhere binds nothing here: it is wanted from a file (see `use_wanted`).
pub open spec fn use_one(g: Seq<SNode>, ch: Seq<SEnv>, e: SEnv, arg: Seq<char>) -> SEnv {
    let parts = split_slash(arg);
    match find_target(ch, e, parts[0]) {
        Some(n) => if parts.len() == 1 {
            SEnv { targets: e.targets.insert(parts[0], n), ..e }
        } else {
            walk(g, n, parts.drop_first(), e)
        },
        None => e,
    }
}

/// The arguments of `!use`, one after the other.
pub open spec fn apply_uses(g: Seq<SNode>, ch: Seq<SEnv>, e: SEnv, args: Seq<Seq<char>>) -> SEnv
    decreases args.len(),
{
    if args.len() == 0 {
        e
    } else {
        use_one(g, ch, apply_uses(g, ch, e, args.drop_last()), args.last())
    }
}

/// The module that the outermost scope binds `name` to: that scope holds
/// the modules read from files.
pub open spec fn outer_target(ch: Seq<SEnv>, name: Seq<char>) -> Option<NodeId> {
    if ch.len() > 0 && ch[0].targets.contains_key(name) {
        Some(ch[0].targets[name])
    } else {
        None
    }
}

/// The arguments of `!load`, one after the other: each name is bound to
/// the module of that name read from a file, where there is one yet.
pub open spec fn apply_loads(ch: Seq<SEnv>, e: SEnv, args: Seq<Seq<char>>) -> SEnv
    decreases args.len(),
{
    if args.len() == 0 {
        e
    } else {
        let e1 = apply_loads(ch, e, args.drop_last());
        match outer_target(ch, args.last()) {
            Some(n) => SEnv { targets: e1.targets.insert(args.last(), n), ..e1 },
            None => e1,
        }
    }
}

/// What a command does to the scope being built: `use` binds nodes,
/// `load` binds modules read from files, `hyphens file` (with that one
/// argument) sets the file of hyphenation patterns, `symbol src dst` binds
/// a symbol, `group opening name closing` binds a
/// pair of brackets to the node `name` is bound to; a command with too few
/// arguments, a group whose name is bound to nothing, and any other command
/// change nothing.
pub open spec fn apply_command(g: Seq<SNode>, ch: Seq<SEnv>, e: SEnv, c: SCommand) -> SEnv {
    if c.name == "use"@ {
        apply_uses(g, ch, e, c.args)
    } else if c.name == "symbol"@ {
        if c.args.len() >= 2 {
            SEnv { symbols: e.symbols.insert(c.args[0], c.args[1]), ..e }
        } else {
            e
        }
    } else if c.name == "group"@ {
        if c.args.len() >= 3 {
            match find_target(ch, e, c.args[1]) {
                Some(n) => SEnv { groups: e.groups.insert((c.args[0], c.args[2]), n), ..e },
                None => e,
            }
        } else {
            e
        }
    } else if c.name == "load"@ {
        apply_loads(ch, e, c.args)
    } else if c.name == "hyphens"@ {
        if c.args.len() == 1 {
            SEnv { hyphenator: Some(c.args[0]), ..e }
        } else {
            e
        }
    } else {
        e
    }
}

/// The commands, in order.
pub open spec fn apply_commands(g: Seq<SNode>, ch: Seq<SEnv>, e: SEnv, cs: Seq<SCommand>) -> SEnv
    decreases cs.len(),
{
    if cs.len() == 0 {
        e
    } else {
        apply_command(g, ch, apply_commands(g, ch, e, cs.drop_last()), cs.last())
    }
}

/// The text of a symbol: its replacement in the chain, else itself.
pub open spec fn symbol_text(ch: Seq<SEnv>, s: Seq<char>) -> Seq<char> {
    match symbol_lookup(ch, s) {
        Some(t) => t,
        None => s,
    }
}

/// The node of an item, added to the graph after the nodes of its content.
pub open spec fn item_node(g: Seq<SNode>, ch: Seq<SEnv>, it: SItem) -> (Seq<SNode>, NodeId)
    decreases it,
{
    match it {
        SItem::Word(s) => added(g, SNode::Word(s)),
        SItem::Symbol(s) => added(g, SNode::Symbol(symbol_text(ch, s))),
        SItem::Punctuation(s) => added(g, SNode::Punctuation(s)),
        SItem::Placeholder(p) => added(g, SNode::Placeholder(p)),
        SItem::Token(s) => added(g, SNode::Token(token_of(s))),
        SItem::Group(gr) => {
            let (g1, ids) = items_nodes(g, ch, gr.content);
            let (g2, c) = added(g1, SNode::Nodes(ids));
            added(
                g2,
                SNode::Group {
                    opening: gr.opening,
                    closing: gr.closing,
                    content: c,
                    target: group_lookup(ch, (gr.opening, gr.closing)),
                },
            )
        },
    }
}

/// The nodes of items, in order.
pub open spec fn items_nodes(g: Seq<SNode>, ch: Seq<SEnv>, its: Seq<SItem>) -> (Seq<SNode>, Seq<NodeId>)
    decreases its,
{
    if its.len() == 0 {
        (g, seq![])
    } else {
        let (g1, ids) = items_nodes(g, ch, its.drop_last());
        let (g2, id) = item_node(g1, ch, its.last());
        (g2, ids.push(id))
    }
}

/// The `Leaf` nodes of list entries, in order.
pub open spec fn leaves_nodes(g: Seq<SNode>, ch: Seq<SEnv>, ls: Seq<Seq<SItem>>) -> (Seq<SNode>, Seq<NodeId>)
    decreases ls.len(),
{
    if ls.len() == 0 {
        (g, seq![])
    } else {
        let (g1, ids) = leaves_nodes(g, ch, ls.drop_last());
        let (g2, items) = items_nodes(g1, ch, ls.last());
        let (g3, id) = added(g2, SNode::Leaf(items));
        (g3, ids.push(id))
    }
}

/// The node of a child of a block body.
pub open spec fn body_node(g: Seq<SNode>, ch: Seq<SEnv>, b: SBody) -> (Seq<SNode>, NodeId)
    decreases b,
{
    match b {
        SBody::Leaf(items) => {
            let (g1, ids) = items_nodes(g, ch, items);
            added(g1, SNode::Leaf(ids))
        },
        SBody::List(ls) => {
            let (g1, ids) = leaves_nodes(g, ch, ls);
            added(g1, SNode::List(ids))
        },
        SBody::Block(blk) => block_node(g, ch, blk),
        SBody::Placeholder(p) => added(g, SNode::Placeholder(p)),
    }
}

/// The nodes of the children, in order.
pub open spec fn bodies_nodes(g: Seq<SNode>, ch: Seq<SEnv>, bs: Seq<SBody>) -> (Seq<SNode>, Seq<NodeId>)
    decreases bs,
{
    if bs.len() == 0 {
        (g, seq![])
    } else {
        let (g1, ids) = bodies_nodes(g, ch, bs.drop_last());
        let (g2, id) = body_node(g1, ch, bs.last());
        (g2, ids.push(id))
    }
}

/// The node of a block: its scope is made from its commands and parameter
/// definitions in the chain `ch`; its argument and its children are made
/// in the chain with that scope added, in which its name is looked up too.
pub open spec fn block_node(g: Seq<SNode>, ch: Seq<SEnv>, blk: SBlock) -> (Seq<SNode>, NodeId)
    decreases blk,
{
    let (g1, local) = definitions(
        g,
        ch,
        apply_commands(g, ch, empty_env(), blk.body.commands),
        blk.body.parameters,
    );
    let inner = ch.push(local);
    let (g2, args) = items_nodes(g1, inner, blk.argument);
    let (g3, a) = added(g2, SNode::Nodes(args));
    let (g4, kids) = bodies_nodes(g3, inner, blk.body.childs);
    let (g5, b) = added(g4, SNode::Nodes(kids));
    added(
        g5,
        SNode::Block { name: blk.name, target: lookup(inner, blk.name), env: local, args: a, body: b },
    )
}

/// The node of a parameter definition, made as a block's is.
pub open spec fn definition_node(g: Seq<SNode>, ch: Seq<SEnv>, p: SParameter) -> (Seq<SNode>, NodeId)
    decreases p,
{
    let (g1, local) = definitions(
        g,
        ch,
        apply_commands(g, ch, empty_env(), p.value.commands),
        p.value.parameters,
    );
    let inner = ch.push(local);
    let (g2, args) = items_nodes(g1, inner, p.args);
    let (g3, a) = added(g2, SNode::Nodes(args));
    let (g4, kids) = bodies_nodes(g3, inner, p.value.childs);
    let (g5, b) = added(g4, SNode::Nodes(kids));
    added(g5, SNode::Definition { name: p.name, env: local, args: a, body: b })
}

/// Binds each parameter's name, in order, to its definition, made in the
/// chain `ch`.
pub open spec fn definitions(g: Seq<SNode>, ch: Seq<SEnv>, e: SEnv, ps: Seq<SParameter>) -> (Seq<SNode>, SEnv)
    decreases ps,
{
    if ps.len() == 0 {
        (g, e)
    } else {
        let (g1, e1) = definitions(g, ch, e, ps.drop_last());
        let (g2, d) = definition_node(g1, ch, ps.last());
        (g2, SEnv { targets: e1.targets.insert(ps.last().name, d), ..e1 })
    }
}

/// The scope of a block body in the chain `ch`: its commands applied in
/// order to an empty scope, then its parameter definitions bound.
pub open spec fn env_of(g: Seq<SNode>, ch: Seq<SEnv>, cs: Seq<SCommand>, ps: Seq<SParameter>) -> (Seq<SNode>, SEnv) {
    definitions(g, ch, apply_commands(g, ch, empty_env(), cs), ps)
}

/// What a source wants from files: a module that `!use` names and no
/// scope binds, a module that `!load` names and that has not been read
/// yet, or the hyphenation patterns that `!hyphens` names.
pub enum Wanted {
    Use(String),
    Load(String),
    Hyphens(String),
}

pub enum SWanted {
    Use(Seq<char>),
    Load(Seq<char>),
    Hyphens(Seq<char>),
}

pub open spec fn wanted_view(w: Wanted) -> SWanted {
    match w {
        Wanted::Use(s) => SWanted::Use(s@),
        Wanted::Load(s) => SWanted::Load(s@),
        Wanted::Hyphens(s) => SWanted::Hyphens(s@),
    }
}

pub open spec fn wanteds_view(w: Seq<Wanted>) -> Seq<SWanted> {
    w.map_values(|x: Wanted| wanted_view(x))
}

/// What one argument of `!use` wants: the first part of its path, where
/// neither the scope being built nor the chain binds it.
pub open spec fn use_wanted(ch: Seq<SEnv>, e: SEnv, arg: Seq<char>) -> Seq<SWanted> {
    let first = split_slash(arg)[0];
    if find_target(ch, e, first) is None {
        seq![SWanted::Use(first)]
    } else {
        seq![]
    }
}

/// What the arguments of `!use` want, in order.
pub open spec fn uses_wanted(g: Seq<SNode>, ch: Seq<SEnv>, e: SEnv, args: Seq<Seq<char>>) -> Seq<SWanted>
    decreases args.len(),
{
    if args.len() == 0 {
        seq![]
    } else {
        uses_wanted(g, ch, e, args.drop_last()) + use_wanted(
            ch,
            apply_uses(g, ch, e, args.drop_last()),
            args.last(),
        )
    }
}

/// What the arguments of `!load` want: each name not read yet, in order.
pub open spec fn loads_wanted(ch: Seq<SEnv>, args: Seq<Seq<char>>) -> Seq<SWanted>
    decreases args.len(),
{
    if args.len() == 0 {
        seq![]
    } else {
        loads_wanted(ch, args.drop_last()) + (if outer_target(ch, args.last()) is None {
            seq![SWanted::Load(args.last())]
        } else {
            seq![]
        })
    }
}

/// What a command wants from files.
pub open spec fn command_wanted(g: Seq<SNode>, ch: Seq<SEnv>, e: SEnv, c: SCommand) -> Seq<SWanted> {
    if c.name == "use"@ {
        uses_wanted(g, ch, e, c.args)
    } else if c.name == "load"@ {
        loads_wanted(ch, c.args)
    } else if c.name == "hyphens"@ && c.args.len() == 1 {
        seq![SWanted::Hyphens(c.args[0])]
    } else {
        seq![]
    }
}

/// What the commands want, in order, each in the scope the ones before it
/// made.
pub open spec fn commands_wanted(g: Seq<SNode>, ch: Seq<SEnv>, e: SEnv, cs: Seq<SCommand>) -> Seq<SWanted>
    decreases cs.len(),
{
    if cs.len() == 0 {
        seq![]
    } else {
        commands_wanted(g, ch, e, cs.drop_last()) + command_wanted(
            g,
            ch,
            apply_commands(g, ch, e, cs.drop_last()),
            cs.last(),
        )
    }
}

/// What making the scope of a block body wants: its commands first, then
/// what its parameter definitions want.
pub open spec fn env_wanted(g: Seq<SNode>, ch: Seq<SEnv>, cs: Seq<SCommand>, ps: Seq<SParameter>) -> Seq<SWanted> {
    commands_wanted(g, ch, empty_env(), cs) + definitions_wanted(
        g,
        ch,
        apply_commands(g, ch, empty_env(), cs),
        ps,
    )
}

/// What the parameter definitions want, in order.
pub open spec fn definitions_wanted(g: Seq<SNode>, ch: Seq<SEnv>, e: SEnv, ps: Seq<SParameter>) -> Seq<SWanted>
    decreases ps,
{
    if ps.len() == 0 {
        seq![]
    } else {
        definitions_wanted(g, ch, e, ps.drop_last()) + definition_wanted(
            definitions(g, ch, e, ps.drop_last()).0,
            ch,
            ps.last(),
        )
    }
}

/// What a parameter definition wants: its scope's, then its children's.
pub open spec fn definition_wanted(g: Seq<SNode>, ch: Seq<SEnv>, p: SParameter) -> Seq<SWanted>
    decreases p,
{
    let e0 = apply_commands(g, ch, empty_env(), p.value.commands);
    let (g1, local) = definitions(g, ch, e0, p.value.parameters);
    let inner = ch.push(local);
    let (g2, args) = items_nodes(g1, inner, p.args);
    let (g3, a) = added(g2, SNode::Nodes(args));
    commands_wanted(g, ch, empty_env(), p.value.commands) + definitions_wanted(g, ch, e0, p.value.parameters)
        + bodies_wanted(g3, inner, p.value.childs)
}

/// What a block wants: its scope's, then its children's.
pub open spec fn block_wanted(g: Seq<SNode>, ch: Seq<SEnv>, blk: SBlock) -> Seq<SWanted>
    decreases blk,
{
    let e0 = apply_commands(g, ch, empty_env(), blk.body.commands);
    let (g1, local) = definitions(g, ch, e0, blk.body.parameters);
    let inner = ch.push(local);
    let (g2, args) = items_nodes(g1, inner, blk.argument);
    let (g3, a) = added(g2, SNode::Nodes(args));
    commands_wanted(g, ch, empty_env(), blk.body.commands) + definitions_wanted(g, ch, e0, blk.body.parameters)
        + bodies_wanted(g3, inner, blk.body.childs)
}

/// What a child wants: only blocks have commands.
pub open spec fn body_wanted(g: Seq<SNode>, ch: Seq<SEnv>, b: SBody) -> Seq<SWanted>
    decreases b,
{
    match b {
        SBody::Block(blk) => block_wanted(g, ch, blk),
        _ => seq![],
    }
}

/// What the children want, in order.
pub open spec fn bodies_wanted(g: Seq<SNode>, ch: Seq<SEnv>, bs: Seq<SBody>) -> Seq<SWanted>
    decreases bs,
{
    if bs.len() == 0 {
        seq![]
    } else {
        bodies_wanted(g, ch, bs.drop_last()) + body_wanted(bodies_nodes(g, ch, bs.drop_last()).0, ch, bs.last())
    }
}

proof fn lemma_strings_view(s: Seq<String>)
    ensures
        strings_view(s).len() == s.len(),
        forall|k: int| 0 <= k < s.len() ==> #[trigger] strings_view(s)[k] == s[k]@,
    decreases s.len(),
{
    if s.len() > 0 {
        lemma_strings_view(s.drop_last());
        assert forall|k: int| 0 <= k < s.len() implies #[trigger] strings_view(s)[k] == s[k]@ by {
            if k < s.len() - 1 {
                assert(s.drop_last()[k] == s[k]);
            }
        }
    }
}

proof fn lemma_items_view(s: Seq<Item>)
    ensures
        items_view(s).len() == s.len(),
        forall|k: int| 0 <= k < s.len() ==> #[trigger] items_view(s)[k] == item_view(s[k]),
    decreases s.len(),
{
    if s.len() > 0 {
        lemma_items_view(s.drop_last());
        assert forall|k: int| 0 <= k < s.len() implies #[trigger] items_view(s)[k] == item_view(s[k]) by {
            if k < s.len() - 1 {
                assert(s.drop_last()[k] == s[k]);
            }
        }
    }
}

proof fn lemma_item_lists_view(s: Seq<Vec<Item>>)
    ensures
        item_lists_view(s).len() == s.len(),
        forall|k: int| 0 <= k < s.len() ==> #[trigger] item_lists_view(s)[k] == items_view(s[k]@),
    decreases s.len(),
{
    if s.len() > 0 {
        lemma_item_lists_view(s.drop_last());
        assert forall|k: int| 0 <= k < s.len() implies #[trigger] item_lists_view(s)[k] == items_view(s[k]@) by {
            if k < s.len() - 1 {
                assert(s.drop_last()[k] == s[k]);
            }
        }
    }
}

proof fn lemma_commands_view(s: Seq<Command>)
    ensures
        commands_view(s).len() == s.len(),
        forall|k: int| 0 <= k < s.len() ==> #[trigger] commands_view(s)[k] == command_view(s[k]),
    decreases s.len(),
{
    if s.len() > 0 {
        lemma_commands_view(s.drop_last());
        assert forall|k: int| 0 <= k < s.len() implies #[trigger] commands_view(s)[k] == command_view(s[k]) by {
            if k < s.len() - 1 {
                assert(s.drop_last()[k] == s[k]);
            }
        }
    }
}

proof fn lemma_parameters_view(s: Seq<Parameter>)
    ensures
        parameters_view(s).len() == s.len(),
        forall|k: int| 0 <= k < s.len() ==> #[trigger] parameters_view(s)[k] == parameter_view(s[k]),
    decreases s.len(),
{
    if s.len() > 0 {
        lemma_parameters_view(s.drop_last());
        assert forall|k: int| 0 <= k < s.len() implies #[trigger] parameters_view(s)[k] == parameter_view(s[k]) by {
            if k < s.len() - 1 {
                assert(s.drop_last()[k] == s[k]);
            }
        }
    }
}

proof fn lemma_bodies_view(s: Seq<Body>)
    ensures
        bodies_view(s).len() == s.len(),
        forall|k: int| 0 <= k < s.len() ==> #[trigger] bodies_view(s)[k] == body_view(s[k]),
    decreases s.len(),
{
    if s.len() > 0 {
        lemma_bodies_view(s.drop_last());
        assert forall|k: int| 0 <= k < s.len() implies #[trigger] bodies_view(s)[k] == body_view(s[k]) by {
            if k < s.len() - 1 {
                assert(s.drop_last()[k] == s[k]);
            }
        }
    }
}

impl Graph {
    pub fn new() -> (g: Graph)
        ensures
            g@ == Seq::<SNode>::empty(),
    {
        let g = Graph { nodes: Vec::new() };
        assert(g@ =~= Seq::<SNode>::empty());
        g
    }

    /// Adds a node and hands back its index.
    pub fn push(&mut self, n: Node) -> (r: NodeId)
        ensures
            (final(self)@, r) == added(old(self)@, node_view(n)),
    {
        let id = self.nodes.len();
        self.nodes.push(n);
        assert(self@ =~= old(self)@.push(node_view(n)));
        id
    }

    /// The scope of the node `id`, where it has one.
    pub fn scope(&self, id: NodeId) -> (r: Option<&LocalEnv>)
        ensures
            match r {
                Some(e) => scope_of(self@, id) == Some(e@),
                None => scope_of(self@, id) is None,
            },
    {
        if id < self.nodes.len() {
            match &self.nodes[id] {
                Node::Block { env, .. } => Some(env),
                Node::Definition { env, .. } => Some(env),
                Node::Module { env, .. } => Some(env),
                _ => None,
            }
        } else {
            None
        }
    }
}

/// The parts of `s` between slashes.
fn split_path(s: &String) -> (r: Vec<String>)
    ensures
        strings_view(r@) == split_slash(s@),
{
    let cs = chars_of(s.as_str());
    let mut parts: Vec<String> = Vec::new();
    let mut start: usize = 0;
    let mut i: usize = 0;
    assert(cs@.subrange(0, 0) =~= Seq::<char>::empty());
    assert(strings_view(parts@) =~= Seq::<Seq<char>>::empty());
    assert(split_slash(cs@.subrange(0, 0)) =~= strings_view(parts@).push(cs@.subrange(0, 0)));
    while i < cs.len()
        invariant
            cs@ == s@,
            start <= i <= cs@.len(),
            split_slash(cs@.subrange(0, i as int)) == strings_view(parts@).push(cs@.subrange(start as int, i as int)),
        decreases cs@.len() - i,
    {
        let ghost p0 = parts@;
        let ghost st0 = start;
        let ghost i0 = i;
        assert(cs@.subrange(0, i + 1).drop_last() =~= cs@.subrange(0, i as int));
        if cs[i] == '/' {
            let t = text(cs.as_slice(), start, i);
            parts.push(t);
            start = i + 1;
            i = i + 1;
            assert(parts@.drop_last() =~= p0);
            assert(strings_view(parts@) == strings_view(p0).push(t@));
            assert(cs@.subrange(start as int, i as int) =~= Seq::<char>::empty());
            assert(split_slash(cs@.subrange(0, i as int)) =~= strings_view(parts@).push(cs@.subrange(start as int, i as int)));
        } else {
            i = i + 1;
            assert(cs@.subrange(start as int, i as int) =~= cs@.subrange(start as int, i - 1).push(cs@[i - 1]));
            assert(split_slash(cs@.subrange(0, i as int)) =~= strings_view(parts@).push(cs@.subrange(start as int, i as int)));
        }
    }
    let ghost p1 = parts@;
    let t = text(cs.as_slice(), start, cs.len());
    parts.push(t);
    assert(cs@.subrange(0, cs@.len() as int) =~= cs@);
    assert(parts@.drop_last() =~= p1);
    parts
}

proof fn lemma_targets_concat(a: Seq<(String, NodeId)>, b: Seq<(String, NodeId)>)
    ensures
        targets_map(a + b) == targets_map(a).union_prefer_right(targets_map(b)),
    decreases b.len(),
{
    if b.len() == 0 {
        assert(a + b =~= a);
        assert(targets_map(a).union_prefer_right(targets_map(b)) =~= targets_map(a));
    } else {
        lemma_targets_concat(a, b.drop_last());
        assert((a + b).drop_last() =~= a + b.drop_last());
        assert(targets_map(a + b) =~= targets_map(a).union_prefer_right(targets_map(b)));
    }
}

proof fn lemma_split_slash_len(s: Seq<char>)
    ensures
        split_slash(s).len() >= 1,
    decreases s.len(),
{
    if s.len() > 0 {
        lemma_split_slash_len(s.drop_last());
    }
}

impl LocalEnv {
    /// Binds everything that `other` binds, in place of earlier bindings of
    /// the same names.
    pub fn import_all(&mut self, other: &LocalEnv)
        ensures
            final(self)@ == (SEnv {
                targets: old(self)@.targets.union_prefer_right(other@.targets),
                ..old(self)@
            }),
    {
        let ghost t0 = self.targets@;
        let mut i: usize = 0;
        while i < other.targets.len()
            invariant
                i <= other.targets@.len(),
                self.targets@ == t0 + other.targets@.subrange(0, i as int),
                self.symbols == old(self).symbols,
                self.groups == old(self).groups,
                self.hyphenator == old(self).hyphenator,
                t0 == old(self).targets@,
            decreases other.targets@.len() - i,
        {
            let name = other.targets[i].0.clone();
            let id = other.targets[i].1;
            self.targets.push((name, id));
            i = i + 1;
            assert(self.targets@ =~= t0 + other.targets@.subrange(0, i as int));
        }
        assert(other.targets@.subrange(0, i as int) =~= other.targets@);
        proof {
            lemma_targets_concat(t0, other.targets@);
        }
    }
}

/// Follows the parts of a `use` path from `from` on; see `walk`.
fn walk_path(graph: &Graph, cur: NodeId, parts: &Vec<String>, from: usize, local: &mut LocalEnv)
    requires
        from <= parts@.len(),
    ensures
        final(local)@ == walk(graph@, cur, strings_view(parts@).subrange(from as int, parts@.len() as int), old(local)@),
    decreases parts@.len() - from,
{
    let ghost rest = strings_view(parts@).subrange(from as int, parts@.len() as int);
    proof {
        lemma_strings_view(parts@);
    }
    if from == parts.len() {
        return;
    }
    assert(rest[0] == parts@[from as int]@);
    let star = String::from_str("*");
    if from + 1 == parts.len() {
        if parts[from] == star {
            match graph.scope(cur) {
                Some(e) => local.import_all(e),
                None => {},
            }
        } else {
            local.add_target(parts[from].clone(), cur);
        }
    } else {
        assert(rest.drop_first() =~= strings_view(parts@).subrange(from + 1, parts@.len() as int));
        match graph.scope(cur) {
            Some(e) => match e.get_target(parts[from].as_str()) {
                Some(c) => walk_path(graph, c, parts, from + 1, local),
                None => {},
            },
            None => {},
        }
    }
}

/// Does what `!use` with the arguments `args` does to the scope `local`
/// being built in the chain `chain` (see `apply_uses`), and adds to
/// `wanted` the names it found nowhere (see `uses_wanted`).
pub fn use_targets(chain: &GraphChain, local: &mut LocalEnv, graph: &Graph, args: &Vec<String>, wanted: &mut Vec<Wanted>)
    ensures
        final(local)@ == apply_uses(graph@, chain@, old(local)@, strings_view(args@)),
        wanteds_view(final(wanted)@) == wanteds_view(old(wanted)@) + uses_wanted(
            graph@,
            chain@,
            old(local)@,
            strings_view(args@),
        ),
{
    proof {
        lemma_strings_view(args@);
    }
    let mut i: usize = 0;
    assert(strings_view(args@).subrange(0, 0) =~= Seq::<Seq<char>>::empty());
    assert(wanteds_view(wanted@) =~= wanteds_view(old(wanted)@) + Seq::<SWanted>::empty());
    while i < args.len()
        invariant
            i <= args@.len(),
            strings_view(args@).len() == args@.len(),
            forall|k: int| 0 <= k < args@.len() ==> #[trigger] strings_view(args@)[k] == args@[k]@,
            local@ == apply_uses(graph@, chain@, old(local)@, strings_view(args@).subrange(0, i as int)),
            wanteds_view(wanted@) == wanteds_view(old(wanted)@) + uses_wanted(
                graph@,
                chain@,
                old(local)@,
                strings_view(args@).subrange(0, i as int),
            ),
        decreases args@.len() - i,
    {
        let ghost before = local@;
        let ghost w0 = wanted@;
        let parts = split_path(&args[i]);
        proof {
            lemma_split_slash_len(args@[i as int]@);
            lemma_strings_view(parts@);
            assert(strings_view(parts@).drop_first() =~= strings_view(parts@).subrange(1, parts@.len() as int));
        }
        let start = match local.get_target(parts[0].as_str()) {
            Some(n) => Some(n),
            None => chain.get_target(parts[0].as_str()),
        };
        match start {
            Some(n) => {
                if parts.len() == 1 {
                    local.add_target(parts[0].clone(), n);
                } else {
                    walk_path(graph, n, &parts, 1, local);
                }
                assert(wanteds_view(wanted@) =~= wanteds_view(w0) + use_wanted(chain@, before, args@[i as int]@));
            },
            None => {
                wanted.push(Wanted::Use(parts[0].clone()));
                assert(wanteds_view(wanted@) =~= wanteds_view(w0) + use_wanted(chain@, before, args@[i as int]@));
            },
        }
        let ghost pre = strings_view(args@).subrange(0, i as int);
        i = i + 1;
        assert(strings_view(args@).subrange(0, i as int).drop_last() =~= pre);
        assert(wanteds_view(wanted@) =~= wanteds_view(old(wanted)@) + uses_wanted(
            graph@,
            chain@,
            old(local)@,
            strings_view(args@).subrange(0, i as int),
        ));
    }
    assert(strings_view(args@).subrange(0, i as int) =~= strings_view(args@));
}

/// Does what `!load` with the arguments `args` does to the scope `local`
/// (see `apply_loads`), and adds to `wanted` the modules not read yet (see
/// `loads_wanted`).
fn load_targets(chain: &GraphChain, local: &mut LocalEnv, args: &Vec<String>, wanted: &mut Vec<Wanted>)
    ensures
        final(local)@ == apply_loads(chain@, old(local)@, strings_view(args@)),
        wanteds_view(final(wanted)@) == wanteds_view(old(wanted)@) + loads_wanted(chain@, strings_view(args@)),
{
    proof {
        lemma_strings_view(args@);
    }
    let mut i: usize = 0;
    assert(strings_view(args@).subrange(0, 0) =~= Seq::<Seq<char>>::empty());
    assert(wanteds_view(wanted@) =~= wanteds_view(old(wanted)@) + Seq::<SWanted>::empty());
    while i < args.len()
        invariant
            i <= args@.len(),
            strings_view(args@).len() == args@.len(),
            forall|k: int| 0 <= k < args@.len() ==> #[trigger] strings_view(args@)[k] == args@[k]@,
            local@ == apply_loads(chain@, old(local)@, strings_view(args@).subrange(0, i as int)),
            wanteds_view(wanted@) == wanteds_view(old(wanted)@) + loads_wanted(
                chain@,
                strings_view(args@).subrange(0, i as int),
            ),
        decreases args@.len() - i,
    {
        let ghost w0 = wanted@;
        let ghost pre = strings_view(args@).subrange(0, i as int);
        match chain.get_outer(args[i].as_str()) {
            Some(n) => {
                local.add_target(args[i].clone(), n);
                assert(wanteds_view(wanted@) =~= wanteds_view(w0) + Seq::<SWanted>::empty());
            },
            None => {
                wanted.push(Wanted::Load(args[i].clone()));
                assert(wanteds_view(wanted@) =~= wanteds_view(w0) + seq![SWanted::Load(args@[i as int]@)]);
            },
        }
        i = i + 1;
        assert(strings_view(args@).subrange(0, i as int).drop_last() =~= pre);
        assert(wanteds_view(wanted@) =~= wanteds_view(old(wanted)@) + loads_wanted(
            chain@,
            strings_view(args@).subrange(0, i as int),
        ));
    }
    assert(strings_view(args@).subrange(0, i as int) =~= strings_view(args@));
}

/// Does what the command `c` does to the scope `local` being built in the
/// chain `chain` (see `apply_command`), and adds to `wanted` the modules
/// it wants from files (see `command_wanted`).
pub fn run_command(chain: &GraphChain, local: &mut LocalEnv, graph: &Graph, c: &Command, wanted: &mut Vec<Wanted>)
    ensures
        final(local)@ == apply_command(graph@, chain@, old(local)@, command_view(*c)),
        wanteds_view(final(wanted)@) == wanteds_view(old(wanted)@) + command_wanted(
            graph@,
            chain@,
            old(local)@,
            command_view(*c),
        ),
{
    proof {
        lemma_strings_view(c.args@);
        lemma_command_names();
    }
    assert(wanteds_view(wanted@) =~= wanteds_view(old(wanted)@) + Seq::<SWanted>::empty());
    if c.name == String::from_str("use") {
        use_targets(chain, local, graph, &c.args, wanted);
    } else if c.name == String::from_str("symbol") {
        if c.args.len() >= 2 {
            local.add_symbol(c.args[0].clone(), c.args[1].clone());
        }
    } else if c.name == String::from_str("group") {
        if c.args.len() >= 3 {
            let found = match local.get_target(c.args[1].as_str()) {
                Some(n) => Some(n),
                None => chain.get_target(c.args[1].as_str()),
            };
            match found {
                Some(n) => local.add_group(c.args[0].clone(), c.args[2].clone(), n),
                None => {},
            }
        }
    } else if c.name == String::from_str("load") {
        load_targets(chain, local, &c.args, wanted);
    } else if c.name == String::from_str("hyphens") {
        if c.args.len() == 1 {
            local.set_hyphenator(c.args[0].clone());
            wanted.push(Wanted::Hyphens(c.args[0].clone()));
            assert(wanteds_view(wanted@) =~= wanteds_view(old(wanted)@) + seq![SWanted::Hyphens(c.args@[0]@)]);
        }
    }
}

proof fn lemma_command_names()
    ensures
        "use"@.len() == 3,
        "load"@.len() == 4,
        "group"@.len() == 5,
        "symbol"@.len() == 6,
        "hyphens"@.len() == 7,
{
    reveal_strlit("use");
    reveal_strlit("load");
    reveal_strlit("group");
    reveal_strlit("symbol");
    reveal_strlit("hyphens");
}

/// The commands, in order: see `apply_commands` and `commands_wanted`.
fn run_commands(chain: &GraphChain, local: &mut LocalEnv, graph: &Graph, cs: &Vec<Command>, wanted: &mut Vec<Wanted>)
    ensures
        final(local)@ == apply_commands(graph@, chain@, old(local)@, commands_view(cs@)),
        wanteds_view(final(wanted)@) == wanteds_view(old(wanted)@) + commands_wanted(
            graph@,
            chain@,
            old(local)@,
            commands_view(cs@),
        ),
{
    proof {
        lemma_commands_view(cs@);
    }
    let mut i: usize = 0;
    assert(commands_view(cs@).subrange(0, 0) =~= Seq::<SCommand>::empty());
    assert(wanteds_view(wanted@) =~= wanteds_view(old(wanted)@) + Seq::<SWanted>::empty());
    while i < cs.len()
        invariant
            i <= cs@.len(),
            commands_view(cs@).len() == cs@.len(),
            forall|k: int| 0 <= k < cs@.len() ==> #[trigger] commands_view(cs@)[k] == command_view(cs@[k]),
            local@ == apply_commands(graph@, chain@, old(local)@, commands_view(cs@).subrange(0, i as int)),
            wanteds_view(wanted@) == wanteds_view(old(wanted)@) + commands_wanted(
                graph@,
                chain@,
                old(local)@,
                commands_view(cs@).subrange(0, i as int),
            ),
        decreases cs@.len() - i,
    {
        let ghost pre = commands_view(cs@).subrange(0, i as int);
        run_command(chain, local, graph, &cs[i], wanted);
        i = i + 1;
        assert(commands_view(cs@).subrange(0, i as int).drop_last() =~= pre);
        assert(wanteds_view(wanted@) =~= wanteds_view(old(wanted)@) + commands_wanted(
            graph@,
            chain@,
            old(local)@,
            commands_view(cs@).subrange(0, i as int),
        ));
    }
    assert(commands_view(cs@).subrange(0, i as int) =~= commands_view(cs@));
}

fn copy_placeholder(p: &Placeholder) -> (r: Placeholder)
    ensures
        r@ == p@,
{
    match p {
        Placeholder::Body => Placeholder::Body,
        Placeholder::Argument(n) => Placeholder::Argument(*n),
        Placeholder::Arguments => Placeholder::Arguments,
        Placeholder::Unknown(s) => Placeholder::Unknown(s.clone()),
    }
}

/// Adds the node of an item: see `item_node`.
pub fn item_node_in(chain: &GraphChain, graph: &mut Graph, it: &Item) -> (r: NodeId)
    ensures
        (final(graph)@, r) == item_node(old(graph)@, chain@, item_view(*it)),
    decreases it,
{
    match it {
        Item::Word(s) => graph.push(Node::Word(s.clone())),
        Item::Symbol(s) => {
            let t = match chain.get_symbol(s.as_str()) {
                Some(t) => t,
                None => s.clone(),
            };
            graph.push(Node::Symbol(t))
        },
        Item::Punctuation(s) => graph.push(Node::Punctuation(s.clone())),
        Item::Placeholder(p) => graph.push(Node::Placeholder(copy_placeholder(p))),
        Item::Token(s) => graph.push(Node::Token(Token::new(s.clone()))),
        Item::Group(gr) => {
            let ids = items_nodes_in(chain, graph, &gr.content);
            let c = graph.push(Node::Nodes(ids));
            let target = chain.get_group(gr.opening.as_str(), gr.closing.as_str());
            graph.push(
                Node::Group {
                    opening: gr.opening.clone(),
                    closing: gr.closing.clone(),
                    content: c,
                    target,
                },
            )
        },
    }
}

/// Adds the nodes of items, in order: see `items_nodes`.
pub fn items_nodes_in(chain: &GraphChain, graph: &mut Graph, its: &Vec<Item>) -> (r: Vec<NodeId>)
    ensures
        (final(graph)@, r@) == items_nodes(old(graph)@, chain@, items_view(its@)),
    decreases its,
{
    proof {
        lemma_items_view(its@);
    }
    let mut ids: Vec<NodeId> = Vec::new();
    let mut i: usize = 0;
    assert(items_view(its@).subrange(0, 0) =~= Seq::<SItem>::empty());
    while i < its.len()
        invariant
            i <= its@.len(),
            items_view(its@).len() == its@.len(),
            forall|k: int| 0 <= k < its@.len() ==> #[trigger] items_view(its@)[k] == item_view(its@[k]),
            (graph@, ids@) == items_nodes(old(graph)@, chain@, items_view(its@).subrange(0, i as int)),
        decreases its@.len() - i,
    {
        assert(decreases_to!(its => its@[i as int]));
        let id = item_node_in(chain, graph, &its[i]);
        ids.push(id);
        i = i + 1;
        assert(items_view(its@).subrange(0, i as int).drop_last() =~= items_view(its@).subrange(0, i - 1));
    }
    assert(items_view(its@).subrange(0, i as int) =~= items_view(its@));
    ids
}

/// Adds the `Leaf` nodes of list entries, in order: see `leaves_nodes`.
fn leaves_nodes_in(chain: &GraphChain, graph: &mut Graph, ls: &Vec<Vec<Item>>) -> (r: Vec<NodeId>)
    ensures
        (final(graph)@, r@) == leaves_nodes(old(graph)@, chain@, item_lists_view(ls@)),
{
    proof {
        lemma_item_lists_view(ls@);
    }
    let mut ids: Vec<NodeId> = Vec::new();
    let mut i: usize = 0;
    assert(item_lists_view(ls@).subrange(0, 0) =~= Seq::<Seq<SItem>>::empty());
    while i < ls.len()
        invariant
            i <= ls@.len(),
            item_lists_view(ls@).len() == ls@.len(),
            forall|k: int| 0 <= k < ls@.len() ==> #[trigger] item_lists_view(ls@)[k] == items_view(ls@[k]@),
            (graph@, ids@) == leaves_nodes(old(graph)@, chain@, item_lists_view(ls@).subrange(0, i as int)),
        decreases ls@.len() - i,
    {
        let items = items_nodes_in(chain, graph, &ls[i]);
        let id = graph.push(Node::Leaf(items));
        ids.push(id);
        i = i + 1;
        assert(item_lists_view(ls@).subrange(0, i as int).drop_last() =~= item_lists_view(ls@).subrange(0, i - 1));
    }
    assert(item_lists_view(ls@).subrange(0, i as int) =~= item_lists_view(ls@));
    ids
}

/// Makes the scope of a block body in the chain `chain`, adding the nodes
/// of its parameter definitions to the graph: see `env_of`. The chain is
/// left as it was.
pub fn init_env(
    chain: &mut GraphChain,
    graph: &mut Graph,
    commands: &Vec<Command>,
    parameters: &Vec<Parameter>,
    wanted: &mut Vec<Wanted>,
) -> (r: LocalEnv)
    ensures
        (final(graph)@, r@) == env_of(old(graph)@, old(chain)@, commands_view(commands@), parameters_view(parameters@)),
        final(chain)@ == old(chain)@,
        wanteds_view(final(wanted)@) == wanteds_view(old(wanted)@) + env_wanted(
            old(graph)@,
            old(chain)@,
            commands_view(commands@),
            parameters_view(parameters@),
        ),
    decreases parameters,
{
    let ghost g0 = graph@;
    let ghost ch0 = chain@;
    let mut local = LocalEnv::new();
    run_commands(chain, &mut local, graph, commands, wanted);
    let ghost e0 = local@;
    let ghost w1 = wanted@;
    assert(wanteds_view(w1) =~= wanteds_view(w1) + Seq::<SWanted>::empty());
    proof {
        lemma_parameters_view(parameters@);
    }
    let mut i: usize = 0;
    assert(parameters_view(parameters@).subrange(0, 0) =~= Seq::<SParameter>::empty());
    while i < parameters.len()
        invariant
            i <= parameters@.len(),
            parameters_view(parameters@).len() == parameters@.len(),
            forall|k: int| 0 <= k < parameters@.len() ==> #[trigger] parameters_view(parameters@)[k] == parameter_view(parameters@[k]),
            chain@ == ch0,
            e0 == apply_commands(g0, ch0, empty_env(), commands_view(commands@)),
            (graph@, local@) == definitions(g0, ch0, e0, parameters_view(parameters@).subrange(0, i as int)),
            wanteds_view(w1) == wanteds_view(old(wanted)@) + commands_wanted(g0, ch0, empty_env(), commands_view(commands@)),
            wanteds_view(wanted@) == wanteds_view(w1) + definitions_wanted(
                g0,
                ch0,
                e0,
                parameters_view(parameters@).subrange(0, i as int),
            ),
        decreases parameters@.len() - i,
    {
        assert(decreases_to!(parameters => parameters@[i as int]));
        let ghost pre = parameters_view(parameters@).subrange(0, i as int);
        let ghost w2 = wanted@;
        let d = definition_node_in(chain, graph, &parameters[i], wanted);
        local.add_target(parameters[i].name.clone(), d);
        i = i + 1;
        assert(parameters_view(parameters@).subrange(0, i as int).drop_last() =~= pre);
        assert(wanteds_view(wanted@) =~= wanteds_view(w1) + definitions_wanted(
            g0,
            ch0,
            e0,
            parameters_view(parameters@).subrange(0, i as int),
        ));
    }
    assert(parameters_view(parameters@).subrange(0, i as int) =~= parameters_view(parameters@));
    assert(wanteds_view(wanted@) =~= wanteds_view(old(wanted)@) + env_wanted(
        g0,
        ch0,
        commands_view(commands@),
        parameters_view(parameters@),
    ));
    local
}

/// Adds the node of a parameter definition: see `definition_node`.
pub fn definition_node_in(chain: &mut GraphChain, graph: &mut Graph, p: &Parameter, wanted: &mut Vec<Wanted>) -> (r: NodeId)
    ensures
        (final(graph)@, r) == definition_node(old(graph)@, old(chain)@, parameter_view(*p)),
        final(chain)@ == old(chain)@,
        wanteds_view(final(wanted)@) == wanteds_view(old(wanted)@) + definition_wanted(
            old(graph)@,
            old(chain)@,
            parameter_view(*p),
        ),
    decreases p,
{
    let local = init_env(chain, graph, &p.value.commands, &p.value.parameters, wanted);
    chain.link(local);
    let args = items_nodes_in(chain, graph, &p.args);
    let a = graph.push(Node::Nodes(args));
    let kids = process_body(chain, graph, &p.value.childs, wanted);
    let b = graph.push(Node::Nodes(kids));
    let local = chain.take();
    graph.push(Node::Definition { name: p.name.clone(), env: local, args: a, body: b })
}

/// Adds the node of a block: see `block_node`.
pub fn block_node_in(chain: &mut GraphChain, graph: &mut Graph, blk: &Block, wanted: &mut Vec<Wanted>) -> (r: NodeId)
    ensures
        (final(graph)@, r) == block_node(old(graph)@, old(chain)@, block_view(*blk)),
        final(chain)@ == old(chain)@,
        wanteds_view(final(wanted)@) == wanteds_view(old(wanted)@) + block_wanted(
            old(graph)@,
            old(chain)@,
            block_view(*blk),
        ),
    decreases blk,
{
    let local = init_env(chain, graph, &blk.body.commands, &blk.body.parameters, wanted);
    chain.link(local);
    let args = items_nodes_in(chain, graph, &blk.argument);
    let a = graph.push(Node::Nodes(args));
    let kids = process_body(chain, graph, &blk.body.childs, wanted);
    let b = graph.push(Node::Nodes(kids));
    let target = chain.get_target(blk.name.as_str());
    let local = chain.take();
    graph.push(Node::Block { name: blk.name.clone(), target, env: local, args: a, body: b })
}

/// Adds the node of a child of a block body: see `body_node`.
pub fn body_node_in(chain: &mut GraphChain, graph: &mut Graph, b: &Body, wanted: &mut Vec<Wanted>) -> (r: NodeId)
    ensures
        (final(graph)@, r) == body_node(old(graph)@, old(chain)@, body_view(*b)),
        final(chain)@ == old(chain)@,
        wanteds_view(final(wanted)@) == wanteds_view(old(wanted)@) + body_wanted(
            old(graph)@,
            old(chain)@,
            body_view(*b),
        ),
    decreases b,
{
    assert(wanteds_view(wanted@) =~= wanteds_view(old(wanted)@) + Seq::<SWanted>::empty());
    match b {
        Body::Leaf(items) => {
            let ids = items_nodes_in(chain, graph, items);
            graph.push(Node::Leaf(ids))
        },
        Body::List(ls) => {
            let ids = leaves_nodes_in(chain, graph, ls);
            graph.push(Node::List(ids))
        },
        Body::Block(k) => block_node_in(chain, graph, k, wanted),
        Body::Placeholder(p) => graph.push(Node::Placeholder(copy_placeholder(p))),
    }
}

/// Adds the nodes of the children of a block body, each the node of its
/// kind, in order: see `bodies_nodes`. The chain is left as it was.
pub fn process_body(chain: &mut GraphChain, graph: &mut Graph, childs: &Vec<Body>, wanted: &mut Vec<Wanted>) -> (r: Vec<NodeId>)
    ensures
        (final(graph)@, r@) == bodies_nodes(old(graph)@, old(chain)@, bodies_view(childs@)),
        final(chain)@ == old(chain)@,
        wanteds_view(final(wanted)@) == wanteds_view(old(wanted)@) + bodies_wanted(
            old(graph)@,
            old(chain)@,
            bodies_view(childs@),
        ),
    decreases childs,
{
    assert(wanteds_view(wanted@) =~= wanteds_view(old(wanted)@) + Seq::<SWanted>::empty());
    proof {
        lemma_bodies_view(childs@);
    }
    let mut ids: Vec<NodeId> = Vec::new();
    let mut i: usize = 0;
    assert(bodies_view(childs@).subrange(0, 0) =~= Seq::<SBody>::empty());
    while i < childs.len()
        invariant
            i <= childs@.len(),
            bodies_view(childs@).len() == childs@.len(),
            forall|k: int| 0 <= k < childs@.len() ==> #[trigger] bodies_view(childs@)[k] == body_view(childs@[k]),
            chain@ == old(chain)@,
            (graph@, ids@) == bodies_nodes(old(graph)@, old(chain)@, bodies_view(childs@).subrange(0, i as int)),
            wanteds_view(wanted@) == wanteds_view(old(wanted)@) + bodies_wanted(
                old(graph)@,
                old(chain)@,
                bodies_view(childs@).subrange(0, i as int),
            ),
        decreases childs@.len() - i,
    {
        assert(decreases_to!(childs => childs@[i as int]));
        let ghost pre = bodies_view(childs@).subrange(0, i as int);
        let id = body_node_in(chain, graph, &childs[i], wanted);
        ids.push(id);
        i = i + 1;
        assert(bodies_view(childs@).subrange(0, i as int).drop_last() =~= pre);
        assert(wanteds_view(wanted@) =~= wanteds_view(old(wanted)@) + bodies_wanted(
            old(graph)@,
            old(chain)@,
            bodies_view(childs@).subrange(0, i as int),
        ));
    }
    assert(bodies_view(childs@).subrange(0, i as int) =~= bodies_view(childs@));
    ids
}

/// The node of a whole source in the chain `ch`: its scope, then its
/// children in the chain with that scope added.
pub open spec fn module_node(g: Seq<SNode>, ch: Seq<SEnv>, b: SBlockBody) -> (Seq<SNode>, NodeId) {
    let (g1, local) = env_of(g, ch, b.commands, b.parameters);
    let (g2, kids) = bodies_nodes(g1, ch.push(local), b.childs);
    let (g3, k) = added(g2, SNode::Nodes(kids));
    added(g3, SNode::Module { env: local, body: k })
}

/// What the node of a whole source wants: its scope's, then its
/// children's.
pub open spec fn module_wanted(g: Seq<SNode>, ch: Seq<SEnv>, b: SBlockBody) -> Seq<SWanted> {
    let (g1, local) = env_of(g, ch, b.commands, b.parameters);
    env_wanted(g, ch, b.commands, b.parameters) + bodies_wanted(g1, ch.push(local), b.childs)
}

/// Parses a whole source and adds its node: see `module_node`. Every
/// source parses; what is left unread is handed back. The modules it wants
/// from files are added to `wanted` (see `module_wanted`); where there are
/// any, the caller reads them, binds each in the outermost scope under its
/// name, and builds the source again.
pub fn module_from_source<'a>(chain: &mut GraphChain, graph: &mut Graph, input: &'a str, wanted: &mut Vec<Wanted>) -> (r: (NodeId, &'a str))
    ensures
        grammar::block_body(input@, 0, 0) matches Some((q, b)) && (final(graph)@, r.0) == module_node(
            old(graph)@,
            old(chain)@,
            b,
        ) && r.1@ == input@.subrange(q, input@.len() as int) && wanteds_view(final(wanted)@) == wanteds_view(
            old(wanted)@,
        ) + module_wanted(old(graph)@, old(chain)@, b),
        final(chain)@ == old(chain)@,
{
    match parse(input) {
        Ok((body, rest)) => {
            let local = init_env(chain, graph, &body.commands, &body.parameters, wanted);
            chain.link(local);
            let kids = process_body(chain, graph, &body.childs, wanted);
            let k = graph.push(Node::Nodes(kids));
            let local = chain.take();
            let m = graph.push(Node::Module { env: local, body: k });
            (m, rest)
        },
        Err(_) => {
            proof {
                assert(false);
            }
            (0, input)
        },
    }
}

/// What the placeholders of a block refer to: the `Nodes` nodes of its
/// argument and of its body.
#[derive(Clone, Copy, Debug, PartialEq, Eq)]
pub struct Fields {
    pub args: Option<NodeId>,
    pub body: Option<NodeId>,
}

/// The node a placeholder stands for: `$body` the body, `$args` the
/// argument, `$n` the `n`-th node of the argument; else the text it is set
/// as: `$body`, `$args`, `$n` or `$name`.
pub open spec fn placeholder_target(g: Seq<SNode>, f: Fields, p: SPlaceholder) -> Option<NodeId> {
    match p {
        SPlaceholder::Body => f.body,
        SPlaceholder::Arguments => f.args,
        SPlaceholder::Argument(i) => match f.args {
            Some(a) => if a < g.len() {
                match g[a as int] {
                    SNode::Nodes(v) => if i < v.len() {
                        Some(v[i as int])
                    } else {
                        None
                    },
                    _ => None,
                }
            } else {
                None
            },
            None => None,
        },
        SPlaceholder::Unknown(_) => None,
    }
}

/// The decimal digit `d`.
pub open spec fn digit_char(d: nat) -> char {
    if d == 0 { '0' } else if d == 1 { '1' } else if d == 2 { '2' } else if d == 3 { '3' }
    else if d == 4 { '4' } else if d == 5 { '5' } else if d == 6 { '6' } else if d == 7 { '7' }
    else if d == 8 { '8' } else { '9' }
}

/// `n` written in decimal.
pub open spec fn decimal_text(n: nat) -> Seq<char>
    decreases n,
{
    if n < 10 {
        seq![digit_char(n)]
    } else {
        decimal_text(n / 10).push(digit_char(n % 10))
    }
}

/// The text a placeholder stands for where it refers to no node.
pub open spec fn placeholder_text(p: SPlaceholder) -> Seq<char> {
    match p {
        SPlaceholder::Body => "$body"@,
        SPlaceholder::Arguments => "$args"@,
        SPlaceholder::Argument(n) => seq!['$'] + decimal_text(n as nat),
        SPlaceholder::Unknown(s) => seq!['$'] + s,
    }
}

fn digit(d: usize) -> (c: char)
    requires
        d < 10,
    ensures
        c == digit_char(d as nat),
{
    if d == 0 { '0' } else if d == 1 { '1' } else if d == 2 { '2' } else if d == 3 { '3' }
    else if d == 4 { '4' } else if d == 5 { '5' } else if d == 6 { '6' } else if d == 7 { '7' }
    else if d == 8 { '8' } else { '9' }
}

/// Appends `n` in decimal to `out`.
fn push_decimal(out: &mut Vec<char>, n: usize)
    ensures
        final(out)@ == old(out)@ + decimal_text(n as nat),
    decreases n,
{
    if n < 10 {
        out.push(digit(n));
        assert(old(out)@ + decimal_text(n as nat) =~= old(out)@.push(digit_char(n as nat)));
    } else {
        push_decimal(out, n / 10);
        out.push(digit(n % 10));
        assert(old(out)@ + decimal_text(n as nat) =~= (old(out)@ + decimal_text((n / 10) as nat)).push(
            digit_char((n % 10) as nat),
        ));
    }
}

/// The node the placeholder `p` stands for among the fields `f`, else the
/// text it is set as.
pub fn placeholder_node(graph: &Graph, fields: &Fields, p: &Placeholder) -> (r: Result<NodeId, String>)
    ensures
        match placeholder_target(graph@, *fields, p@) {
            Some(n) => r == Ok::<NodeId, String>(n),
            None => r matches Err(t) && t@ == placeholder_text(p@),
        },
{
    let found = match p {
        Placeholder::Body => fields.body,
        Placeholder::Arguments => fields.args,
        Placeholder::Argument(i) => match fields.args {
            Some(a) => if a < graph.nodes.len() {
                match &graph.nodes[a] {
                    Node::Nodes(v) => if *i < v.len() {
                        Some(v[*i])
                    } else {
                        None
                    },
                    _ => None,
                }
            } else {
                None
            },
            None => None,
        },
        Placeholder::Unknown(_) => None,
    };
    match found {
        Some(n) => Ok(n),
        None => match p {
            Placeholder::Body => Err(String::from_str("$body")),
            Placeholder::Arguments => Err(String::from_str("$args")),
            Placeholder::Argument(n) => {
                let mut cs: Vec<char> = Vec::new();
                cs.push('$');
                push_decimal(&mut cs, *n);
                let t = text(cs.as_slice(), 0, cs.len());
                assert(cs@.subrange(0, cs@.len() as int) =~= cs@);
                assert(seq!['$'] + decimal_text(*n as nat) =~= cs@);
                Err(t)
            },
            Placeholder::Unknown(s) => {
                let mut t = String::from_str("$");
                proof {
                    reveal_strlit("$");
                }
                t.append(s.as_str());
                Err(t)
            },
        },
    }
}

/// One step of setting a node: an atom with the glue asked for on its left
/// and right, glue to promote (`wide` for a space four times as wide), a
/// node to set here (with the fields its placeholders then refer to, or
/// `None` for those of the node being set), or the marks around a named
/// section: its name, where its body starts, and its end.
pub enum Step {
    Word { text: String, left: GlueKind, right: GlueKind },
    Punctuation { text: String, left: GlueKind, right: GlueKind },
    Promote { glue: GlueKind, wide: bool },
    Visit { node: NodeId, fields: Option<Fields> },
    Begin(String),
    Body,
    End,
}

pub enum SStep {
    Word { text: Seq<char>, left: GlueKind, right: GlueKind },
    Punctuation { text: Seq<char>, left: GlueKind, right: GlueKind },
    Promote { glue: GlueKind, wide: bool },
    Visit { node: NodeId, fields: Option<Fields> },
    Begin(Seq<char>),
    Body,
    End,
}

pub open spec fn step_view(s: Step) -> SStep {
    match s {
        Step::Word { text, left, right } => SStep::Word { text: text@, left, right },
        Step::Punctuation { text, left, right } => SStep::Punctuation { text: text@, left, right },
        Step::Promote { glue, wide } => SStep::Promote { glue, wide },
        Step::Visit { node, fields } => SStep::Visit { node, fields },
        Step::Begin(n) => SStep::Begin(n@),
        Step::Body => SStep::Body,
        Step::End => SStep::End,
    }
}

pub open spec fn steps_view(s: Seq<Step>) -> Seq<SStep> {
    s.map_values(|x: Step| step_view(x))
}

/// A space where the line may break.
pub open spec fn space() -> GlueKind {
    GlueKind::Space { breaking: true }
}

/// A line break that fills the rest of the line.
pub open spec fn hfill() -> GlueKind {
    GlueKind::Newline { fill: true }
}

/// Each node set in turn.
pub open spec fn visits(ids: Seq<NodeId>) -> Seq<SStep> {
    Seq::new(ids.len(), |i: int| SStep::Visit { node: ids[i], fields: None })
}

/// Each entry of a list: a bullet, the entry, and a filled line end.
pub open spec fn list_steps(ids: Seq<NodeId>) -> Seq<SStep>
    decreases ids.len(),
{
    if ids.len() == 0 {
        seq![]
    } else {
        list_steps(ids.drop_last()) + seq![
            SStep::Word { text: "· "@, left: space(), right: GlueKind::Space { breaking: false } },
            SStep::Visit { node: ids.last(), fields: None },
            SStep::Promote { glue: hfill(), wide: false },
        ]
    }
}

/// How the node `id` is set, with the fields `f` of the block it stands in.
pub open spec fn layout_steps(g: Seq<SNode>, f: Option<Fields>, id: NodeId) -> Seq<SStep> {
    if id >= g.len() {
        seq![]
    } else {
        match g[id as int] {
            SNode::Word(s) => seq![SStep::Word { text: s, left: space(), right: space() }],
            SNode::Punctuation(s) => seq![
                SStep::Punctuation { text: s, left: GlueKind::Nothing, right: space() },
            ],
            SNode::Symbol(s) => seq![
                SStep::Word { text: s, left: GlueKind::Nothing, right: GlueKind::Nothing },
            ],
            SNode::Token(t) => match t {
                SToken::HFill => seq![SStep::Promote { glue: hfill(), wide: false }],
                SToken::QuadSpace => seq![SStep::Promote { glue: space(), wide: true }],
                SToken::Other(s) => seq![
                    SStep::Word { text: s, left: GlueKind::Nothing, right: space() },
                ],
            },
            SNode::Placeholder(p) => match f {
                Some(fl) => match placeholder_target(g, fl, p) {
                    Some(n) => seq![SStep::Visit { node: n, fields: None }],
                    None => seq![
                        SStep::Word { text: placeholder_text(p), left: space(), right: space() },
                    ],
                },
                None => seq![],
            },
            SNode::Group { opening, closing, content, target } => match target {
                Some(t) => seq![
                    SStep::Visit { node: t, fields: Some(Fields { args: None, body: Some(content) }) },
                ],
                None => seq![
                    SStep::Word { text: opening, left: space(), right: GlueKind::Nothing },
                    SStep::Visit { node: content, fields: None },
                    SStep::Word { text: closing, left: GlueKind::Nothing, right: space() },
                ],
            },
            SNode::Leaf(ids) => if ids.len() > 0 {
                visits(ids).push(SStep::Promote { glue: hfill(), wide: false })
            } else {
                seq![]
            },
            SNode::List(ids) => list_steps(ids),
            SNode::Nodes(ids) => visits(ids),
            SNode::Block { name, target, args, body, .. } => match target {
                Some(t) => seq![
                    SStep::Visit { node: t, fields: Some(Fields { args: Some(args), body: Some(body) }) },
                ],
                None => seq![
                    SStep::Word { text: "unresolved"@, left: space(), right: space() },
                    SStep::Word { text: "macro"@, left: space(), right: space() },
                    SStep::Word { text: name, left: space(), right: space() },
                ],
            },
            SNode::Definition { name, args, body, .. } => seq![
                SStep::Begin(name),
                SStep::Visit { node: args, fields: None },
                SStep::Body,
                SStep::Visit { node: body, fields: None },
                SStep::End,
            ],
            SNode::Module { body, .. } => seq![SStep::Visit { node: body, fields: None }],
        }
    }
}

fn push_visits(out: &mut Vec<Step>, ids: &Vec<NodeId>)
    ensures
        steps_view(final(out)@) == steps_view(old(out)@) + visits(ids@),
{
    let mut i: usize = 0;
    while i < ids.len()
        invariant
            i <= ids@.len(),
            steps_view(out@) == steps_view(old(out)@) + visits(ids@.subrange(0, i as int)),
        decreases ids@.len() - i,
    {
        let ghost prev = out@;
        out.push(Step::Visit { node: ids[i], fields: None });
        assert(steps_view(out@) =~= steps_view(prev).push(SStep::Visit { node: ids@[i as int], fields: None }));
        assert(visits(ids@.subrange(0, i + 1)) =~= visits(ids@.subrange(0, i as int)).push(
            SStep::Visit { node: ids@[i as int], fields: None },
        ));
        i = i + 1;
        assert(steps_view(out@) =~= steps_view(old(out)@) + visits(ids@.subrange(0, i as int)));
    }
    assert(ids@.subrange(0, i as int) =~= ids@);
}

/// How the node `id` is set, with the fields `fields` of the block it
/// stands in: see `layout_steps`. A placeholder is set only within a
/// block.
pub fn layout_step(graph: &Graph, fields: Option<Fields>, id: NodeId) -> (r: Vec<Step>)
    requires
        id < graph@.len() && graph@[id as int] is Placeholder ==> fields is Some,
    ensures
        steps_view(r@) == layout_steps(graph@, fields, id),
{
    let mut out: Vec<Step> = Vec::new();
    if id >= graph.nodes.len() {
        assert(steps_view(out@) =~= seq![]);
        return out;
    }
    let sp = GlueKind::Space { breaking: true };
    let fill = GlueKind::Newline { fill: true };
    match &graph.nodes[id] {
        Node::Word(s) => out.push(Step::Word { text: s.clone(), left: sp, right: sp }),
        Node::Punctuation(s) => out.push(Step::Punctuation { text: s.clone(), left: GlueKind::Nothing, right: sp }),
        Node::Symbol(s) => out.push(Step::Word { text: s.clone(), left: GlueKind::Nothing, right: GlueKind::Nothing }),
        Node::Token(t) => match t {
            Token::HFill => out.push(Step::Promote { glue: fill, wide: false }),
            Token::QuadSpace => out.push(Step::Promote { glue: sp, wide: true }),
            Token::Other(s) => out.push(Step::Word { text: s.clone(), left: GlueKind::Nothing, right: sp }),
        },
        Node::Placeholder(p) => {
            match fields {
                Some(fl) => match placeholder_node(graph, &fl, p) {
                    Ok(n) => out.push(Step::Visit { node: n, fields: None }),
                    Err(t) => out.push(Step::Word { text: t, left: sp, right: sp }),
                },
                None => {},
            }
        },
        Node::Group { opening, closing, content, target } => match target {
            Some(t) => out.push(Step::Visit { node: *t, fields: Some(Fields { args: None, body: Some(*content) }) }),
            None => {
                out.push(Step::Word { text: opening.clone(), left: sp, right: GlueKind::Nothing });
                out.push(Step::Visit { node: *content, fields: None });
                out.push(Step::Word { text: closing.clone(), left: GlueKind::Nothing, right: sp });
            },
        },
        Node::Leaf(ids) => {
            if ids.len() > 0 {
                push_visits(&mut out, ids);
                out.push(Step::Promote { glue: fill, wide: false });
            }
        },
        Node::List(ids) => {
            let mut i: usize = 0;
            while i < ids.len()
                invariant
                    i <= ids@.len(),
                    sp == space(),
                    fill == hfill(),
                    steps_view(out@) == list_steps(ids@.subrange(0, i as int)),
                decreases ids@.len() - i,
            {
                let ghost prev = out@;
                let bullet = String::from_str("· ");
                let ghost w = SStep::Word { text: "· "@, left: space(), right: GlueKind::Space { breaking: false } };
                let ghost v = SStep::Visit { node: ids@[i as int], fields: None };
                let ghost pr = SStep::Promote { glue: hfill(), wide: false };
                out.push(Step::Word { text: bullet, left: sp, right: GlueKind::Space { breaking: false } });
                assert(steps_view(out@) =~= steps_view(prev).push(w));
                out.push(Step::Visit { node: ids[i], fields: None });
                assert(steps_view(out@) =~= steps_view(prev).push(w).push(v));
                out.push(Step::Promote { glue: fill, wide: false });
                assert(steps_view(out@) =~= steps_view(prev).push(w).push(v).push(pr));
                assert(steps_view(prev).push(w).push(v).push(pr) =~= steps_view(prev) + seq![w, v, pr]);
                i = i + 1;
                assert(ids@.subrange(0, i as int).drop_last() =~= ids@.subrange(0, i - 1));
                assert(steps_view(out@) =~= list_steps(ids@.subrange(0, i as int)));
            }
            assert(ids@.subrange(0, i as int) =~= ids@);
        },
        Node::Nodes(ids) => push_visits(&mut out, ids),
        Node::Block { name, target, args, body, .. } => match target {
            Some(t) => out.push(Step::Visit { node: *t, fields: Some(Fields { args: Some(*args), body: Some(*body) }) }),
            None => {
                out.push(Step::Word { text: String::from_str("unresolved"), left: sp, right: sp });
                out.push(Step::Word { text: String::from_str("macro"), left: sp, right: sp });
                out.push(Step::Word { text: name.clone(), left: sp, right: sp });
            },
        },
        Node::Definition { name, args, body, .. } => {
            out.push(Step::Begin(name.clone()));
            out.push(Step::Visit { node: *args, fields: None });
            out.push(Step::Body);
            out.push(Step::Visit { node: *body, fields: None });
            out.push(Step::End);
        },
        Node::Module { body, .. } => out.push(Step::Visit { node: *body, fields: None }),
    }
    assert(steps_view(out@) =~= layout_steps(graph@, fields, id));
    out
}

/// A line break that does not fill the line.
pub open spec fn newline() -> GlueKind {
    GlueKind::Newline { fill: false }
}

/// One way of setting a word split in two: the left part, a hyphen with a
/// line break after it, and the right part on the next line.
pub open spec fn split_way(l: Seq<char>, r: Seq<char>, left: GlueKind, right: GlueKind) -> Seq<SStep> {
    seq![
        SStep::Word { text: l, left, right: GlueKind::Nothing },
        SStep::Punctuation { text: "-"@, left: GlueKind::Nothing, right: newline() },
        SStep::Word { text: r, left: newline(), right },
    ]
}

/// The ways of setting a word with the glue `left` and `right` around it,
/// given where a hyphenator allows it to be split: first the word whole,
/// then one way for each split point, in order.
pub open spec fn hyphenation_ways(
    text: Seq<char>,
    left: GlueKind,
    right: GlueKind,
    points: Seq<(Seq<char>, Seq<char>)>,
) -> Seq<Seq<SStep>> {
    seq![seq![SStep::Word { text, left, right }]] + Seq::new(
        points.len(),
        |i: int| split_way(points[i].0, points[i].1, left, right),
    )
}

pub open spec fn ways_view(w: Seq<Vec<Step>>) -> Seq<Seq<SStep>> {
    w.map_values(|v: Vec<Step>| steps_view(v@))
}

pub open spec fn points_view(p: Seq<(String, String)>) -> Seq<(Seq<char>, Seq<char>)> {
    p.map_values(|x: (String, String)| (x.0@, x.1@))
}

/// The branch that sets the word `text` where a hyphenator gave the split
/// points `points` (each as the part before and the part after the split):
/// see `hyphenation_ways`. The caller sets the word as it is where the
/// hyphenator knows no split for it.
pub fn hyphenate(text: &String, left: GlueKind, right: GlueKind, points: &Vec<(String, String)>) -> (r: Vec<Vec<Step>>)
    ensures
        ways_view(r@) == hyphenation_ways(text@, left, right, points_view(points@)),
{
    let mut ways: Vec<Vec<Step>> = Vec::new();
    let mut whole: Vec<Step> = Vec::new();
    whole.push(Step::Word { text: text.clone(), left, right });
    assert(steps_view(whole@) =~= seq![SStep::Word { text: text@, left, right }]);
    ways.push(whole);
    let ghost target = hyphenation_ways(text@, left, right, points_view(points@));
    assert(target[0] == seq![SStep::Word { text: text@, left, right }]);
    assert(ways_view(ways@) =~= target.subrange(0, 1));
    let mut i: usize = 0;
    while i < points.len()
        invariant
            i <= points@.len(),
            target == hyphenation_ways(text@, left, right, points_view(points@)),
            target.len() == points@.len() + 1,
            ways_view(ways@) == target.subrange(0, i + 1),
        decreases points@.len() - i,
    {
        let ghost prev = ways@;
        let (l, r) = &points[i];
        let mut way: Vec<Step> = Vec::new();
        way.push(Step::Word { text: l.clone(), left, right: GlueKind::Nothing });
        way.push(Step::Punctuation {
            text: String::from_str("-"),
            left: GlueKind::Nothing,
            right: GlueKind::Newline { fill: false },
        });
        way.push(Step::Word { text: r.clone(), left: GlueKind::Newline { fill: false }, right });
        proof {
            reveal_strlit("-");
        }
        assert(steps_view(way@) =~= split_way(l@, r@, left, right));
        assert(target[i + 1] == split_way(points_view(points@)[i as int].0, points_view(points@)[i as int].1, left, right));
        ways.push(way);
        assert(ways_view(ways@) =~= ways_view(prev).push(steps_view(way@)));
        i = i + 1;
        assert(ways_view(ways@) =~= target.subrange(0, i + 1));
    }
    assert(target.subrange(0, i + 1) =~= target);
    ways
}


/// Every node that the scope `e` binds comes before `n`.
pub open spec fn env_below(e: SEnv, n: int) -> bool {
    &&& forall|k: Seq<char>| #[trigger] e.targets.contains_key(k) ==> e.targets[k] < n
    &&& forall|k: (Seq<char>, Seq<char>)| #[trigger] e.groups.contains_key(k) ==> e.groups[k] < n
}

/// Every node that the scopes of `ch` bind comes before `n`.
pub open spec fn chain_below(ch: Seq<SEnv>, n: int) -> bool {
    forall|j: int| 0 <= j < ch.len() ==> env_below(#[trigger] ch[j], n)
}

pub open spec fn ids_below(ids: Seq<NodeId>, n: int) -> bool {
    forall|j: int| 0 <= j < ids.len() ==> #[trigger] ids[j] < n
}

pub open spec fn opt_below(o: Option<NodeId>, n: int) -> bool {
    match o {
        Some(t) => t < n,
        None => true,
    }
}

/// Every node that `x` refers to, itself or through its scope, comes
/// before `n`.
pub open spec fn node_below(x: SNode, n: int) -> bool {
    match x {
        SNode::Group { content, target, .. } => content < n && opt_below(target, n),
        SNode::Leaf(ids) => ids_below(ids, n),
        SNode::List(ids) => ids_below(ids, n),
        SNode::Nodes(ids) => ids_below(ids, n),
        SNode::Block { target, env, args, body, .. } => opt_below(target, n) && env_below(env, n)
            && args < n && body < n,
        SNode::Definition { env, args, body, .. } => env_below(env, n) && args < n && body < n,
        SNode::Module { env, body } => env_below(env, n) && body < n,
        _ => true,
    }
}

/// Each node refers only to nodes that come before it.
pub open spec fn refers_back(g: Seq<SNode>) -> bool {
    forall|i: int| 0 <= i < g.len() ==> node_below(#[trigger] g[i], i)
}

proof fn lemma_push_back(g: Seq<SNode>, x: SNode)
    requires
        refers_back(g),
        node_below(x, g.len() as int),
    ensures
        refers_back(g.push(x)),
{
    assert forall|i: int| 0 <= i < g.push(x).len() implies node_below(#[trigger] g.push(x)[i], i) by {
        if i < g.len() {
            assert(g.push(x)[i] == g[i]);
        }
    }
}

proof fn lemma_scope_below(g: Seq<SNode>, cur: NodeId)
    requires
        refers_back(g),
    ensures
        scope_of(g, cur) matches Some(ne) ==> env_below(ne, cur as int),
{
    if cur < g.len() {
        assert(node_below(g[cur as int], cur as int));
    }
}

proof fn lemma_lookup_below(ch: Seq<SEnv>, name: Seq<char>, n: int)
    requires
        chain_below(ch, n),
    ensures
        opt_below(lookup(ch, name), n),
    decreases ch.len(),
{
    if ch.len() > 0 {
        assert(env_below(ch[ch.len() - 1], n));
        assert(chain_below(ch.drop_last(), n)) by {
            assert forall|j: int| 0 <= j < ch.drop_last().len() implies env_below(#[trigger] ch.drop_last()[j], n) by {
                assert(ch.drop_last()[j] == ch[j]);
            }
        }
        lemma_lookup_below(ch.drop_last(), name, n);
    }
}

proof fn lemma_group_lookup_below(ch: Seq<SEnv>, key: (Seq<char>, Seq<char>), n: int)
    requires
        chain_below(ch, n),
    ensures
        opt_below(group_lookup(ch, key), n),
    decreases ch.len(),
{
    if ch.len() > 0 {
        assert(env_below(ch[ch.len() - 1], n));
        assert(chain_below(ch.drop_last(), n)) by {
            assert forall|j: int| 0 <= j < ch.drop_last().len() implies env_below(#[trigger] ch.drop_last()[j], n) by {
                assert(ch.drop_last()[j] == ch[j]);
            }
        }
        lemma_group_lookup_below(ch.drop_last(), key, n);
    }
}

proof fn lemma_walk_below(g: Seq<SNode>, cur: NodeId, rest: Seq<Seq<char>>, e: SEnv)
    requires
        refers_back(g),
        cur < g.len(),
        env_below(e, g.len() as int),
    ensures
        env_below(walk(g, cur, rest, e), g.len() as int),
    decreases rest.len(),
{
    lemma_scope_below(g, cur);
    if rest.len() == 1 {
        if rest[0] == "*"@ {
            if let Some(ne) = scope_of(g, cur) {
                let t = e.targets.union_prefer_right(ne.targets);
                assert forall|k: Seq<char>| #[trigger] t.contains_key(k) implies t[k] < g.len() by {
                    if ne.targets.contains_key(k) {
                        assert(t[k] == ne.targets[k]);
                    } else {
                        assert(e.targets.contains_key(k));
                        assert(t[k] == e.targets[k]);
                    }
                }
            }
        }
    } else if rest.len() > 1 {
        if let Some(ne) = scope_of(g, cur) {
            if ne.targets.contains_key(rest[0]) {
                lemma_walk_below(g, ne.targets[rest[0]], rest.drop_first(), e);
            }
        }
    }
}

proof fn lemma_apply_uses_below(g: Seq<SNode>, ch: Seq<SEnv>, e: SEnv, args: Seq<Seq<char>>)
    requires
        refers_back(g),
        chain_below(ch, g.len() as int),
        env_below(e, g.len() as int),
    ensures
        env_below(apply_uses(g, ch, e, args), g.len() as int),
    decreases args.len(),
{
    if args.len() > 0 {
        lemma_apply_uses_below(g, ch, e, args.drop_last());
        let e1 = apply_uses(g, ch, e, args.drop_last());
        let parts = split_slash(args.last());
        lemma_lookup_below(ch, parts[0], g.len() as int);
        if let Some(n) = find_target(ch, e1, parts[0]) {
            lemma_walk_below(g, n, parts.drop_first(), e1);
        }
    }
}

proof fn lemma_loads_below(ch: Seq<SEnv>, e: SEnv, args: Seq<Seq<char>>, n: int)
    requires
        chain_below(ch, n),
        env_below(e, n),
    ensures
        env_below(apply_loads(ch, e, args), n),
    decreases args.len(),
{
    if args.len() > 0 {
        lemma_loads_below(ch, e, args.drop_last(), n);
        if ch.len() > 0 {
            assert(env_below(ch[0], n));
        }
    }
}

proof fn lemma_apply_commands_below(g: Seq<SNode>, ch: Seq<SEnv>, e: SEnv, cs: Seq<SCommand>)
    requires
        refers_back(g),
        chain_below(ch, g.len() as int),
        env_below(e, g.len() as int),
    ensures
        env_below(apply_commands(g, ch, e, cs), g.len() as int),
    decreases cs.len(),
{
    if cs.len() > 0 {
        lemma_apply_commands_below(g, ch, e, cs.drop_last());
        let e1 = apply_commands(g, ch, e, cs.drop_last());
        let c = cs.last();
        if c.name == "use"@ {
            lemma_apply_uses_below(g, ch, e1, c.args);
        } else if c.name == "group"@ && c.args.len() >= 3 {
            lemma_lookup_below(ch, c.args[1], g.len() as int);
        } else if c.name == "load"@ {
            lemma_loads_below(ch, e1, c.args, g.len() as int);
        }
    }
}

/// `h` is `g` with nodes added at the end.
pub open spec fn extends(g: Seq<SNode>, h: Seq<SNode>) -> bool {
    g.len() <= h.len() && h.subrange(0, g.len() as int) == g
}

proof fn lemma_extends_trans(a: Seq<SNode>, b: Seq<SNode>, c: Seq<SNode>)
    requires
        extends(a, b),
        extends(b, c),
    ensures
        extends(a, c),
{
    assert(c.subrange(0, a.len() as int) =~= b.subrange(0, a.len() as int));
}

proof fn lemma_added(g: Seq<SNode>, n: SNode)
    ensures
        extends(g, added(g, n).0),
        added(g, n).0.len() == g.len() + 1,
        added(g, n).0[g.len() as int] == n,
{
    assert(g.push(n).subrange(0, g.len() as int) =~= g);
}

proof fn lemma_item_extends(g: Seq<SNode>, ch: Seq<SEnv>, it: SItem)
    ensures
        extends(g, item_node(g, ch, it).0),
        item_node(g, ch, it).1 == (item_node(g, ch, it).0.len() - 1) as NodeId,
    decreases it,
{
    match it {
        SItem::Group(gr) => {
            let (g1, ids) = items_nodes(g, ch, gr.content);
            lemma_items_extends(g, ch, gr.content);
            let (g2, c) = added(g1, SNode::Nodes(ids));
            lemma_added(g1, SNode::Nodes(ids));
            let n = SNode::Group {
                opening: gr.opening,
                closing: gr.closing,
                content: c,
                target: group_lookup(ch, (gr.opening, gr.closing)),
            };
            lemma_added(g2, n);
            lemma_extends_trans(g, g1, g2);
            lemma_extends_trans(g, g2, added(g2, n).0);
        },
        SItem::Word(x) => lemma_added(g, SNode::Word(x)),
        SItem::Symbol(x) => lemma_added(g, SNode::Symbol(symbol_text(ch, x))),
        SItem::Punctuation(x) => lemma_added(g, SNode::Punctuation(x)),
        SItem::Placeholder(p) => lemma_added(g, SNode::Placeholder(p)),
        SItem::Token(x) => lemma_added(g, SNode::Token(token_of(x))),
    }
}

proof fn lemma_items_extends(g: Seq<SNode>, ch: Seq<SEnv>, its: Seq<SItem>)
    ensures
        extends(g, items_nodes(g, ch, its).0),
        items_nodes(g, ch, its).1.len() == its.len(),
    decreases its,
{
    if its.len() == 0 {
        assert(g.subrange(0, g.len() as int) =~= g);
    } else {
        let (g1, ids) = items_nodes(g, ch, its.drop_last());
        lemma_items_extends(g, ch, its.drop_last());
        lemma_item_extends(g1, ch, its.last());
        lemma_extends_trans(g, g1, item_node(g1, ch, its.last()).0);
    }
}

proof fn lemma_leaves_extends(g: Seq<SNode>, ch: Seq<SEnv>, ls: Seq<Seq<SItem>>)
    ensures
        extends(g, leaves_nodes(g, ch, ls).0),
    decreases ls.len(),
{
    if ls.len() == 0 {
        assert(g.subrange(0, g.len() as int) =~= g);
    } else {
        let (g1, ids) = leaves_nodes(g, ch, ls.drop_last());
        lemma_leaves_extends(g, ch, ls.drop_last());
        let (g2, items) = items_nodes(g1, ch, ls.last());
        lemma_items_extends(g1, ch, ls.last());
        lemma_added(g2, SNode::Leaf(items));
        lemma_extends_trans(g, g1, g2);
        lemma_extends_trans(g, g2, added(g2, SNode::Leaf(items)).0);
    }
}

proof fn lemma_body_extends(g: Seq<SNode>, ch: Seq<SEnv>, b: SBody)
    ensures
        extends(g, body_node(g, ch, b).0),
        body_node(g, ch, b).1 == (body_node(g, ch, b).0.len() - 1) as NodeId,
    decreases b,
{
    match b {
        SBody::Leaf(items) => {
            let (g1, ids) = items_nodes(g, ch, items);
            lemma_items_extends(g, ch, items);
            lemma_added(g1, SNode::Leaf(ids));
            lemma_extends_trans(g, g1, added(g1, SNode::Leaf(ids)).0);
        },
        SBody::List(ls) => {
            let (g1, ids) = leaves_nodes(g, ch, ls);
            lemma_leaves_extends(g, ch, ls);
            lemma_added(g1, SNode::List(ids));
            lemma_extends_trans(g, g1, added(g1, SNode::List(ids)).0);
        },
        SBody::Block(blk) => lemma_block_extends(g, ch, blk),
        SBody::Placeholder(p) => lemma_added(g, SNode::Placeholder(p)),
    }
}

proof fn lemma_bodies_extends(g: Seq<SNode>, ch: Seq<SEnv>, bs: Seq<SBody>)
    ensures
        extends(g, bodies_nodes(g, ch, bs).0),
        bodies_nodes(g, ch, bs).1.len() == bs.len(),
    decreases bs,
{
    if bs.len() == 0 {
        assert(g.subrange(0, g.len() as int) =~= g);
    } else {
        let (g1, ids) = bodies_nodes(g, ch, bs.drop_last());
        lemma_bodies_extends(g, ch, bs.drop_last());
        lemma_body_extends(g1, ch, bs.last());
        lemma_extends_trans(g, g1, body_node(g1, ch, bs.last()).0);
    }
}

proof fn lemma_block_extends(g: Seq<SNode>, ch: Seq<SEnv>, blk: SBlock)
    ensures
        extends(g, block_node(g, ch, blk).0),
        block_node(g, ch, blk).1 == (block_node(g, ch, blk).0.len() - 1) as NodeId,
    decreases blk,
{
    let e0 = apply_commands(g, ch, empty_env(), blk.body.commands);
    let (g1, local) = definitions(g, ch, e0, blk.body.parameters);
    lemma_definitions_extends(g, ch, e0, blk.body.parameters);
    let inner = ch.push(local);
    let (g2, args) = items_nodes(g1, inner, blk.argument);
    lemma_items_extends(g1, inner, blk.argument);
    let (g3, a) = added(g2, SNode::Nodes(args));
    lemma_added(g2, SNode::Nodes(args));
    let (g4, kids) = bodies_nodes(g3, inner, blk.body.childs);
    lemma_bodies_extends(g3, inner, blk.body.childs);
    let (g5, b) = added(g4, SNode::Nodes(kids));
    lemma_added(g4, SNode::Nodes(kids));
    let n = SNode::Block { name: blk.name, target: lookup(inner, blk.name), env: local, args: a, body: b };
    lemma_added(g5, n);
    lemma_extends_trans(g, g1, g2);
    lemma_extends_trans(g, g2, g3);
    lemma_extends_trans(g, g3, g4);
    lemma_extends_trans(g, g4, g5);
    lemma_extends_trans(g, g5, added(g5, n).0);
}

proof fn lemma_definition_extends(g: Seq<SNode>, ch: Seq<SEnv>, p: SParameter)
    ensures
        extends(g, definition_node(g, ch, p).0),
        definition_node(g, ch, p).1 == (definition_node(g, ch, p).0.len() - 1) as NodeId,
    decreases p,
{
    let e0 = apply_commands(g, ch, empty_env(), p.value.commands);
    let (g1, local) = definitions(g, ch, e0, p.value.parameters);
    lemma_definitions_extends(g, ch, e0, p.value.parameters);
    let inner = ch.push(local);
    let (g2, args) = items_nodes(g1, inner, p.args);
    lemma_items_extends(g1, inner, p.args);
    let (g3, a) = added(g2, SNode::Nodes(args));
    lemma_added(g2, SNode::Nodes(args));
    let (g4, kids) = bodies_nodes(g3, inner, p.value.childs);
    lemma_bodies_extends(g3, inner, p.value.childs);
    let (g5, b) = added(g4, SNode::Nodes(kids));
    lemma_added(g4, SNode::Nodes(kids));
    let n = SNode::Definition { name: p.name, env: local, args: a, body: b };
    lemma_added(g5, n);
    lemma_extends_trans(g, g1, g2);
    lemma_extends_trans(g, g2, g3);
    lemma_extends_trans(g, g3, g4);
    lemma_extends_trans(g, g4, g5);
    lemma_extends_trans(g, g5, added(g5, n).0);
}

proof fn lemma_definitions_extends(g: Seq<SNode>, ch: Seq<SEnv>, e: SEnv, ps: Seq<SParameter>)
    ensures
        extends(g, definitions(g, ch, e, ps).0),
    decreases ps,
{
    if ps.len() == 0 {
        assert(g.subrange(0, g.len() as int) =~= g);
    } else {
        let (g1, e1) = definitions(g, ch, e, ps.drop_last());
        lemma_definitions_extends(g, ch, e, ps.drop_last());
        lemma_definition_extends(g1, ch, ps.last());
        lemma_extends_trans(g, g1, definition_node(g1, ch, ps.last()).0);
    }
}

/// Building the node of a child only adds nodes at the end of the graph:
/// every node there before stays as it was, and the child's node is the
/// last one added.
pub proof fn law_building_only_adds(g: Seq<SNode>, ch: Seq<SEnv>, b: SBody)
    ensures
        extends(g, body_node(g, ch, b).0),
        body_node(g, ch, b).1 == (body_node(g, ch, b).0.len() - 1) as NodeId,
{
    lemma_body_extends(g, ch, b);
}


proof fn lemma_env_mono(e: SEnv, n: int, m: int)
    requires
        env_below(e, n),
        n <= m,
    ensures
        env_below(e, m),
{
}

proof fn lemma_chain_mono(ch: Seq<SEnv>, n: int, m: int)
    requires
        chain_below(ch, n),
        n <= m,
    ensures
        chain_below(ch, m),
{
    assert forall|j: int| 0 <= j < ch.len() implies env_below(#[trigger] ch[j], m) by {
        lemma_env_mono(ch[j], n, m);
    }
}

proof fn lemma_chain_push(ch: Seq<SEnv>, e: SEnv, n: int)
    requires
        chain_below(ch, n),
        env_below(e, n),
    ensures
        chain_below(ch.push(e), n),
{
    assert forall|j: int| 0 <= j < ch.push(e).len() implies env_below(#[trigger] ch.push(e)[j], n) by {
        if j < ch.len() {
            assert(ch.push(e)[j] == ch[j]);
        }
    }
}

proof fn lemma_item_back(g: Seq<SNode>, ch: Seq<SEnv>, it: SItem)
    requires
        refers_back(g),
        chain_below(ch, g.len() as int),
    ensures
        refers_back(item_node(g, ch, it).0),
    decreases it,
{
    lemma_item_extends(g, ch, it);
    match it {
        SItem::Group(gr) => {
            let (g1, ids) = items_nodes(g, ch, gr.content);
            lemma_items_back(g, ch, gr.content);
            lemma_items_extends(g, ch, gr.content);
            lemma_push_back(g1, SNode::Nodes(ids));
            let g2 = g1.push(SNode::Nodes(ids));
            lemma_group_lookup_below(ch, (gr.opening, gr.closing), g.len() as int);
            let n = SNode::Group {
                opening: gr.opening,
                closing: gr.closing,
                content: g1.len() as NodeId,
                target: group_lookup(ch, (gr.opening, gr.closing)),
            };
            lemma_push_back(g2, n);
        },
        SItem::Word(x) => lemma_push_back(g, SNode::Word(x)),
        SItem::Symbol(x) => lemma_push_back(g, SNode::Symbol(symbol_text(ch, x))),
        SItem::Punctuation(x) => lemma_push_back(g, SNode::Punctuation(x)),
        SItem::Placeholder(p) => lemma_push_back(g, SNode::Placeholder(p)),
        SItem::Token(x) => lemma_push_back(g, SNode::Token(token_of(x))),
    }
}

proof fn lemma_items_back(g: Seq<SNode>, ch: Seq<SEnv>, its: Seq<SItem>)
    requires
        refers_back(g),
        chain_below(ch, g.len() as int),
    ensures
        refers_back(items_nodes(g, ch, its).0),
        ids_below(items_nodes(g, ch, its).1, items_nodes(g, ch, its).0.len() as int),
    decreases its,
{
    if its.len() > 0 {
        let (g1, ids) = items_nodes(g, ch, its.drop_last());
        lemma_items_back(g, ch, its.drop_last());
        lemma_items_extends(g, ch, its.drop_last());
        lemma_chain_mono(ch, g.len() as int, g1.len() as int);
        lemma_item_back(g1, ch, its.last());
        lemma_item_extends(g1, ch, its.last());
    }
}

proof fn lemma_leaves_back(g: Seq<SNode>, ch: Seq<SEnv>, ls: Seq<Seq<SItem>>)
    requires
        refers_back(g),
        chain_below(ch, g.len() as int),
    ensures
        refers_back(leaves_nodes(g, ch, ls).0),
        ids_below(leaves_nodes(g, ch, ls).1, leaves_nodes(g, ch, ls).0.len() as int),
    decreases ls.len(),
{
    if ls.len() > 0 {
        let (g1, ids) = leaves_nodes(g, ch, ls.drop_last());
        lemma_leaves_back(g, ch, ls.drop_last());
        lemma_leaves_extends(g, ch, ls.drop_last());
        lemma_chain_mono(ch, g.len() as int, g1.len() as int);
        let (g2, items) = items_nodes(g1, ch, ls.last());
        lemma_items_back(g1, ch, ls.last());
        lemma_items_extends(g1, ch, ls.last());
        lemma_push_back(g2, SNode::Leaf(items));
    }
}

proof fn lemma_body_back(g: Seq<SNode>, ch: Seq<SEnv>, b: SBody)
    requires
        refers_back(g),
        chain_below(ch, g.len() as int),
    ensures
        refers_back(body_node(g, ch, b).0),
    decreases b,
{
    match b {
        SBody::Leaf(items) => {
            let (g1, ids) = items_nodes(g, ch, items);
            lemma_items_back(g, ch, items);
            lemma_push_back(g1, SNode::Leaf(ids));
        },
        SBody::List(ls) => {
            let (g1, ids) = leaves_nodes(g, ch, ls);
            lemma_leaves_back(g, ch, ls);
            lemma_push_back(g1, SNode::List(ids));
        },
        SBody::Block(blk) => lemma_block_back(g, ch, blk),
        SBody::Placeholder(p) => lemma_push_back(g, SNode::Placeholder(p)),
    }
}

proof fn lemma_bodies_back(g: Seq<SNode>, ch: Seq<SEnv>, bs: Seq<SBody>)
    requires
        refers_back(g),
        chain_below(ch, g.len() as int),
    ensures
        refers_back(bodies_nodes(g, ch, bs).0),
        ids_below(bodies_nodes(g, ch, bs).1, bodies_nodes(g, ch, bs).0.len() as int),
    decreases bs,
{
    if bs.len() > 0 {
        let (g1, ids) = bodies_nodes(g, ch, bs.drop_last());
        lemma_bodies_back(g, ch, bs.drop_last());
        lemma_bodies_extends(g, ch, bs.drop_last());
        lemma_chain_mono(ch, g.len() as int, g1.len() as int);
        lemma_body_back(g1, ch, bs.last());
        lemma_body_extends(g1, ch, bs.last());
    }
}

proof fn lemma_block_back(g: Seq<SNode>, ch: Seq<SEnv>, blk: SBlock)
    requires
        refers_back(g),
        chain_below(ch, g.len() as int),
    ensures
        refers_back(block_node(g, ch, blk).0),
    decreases blk,
{
    let e0 = apply_commands(g, ch, empty_env(), blk.body.commands);
    lemma_apply_commands_below(g, ch, empty_env(), blk.body.commands);
    let (g1, local) = definitions(g, ch, e0, blk.body.parameters);
    lemma_definitions_back(g, ch, e0, blk.body.parameters);
    lemma_definitions_extends(g, ch, e0, blk.body.parameters);
    let inner = ch.push(local);
    lemma_chain_mono(ch, g.len() as int, g1.len() as int);
    lemma_chain_push(ch, local, g1.len() as int);
    let (g2, args) = items_nodes(g1, inner, blk.argument);
    lemma_items_back(g1, inner, blk.argument);
    lemma_items_extends(g1, inner, blk.argument);
    lemma_push_back(g2, SNode::Nodes(args));
    let g3 = g2.push(SNode::Nodes(args));
    lemma_chain_mono(inner, g1.len() as int, g3.len() as int);
    let (g4, kids) = bodies_nodes(g3, inner, blk.body.childs);
    lemma_bodies_back(g3, inner, blk.body.childs);
    lemma_bodies_extends(g3, inner, blk.body.childs);
    lemma_push_back(g4, SNode::Nodes(kids));
    let g5 = g4.push(SNode::Nodes(kids));
    lemma_lookup_below(inner, blk.name, g1.len() as int);
    lemma_env_mono(local, g1.len() as int, g5.len() as int);
    let n = SNode::Block {
        name: blk.name,
        target: lookup(inner, blk.name),
        env: local,
        args: g2.len() as NodeId,
        body: g4.len() as NodeId,
    };
    lemma_push_back(g5, n);
}

proof fn lemma_definition_back(g: Seq<SNode>, ch: Seq<SEnv>, p: SParameter)
    requires
        refers_back(g),
        chain_below(ch, g.len() as int),
    ensures
        refers_back(definition_node(g, ch, p).0),
    decreases p,
{
    let e0 = apply_commands(g, ch, empty_env(), p.value.commands);
    lemma_apply_commands_below(g, ch, empty_env(), p.value.commands);
    let (g1, local) = definitions(g, ch, e0, p.value.parameters);
    lemma_definitions_back(g, ch, e0, p.value.parameters);
    lemma_definitions_extends(g, ch, e0, p.value.parameters);
    let inner = ch.push(local);
    lemma_chain_mono(ch, g.len() as int, g1.len() as int);
    lemma_chain_push(ch, local, g1.len() as int);
    let (g2, args) = items_nodes(g1, inner, p.args);
    lemma_items_back(g1, inner, p.args);
    lemma_items_extends(g1, inner, p.args);
    lemma_push_back(g2, SNode::Nodes(args));
    let g3 = g2.push(SNode::Nodes(args));
    lemma_chain_mono(inner, g1.len() as int, g3.len() as int);
    let (g4, kids) = bodies_nodes(g3, inner, p.value.childs);
    lemma_bodies_back(g3, inner, p.value.childs);
    lemma_bodies_extends(g3, inner, p.value.childs);
    lemma_push_back(g4, SNode::Nodes(kids));
    let g5 = g4.push(SNode::Nodes(kids));
    lemma_env_mono(local, g1.len() as int, g5.len() as int);
    let n = SNode::Definition { name: p.name, env: local, args: g2.len() as NodeId, body: g4.len() as NodeId };
    lemma_push_back(g5, n);
}

proof fn lemma_definitions_back(g: Seq<SNode>, ch: Seq<SEnv>, e: SEnv, ps: Seq<SParameter>)
    requires
        refers_back(g),
        chain_below(ch, g.len() as int),
        env_below(e, g.len() as int),
    ensures
        refers_back(definitions(g, ch, e, ps).0),
        env_below(definitions(g, ch, e, ps).1, definitions(g, ch, e, ps).0.len() as int),
    decreases ps,
{
    if ps.len() > 0 {
        let (g1, e1) = definitions(g, ch, e, ps.drop_last());
        lemma_definitions_back(g, ch, e, ps.drop_last());
        lemma_definitions_extends(g, ch, e, ps.drop_last());
        lemma_chain_mono(ch, g.len() as int, g1.len() as int);
        lemma_definition_back(g1, ch, ps.last());
        lemma_definition_extends(g1, ch, ps.last());
        let (g2, d) = definition_node(g1, ch, ps.last());
        lemma_env_mono(e1, g1.len() as int, g2.len() as int);
    }
}

/// Building the node of a child keeps the graph ordered: where each node
/// refers only to nodes before it, and the scopes it is built in bind only
/// nodes already there, each node added refers only to nodes before it
/// too, its scope included.
pub proof fn law_building_refers_back(g: Seq<SNode>, ch: Seq<SEnv>, b: SBody)
    requires
        refers_back(g),
        chain_below(ch, g.len() as int),
    ensures
        refers_back(body_node(g, ch, b).0),
{
    lemma_body_back(g, ch, b);
}


/// Building the node of a whole source keeps the graph ordered in the same
/// way: see `law_building_refers_back`.
pub proof fn law_modules_refer_back(g: Seq<SNode>, ch: Seq<SEnv>, b: SBlockBody)
    requires
        refers_back(g),
        chain_below(ch, g.len() as int),
    ensures
        refers_back(module_node(g, ch, b).0),
{
    let e0 = apply_commands(g, ch, empty_env(), b.commands);
    lemma_apply_commands_below(g, ch, empty_env(), b.commands);
    let (g1, local) = definitions(g, ch, e0, b.parameters);
    lemma_definitions_back(g, ch, e0, b.parameters);
    lemma_definitions_extends(g, ch, e0, b.parameters);
    let inner = ch.push(local);
    lemma_chain_mono(ch, g.len() as int, g1.len() as int);
    lemma_chain_push(ch, local, g1.len() as int);
    let (g2, kids) = bodies_nodes(g1, inner, b.childs);
    lemma_bodies_back(g1, inner, b.childs);
    lemma_bodies_extends(g1, inner, b.childs);
    lemma_push_back(g2, SNode::Nodes(kids));
    let g3 = g2.push(SNode::Nodes(kids));
    lemma_env_mono(local, g1.len() as int, g3.len() as int);
    lemma_push_back(g3, SNode::Module { env: local, body: g2.len() as NodeId });
}


proof fn lemma_split_plain(s: Seq<char>)
    requires
        forall|i: int| 0 <= i < s.len() ==> s[i] != '/',
    ensures
        split_slash(s) == seq![s],
    decreases s.len(),
{
    if s.len() > 0 {
        assert(s.last() == s[s.len() - 1]);
        assert forall|i: int| 0 <= i < s.drop_last().len() implies s.drop_last()[i] != '/' by {
            assert(s.drop_last()[i] == s[i]);
        }
        lemma_split_plain(s.drop_last());
        assert(s.drop_last().push(s.last()) =~= s);
        assert(split_slash(s) =~= seq![s]);
    } else {
        assert(s =~= Seq::<char>::empty());
    }
}

proof fn lemma_lookup_outermost(ch: Seq<SEnv>, name: Seq<char>)
    requires
        ch.len() > 0,
        ch[0].targets.contains_key(name),
        forall|j: int| 1 <= j < ch.len() ==> !(#[trigger] ch[j]).targets.contains_key(name),
    ensures
        lookup(ch, name) == Some(ch[0].targets[name]),
    decreases ch.len(),
{
    if ch.len() > 1 {
        assert(!ch[ch.len() - 1].targets.contains_key(name));
        assert forall|j: int| 1 <= j < ch.drop_last().len() implies !(#[trigger] ch.drop_last()[j]).targets.contains_key(name) by {
            assert(ch.drop_last()[j] == ch[j]);
        }
        lemma_lookup_outermost(ch.drop_last(), name);
    }
}

/// A module read from a file for `!use name` is found once it is bound in
/// the outermost scope: where no other scope binds `name` (a binding in
/// the environment comes first), `!use name` then binds `name` to that
/// module and wants nothing more.
pub proof fn law_loaded_module_is_used(g: Seq<SNode>, ch: Seq<SEnv>, e: SEnv, name: Seq<char>)
    requires
        ch.len() > 0,
        ch[0].targets.contains_key(name),
        forall|j: int| 1 <= j < ch.len() ==> !(#[trigger] ch[j]).targets.contains_key(name),
        !e.targets.contains_key(name),
        forall|i: int| 0 <= i < name.len() ==> name[i] != '/',
    ensures
        use_one(g, ch, e, name) == (SEnv { targets: e.targets.insert(name, ch[0].targets[name]), ..e }),
        use_wanted(ch, e, name) == Seq::<SWanted>::empty(),
{
    lemma_split_plain(name);
    lemma_lookup_outermost(ch, name);
}

/// A name that neither the scope being built nor any scope of the chain
/// binds is wanted from a file, and `!use` binds nothing for it.
pub proof fn law_unknown_use_is_wanted(g: Seq<SNode>, ch: Seq<SEnv>, e: SEnv, arg: Seq<char>)
    requires
        !e.targets.contains_key(split_slash(arg)[0]),
        lookup(ch, split_slash(arg)[0]) is None,
    ensures
        use_one(g, ch, e, arg) == e,
        use_wanted(ch, e, arg) == seq![SWanted::Use(split_slash(arg)[0])],
{
}


/// The node that building the item `it` adds last.
pub open spec fn item_built(g: Seq<SNode>, ch: Seq<SEnv>, it: SItem) -> SNode {
    item_node(g, ch, it).0.last()
}

/// The node of an item is of the item's kind and is the last node added: a
/// word becomes a word node and punctuation a punctuation node, each with
/// its text; a symbol becomes a symbol node with the replacement the chain
/// gives it, or its own text where there is none; a placeholder and a
/// token keep what they are; a group becomes a group node with its own
/// brackets and the node that the chain binds them to.
pub proof fn law_item_node_kind(g: Seq<SNode>, ch: Seq<SEnv>, it: SItem)
    ensures
        item_node(g, ch, it).0.len() > g.len(),
        item_node(g, ch, it).1 == (item_node(g, ch, it).0.len() - 1) as NodeId,
        it matches SItem::Word(s) ==> item_built(g, ch, it) == SNode::Word(s),
        it matches SItem::Punctuation(s) ==> item_built(g, ch, it) == SNode::Punctuation(s),
        it matches SItem::Symbol(s) ==> item_built(g, ch, it) == SNode::Symbol(
            match symbol_lookup(ch, s) {
                Some(t) => t,
                None => s,
            },
        ),
        it matches SItem::Placeholder(p) ==> item_built(g, ch, it) == SNode::Placeholder(p),
        it matches SItem::Token(s) ==> item_built(g, ch, it) is Token,
        it matches SItem::Group(gr) ==> (item_built(g, ch, it) matches SNode::Group {
            opening,
            closing,
            target,
            ..
        } && opening == gr.opening && closing == gr.closing && target == group_lookup(
            ch,
            (gr.opening, gr.closing),
        )),
{
    lemma_item_extends(g, ch, it);
    if let SItem::Group(gr) = it {
        lemma_items_extends(g, ch, gr.content);
    }
}

/// The atoms of a node keep their glue: a word is set with a space on both
/// sides, punctuation with no space before it and a space after it, a
/// symbol with no space around it; a group whose brackets stand for no node
/// is set as its opening bracket (a space before it, none after), then its
/// content, then its closing bracket (none before it, a space after).
pub proof fn law_atoms_keep_their_glue(g: Seq<SNode>, f: Option<Fields>, id: NodeId)
    requires
        id < g.len(),
    ensures
        g[id as int] matches SNode::Word(s) ==> layout_steps(g, f, id) == seq![
            SStep::Word { text: s, left: GlueKind::Space { breaking: true }, right: GlueKind::Space { breaking: true } },
        ],
        g[id as int] matches SNode::Punctuation(s) ==> layout_steps(g, f, id) == seq![
            SStep::Punctuation { text: s, left: GlueKind::Nothing, right: GlueKind::Space { breaking: true } },
        ],
        g[id as int] matches SNode::Symbol(s) ==> layout_steps(g, f, id) == seq![
            SStep::Word { text: s, left: GlueKind::Nothing, right: GlueKind::Nothing },
        ],
        g[id as int] matches SNode::Group { opening, closing, content, target } ==> (target is None ==> (
            layout_steps(g, f, id).len() == 3
            && layout_steps(g, f, id)[0] == SStep::Word {
                text: opening,
                left: GlueKind::Space { breaking: true },
                right: GlueKind::Nothing,
            } && layout_steps(g, f, id)[1] == SStep::Visit { node: content, fields: None }
            && layout_steps(g, f, id).last() == SStep::Word {
                text: closing,
                left: GlueKind::Nothing,
                right: GlueKind::Space { breaking: true },
            })),
{
}

/// The glue before an atom, or `None` for a step that is no atom.
pub open spec fn atom_left(s: SStep) -> Option<GlueKind> {
    match s {
        SStep::Word { left, .. } => Some(left),
        SStep::Punctuation { left, .. } => Some(left),
        _ => None,
    }
}

/// The glue after an atom, or `None` for a step that is no atom.
pub open spec fn atom_right(s: SStep) -> Option<GlueKind> {
    match s {
        SStep::Word { right, .. } => Some(right),
        SStep::Punctuation { right, .. } => Some(right),
        _ => None,
    }
}

/// The text of an atom, or `None` for a step that is no atom.
pub open spec fn atom_text(s: SStep) -> Option<Seq<char>> {
    match s {
        SStep::Word { text, .. } => Some(text),
        SStep::Punctuation { text, .. } => Some(text),
        _ => None,
    }
}

/// Every way of setting a word keeps the word's glue: its first atom has
/// the word's left glue and its last atom the word's right glue. The first
/// way is the word whole; the way of each split point reads the part before
/// it, a hyphen ending the line, and the part after it, in that order.
pub proof fn law_hyphenation_keeps_glue(
    text: Seq<char>,
    left: GlueKind,
    right: GlueKind,
    points: Seq<(Seq<char>, Seq<char>)>,
)
    ensures
        hyphenation_ways(text, left, right, points).len() == points.len() + 1,
        forall|i: int| #![trigger hyphenation_ways(text, left, right, points)[i]]
            0 <= i < points.len() + 1 ==> {
                let w = hyphenation_ways(text, left, right, points)[i];
                &&& w.len() > 0
                &&& atom_left(w[0]) == Some(left)
                &&& atom_right(w.last()) == Some(right)
            },
        hyphenation_ways(text, left, right, points)[0] == seq![SStep::Word { text, left, right }],
        forall|i: int| #![trigger points[i]]
            0 <= i < points.len() ==> {
                let w = hyphenation_ways(text, left, right, points)[i + 1];
                &&& w.len() == 3
                &&& atom_text(w[0]) == Some(points[i].0)
                &&& atom_text(w[1]) == Some("-"@)
                &&& atom_right(w[1]) == Some(GlueKind::Newline { fill: false })
                &&& atom_text(w[2]) == Some(points[i].1)
            },
{
    let ways = hyphenation_ways(text, left, right, points);
    assert forall|i: int| 0 <= i < points.len() + 1 implies {
        let w = #[trigger] ways[i];
        &&& w.len() > 0
        &&& atom_left(w[0]) == Some(left)
        &&& atom_right(w.last()) == Some(right)
    } by {
        if i > 0 {
            assert(ways[i] == split_way(points[i - 1].0, points[i - 1].1, left, right));
        }
    }
    assert forall|i: int| 0 <= i < points.len() implies {
        let w = hyphenation_ways(text, left, right, points)[i + 1];
        &&& w.len() == 3
        &&& atom_text(w[0]) == Some(#[trigger] points[i].0)
        &&& atom_text(w[1]) == Some("-"@)
        &&& atom_right(w[1]) == Some(GlueKind::Newline { fill: false })
        &&& atom_text(w[2]) == Some(points[i].1)
    } by {
        assert(ways[i + 1] == split_way(points[i].0, points[i].1, left, right));
    }
}


proof fn lemma_list_steps(ids: Seq<NodeId>)
    ensures
        list_steps(ids).len() == 3 * ids.len(),
        forall|k: int| 0 <= k < ids.len() ==> {
            &&& #[trigger] list_steps(ids)[3 * k] == SStep::Word {
                text: "· "@,
                left: GlueKind::Space { breaking: true },
                right: GlueKind::Space { breaking: false },
            }
            &&& list_steps(ids)[3 * k + 1] == SStep::Visit { node: ids[k], fields: None }
            &&& list_steps(ids)[3 * k + 2] == SStep::Promote { glue: GlueKind::Newline { fill: true }, wide: false }
        },
    decreases ids.len(),
{
    if ids.len() > 0 {
        lemma_list_steps(ids.drop_last());
        let prev = list_steps(ids.drop_last());
        assert forall|k: int| 0 <= k < ids.len() implies {
            &&& #[trigger] list_steps(ids)[3 * k] == SStep::Word {
                text: "· "@,
                left: GlueKind::Space { breaking: true },
                right: GlueKind::Space { breaking: false },
            }
            &&& list_steps(ids)[3 * k + 1] == SStep::Visit { node: ids[k], fields: None }
            &&& list_steps(ids)[3 * k + 2] == SStep::Promote { glue: GlueKind::Newline { fill: true }, wide: false }
        } by {
            if k < ids.len() - 1 {
                assert(ids.drop_last()[k] == ids[k]);
                assert(prev[3 * k] == list_steps(ids)[3 * k]);
                assert(prev[3 * k + 1] == list_steps(ids)[3 * k + 1]);
                assert(prev[3 * k + 2] == list_steps(ids)[3 * k + 2]);
            }
        }
    }
}

/// The nodes that hold other nodes set them in order: a paragraph sets each
/// of its items and then ends its line, filling it; a list sets, for each
/// entry, a bullet, the entry, and a filled line end; a sequence of nodes
/// sets each of them; a module sets its body; a definition marks a section
/// of its name, with its arguments as the head and its body as the body; a
/// block whose name is bound is set as that node with its own arguments
/// and body as the fields, and one whose name is bound to nothing is set as
/// the words "unresolved macro" and its name.
pub proof fn law_containers_set_their_parts(g: Seq<SNode>, f: Option<Fields>, id: NodeId)
    requires
        id < g.len(),
    ensures
        g[id as int] matches SNode::Leaf(ids) ==> (ids.len() > 0 ==> {
            &&& layout_steps(g, f, id).len() == ids.len() + 1
            &&& forall|k: int| 0 <= k < ids.len() ==> #[trigger] layout_steps(g, f, id)[k] == SStep::Visit {
                node: ids[k],
                fields: None,
            }
            &&& layout_steps(g, f, id).last() == SStep::Promote { glue: GlueKind::Newline { fill: true }, wide: false }
        }) && (ids.len() == 0 ==> layout_steps(g, f, id).len() == 0),
        g[id as int] matches SNode::List(ids) ==> {
            &&& layout_steps(g, f, id).len() == 3 * ids.len()
            &&& forall|k: int| 0 <= k < ids.len() ==> {
                &&& #[trigger] layout_steps(g, f, id)[3 * k] == SStep::Word {
                    text: "· "@,
                    left: GlueKind::Space { breaking: true },
                    right: GlueKind::Space { breaking: false },
                }
                &&& layout_steps(g, f, id)[3 * k + 1] == SStep::Visit { node: ids[k], fields: None }
                &&& layout_steps(g, f, id)[3 * k + 2] == SStep::Promote {
                    glue: GlueKind::Newline { fill: true },
                    wide: false,
                }
            }
        },
        g[id as int] matches SNode::Nodes(ids) ==> {
            &&& layout_steps(g, f, id).len() == ids.len()
            &&& forall|k: int| 0 <= k < ids.len() ==> #[trigger] layout_steps(g, f, id)[k] == SStep::Visit {
                node: ids[k],
                fields: None,
            }
        },
        g[id as int] matches SNode::Module { body, .. } ==> layout_steps(g, f, id) == seq![
            SStep::Visit { node: body, fields: None },
        ],
        g[id as int] matches SNode::Definition { name, args, body, .. } ==> layout_steps(g, f, id) == seq![
            SStep::Begin(name),
            SStep::Visit { node: args, fields: None },
            SStep::Body,
            SStep::Visit { node: body, fields: None },
            SStep::End,
        ],
        g[id as int] matches SNode::Block { name, target, args, body, .. } ==> (target matches Some(t) ==> layout_steps(
            g,
            f,
            id,
        ) == seq![SStep::Visit { node: t, fields: Some(Fields { args: Some(args), body: Some(body) }) }])
            && (target is None ==> layout_steps(g, f, id) == seq![
            SStep::Word { text: "unresolved"@, left: GlueKind::Space { breaking: true }, right: GlueKind::Space { breaking: true } },
            SStep::Word { text: "macro"@, left: GlueKind::Space { breaking: true }, right: GlueKind::Space { breaking: true } },
            SStep::Word { text: name, left: GlueKind::Space { breaking: true }, right: GlueKind::Space { breaking: true } },
        ]),
        g[id as int] matches SNode::Group { content, target, .. } ==> (target matches Some(t) ==> layout_steps(
            g,
            f,
            id,
        ) == seq![SStep::Visit { node: t, fields: Some(Fields { args: None, body: Some(content) }) }]),
{
    match g[id as int] {
        SNode::List(ids) => lemma_list_steps(ids),
        _ => {},
    }
}

/// Tokens: `hfill` ends the line, filling it; `quad` asks for a space four
/// times as wide; any other token is set as a word with no space before it.
pub proof fn law_tokens(g: Seq<SNode>, f: Option<Fields>, id: NodeId)
    requires
        id < g.len(),
    ensures
        g[id as int] == SNode::Token(SToken::HFill) ==> layout_steps(g, f, id) == seq![
            SStep::Promote { glue: GlueKind::Newline { fill: true }, wide: false },
        ],
        g[id as int] == SNode::Token(SToken::QuadSpace) ==> layout_steps(g, f, id) == seq![
            SStep::Promote { glue: GlueKind::Space { breaking: true }, wide: true },
        ],
        g[id as int] matches SNode::Token(SToken::Other(s)) ==> layout_steps(g, f, id) == seq![
            SStep::Word { text: s, left: GlueKind::Nothing, right: GlueKind::Space { breaking: true } },
        ],
        token_of("hfill"@) == SToken::HFill,
        token_of("quad"@) == SToken::QuadSpace,
{
    reveal_strlit("hfill");
    reveal_strlit("quad");
    assert("hfill"@.len() != "quad"@.len());
}

/// A placeholder set within a block refers to the block's fields: `$body`
/// to its body, `$args` to its arguments, `$n` to the argument at index
/// `n`; where the field is missing it is set as its own text, such as
/// `$body`.
pub proof fn law_placeholders_refer_to_fields(g: Seq<SNode>, fl: Fields, id: NodeId)
    requires
        id < g.len(),
        g[id as int] is Placeholder,
    ensures
        g[id as int] == SNode::Placeholder(SPlaceholder::Body) ==> layout_steps(g, Some(fl), id) == (match fl.body {
            Some(b) => seq![SStep::Visit { node: b, fields: None }],
            None => seq![SStep::Word { text: "$body"@, left: GlueKind::Space { breaking: true }, right: GlueKind::Space { breaking: true } }],
        }),
        g[id as int] == SNode::Placeholder(SPlaceholder::Arguments) ==> layout_steps(g, Some(fl), id) == (match fl.args {
            Some(a) => seq![SStep::Visit { node: a, fields: None }],
            None => seq![SStep::Word { text: "$args"@, left: GlueKind::Space { breaking: true }, right: GlueKind::Space { breaking: true } }],
        }),
        g[id as int] matches SNode::Placeholder(SPlaceholder::Argument(n)) ==> (fl.args matches Some(a) ==> (a
            < g.len() ==> (g[a as int] matches SNode::Nodes(v) ==> (n < v.len() ==> layout_steps(g, Some(fl), id)
            == seq![SStep::Visit { node: v[n as int], fields: None }])))),
        g[id as int] matches SNode::Placeholder(SPlaceholder::Unknown(s)) ==> layout_steps(g, Some(fl), id) == seq![
            SStep::Word { text: seq!['$'] + s, left: GlueKind::Space { breaking: true }, right: GlueKind::Space { breaking: true } },
        ],
        layout_steps(g, None, id) == Seq::<SStep>::empty(),
{
}


proof fn lemma_decimal_prefix(s: Seq<char>, t: Seq<char>, q: int)
    requires
        0 <= q <= s.len(),
        q <= t.len(),
        forall|i: int| 0 <= i < q ==> s[i] == t[i],
    ensures
        grammar::decimal(s, 0, q) == grammar::decimal(t, 0, q),
    decreases q,
{
    if q > 0 {
        lemma_decimal_prefix(s, t, q - 1);
    }
}

/// A number written in decimal reads back as the number: its text is made
/// of decimal digits, starts with a digit other than zero unless the number
/// is zero, and the digits read as the number.
pub proof fn law_decimal_text_reads_back(n: nat)
    ensures
        decimal_text(n).len() > 0,
        forall|i: int| 0 <= i < decimal_text(n).len() ==> grammar::is_digit(#[trigger] decimal_text(n)[i]),
        n > 0 ==> decimal_text(n)[0] != '0',
        grammar::decimal(decimal_text(n), 0, decimal_text(n).len() as int) == n,
    decreases n,
{
    if n >= 10 {
        let m = n / 10;
        let d = n % 10;
        assert(n == m * 10 + d);
        law_decimal_text_reads_back(m);
        let t = decimal_text(m);
        let u = t.push(digit_char(d));
        assert(decimal_text(n) == u);
        lemma_decimal_prefix(u, t, t.len() as int);
        assert forall|i: int| 0 <= i < u.len() implies grammar::is_digit(#[trigger] u[i]) by {
            if i < t.len() {
                assert(u[i] == t[i]);
            }
        }
        assert(u[0] == t[0]);
        assert((digit_char(d) as int) - ('0' as int) == d);
        assert(grammar::decimal(u, 0, u.len() as int) == grammar::decimal(u, 0, t.len() as int) * 10 + ((
        u[t.len() as int] as int) - ('0' as int)) as nat);
    } else {
        assert((digit_char(n) as int) - ('0' as int) == n);
        assert(grammar::decimal(decimal_text(n), 0, 0) == 0);
    }
}


proof fn lemma_leaves_len(g: Seq<SNode>, ch: Seq<SEnv>, ls: Seq<Seq<SItem>>)
    ensures
        leaves_nodes(g, ch, ls).1.len() == ls.len(),
    decreases ls.len(),
{
    if ls.len() > 0 {
        lemma_leaves_len(g, ch, ls.drop_last());
    }
}

/// The node that building the child `b` adds last.
pub open spec fn body_built(g: Seq<SNode>, ch: Seq<SEnv>, b: SBody) -> SNode {
    body_node(g, ch, b).0.last()
}

/// The node of a child is of the child's kind and is the last node added:
/// a paragraph becomes a paragraph node with one node per item, a list a
/// list node with one entry per entry, a block a block node of its name,
/// and a placeholder a placeholder node.
pub proof fn law_body_node_kind(g: Seq<SNode>, ch: Seq<SEnv>, b: SBody)
    ensures
        body_node(g, ch, b).0.len() > g.len(),
        b matches SBody::Leaf(items) ==> (body_built(g, ch, b) matches SNode::Leaf(ids) && ids.len() == items.len()),
        b matches SBody::List(ls) ==> (body_built(g, ch, b) matches SNode::List(ids) && ids.len() == ls.len()),
        b matches SBody::Block(blk) ==> (body_built(g, ch, b) matches SNode::Block { name, .. } && name == blk.name),
        b matches SBody::Placeholder(p) ==> body_built(g, ch, b) == SNode::Placeholder(p),
{
    lemma_body_extends(g, ch, b);
    match b {
        SBody::Leaf(items) => {
            lemma_items_extends(g, ch, items);
            let (g1, ids) = items_nodes(g, ch, items);
            assert(body_node(g, ch, b).0 == g1.push(SNode::Leaf(ids)));
        },
        SBody::List(ls) => {
            lemma_leaves_extends(g, ch, ls);
            lemma_leaves_len(g, ch, ls);
            let (g1, ids) = leaves_nodes(g, ch, ls);
            assert(body_node(g, ch, b).0 == g1.push(SNode::List(ids)));
        },
        SBody::Block(blk) => {
            let e0 = apply_commands(g, ch, empty_env(), blk.body.commands);
            lemma_definitions_extends(g, ch, e0, blk.body.parameters);
            let (g1, local) = definitions(g, ch, e0, blk.body.parameters);
            let inner = ch.push(local);
            lemma_items_extends(g1, inner, blk.argument);
            let (g2, args) = items_nodes(g1, inner, blk.argument);
            let g3 = g2.push(SNode::Nodes(args));
            lemma_bodies_extends(g3, inner, blk.body.childs);
            let (g4, kids) = bodies_nodes(g3, inner, blk.body.childs);
            let g5 = g4.push(SNode::Nodes(kids));
            assert(body_node(g, ch, b).0.len() == g5.len() + 1);
        },
        SBody::Placeholder(p) => {
            assert(body_node(g, ch, b).0 == g.push(SNode::Placeholder(p)));
        },
    }
}

/// Each parameter definition binds its name: after the definitions of a
/// body, every parameter's name is bound, and the name of the last one is
/// bound to the definition node just added, which carries that name.
pub proof fn law_parameters_bind_definitions(g: Seq<SNode>, ch: Seq<SEnv>, e: SEnv, ps: Seq<SParameter>)
    ensures
        forall|k: int| 0 <= k < ps.len() ==> definitions(g, ch, e, ps).1.targets.contains_key(#[trigger] ps[k].name),
        ps.len() > 0 ==> ({
            let (g2, e2) = definitions(g, ch, e, ps);
            &&& e2.targets[ps.last().name] == (g2.len() - 1) as NodeId
            &&& g2.len() > 0
            &&& g2.last() matches SNode::Definition { name, .. } && name == ps.last().name
        }),
    decreases ps.len(),
{
    if ps.len() > 0 {
        law_parameters_bind_definitions(g, ch, e, ps.drop_last());
        let (g1, e1) = definitions(g, ch, e, ps.drop_last());
        lemma_definition_extends(g1, ch, ps.last());
        let p = ps.last();
        let e0 = apply_commands(g1, ch, empty_env(), p.value.commands);
        lemma_definitions_extends(g1, ch, e0, p.value.parameters);
        assert forall|k: int| 0 <= k < ps.len() implies definitions(g, ch, e, ps).1.targets.contains_key(
            #[trigger] ps[k].name,
        ) by {
            if k < ps.len() - 1 {
                assert(ps.drop_last()[k] == ps[k]);
            }
        }
    }
}

} // verus!
