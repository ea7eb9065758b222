use indexmap::IndexMap;
use loom::document::{
    hyphenate, layout_step, module_from_source, placeholder_node, use_targets, Fields, Graph, GraphChain,
    LocalEnv, Node, Step, Wanted,
};
use loom::layout::GlueKind;
use loom::source::Placeholder;

fn build(src: &str) -> (Graph, usize) {
    let mut graph = Graph::new();
    let mut chain = GraphChain::root(LocalEnv::new());
    let mut wanted = Vec::new();
    let (root, rest) = module_from_source(&mut chain, &mut graph, src, &mut wanted);
    assert_eq!(rest, "");
    assert_eq!(chain.scopes.len(), 1);
    (graph, root)
}

fn module_scope(g: &Graph, root: usize) -> &LocalEnv {
    match &g.nodes[root] {
        Node::Module { env, .. } => env,
        _ => panic!("not a module"),
    }
}

#[test]
fn inner_scopes_shadow_outer_ones() {
    let mut outer = LocalEnv::new();
    outer.add_target("a".to_string(), 1);
    outer.add_target("b".to_string(), 2);
    let mut chain = GraphChain::root(outer);
    let mut inner = LocalEnv::new();
    inner.add_target("a".to_string(), 7);
    chain.link(inner);
    assert_eq!(chain.get_target("a"), Some(7));
    assert_eq!(chain.get_target("b"), Some(2));
    assert_eq!(chain.get_target("c"), None);
    let inner = chain.take();
    assert_eq!(inner.get_target("a"), Some(7));
    assert_eq!(chain.get_target("a"), Some(1));
}

#[test]
fn a_later_binding_wins() {
    let mut e = LocalEnv::new();
    e.add_target("x".to_string(), 1);
    e.add_target("x".to_string(), 2);
    assert_eq!(e.get_target("x"), Some(2));
    e.add_symbol("pi".to_string(), "π".to_string());
    assert_eq!(e.get_symbol("pi"), Some("π".to_string()));
    e.add_symbol("pi".to_string(), "p".to_string());
    assert_eq!(e.get_symbol("pi"), Some("p".to_string()));
    assert_eq!(e.get_symbol("tau"), None);
    e.add_group("<".to_string(), ">".to_string(), 4);
    assert_eq!(e.get_group("<", ">"), Some(4));
    e.add_group("<".to_string(), ">".to_string(), 5);
    assert_eq!(e.get_group("<", ">"), Some(5));
    assert_eq!(e.get_group("(", ")"), None);
}

#[test]
fn a_paragraph_becomes_word_nodes() {
    let (g, root) = build("Hello world\n");
    let body = match &g.nodes[root] {
        Node::Module { body, .. } => *body,
        _ => panic!("not a module"),
    };
    let kids = match &g.nodes[body] {
        Node::Nodes(v) => v.clone(),
        _ => panic!("no children"),
    };
    assert_eq!(kids.len(), 1);
    match &g.nodes[kids[0]] {
        Node::Leaf(items) => {
            assert_eq!(items.len(), 2);
            assert!(matches!(&g.nodes[items[0]], Node::Word(s) if s == "Hello"));
            assert!(matches!(&g.nodes[items[1]], Node::Word(s) if s == "world"));
        }
        _ => panic!("not a paragraph"),
    }
}

#[test]
fn a_parameter_binds_a_definition_and_a_block_finds_it() {
    let (g, root) = build("/note x\n    Hi $body\n:note\n    there\n");
    let env = module_scope(&g, root);
    let d = env.get_target("note").expect("note is bound");
    assert!(matches!(&g.nodes[d], Node::Definition { name, .. } if name == "note"));
    let block = g
        .nodes
        .iter()
        .position(|n| matches!(n, Node::Block { .. }))
        .expect("a block");
    match &g.nodes[block] {
        Node::Block { name, target, .. } => {
            assert_eq!(name, "note");
            assert_eq!(*target, Some(d));
        }
        _ => unreachable!(),
    }
    // the block is set as its definition, with its own fields
    match layout_step(&g, None, block).as_slice() {
        [Step::Visit { node, fields: Some(_) }] => assert_eq!(*node, d),
        _ => panic!("a block is set as its definition"),
    }
}

#[test]
fn an_unknown_block_is_set_as_a_warning() {
    let (g, _) = build(":nothing\n    x\n");
    let block = g.nodes.iter().position(|n| matches!(n, Node::Block { .. })).unwrap();
    let steps = layout_step(&g, None, block);
    let words: Vec<String> = steps
        .iter()
        .map(|s| match s {
            Step::Word { text, .. } => text.clone(),
            _ => panic!("words only"),
        })
        .collect();
    assert_eq!(words, vec!["unresolved", "macro", "nothing"]);
}

#[test]
fn symbols_are_replaced() {
    let (g, _) = build("!symbol \"+\" \"plus\"\na + b\n");
    assert!(g.nodes.iter().any(|n| matches!(n, Node::Symbol(s) if s == "plus")));
    assert!(!g.nodes.iter().any(|n| matches!(n, Node::Symbol(s) if s == "+")));
}

#[test]
fn use_walks_a_path_and_imports_all() {
    let (g, root) = build("/m\n    /inner\n        x\n    y\n");
    let env = module_scope(&g, root);
    let m = env.get_target("m").unwrap();
    let inner = match &g.nodes[m] {
        Node::Definition { env, .. } => env.get_target("inner").unwrap(),
        _ => panic!("m is a definition"),
    };
    let mut chain = GraphChain::root(LocalEnv::new());
    chain.link(LocalEnv { targets: env.targets.clone(), symbols: IndexMap::new(), groups: IndexMap::new(), hyphenator: None });
    let mut local = LocalEnv::new();
    let mut wanted = Vec::new();
    use_targets(&chain, &mut local, &g, &vec!["m/*".to_string()], &mut wanted);
    assert_eq!(local.get_target("inner"), Some(inner));
    let mut local = LocalEnv::new();
    use_targets(&chain, &mut local, &g, &vec!["m/inner/alias".to_string()], &mut wanted);
    assert!(wanted.is_empty());
    assert_eq!(local.get_target("alias"), Some(inner));
    let mut local = LocalEnv::new();
    use_targets(&chain, &mut local, &g, &vec!["m/k".to_string(), "nowhere/x".to_string(), "m".to_string()], &mut wanted);
    assert_eq!(local.get_target("k"), Some(m));
    assert_eq!(local.get_target("x"), None);
    assert_eq!(local.get_target("m"), Some(m));
    assert_eq!(local.targets.len(), 2);
    assert!(matches!(wanted.as_slice(), [Wanted::Use(n)] if n == "nowhere"));
}

#[test]
fn a_group_command_binds_brackets() {
    let (g, root) = build("/em\n    x\n:b\n    !group \"<\" \"em\" \">\"\n    <a>\n");
    let em = module_scope(&g, root).get_target("em").unwrap();
    let group = g.nodes.iter().position(|n| matches!(n, Node::Group { .. })).unwrap();
    match &g.nodes[group] {
        Node::Group { opening, closing, target, .. } => {
            assert_eq!((opening.as_str(), closing.as_str()), ("<", ">"));
            assert_eq!(*target, Some(em));
        }
        _ => unreachable!(),
    }
    let (g, _) = build(":b\n    <a>\n");
    assert!(g.nodes.iter().any(|n| matches!(n, Node::Group { target: None, .. })));
}

#[test]
fn placeholders_refer_to_the_fields() {
    let mut g = Graph::new();
    let a = g.push(Node::Word("a".to_string()));
    let b = g.push(Node::Word("b".to_string()));
    let args = g.push(Node::Nodes(vec![a, b]));
    let body = g.push(Node::Nodes(vec![]));
    let f = Fields { args: Some(args), body: Some(body) };
    assert_eq!(placeholder_node(&g, &f, &Placeholder::Body), Ok(body));
    assert_eq!(placeholder_node(&g, &f, &Placeholder::Arguments), Ok(args));
    assert_eq!(placeholder_node(&g, &f, &Placeholder::Argument(1)), Ok(b));
    assert_eq!(placeholder_node(&g, &f, &Placeholder::Argument(2)), Err("$2".to_string()));
    assert_eq!(placeholder_node(&g, &f, &Placeholder::Argument(123)), Err("$123".to_string()));
    assert_eq!(
        placeholder_node(&g, &f, &Placeholder::Unknown("foo".to_string())),
        Err("$foo".to_string())
    );
    let none = Fields { args: None, body: None };
    assert_eq!(placeholder_node(&g, &none, &Placeholder::Body), Err("$body".to_string()));
    assert_eq!(placeholder_node(&g, &none, &Placeholder::Arguments), Err("$args".to_string()));
}

#[test]
fn how_leaves_lists_and_tokens_are_set() {
    let (g, _) = build("x \\quad y \\hfill\n");
    let leaf = g.nodes.iter().position(|n| matches!(n, Node::Leaf(_))).unwrap();
    let steps = layout_step(&g, None, leaf);
    assert!(matches!(steps.last(), Some(Step::Promote { glue: GlueKind::Newline { fill: true }, wide: false })));
    let quad = g.nodes.iter().position(|n| matches!(n, Node::Token(loom::nodes::Token::QuadSpace))).unwrap();
    assert!(matches!(
        layout_step(&g, None, quad).as_slice(),
        [Step::Promote { glue: GlueKind::Space { breaking: true }, wide: true }]
    ));
    let (g, _) = build("  - a\n");
    let list = g.nodes.iter().position(|n| matches!(n, Node::List(_))).unwrap();
    let steps = layout_step(&g, None, list);
    assert_eq!(steps.len(), 3);
    assert!(matches!(&steps[0], Step::Word { text, .. } if text == "· "));
}

#[test]
fn a_word_is_set_whole_or_split_at_each_point() {
    let sp = GlueKind::Space { breaking: true };
    let nl = GlueKind::Newline { fill: false };
    let points = vec![
        ("hy".to_string(), "phenation".to_string()),
        ("hyphen".to_string(), "ation".to_string()),
    ];
    let ways = hyphenate(&"hyphenation".to_string(), sp, GlueKind::Nothing, &points);
    assert_eq!(ways.len(), 3);
    match ways[0].as_slice() {
        [Step::Word { text, left, right }] => {
            assert_eq!(text, "hyphenation");
            assert_eq!(*left, sp);
            assert_eq!(*right, GlueKind::Nothing);
        }
        _ => panic!("the word whole comes first"),
    }
    match ways[2].as_slice() {
        [Step::Word { text: a, left: la, right: ra }, Step::Punctuation { text: h, left: lh, right: rh }, Step::Word { text: b, left: lb, right: rb }] => {
            assert_eq!((a.as_str(), *la, *ra), ("hyphen", sp, GlueKind::Nothing));
            assert_eq!((h.as_str(), *lh, *rh), ("-", GlueKind::Nothing, nl));
            assert_eq!((b.as_str(), *lb, *rb), ("ation", nl, GlueKind::Nothing));
        }
        _ => panic!("a split way has three atoms"),
    }
    assert_eq!(hyphenate(&"x".to_string(), sp, sp, &Vec::new()).len(), 1);
}

fn refs(n: &Node) -> Vec<usize> {
    let mut out: Vec<usize> = Vec::new();
    let scope = |e: &LocalEnv, out: &mut Vec<usize>| {
        out.extend(e.targets.iter().map(|t| t.1));
        out.extend(e.groups.values().copied());
    };
    match n {
        Node::Group { content, target, .. } => {
            out.push(*content);
            out.extend(target.iter().copied());
        }
        Node::Leaf(ids) | Node::List(ids) | Node::Nodes(ids) => out.extend(ids.iter().copied()),
        Node::Block { target, env, args, body, .. } => {
            out.extend(target.iter().copied());
            scope(env, &mut out);
            out.push(*args);
            out.push(*body);
        }
        Node::Definition { env, args, body, .. } => {
            scope(env, &mut out);
            out.push(*args);
            out.push(*body);
        }
        Node::Module { env, body } => {
            scope(env, &mut out);
            out.push(*body);
        }
        _ => {}
    }
    out
}

#[test]
fn every_node_refers_to_earlier_nodes() {
    let src = "/em\n    x $body\n:b\n    !group \"<\" \"em\" \">\"\n    !use \"em/alias\"\n    <a> words\n\n      - one\n      - two\n:em\n    y\n";
    let (graph, root) = build(src);
    assert_eq!(root, graph.nodes.len() - 1);
    assert!(graph.nodes.iter().any(|n| matches!(n, Node::List(_))));
    assert!(graph.nodes.iter().any(|n| matches!(n, Node::Group { target: Some(_), .. })));
    assert!(graph.nodes.iter().any(|n| matches!(n, Node::Block { env, .. } if !env.targets.is_empty())));
    for (i, n) in graph.nodes.iter().enumerate() {
        for r in refs(n) {
            assert!(r < i, "node {} refers to {}", i, r);
        }
    }
}

fn build_in(lib: LocalEnv, graph: &mut Graph, src: &str) -> (usize, LocalEnv, Vec<Wanted>) {
    let mut chain = GraphChain::root(lib);
    let mut wanted = Vec::new();
    let (root, rest) = module_from_source(&mut chain, graph, src, &mut wanted);
    assert_eq!(rest, "");
    (root, chain.take(), wanted)
}

#[test]
fn names_found_nowhere_are_wanted_from_files() {
    let mut graph = Graph::new();
    let src = "!use \"lib/x\" \"y\"\n!load \"m\"\nHello\n";
    let (_, _, wanted) = build_in(LocalEnv::new(), &mut graph, src);
    assert_eq!(wanted.len(), 3);
    assert!(matches!(&wanted[0], Wanted::Use(n) if n == "lib"));
    assert!(matches!(&wanted[1], Wanted::Use(n) if n == "y"));
    assert!(matches!(&wanted[2], Wanted::Load(n) if n == "m"));
}

#[test]
fn a_module_read_from_a_file_is_used_and_loaded() {
    let mut graph = Graph::new();
    let (lib_module, lib, wanted) = build_in(LocalEnv::new(), &mut graph, "/x\n    hi\n");
    assert!(wanted.is_empty());
    let x = module_scope(&graph, lib_module).get_target("x").unwrap();
    let mut lib = lib;
    lib.add_target("lib".to_string(), lib_module);
    lib.add_target("m".to_string(), lib_module);
    let src = "!use \"lib/x/x\" \"lib\"\n!load \"m\"\nHello\n";
    let (root, _, wanted) = build_in(lib, &mut graph, src);
    assert!(wanted.is_empty());
    let env = module_scope(&graph, root);
    assert_eq!(env.get_target("x"), Some(x));
    assert_eq!(env.get_target("lib"), Some(lib_module));
    assert_eq!(env.get_target("m"), Some(lib_module));
}

#[test]
fn hyphens_sets_the_patterns_of_the_scope() {
    let mut graph = Graph::new();
    let (root, _, wanted) = build_in(LocalEnv::new(), &mut graph, "!hyphens \"en.pat\"\nHello\n");
    assert_eq!(module_scope(&graph, root).hyphenator.as_deref(), Some("en.pat"));
    assert!(matches!(wanted.as_slice(), [Wanted::Hyphens(f)] if f == "en.pat"));
    let (root, _, wanted) = build_in(LocalEnv::new(), &mut graph, "!hyphens \"a\" \"b\"\nHello\n");
    assert_eq!(module_scope(&graph, root).hyphenator, None);
    assert!(wanted.is_empty());
}
