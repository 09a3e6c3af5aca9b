//! End-to-end extraction tests: real sources are parsed by the external
//! parser, converted into the library's arena model, and walked.

use nixdoc::collect::{collect_entries, retrieve_description, LocationMap};
use nixdoc::commonmark::Argument;
use nixdoc::legacy::{collect_lambda_args_legacy, retrieve_legacy_comment};
use nixdoc::tree::{Node, NodeKind, Token, TokenKind, Tree};
use rowan::ast::AstNode;
use rowan::{NodeOrToken, WalkEvent};

fn node_kind_of(k: rnix::SyntaxKind) -> NodeKind {
    match k {
        rnix::SyntaxKind::NODE_ROOT => NodeKind::Root,
        rnix::SyntaxKind::NODE_ATTR_SET => NodeKind::AttrSet,
        rnix::SyntaxKind::NODE_LET_IN => NodeKind::LetIn,
        rnix::SyntaxKind::NODE_ATTRPATH_VALUE => NodeKind::AttrpathValue,
        rnix::SyntaxKind::NODE_ATTRPATH => NodeKind::Attrpath,
        rnix::SyntaxKind::NODE_INHERIT => NodeKind::Inherit,
        rnix::SyntaxKind::NODE_INHERIT_FROM => NodeKind::InheritFrom,
        rnix::SyntaxKind::NODE_IDENT => NodeKind::Ident,
        rnix::SyntaxKind::NODE_LAMBDA => NodeKind::Lambda,
        rnix::SyntaxKind::NODE_IDENT_PARAM => NodeKind::IdentParam,
        rnix::SyntaxKind::NODE_PATTERN => NodeKind::Pattern,
        rnix::SyntaxKind::NODE_PAT_ENTRY => NodeKind::PatEntry,
        _ => NodeKind::Other,
    }
}

fn token_kind_of(k: rnix::SyntaxKind) -> TokenKind {
    match k {
        rnix::SyntaxKind::TOKEN_WHITESPACE => TokenKind::Whitespace,
        rnix::SyntaxKind::TOKEN_COMMENT => TokenKind::Comment,
        _ => TokenKind::Other,
    }
}

/// Parses a source text and lays the lossless tree out as an arena.
fn tree_of(source: &str) -> Tree {
    let parse = rnix::Root::parse(source);
    let root = parse.ok().expect("failed to parse input");
    let mut tokens: Vec<Token> = Vec::new();
    let mut nodes: Vec<Node> = Vec::new();
    let mut stack: Vec<usize> = Vec::new();
    for ev in root.syntax().preorder_with_tokens() {
        match ev {
            WalkEvent::Enter(NodeOrToken::Node(n)) => {
                let idx = nodes.len();
                nodes.push(Node {
                    kind: node_kind_of(n.kind()),
                    children: Vec::new(),
                    lo: tokens.len(),
                    hi: 0,
                });
                if let Some(&p) = stack.last() {
                    nodes[p].children.push(idx);
                }
                stack.push(idx);
            }
            WalkEvent::Enter(NodeOrToken::Token(t)) => {
                tokens.push(Token {
                    kind: token_kind_of(t.kind()),
                    text: t.text().to_string(),
                });
            }
            WalkEvent::Leave(NodeOrToken::Node(_)) => {
                let idx = stack.pop().expect("unbalanced walk");
                nodes[idx].hi = tokens.len();
            }
            WalkEvent::Leave(NodeOrToken::Token(_)) => {}
        }
    }
    let tree = Tree { tokens, nodes };
    assert!(tree.check_wf());
    tree
}

/// The index of the first node of the given kind.
fn first_node_of_kind(tree: &Tree, kind: NodeKind) -> usize {
    for (i, n) in tree.nodes.iter().enumerate() {
        if n.kind == kind {
            return i;
        }
    }
    panic!("no node of the requested kind");
}

#[test]
fn test_adjacency_rule_for_line_comments() {
    let tree = tree_of("{\n  # line one\n  # line two\n\n  # line three\n  x = 1;\n}\n");
    let apv = first_node_of_kind(&tree, NodeKind::AttrpathValue);
    let comment = retrieve_legacy_comment(&tree, apv, true);
    assert_eq!(comment, Some(String::from("line three")));
}

#[test]
fn test_adjacent_line_comments_merge() {
    let tree = tree_of("{\n  # line one\n  # line two\n  x = 1;\n}\n");
    let apv = first_node_of_kind(&tree, NodeKind::AttrpathValue);
    let comment = retrieve_legacy_comment(&tree, apv, true);
    assert_eq!(comment, Some(String::from("line one line two")));
}

#[test]
fn test_line_comments_skipped_for_bindings() {
    // A binding's own lookup refuses line comments, stepping over them
    // in search of a block comment.
    let tree = tree_of("{\n  /* real doc */\n  # deprecation note\n  x = 1;\n}\n");
    let apv = first_node_of_kind(&tree, NodeKind::AttrpathValue);
    let comment = retrieve_legacy_comment(&tree, apv, false);
    assert_eq!(comment, Some(String::from(" real doc ")));
}

#[test]
fn test_block_comment_taken_verbatim() {
    let tree = tree_of("{\n  /* kept\n     as is */\n  x = 1;\n}\n");
    let apv = first_node_of_kind(&tree, NodeKind::AttrpathValue);
    let comment = retrieve_legacy_comment(&tree, apv, false);
    assert_eq!(comment, Some(String::from(" kept\n     as is ")));
}

#[test]
fn test_curry_order() {
    let tree = tree_of("{\n  /* The function */\n  f = a: b: { c, d }: null;\n}\n");
    let lambda = first_node_of_kind(&tree, NodeKind::Lambda);
    let args = collect_lambda_args_legacy(&tree, lambda);
    assert_eq!(args.len(), 3);
    match &args[0] {
        Argument::Flat(a) => assert_eq!(a.name, "a"),
        _ => panic!("first argument is not flat"),
    }
    match &args[1] {
        Argument::Flat(a) => assert_eq!(a.name, "b"),
        _ => panic!("second argument is not flat"),
    }
    match &args[2] {
        Argument::Pattern(entries) => {
            assert_eq!(entries.len(), 2);
            assert_eq!(entries[0].name, "c");
            assert_eq!(entries[1].name, "d");
        }
        _ => panic!("third argument is not a pattern"),
    }
}

#[test]
fn test_curry_order_through_entries() {
    let tree = tree_of("{\n  /* The function */\n  f = a: b: { c, d }: null;\n}\n");
    let locs = LocationMap::new();
    let entries = collect_entries(&tree, "lib", "debug", &locs);
    assert_eq!(entries.len(), 1);
    assert_eq!(entries[0].name, "f");
    assert_eq!(entries[0].description, vec![String::from("The function")]);
    assert_eq!(entries[0].args.len(), 3);
}

#[test]
fn test_inherit_resolution() {
    let src = "let\n  /* The ff */\n  f = x: x;\nin {\n  inherit f;\n  /* The gg */\n  g = 1;\n}\n";
    let tree = tree_of(src);
    let locs = LocationMap::new();
    let entries = collect_entries(&tree, "lib", "let", &locs);
    assert_eq!(entries.len(), 2);
    assert_eq!(entries[0].name, "f");
    assert_eq!(entries[0].description, vec![String::from("The ff")]);
    assert_eq!(entries[0].args.len(), 1);
    assert_eq!(entries[1].name, "g");
    assert_eq!(entries[1].description, vec![String::from("The gg")]);
}

#[test]
fn test_inherit_with_source_yields_nothing() {
    let src = "let\n  /* The ff */\n  f = x: x;\nin {\n  inherit (pkgs) f;\n}\n";
    let tree = tree_of(src);
    let locs = LocationMap::new();
    let entries = collect_entries(&tree, "lib", "let", &locs);
    assert_eq!(entries.len(), 0);
}

#[test]
fn test_inherit_unknown_name_omitted() {
    let src = "let\n  /* The ff */\n  f = x: x;\nin {\n  inherit g;\n}\n";
    let tree = tree_of(src);
    let locs = LocationMap::new();
    let entries = collect_entries(&tree, "lib", "let", &locs);
    assert_eq!(entries.len(), 0);
}

#[test]
fn test_structured_doc_comment() {
    let src = "{\n  /**\n    Does things.\n  */\n  foo = x: x;\n}\n";
    let tree = tree_of(src);
    let locs = LocationMap::new();
    let entries = collect_entries(&tree, "lib", "debug", &locs);
    assert_eq!(entries.len(), 1);
    assert_eq!(entries[0].name, "foo");
    assert_eq!(entries[0].description, vec![String::from("Does things.")]);
    // The bound value is a lambda, so its arguments are collected under
    // this dialect too.
    assert_eq!(entries[0].args.len(), 1);
    match &entries[0].args[0] {
        Argument::Flat(a) => assert_eq!(a.name, "x"),
        _ => panic!("argument is not flat"),
    }
}

#[test]
fn test_structured_takes_precedence() {
    let src = "{\n  /* legacy text */\n  /** structured text */\n  foo = 1;\n}\n";
    let tree = tree_of(src);
    let locs = LocationMap::new();
    let entries = collect_entries(&tree, "lib", "debug", &locs);
    assert_eq!(entries.len(), 1);
    assert_eq!(
        entries[0].description,
        vec![String::from("structured text")]
    );
}

#[test]
fn test_legacy_type_and_example_fields() {
    let src = "{\n  /* Adds one.\n     Type: add :: int -> int\n     Example:\n       add 1\n  */\n  add' = x: x;\n}\n";
    let tree = tree_of(src);
    let locs = LocationMap::new();
    let entries = collect_entries(&tree, "lib", "math", &locs);
    assert_eq!(entries.len(), 1);
    assert_eq!(entries[0].name, "add'");
    assert_eq!(entries[0].description, vec![String::from("Adds one.")]);
    assert_eq!(entries[0].fn_type, Some(String::from("add :: int -> int")));
    assert_eq!(entries[0].example, Some(String::from("add 1")));
}

#[test]
fn test_patterns_not_mistaken_for_binding_sets() {
    let src = "{ foo, bar }: {\n  /* doc */\n  baz = 1;\n}\n";
    let tree = tree_of(src);
    let locs = LocationMap::new();
    let entries = collect_entries(&tree, "lib", "debug", &locs);
    assert_eq!(entries.len(), 1);
    assert_eq!(entries[0].name, "baz");
}

#[test]
fn test_undocumented_bindings_are_absent() {
    let src = "{\n  quiet = 1;\n  /* loud doc */\n  loud = 2;\n}\n";
    let tree = tree_of(src);
    let locs = LocationMap::new();
    let entries = collect_entries(&tree, "lib", "debug", &locs);
    assert_eq!(entries.len(), 1);
    assert_eq!(entries[0].name, "loud");
}

#[test]
fn test_location_lookup_in_entries() {
    let src = "{\n  /* doc */\n  f = 1;\n}\n";
    let tree = tree_of(src);
    let mut locs = LocationMap::new();
    locs.insert(
        String::from("lib.debug.f"),
        String::from("lib/debug.nix:7"),
    );
    let entries = collect_entries(&tree, "lib", "debug", &locs);
    assert_eq!(entries.len(), 1);
    assert_eq!(entries[0].location, Some(String::from("lib/debug.nix:7")));
}

#[test]
fn test_retrieve_description() {
    let src = "/* String helpers. */\n{\n}\n";
    let tree = tree_of(src);
    let desc = retrieve_description(&tree, "Strings", "strings");
    assert_eq!(
        desc,
        "# Strings {#sec-functions-library-strings}\nString helpers.\n"
    );
}

#[test]
fn test_flat_argument_comment() {
    let src = "{\n  /* doc */\n  f =\n    # the input\n    x: x;\n}\n";
    let tree = tree_of(src);
    let locs = LocationMap::new();
    let entries = collect_entries(&tree, "lib", "debug", &locs);
    assert_eq!(entries.len(), 1);
    assert_eq!(entries[0].args.len(), 1);
    match &entries[0].args[0] {
        Argument::Flat(a) => {
            assert_eq!(a.name, "x");
            assert_eq!(a.doc, Some(String::from("the input")));
        }
        _ => panic!("argument is not flat"),
    }
}

#[test]
fn test_structured_comment_headings_shift() {
    // A binding's documentation nests under category and function
    // headings, so its own headings move down two levels.
    let src = "{\n  /**\n    # Example\n    text\n  */\n  foo = 1;\n}\n";
    let tree = tree_of(src);
    let locs = LocationMap::new();
    let entries = collect_entries(&tree, "lib", "debug", &locs);
    assert_eq!(entries.len(), 1);
    assert_eq!(
        entries[0].description,
        vec![String::from("### Example\ntext")]
    );
}

#[test]
fn test_structured_comment_fence_keeps_hash_lines() {
    let src = "{\n  /**\n    ```\n    # inside a fence\n    ```\n  */\n  foo = 1;\n}\n";
    let tree = tree_of(src);
    let locs = LocationMap::new();
    let entries = collect_entries(&tree, "lib", "debug", &locs);
    assert_eq!(entries.len(), 1);
    assert_eq!(
        entries[0].description,
        vec![String::from("```\n# inside a fence\n```")]
    );
}
