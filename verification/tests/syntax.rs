use zirium::lexer::lex;
use zirium::parser::syntax::{BaseSyntax, FileSyntax};
use zirium::parser::{parse_brace_fixture, ParsedSyntax};
use zirium::representation::{NodeId, SyntaxKind, TreeBuilder, TreeError};
use zirium::source::Source;

#[test]
fn brace_fixture_builds_regions_and_errors() {
    let source = Source::new(b"{a{b}}}{".to_vec()).unwrap();
    let lexed = lex(&source);
    let tree = parse_brace_fixture(&lexed).unwrap();
    let file = FileSyntax::new(&tree);
    let kinds: Vec<SyntaxKind> = file.syntax().iter().map(|n| n.kind()).collect();
    assert_eq!(
        kinds,
        vec![
            SyntaxKind::File,
            SyntaxKind::Region,
            SyntaxKind::Region,
            SyntaxKind::Error,
            SyntaxKind::Region,
        ]
    );
    let nodes = file.syntax();
    assert!(!nodes[1].has_error());
    assert!(nodes[3].has_error());
    assert!(nodes[4].has_error());
    assert!(nodes[0].has_error());
    let outer = nodes[1].text_range().unwrap();
    assert_eq!((outer.start(), outer.end()), (0, 6));
    assert_eq!(nodes[0].children().len(), 3);
    assert_eq!(file.regions().len(), 3);
    assert_eq!(file.nodes(SyntaxKind::Error), vec![NodeId::from_index(3)]);
    assert!(matches!(nodes[2].typed(), BaseSyntax::Region(_)));
    assert!(file.node(NodeId::from_index(9)).is_none());
}

#[test]
fn builder_requires_closed_covering_root() {
    let source = Source::new(b"x y".to_vec()).unwrap();
    let lexed = lex(&source);
    let tokens = lexed.tokens().to_vec();

    let mut open = TreeBuilder::new(tokens.clone());
    open.start_node(SyntaxKind::File);
    assert_eq!(open.finish().unwrap_err(), TreeError::UnclosedNode);

    assert_eq!(TreeBuilder::new(tokens.clone()).finish().unwrap_err(), TreeError::Empty);

    let mut short = TreeBuilder::new(tokens.clone());
    short.start_node(SyntaxKind::File);
    short.token();
    short.finish_node(false);
    assert_eq!(short.finish().unwrap_err(), TreeError::UncoveredTokens);

    let mut two = TreeBuilder::new(tokens.clone());
    two.start_node(SyntaxKind::File);
    two.finish_node(false);
    two.start_node(SyntaxKind::File);
    assert!(two.finish_node(false));
    assert!(!two.finish_node(false));
    assert_eq!(two.finish().unwrap_err(), TreeError::SeveralRoots);
}

fn build(kinds: &[(SyntaxKind, usize)], text: &[u8]) -> zirium::representation::SyntaxTree {
    // Each entry opens a node of a kind, consumes that many tokens, and the
    // nesting is given by a negative-free encoding: see the callers.
    let source = Source::new(text.to_vec()).unwrap();
    let lexed = lex(&source);
    let mut b = TreeBuilder::new(lexed.tokens().to_vec());
    let _ = kinds;
    b.start_node(SyntaxKind::File);
    while !b.at_end() {
        b.token();
    }
    b.finish_node(false);
    b.finish().unwrap()
}

#[test]
fn operation_views_read_tokens() {
    // %r = foo.bar @sym public (%a) -> i32 { }
    let text = b"%r = foo.bar private @sym(%a : i32) -> i32 attributes {x} {}";
    let source = Source::new(text.to_vec()).unwrap();
    let lexed = lex(&source);
    let toks = lexed.tokens().to_vec();
    let mut b = TreeBuilder::new(toks.clone());
    b.start_node(SyntaxKind::File);
    let op = b.start_node(SyntaxKind::DialectOperation);
    // `%r = foo.bar private @sym`
    let head = toks.iter().position(|t| t.kind() == zirium::lexer::TokenKind::LParen).unwrap();
    for _ in 0..head {
        b.token();
    }
    b.start_node(SyntaxKind::BlockArgumentList);
    let close = toks.iter().position(|t| t.kind() == zirium::lexer::TokenKind::RParen).unwrap();
    for _ in head..=close {
        b.token();
    }
    b.finish_node(false);
    let open_brace = toks
        .iter()
        .position(|t| t.kind() == zirium::lexer::TokenKind::LBrace)
        .unwrap();
    for _ in close + 1..open_brace {
        b.token();
    }
    b.start_node(SyntaxKind::AttributeDict);
    for _ in 0..3 {
        b.token();
    }
    b.finish_node(false);
    b.token();
    b.start_node(SyntaxKind::Region);
    b.token();
    b.token();
    b.finish_node(false);
    b.finish_node(false);
    while !b.at_end() {
        b.token();
    }
    b.finish_node(false);
    let tree = b.finish().unwrap();
    let parsed = ParsedSyntax::new(tree, Vec::new());
    let file = parsed.file();
    let ops = file.operations();
    assert_eq!(ops.len(), 1);
    let op_view = file.operation(op).unwrap();
    let m = op_view.mnemonic_range().unwrap();
    assert_eq!(&text[m.start() as usize..m.end() as usize], b"foo.bar");
    let s = op_view.leading_symbol_range().unwrap();
    assert_eq!(&text[s.start() as usize..s.end() as usize], b"@sym");
    let v = op_view.visibility_range().unwrap();
    assert_eq!(&text[v.start() as usize..v.end() as usize], b"private");
    let a = op_view.argument_list_range().unwrap();
    assert_eq!(&text[a.start() as usize..a.end() as usize], b"(%a : i32)");
    let r = op_view.function_result_range(text).unwrap();
    assert_eq!(&text[r.start() as usize..r.end() as usize], b"-> i32");
    assert!(op_view.attributes().is_some());
    assert_eq!(op_view.regions().len(), 1);
    assert!(op_view.function_type_range().is_none());
    assert_eq!(op_view.components().len(), 3);
    let _ = build(&[], b"");
}

#[test]
fn payload_views_find_delimited_ranges() {
    let text = b"dense<[1, <2>]> : tensor<2xi32>";
    let source = Source::new(text.to_vec()).unwrap();
    let lexed = lex(&source);
    let mut b = TreeBuilder::new(lexed.tokens().to_vec());
    b.start_node(SyntaxKind::File);
    b.start_node(SyntaxKind::DenseElementsAttribute);
    while !b.at_end() {
        b.token();
    }
    b.finish_node(false);
    b.finish_node(false);
    let tree = b.finish().unwrap();
    let file = FileSyntax::new(&tree);
    let payloads = file.payload_attributes();
    assert_eq!(payloads.len(), 1);
    let p = payloads[0].payload_range().unwrap();
    assert_eq!(&text[p.start() as usize..p.end() as usize], b"[1, <2>]");
    let t = payloads[0].type_range().unwrap();
    assert_eq!(&text[t.start() as usize..t.end() as usize], b"tensor<2xi32>");
    assert!(payloads[0].handle_range().is_none());
}
