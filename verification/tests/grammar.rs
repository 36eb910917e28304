use zirium::dialect::{DialectRegistry, OperationShape};
use zirium::lexer::lex;
use zirium::parser::syntax::FileSyntax;
use zirium::parser::{
    parse_generic_operations, parse_generic_operations_with_limits,
    parse_operations_with_registry, ApplyTextEditsError,
    ParseDiagnosticKind, ParseFileError, ParseLimits, ParsedFile, ParsedSyntax, ParserLimits,
    ResourceLimitError, TextEdit,
};
use zirium::representation::{NodeId, SyntaxKind, SyntaxTree};
use zirium::source::{Source, TextRange};

fn parse_text(text: &str) -> ParsedSyntax {
    let source = Source::new(text.as_bytes().to_vec()).unwrap();
    let lexed = lex(&source);
    parse_generic_operations(&lexed).unwrap()
}

fn kinds(tree: &SyntaxTree) -> Vec<SyntaxKind> {
    (0..tree.len())
        .map(|i| tree.kind(NodeId::from_index(i)).unwrap())
        .collect()
}

fn count(tree: &SyntaxTree, kind: SyntaxKind) -> usize {
    kinds(tree).into_iter().filter(|k| *k == kind).count()
}

fn text_of(tree: &SyntaxTree, source: &[u8]) -> Vec<u8> {
    let root = tree.root();
    let mut out = Vec::new();
    for token in tree.tokens(root).unwrap() {
        let range = token.range();
        out.extend_from_slice(&source[range.start() as usize..range.end() as usize]);
    }
    out
}

#[test]
fn generic_operation_has_one_clean_node() {
    let parsed = parse_text("\"test.op\"() : () -> ()\n");
    let tree = parsed.tree();
    assert!(parsed.diagnostics().is_empty());
    assert_eq!(tree.kind(tree.root()), Some(SyntaxKind::File));
    assert_eq!(count(tree, SyntaxKind::Operation), 1);
    assert_eq!(count(tree, SyntaxKind::FunctionType), 1);
    assert_eq!(tree.has_error(tree.root()), Some(false));
    let file = FileSyntax::new(tree);
    assert_eq!(file.operations().len(), 1);
}

#[test]
fn results_operands_regions_and_attributes_are_parsed() {
    let text = "%0:2 = \"a.b\"(%x, %y#1) ({\n^bb0(%arg: i32):\n  \"c.d\"(%arg) : (i32) -> ()\n}) {n = 3 : i64, no_inline} : (i32, f32) -> (i32, i32) loc(\"f\":1:2)\n";
    let file = ParsedFile::parse(text.as_bytes().to_vec()).unwrap();
    let parsed = file.syntax();
    let tree = parsed.tree();
    assert!(parsed.diagnostics().is_empty(), "{:?}", parsed.diagnostics());
    assert_eq!(count(tree, SyntaxKind::Operation), 2);
    assert_eq!(count(tree, SyntaxKind::Result), 1);
    assert_eq!(count(tree, SyntaxKind::ResultNumber), 1);
    assert_eq!(count(tree, SyntaxKind::Operand), 3);
    assert_eq!(count(tree, SyntaxKind::Region), 1);
    assert_eq!(count(tree, SyntaxKind::Block), 1);
    assert_eq!(count(tree, SyntaxKind::BlockLabel), 1);
    assert_eq!(count(tree, SyntaxKind::BlockArgument), 1);
    assert_eq!(count(tree, SyntaxKind::AttributeDict), 1);
    assert_eq!(count(tree, SyntaxKind::Attribute), 2);
    assert_eq!(count(tree, SyntaxKind::IntegerAttribute), 1);
    assert_eq!(count(tree, SyntaxKind::TrailingLocation), 1);
    assert_eq!(count(tree, SyntaxKind::FileLineColLocation), 1);
    assert_eq!(tree.has_error(tree.root()), Some(false));
    assert_eq!(text_of(tree, text.as_bytes()), text.as_bytes());
}

#[test]
fn shaped_and_affine_types_are_parsed() {
    let text = "\"t.u\"() {m = affine_map<(d0, d1)[s0] -> (d0 + d1 * 2, -(d0 floordiv 4))>, s = affine_set<(d0) : (d0 - 1 >= 0, d0 == 3)>} : (tensor<4x?xf32>, memref<2x3xi8, 1>, vector<[4]x2xf32>) -> tuple<i32, index>\n";
    let parsed = parse_text(text);
    let tree = parsed.tree();
    assert!(parsed.diagnostics().is_empty(), "{:?}", parsed.diagnostics());
    assert_eq!(count(tree, SyntaxKind::AffineMap), 1);
    assert_eq!(count(tree, SyntaxKind::IntegerSet), 1);
    assert_eq!(count(tree, SyntaxKind::AffineConstraint), 2);
    assert_eq!(count(tree, SyntaxKind::TensorType), 1);
    assert_eq!(count(tree, SyntaxKind::MemRefType), 1);
    assert_eq!(count(tree, SyntaxKind::MemRefMemorySpace), 1);
    assert_eq!(count(tree, SyntaxKind::VectorType), 1);
    assert_eq!(count(tree, SyntaxKind::TupleType), 1);
    assert_eq!(count(tree, SyntaxKind::ShapedDimension), 6);
    assert_eq!(tree.has_error(tree.root()), Some(false));
    // d0 + d1 * 2: two atoms for `d1 * 2`, their product, d0, and the sum; then
    // `-(d0 floordiv 4)`: d0, 4, the quotient, the group and the negation.
    let affine = count(tree, SyntaxKind::AffineExpression);
    assert!(affine >= 10, "{affine}");
}

#[test]
fn binary_affine_node_covers_both_operands() {
    let text = "\"o\"() {m = affine_map<(d0) -> (d0 + 1)>} : () -> ()";
    let parsed = parse_text(text);
    let tree = parsed.tree();
    assert!(parsed.diagnostics().is_empty());
    let ids: Vec<NodeId> = (0..tree.len())
        .map(NodeId::from_index)
        .filter(|id| tree.kind(*id) == Some(SyntaxKind::AffineExpression))
        .collect();
    assert_eq!(ids.len(), 3);
    // The sum comes first in pre-order and holds the two atoms.
    let sum = ids[0];
    assert_eq!(tree.children(sum).unwrap(), vec![ids[1], ids[2]]);
    let range = tree.text_range(sum).unwrap();
    let spelled = &text.as_bytes()[range.start() as usize..range.end() as usize];
    assert_eq!(spelled, b"d0 + 1");
}

#[test]
fn unit_entries_need_the_source_spelling() {
    let text = "\"a\"() {no_inline} : () -> ()";
    let without_source = parse_text(text);
    assert_eq!(without_source.diagnostics().len(), 2);
    let file = ParsedFile::parse(text.as_bytes().to_vec()).unwrap();
    assert!(file.syntax().diagnostics().is_empty());
}

#[test]
fn malformed_input_still_builds_a_tree() {
    let text = "\"broken\"( : ) -> \n}";
    let parsed = parse_text(text);
    let tree = parsed.tree();
    assert!(!parsed.diagnostics().is_empty());
    assert_eq!(tree.kind(tree.root()), Some(SyntaxKind::File));
    assert_eq!(tree.has_error(tree.root()), Some(true));
    assert_eq!(text_of(tree, text.as_bytes()), text.as_bytes());
}

#[test]
fn custom_operations_are_kept_unparsed() {
    let text = "func.func @f() {\n  \"x\"() : () -> ()\n}\n\"y\"() : () -> ()\n";
    let parsed = parse_text(text);
    let tree = parsed.tree();
    assert_eq!(count(tree, SyntaxKind::UnparsedCustomOperation), 1);
    assert_eq!(count(tree, SyntaxKind::Region), 1);
    assert_eq!(count(tree, SyntaxKind::Operation), 2);
    assert!(parsed
        .diagnostics()
        .iter()
        .any(|d| d.kind() == ParseDiagnosticKind::UnknownCustomOperation));
}

#[test]
fn alias_definitions_and_metadata_are_parsed() {
    let text = "#map = affine_map<(d0) -> (d0)>\n!ty = i32\n{-# dialect_resources: {} #-}\n";
    let parsed = parse_text(text);
    let tree = parsed.tree();
    assert!(parsed.diagnostics().is_empty(), "{:?}", parsed.diagnostics());
    assert_eq!(count(tree, SyntaxKind::AliasDefinition), 2);
    assert_eq!(count(tree, SyntaxKind::FileMetadata), 1);
    assert_eq!(count(tree, SyntaxKind::IntegerType), 1);
}

#[test]
fn nesting_beyond_the_limit_is_reported() {
    let text = "\"a\"() ({ \"b\"() ({ \"c\"() : () -> () }) : () -> () }) : () -> ()";
    let source = Source::new(text.as_bytes().to_vec()).unwrap();
    let lexed = lex(&source);
    let mut limits = ParserLimits::default();
    limits.max_delimiter_depth = 1;
    let parsed = parse_generic_operations_with_limits(&lexed, limits).unwrap();
    assert!(parsed
        .diagnostics()
        .iter()
        .any(|d| d.kind() == ParseDiagnosticKind::DepthLimit));
    assert_eq!(text_of(parsed.tree(), text.as_bytes()), text.as_bytes());
}

#[test]
fn oversized_numbers_become_wide_numbers() {
    let text = "\"a\"() {v = 123456789} : () -> ()";
    let source = Source::new(text.as_bytes().to_vec()).unwrap();
    let lexed = lex(&source);
    let mut limits = ParserLimits::default();
    limits.max_numeric_literal_bytes = 4;
    let parsed = parse_generic_operations_with_limits(&lexed, limits).unwrap();
    assert_eq!(count(parsed.tree(), SyntaxKind::WideNumber), 1);
    let diagnostic = parsed.diagnostics()[0];
    assert_eq!(diagnostic.kind(), ParseDiagnosticKind::Syntax);
    assert_eq!(
        (diagnostic.range().start(), diagnostic.range().end()),
        (11, 20)
    );
}

#[test]
fn parsed_file_keeps_the_original_bytes() {
    let text = b"\"keep\"() : () -> ()\n// done\n".to_vec();
    let file = ParsedFile::parse(text.clone()).unwrap();
    assert_eq!(file.original_bytes(), text.as_slice());
    assert!(file.lexer_diagnostics().is_empty());
    assert_eq!(file.max_attribute_depth(), 64);
    assert_eq!(file.max_alias_expansion_depth(), 64);
    let tree = file.syntax().tree();
    assert_eq!(text_of(tree, &text), text);
    assert_eq!(file.source().bytes(), text.as_slice());
    let mut sink = b">".to_vec();
    file.write_original(&mut sink);
    assert_eq!(&sink[1..], text.as_slice());
    assert_eq!(sink[0], b'>');
}

#[test]
fn parsed_file_refuses_files_over_the_limit() {
    let mut limits = ParseLimits::default();
    limits.max_file_bytes = 4;
    match ParsedFile::parse_with_limits(b"\"abc\"".to_vec(), limits) {
        Err(ParseFileError::ResourceLimit(e)) => {
            assert_eq!(e, ResourceLimitError { limit: 4, actual: 5 })
        }
        other => panic!("{other:?}"),
    }
}

#[test]
fn text_edits_reparse_the_whole_file() {
    let file = ParsedFile::parse(b"\"a\"() : () -> ()\n".to_vec()).unwrap();
    let edit = TextEdit {
        range: TextRange::new(1, 2).unwrap(),
        replacement: b"renamed".to_vec(),
    };
    let edited = file.apply_text_edits(&[edit]).unwrap();
    assert_eq!(edited.original_bytes(), b"\"renamed\"() : () -> ()\n");
    assert_eq!(count(edited.syntax().tree(), SyntaxKind::Operation), 1);
    let unchanged = file.apply_text_edits(&[]).unwrap();
    assert_eq!(unchanged.original_bytes(), file.original_bytes());
    let outside = TextEdit {
        range: TextRange::new(30, 31).unwrap(),
        replacement: Vec::new(),
    };
    assert!(matches!(
        file.apply_text_edits(&[outside]),
        Err(ApplyTextEditsError::Edit(_))
    ));
}

fn parse_with(registry: &DialectRegistry, text: &str) -> ParsedFile {
    ParsedFile::parse_with_registry(text.as_bytes().to_vec(), registry).unwrap()
}

#[test]
fn registered_assembly_programs_are_parsed() {
    let registry = DialectRegistry::proving();
    let text = "builtin.module {\n  func.func private @f(%a: i32, %b: i32) -> i32 {\n    %c = arith.constant 1 : i32\n    %s = arith.addi %a, %c overflow<nsw> : i32\n    cf.cond_br %b, ^bb1(%s : i32), ^bb2\n  ^bb1(%x: i32):\n    cf.br ^bb2\n  ^bb2:\n    func.return %s : i32\n  }\n}\n";
    let file = parse_with(&registry, text);
    let parsed = file.syntax();
    assert!(parsed.diagnostics().is_empty(), "{:?}", parsed.diagnostics());
    let tree = parsed.tree();
    assert_eq!(count(tree, SyntaxKind::UnparsedCustomOperation), 0);
    assert_eq!(count(tree, SyntaxKind::ArithConstantValue), 1);
    assert_eq!(count(tree, SyntaxKind::SuccessorList), 2);
    assert_eq!(count(tree, SyntaxKind::Successor), 3);
    assert_eq!(count(tree, SyntaxKind::Region), 2);
    assert_eq!(tree.has_error(tree.root()), Some(false));
    assert_eq!(text_of(tree, text.as_bytes()), text.as_bytes());
}

#[test]
fn the_core_catalog_spells_modules_without_a_dialect() {
    let registry = DialectRegistry::core_registry();
    let file = parse_with(&registry, "module {\n  func.return\n}\n");
    let parsed = file.syntax();
    assert!(parsed.diagnostics().is_empty(), "{:?}", parsed.diagnostics());
    assert_eq!(count(parsed.tree(), SyntaxKind::UnparsedCustomOperation), 0);
    assert_eq!(count(parsed.tree(), SyntaxKind::Region), 1);
}

#[test]
fn assembly_programs_report_what_they_miss() {
    let registry = DialectRegistry::proving();
    let file = parse_with(&registry, "%r = func.return %a, %b : i32\n");
    assert!(!file.syntax().diagnostics().is_empty());
    assert_eq!(file.syntax().tree().has_error(file.syntax().tree().root()), Some(true));
    let flags = parse_with(&registry, "%s = arith.addi %a, %b overflow<nsw, nsw> : i32\n");
    assert!(!flags.syntax().diagnostics().is_empty());
}

#[test]
fn shaped_operations_follow_their_registered_shape() {
    let registry =
        DialectRegistry::with_operation_shapes(&[("my.call", OperationShape::CallLike)]).unwrap();
    let file = parse_with(&registry, "%r = my.call @g(%x) {k = 1} : (i32) -> i32\n");
    let parsed = file.syntax();
    assert!(parsed.diagnostics().is_empty(), "{:?}", parsed.diagnostics());
    assert_eq!(count(parsed.tree(), SyntaxKind::DialectOperation), 1);
    assert_eq!(count(parsed.tree(), SyntaxKind::FunctionType), 1);
}

#[test]
fn the_same_text_without_a_registry_stays_unparsed() {
    let registry = DialectRegistry::proving();
    let text = "%c = arith.constant 1 : i32\n";
    let with = parse_with(&registry, text);
    let without = ParsedFile::parse(text.as_bytes().to_vec()).unwrap();
    assert_eq!(count(with.syntax().tree(), SyntaxKind::UnparsedCustomOperation), 0);
    assert_eq!(count(without.syntax().tree(), SyntaxKind::UnparsedCustomOperation), 1);
    let lexed = lex(&Source::new(text.as_bytes().to_vec()).unwrap());
    let direct = parse_operations_with_registry(
        &lexed,
        text.as_bytes(),
        &registry,
        ParserLimits::default(),
    )
    .unwrap();
    assert_eq!(kinds(direct.tree()), kinds(with.syntax().tree()));
}

fn dialect_operation_error(tree: &SyntaxTree) -> Option<bool> {
    let mut found = None;
    let mut i = 0;
    while i < tree.len() {
        let node = NodeId::from_index(i);
        if tree.kind(node) == Some(SyntaxKind::DialectOperation) {
            found = tree.has_error(node);
        }
        i += 1;
    }
    found
}

#[test]
fn return_counts_are_checked() {
    let registry = DialectRegistry::core_registry();
    let bad = parse_with(&registry, "func.return %a, %b : i32");
    assert!(bad
        .syntax()
        .diagnostics()
        .iter()
        .any(|d| d.kind() == ParseDiagnosticKind::Syntax));
    assert_eq!(dialect_operation_error(bad.syntax().tree()), Some(true));
    let good = parse_with(&registry, "func.return %a : i32");
    assert!(good.syntax().diagnostics().is_empty());
    assert_eq!(dialect_operation_error(good.syntax().tree()), Some(false));
    let untyped = parse_with(&registry, "func.return %a");
    assert_eq!(untyped.syntax().diagnostics().len(), 1);
    assert_eq!(dialect_operation_error(untyped.syntax().tree()), Some(true));
    let empty = parse_with(&registry, "func.return");
    assert!(empty.syntax().diagnostics().is_empty());
    assert_eq!(dialect_operation_error(empty.syntax().tree()), Some(false));
}

#[test]
fn function_declarations_parse_without_a_body() {
    let registry = DialectRegistry::core_registry();
    let file = parse_with(&registry, "func.func private @f(%arg0: i32) -> i32");
    assert!(file.syntax().diagnostics().is_empty(), "{:?}", file.syntax().diagnostics());
    assert_eq!(dialect_operation_error(file.syntax().tree()), Some(false));
    assert_eq!(count(file.syntax().tree(), SyntaxKind::Region), 0);
    let missing = parse_with(&registry, "func.func private (%arg0: i32)");
    assert_eq!(dialect_operation_error(missing.syntax().tree()), Some(true));
}

#[test]
fn a_bare_mnemonic_without_a_registry_is_unparsed_and_reported() {
    let file = ParsedFile::parse(b"func.func @f()".to_vec()).unwrap();
    let tree = file.syntax().tree();
    assert_eq!(tree.kind(NodeId::from_index(1)), Some(SyntaxKind::UnparsedCustomOperation));
    assert_eq!(tree.has_error(NodeId::from_index(1)), Some(true));
    assert_eq!(file.syntax().diagnostics()[0].kind(), ParseDiagnosticKind::UnknownCustomOperation);
    assert_eq!(file.syntax().diagnostics()[0].range(), TextRange::new(0, 9).unwrap());
    let generic = ParsedFile::parse(br#"%0 = "a.b"() : () -> i32"#.to_vec()).unwrap();
    assert_eq!(generic.syntax().tree().kind(NodeId::from_index(1)), Some(SyntaxKind::Operation));
}
