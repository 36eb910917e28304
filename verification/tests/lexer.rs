use zirium::lexer::{lex, lex_with_limits, DiagnosticKind, LexerLimits, TokenKind};
use zirium::source::{Source, TextRange};

fn kinds(text: &str) -> Vec<TokenKind> {
    let source = Source::new(text.as_bytes().to_vec()).unwrap();
    lex(&source).tokens().iter().map(|t| t.kind()).collect()
}

#[test]
fn reconstruct_gives_back_the_source() {
    for text in [
        "",
        "%0 = \"test.op\"(%a) : (i32) -> i32 // trailing\n",
        "func.func @f() { return }",
        "\"unterminated",
        "#map = affine_map<(d0) -> (d0 floordiv 2)>",
    ] {
        let source = Source::new(text.as_bytes().to_vec()).unwrap();
        let lexed = lex(&source);
        assert_eq!(lexed.reconstruct(&source), text.as_bytes());
        assert_eq!(lexed.tokens().last().unwrap().kind(), TokenKind::Eof);
    }
}

#[test]
fn tokens_have_expected_kinds() {
    assert_eq!(
        kinds("%x = foo.bar"),
        vec![
            TokenKind::PercentIdentifier,
            TokenKind::Whitespace,
            TokenKind::Equal,
            TokenKind::Whitespace,
            TokenKind::BareIdentifier,
            TokenKind::Eof,
        ]
    );
    assert_eq!(kinds("->"), vec![TokenKind::Arrow, TokenKind::Eof]);
    assert_eq!(kinds("i32"), vec![TokenKind::IntType, TokenKind::Eof]);
}

#[test]
fn token_limit_is_reported() {
    let source = Source::new(b"a b c".to_vec()).unwrap();
    let lexed = lex_with_limits(&source, LexerLimits { max_file_bytes: 100, max_tokens: 2 });
    assert!(lexed
        .diagnostics()
        .iter()
        .any(|d| d.kind() == DiagnosticKind::TokenLimit));
    assert_eq!(lexed.reconstruct(&source), b"a b c");
}

#[test]
fn ranges_are_ordered() {
    assert!(TextRange::new(3, 2).is_none());
    let r = TextRange::new(2, 7).unwrap();
    assert_eq!((r.start(), r.end(), r.len()), (2, 7, 5));
    assert!(TextRange::new(4, 4).unwrap().is_empty());
}
