use zirium::formatter::{AssemblyStyle, FormatError, FormatOptions, MAX_INDENT_WIDTH};
use zirium::parser::ParsedFile;

fn format(text: &str, options: FormatOptions) -> Result<Vec<u8>, FormatError> {
    ParsedFile::parse(text.as_bytes().to_vec())
        .unwrap()
        .formatted_bytes(options)
}

fn without_whitespace(bytes: &[u8]) -> Vec<u8> {
    bytes
        .iter()
        .copied()
        .filter(|b| !matches!(b, b' ' | b'\t' | b'\n' | b'\r' | 0x0c))
        .collect()
}

#[test]
fn spacing_is_normalized() {
    let out = format("\"a\"()   :   ()->()", FormatOptions::default()).unwrap();
    assert_eq!(out, b"\"a\"() : () -> ()\n");
}

#[test]
fn regions_indent_their_operations() {
    let text = "\"a\"() ({\n\"b\"() : () -> ()\n}) : () -> ()";
    let out = format(text, FormatOptions::default()).unwrap();
    assert_eq!(
        String::from_utf8(out).unwrap(),
        "\"a\"() ({\n  \"b\"() : () -> ()\n}) : () -> ()\n"
    );
    let wide = format(
        text,
        FormatOptions {
            indent_width: 4,
            ..FormatOptions::default()
        },
    )
    .unwrap();
    assert_eq!(
        String::from_utf8(wide).unwrap(),
        "\"a\"() ({\n    \"b\"() : () -> ()\n}) : () -> ()\n"
    );
}

#[test]
fn formatting_changes_only_whitespace() {
    let text = "// lead\n%0 = \"x.y\"(%a) {n = 1 : i64} : (i32) -> i32 loc(\"f\":1:2)\nfunc.func @g() {\n  ^bb0:\n}\n";
    let out = format(text, FormatOptions::default()).unwrap();
    assert_eq!(without_whitespace(&out), without_whitespace(text.as_bytes()));
}

#[test]
fn invalid_options_are_refused() {
    let zero = format("\"a\"() : () -> ()", FormatOptions {
        indent_width: 0,
        ..FormatOptions::default()
    });
    assert!(matches!(zero, Err(FormatError::InvalidIndentWidth(0))));
    let too_wide = format("\"a\"() : () -> ()", FormatOptions {
        indent_width: MAX_INDENT_WIDTH + 1,
        ..FormatOptions::default()
    });
    assert!(matches!(too_wide, Err(FormatError::InvalidIndentWidth(257))));
    let generic = format("\"a\"() : () -> ()", FormatOptions {
        assembly: AssemblyStyle::Generic,
        ..FormatOptions::default()
    });
    assert!(matches!(
        generic,
        Err(FormatError::GenericAssemblyRequiresSemantics)
    ));
}

#[test]
fn write_formatted_appends_to_the_sink() {
    let file = ParsedFile::parse(b"\"a\"() : () -> ()".to_vec()).unwrap();
    let mut sink = b"head\n".to_vec();
    file.write_formatted(&mut sink, FormatOptions::default()).unwrap();
    assert_eq!(sink, b"head\n\"a\"() : () -> ()\n");
    let mut untouched = b"keep".to_vec();
    assert!(file
        .write_formatted(
            &mut untouched,
            FormatOptions {
                indent_width: 0,
                ..FormatOptions::default()
            }
        )
        .is_err());
    assert_eq!(untouched, b"keep");
}

#[test]
fn blank_lines_survive_once_and_text_ends_its_line() {
    let out = format("\"a\"() : () -> ()\n\n\n\n\"b\"() : () -> ()", FormatOptions::default()).unwrap();
    assert_eq!(
        String::from_utf8(out).unwrap(),
        "\"a\"() : () -> ()\n\n\"b\"() : () -> ()\n"
    );
    assert_eq!(format("  \n", FormatOptions::default()).unwrap(), b"");
}
