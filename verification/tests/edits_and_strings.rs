use zirium::diff::{path_indices, ChangeField, ChangeKind, DiffError, DiffLimits};
use zirium::parser::{apply_text_edits_to, ApplyTextEditsError, TextEdit, TextEditError};
use zirium::query::{decode_mlir_string, hex_digit, quote_mlir_string, EvaluationError};
use zirium::source::TextRange;

fn edit(start: u32, end: u32, text: &str) -> TextEdit {
    TextEdit { range: TextRange::new(start, end).unwrap(), replacement: text.as_bytes().to_vec() }
}

#[test]
fn edits_apply_in_order_of_position() {
    let out = apply_text_edits_to(b"hello world", &[edit(6, 11, "there"), edit(0, 5, "HELLO")]).unwrap();
    assert_eq!(out, b"HELLO there");
    let inserts = apply_text_edits_to(b"ab", &[edit(1, 1, "x"), edit(1, 1, "y")]).unwrap();
    assert_eq!(inserts, b"axyb");
    assert_eq!(apply_text_edits_to(b"same", &[]).unwrap(), b"same");
}

#[test]
fn bad_edits_are_reported() {
    match apply_text_edits_to(b"abc", &[edit(2, 4, "")]) {
        Err(ApplyTextEditsError::Edit(TextEditError::OutOfBounds(r))) => assert_eq!(r.end(), 4),
        other => panic!("{other:?}"),
    }
    match apply_text_edits_to(b"abcdef", &[edit(0, 3, ""), edit(2, 4, "")]) {
        Err(ApplyTextEditsError::Edit(TextEditError::Overlapping(r))) => assert_eq!(r.start(), 2),
        other => panic!("{other:?}"),
    }
}

#[test]
fn string_literals_round_trip() {
    for text in ["", "plain", "with \"quotes\"", "back\\slash", "unicode é"] {
        let quoted = quote_mlir_string(text);
        assert_eq!(decode_mlir_string(&quoted).as_deref(), Some(text));
    }
    assert_eq!(quote_mlir_string("a\"b"), "\"a\\\"b\"");
    assert_eq!(decode_mlir_string("\"\\41\\62\"").as_deref(), Some("Ab"));
    assert_eq!(decode_mlir_string("\"\\4\""), None);
    assert_eq!(decode_mlir_string("\"\\ff\""), None);
    assert_eq!(decode_mlir_string("nope"), None);
    assert_eq!(hex_digit(b'F'), Some(15));
    assert_eq!(hex_digit(b'g'), None);
    assert_eq!(EvaluationError::new("bad".to_owned()).message(), "bad");
}

#[test]
fn diff_vocabulary() {
    assert_eq!(ChangeKind::Moved.as_str(), "moved");
    assert_eq!(ChangeKind::from_name("added"), Ok(ChangeKind::Added));
    assert_eq!(
        ChangeKind::from_name("gone"),
        Err(DiffError::InvalidChangeKind("gone".to_owned()))
    );
    assert_eq!(ChangeField::ResultTypes.as_str(), "result_types");
    assert_eq!(ChangeField::from_name("position"), Ok(ChangeField::Position));
    assert_eq!(
        ChangeField::from_name("x"),
        Err(DiffError::InvalidField("x".to_owned()))
    );
    assert_eq!(ChangeField::all().len(), 10);
    let limits = DiffLimits::default();
    assert_eq!((limits.max_work, limits.max_changes), (10_000_000, 1_000_000));
    assert!(!DiffLimits { max_work: 0, max_changes: 1 }.is_valid());
    assert_eq!(path_indices("0/3/x/12"), vec![0, 3, 12]);
}

#[test]
fn edited_length_adds_and_removes() {
    let out = apply_text_edits_to(b"0123456789", &[edit(7, 9, ""), edit(1, 3, "abcde"), edit(5, 5, "z")]).unwrap();
    assert_eq!(out.len(), 10 - 2 + 5 + 1 - 2);
    assert_eq!(out, b"0abcde34z569");
}

#[test]
fn change_names_read_back() {
    for kind in [ChangeKind::Added, ChangeKind::Removed, ChangeKind::Modified, ChangeKind::Moved] {
        assert_eq!(ChangeKind::from_name(kind.as_str()), Ok(kind));
    }
    for field in ChangeField::all() {
        assert_eq!(ChangeField::from_name(field.as_str()), Ok(field));
    }
}

#[test]
fn quoting_keeps_unicode_text() {
    assert_eq!(quote_mlir_string("é\\ü\""), "\"é\\\\ü\\\"\"");
    let quoted = quote_mlir_string("日本 \"x\"");
    assert_eq!(decode_mlir_string(&quoted).as_deref(), Some("日本 \"x\""));
}

#[test]
fn edit_list_order_does_not_matter() {
    let a = [edit(0, 1, "A"), edit(4, 6, ""), edit(2, 2, "+")];
    let b = [edit(2, 2, "+"), edit(0, 1, "A"), edit(4, 6, "")];
    let first = apply_text_edits_to(b"abcdefg", &a).unwrap();
    let second = apply_text_edits_to(b"abcdefg", &b).unwrap();
    assert_eq!(first, second);
    assert_eq!(first, b"Ab+cdg");
}

#[test]
fn edits_with_distinct_ranges_apply_the_same_in_any_order() {
    let a = edit(0, 5, "HELLO");
    let b = edit(6, 11, "there");
    let c = edit(5, 5, ",");
    let first = apply_text_edits_to(b"hello world", &[a.clone(), b.clone(), c.clone()]).unwrap();
    let second = apply_text_edits_to(b"hello world", &[c.clone(), b.clone(), a.clone()]).unwrap();
    let third = apply_text_edits_to(b"hello world", &[b, a, c]).unwrap();
    assert_eq!(first, b"HELLO, there");
    assert_eq!(first, second);
    assert_eq!(first, third);
}
