use zirium::dialect::format::{FormatCapture, FormatError, FormatStep, OperationFormat};
use zirium::representation::SyntaxKind;

#[test]
fn compiles_legacy_and_composed_formats() {
    for format in [
        "$operands attr-dict `:` type($operands) `to` type($results)",
        "$operands attr-dict `:` type($operands) `into` type($results)",
        "$operands attr-dict `:` type($operands) `->` type($results)",
        "$value `:` type($value) attr-dict `:` type($result)",
        "$operands[0] `,` $operands[1] `:` type($operands) `->` type($results)",
        "$callee attr-dict",
        "$operands attr-dict `:` types($operands) `->` type($results)",
    ] {
        OperationFormat::parse(format).unwrap();
    }
}

#[test]
fn rejects_inconsistent_bindings() {
    for format in [
        "",
        "$value type($operands)",
        "$operands $operands",
        "$operands $operands[0]",
        "$operands[1]",
        "$operands attr-dict attr-dict",
        "$callee type($value)",
        "$operands types($results)",
    ] {
        assert!(OperationFormat::parse(format).is_err(), "accepted {format}");
    }
}

#[test]
fn each_rule_has_its_error() {
    let cases: [(&str, FormatError); 12] = [
        ("", FormatError::Empty),
        ("   ", FormatError::Empty),
        ("`x", FormatError::UnterminatedLiteral { offset: 0 }),
        ("`` attr-dict", FormatError::InvalidLiteral { offset: 1 }),
        ("`a b`", FormatError::InvalidLiteral { offset: 1 }),
        ("`a:b`", FormatError::LiteralNotOneToken { offset: 1 }),
        ("type($operands", FormatError::UnterminatedTypeDirective { offset: 0 }),
        ("$operands types($results)", FormatError::TypesOnlyAcceptsOperands { offset: 10 }),
        ("bogus", FormatError::UnknownDirective { offset: 0 }),
        ("type($nothing)", FormatError::UnknownTypeTarget { offset: 5 }),
        ("$operands attr-dict attr-dict", FormatError::RepeatedAttributeDictionary),
        ("$operands $operands[0]", FormatError::MixedOperands),
    ];
    for (text, expected) in cases {
        assert_eq!(OperationFormat::parse(text).unwrap_err(), expected, "{text}");
    }
    assert_eq!(
        OperationFormat::parse("$operands type($results, $results)").unwrap_err(),
        FormatError::EmptyOrDuplicateTargets { offset: 15 }
    );
    assert_eq!(OperationFormat::parse("$value $value").unwrap_err(), FormatError::RepeatedValueOrCallee);
    assert_eq!(OperationFormat::parse("$operands $operands").unwrap_err(), FormatError::RepeatedOperands);
    assert_eq!(OperationFormat::parse("$operands[1]").unwrap_err(), FormatError::UnorderedOperands);
    assert_eq!(OperationFormat::parse("$value $callee").unwrap_err(), FormatError::ValueWithOperands);
    assert_eq!(
        OperationFormat::parse("type($value) $value").unwrap_err(),
        FormatError::MisplacedValueType
    );
    assert_eq!(
        OperationFormat::parse("attr-dict type($operands)").unwrap_err(),
        FormatError::OperandsTypeWithoutCapture
    );
    assert_eq!(
        OperationFormat::parse("$operands[0] type($operands[1])").unwrap_err(),
        FormatError::UncapturedOperandType { index: 1 }
    );
    assert_eq!(
        OperationFormat::parse("$callee type($value)").unwrap_err(),
        FormatError::ValueTypeWithoutCapture
    );
    assert_eq!(
        OperationFormat::parse("$operands[0] type($operands) type($operands[0])").unwrap_err(),
        FormatError::OverlappingTarget
    );
    assert_eq!(
        OperationFormat::parse("$operands[0] type($operands[0]) type($operands[0])").unwrap_err(),
        FormatError::RepeatedTarget
    );
}

#[test]
fn value_capture_is_wrapped_in_a_constant_node() {
    let format = OperationFormat::parse("$value `:` type($value) attr-dict").unwrap();
    let steps = format.steps();
    assert_eq!(steps.len(), 8);
    assert_eq!(steps[0], FormatStep::Begin(SyntaxKind::ArithConstantValue));
    assert_eq!(steps[1], FormatStep::Capture(FormatCapture::Value));
    assert_eq!(steps[2], FormatStep::Literal(b":".to_vec()));
    assert_eq!(steps[3], FormatStep::Begin(SyntaxKind::FunctionType));
    assert_eq!(steps[5], FormatStep::End(SyntaxKind::FunctionType));
    assert_eq!(steps[6], FormatStep::End(SyntaxKind::ArithConstantValue));
    assert_eq!(steps[7], FormatStep::AttributeDictionary);
    assert_eq!(format.types().len(), 1);
    assert!(format.captures_value());
    assert!(!format.captures_callee());
    assert_eq!(format.description(), "$value `:` type($value) attr-dict");
    assert_eq!(format.identity_bytes(), b"$value `:` type($value) attr-dict");

    let untyped = OperationFormat::parse("$value attr-dict").unwrap();
    assert_eq!(
        untyped.steps().to_vec(),
        vec![
            FormatStep::Begin(SyntaxKind::ArithConstantValue),
            FormatStep::Capture(FormatCapture::Value),
            FormatStep::End(SyntaxKind::ArithConstantValue),
            FormatStep::AttributeDictionary,
        ]
    );
}
