use shapesql::interchange::EncodeError;
use shapesql::shape_ir::{NodeId, ValidationError, ValidationErrorKind};
use shapesql::{
    BindError, BindErrorKind, EvaluateError, EvaluationError, EvaluationErrorKind, FieldId,
    InputError, InputErrorKind, LexError, LexErrorKind, Name, ParseError, RelationBinding,
    ScalarType, SnapshotError, Span, SyntaxError, TokenKind, TypeDescriptor, TypeError,
    TypeErrorKind,
};

#[test]
fn lexical_errors_read_as_their_kind() {
    let error = LexError::new(LexErrorKind::UnexpectedCharacter('$'), 3, 4);
    assert_eq!(error.describe(), "unexpected character '$'");
    let error = LexError::new(LexErrorKind::UnterminatedTextLiteral, 0, 5);
    assert_eq!(error.describe(), "unterminated text literal");
    assert_eq!(ParseError::Lexical(error).describe(), "unterminated text literal");
}

#[test]
fn syntax_errors_name_what_was_expected_and_found() {
    let found = SyntaxError { expected: "FROM", found: Some(TokenKind::Select), span: Span::new(7, 13) };
    assert_eq!(found.describe(), "expected FROM, found Select");
    let ended = SyntaxError { expected: "expression", found: None, span: Span::new(9, 9) };
    assert_eq!(ParseError::Syntactic(ended).describe(), "expected expression, found end of input");
}

#[test]
fn binding_errors_quote_the_name() {
    let error = BindError { kind: BindErrorKind::UnknownRelation(Name::new("missing")), span: Span::new(0, 7) };
    assert_eq!(error.describe(), "unknown relation `missing`");
    let error = BindError {
        kind: BindErrorKind::CommonTableExpressionCycle(Name::new("a")),
        span: Span::new(0, 1),
    };
    assert_eq!(error.describe(), "common table expression cycle through `a`");
    let error = BindError {
        kind: BindErrorKind::OrderByOrdinalOutOfRange("3".to_string()),
        span: Span::new(0, 1),
    };
    assert_eq!(error.describe(), "ORDER BY ordinal `3` is out of range");
}

#[test]
fn type_errors_spell_scalar_types_and_counts() {
    let error = TypeError {
        kind: TypeErrorKind::TypeMismatch { expected: ScalarType::Int64, actual: ScalarType::Text },
        span: Span::new(0, 1),
    };
    assert_eq!(error.describe(), "expected Int64, found Text");
    let error = TypeError { kind: TypeErrorKind::SetArity { left: 2, right: 13 }, span: Span::new(0, 1) };
    assert_eq!(error.describe(), "set operands have arities 2 and 13");
    let error = TypeError { kind: TypeErrorKind::MissingFieldDescriptor(FieldId(42)), span: Span::new(0, 1) };
    assert_eq!(error.describe(), "field 42 has no type descriptor");
    let error = TypeError {
        kind: TypeErrorKind::IntegerOutOfRange("99999999999999999999".to_string()),
        span: Span::new(0, 1),
    };
    assert_eq!(error.describe(), "integer `99999999999999999999` is out of range");
}

#[test]
fn validation_errors_quote_identities() {
    let error = ValidationError {
        kind: ValidationErrorKind::CyclicGraph(NodeId::new("n4")),
        node: None,
    };
    assert_eq!(error.describe(), "cycle through node `n4`");
    let error = ValidationError { kind: ValidationErrorKind::NegativeSliceBound, node: None };
    assert_eq!(error.describe(), "slice bound is negative");
    assert_eq!(
        EncodeError::Validation(error).describe(),
        "invalid Shape IR graph: slice bound is negative"
    );
    assert_eq!(
        EncodeError::InvalidIdentifier("9x".to_string()).describe(),
        "identity `9x` is not interchange-compatible"
    );
}

#[test]
fn evaluation_errors_name_the_node_and_the_binding() {
    let error = InputError {
        node: NodeId::new("n0"),
        binding: RelationBinding::new("rows"),
        kind: InputErrorKind::FieldDescriptor {
            index: 1,
            expected: TypeDescriptor::non_nullable(ScalarType::Int64),
            actual: TypeDescriptor::nullable(ScalarType::Text),
        },
    };
    assert_eq!(
        error.describe(),
        "host binding `rows` for input node `n0` has descriptor TypeDescriptor { scalar: Text, nullable: true } \
         at position 1, expected TypeDescriptor { scalar: Int64, nullable: false }"
    );
    let error = InputError {
        node: NodeId::new("n0"),
        binding: RelationBinding::new("rows"),
        kind: InputErrorKind::InvalidValue {
            row: 0,
            field: 2,
            expected: TypeDescriptor::non_nullable(ScalarType::Boolean),
            actual: None,
        },
    };
    assert_eq!(
        EvaluateError::Input(error).describe(),
        "host binding `rows` for input node `n0` has value type None at row 0, field 2, expected \
         TypeDescriptor { scalar: Boolean, nullable: false }"
    );
    let error = EvaluationError {
        node: NodeId::new("n3"),
        kind: EvaluationErrorKind::InvalidTextCast { target: ScalarType::Int64 },
    };
    assert_eq!(error.describe(), "evaluation failed at node `n3`: invalid TEXT to Int64 cast");
    assert_eq!(
        SnapshotError::DuplicateBinding(RelationBinding::new("rows")).describe(),
        "duplicate snapshot binding `rows`"
    );
}
