//! Static typing, nullability derivation, and semantic placement checks.
#![verifier::loop_isolation(false)]
use crate::ast::{
    AggregateFunction, BinaryOperator, JoinKind, NullPlacement, RankingFunction, UnaryOperator,
};
use crate::hir::{
    same_literal, structurally_equal, structurally_equivalent, AggregateArgument, AggregateWindow,
    BoundExpression, BoundFieldAnnotation, BoundProgram, BoundQueryExpression,
    CommonTableExpression, Expression, ExpressionKind, Field, Join, JoinedTable, LiteralValue,
    OrderItem, Program, QueryBody, QueryExpression, RelationOccurrence, RowBound, SelectField,
    SelectQuery, TablePrimary, TypedExpression, TypedField, TypedProgram, WhenClause,
};
use crate::identity::{CteId, FieldId};
use crate::lexer::Span;
use crate::lower::{decimal_digits, push_decimal};
use crate::types::{enclosed, enclosed_number, scalar_debug, scalar_debug_text, ScalarType, TypeDescriptor};
use vstd::prelude::*;
use vstd::utf8::encode_utf8;

verus! {

/// A violation of ShapeSQL static typing rules.
#[derive(Clone, Debug, PartialEq, Eq)]
pub struct TypeError {
    pub kind: TypeErrorKind,
    pub span: Span,
}

/// Typing failure categories. Exact diagnostic text is not normative.
#[derive(Clone, Debug, PartialEq, Eq)]
pub enum TypeErrorKind {
    UnconstrainedNull,
    IntegerOutOfRange(String),
    TypeMismatch { expected: ScalarType, actual: ScalarType },
    InvalidPredicate(ScalarType),
    UnsupportedCast { source: ScalarType, target: ScalarType },
    InQueryArity(usize),
    SetArity { left: usize, right: usize },
    InvalidAggregateArgument,
    InvalidCrossRowPlacement,
    HavingWithoutAggregate,
    UngroupedColumn,
    NullableOrderingWithoutPlacement,
    IncompleteRowNumberOrdering,
    IncompleteRowBoundOrdering,
    MissingFieldDescriptor(FieldId),
}

impl TypeError {
    /// A short description of the failure category.
    /// The error as one line of text.
    pub fn describe(&self) -> (text: String)
        ensures
            text@ == match self.kind {
                TypeErrorKind::UnconstrainedNull => "NULL has no scalar type context"@,
                TypeErrorKind::IntegerOutOfRange(value) => "integer `"@ + value@ + "` is out of range"@,
                TypeErrorKind::TypeMismatch { expected, actual } => "expected "@ + scalar_debug(expected)
                    + ", found "@ + scalar_debug(actual),
                TypeErrorKind::InvalidPredicate(actual) => "predicate has type "@ + scalar_debug(actual)
                    + ", not BOOLEAN"@,
                TypeErrorKind::UnsupportedCast { source, target } => "cannot cast "@ + scalar_debug(source)
                    + " to "@ + scalar_debug(target),
                TypeErrorKind::InQueryArity(arity) => "IN query has "@ + decimal_digits(arity as nat)
                    + " result fields, expected one"@,
                TypeErrorKind::SetArity { left, right } => "set operands have arities "@ + decimal_digits(
                    left as nat,
                ) + " and "@ + decimal_digits(right as nat),
                TypeErrorKind::InvalidAggregateArgument => "invalid aggregate argument"@,
                TypeErrorKind::InvalidCrossRowPlacement => "aggregate or ranking expression is not permitted here"@,
                TypeErrorKind::HavingWithoutAggregate => "HAVING requires an aggregate query"@,
                TypeErrorKind::UngroupedColumn => "expression is not group-valid"@,
                TypeErrorKind::NullableOrderingWithoutPlacement => "nullable ordering expression requires NULLS FIRST or LAST"@,
                TypeErrorKind::IncompleteRowNumberOrdering => "ROW_NUMBER ordering does not cover a complete row value"@,
                TypeErrorKind::IncompleteRowBoundOrdering => "row-bound ordering does not reference every result field"@,
                TypeErrorKind::MissingFieldDescriptor(field) => "field "@ + decimal_digits(field.0 as nat)
                    + " has no type descriptor"@,
            },
    {
        match &self.kind {
            TypeErrorKind::UnconstrainedNull => String::from_str("NULL has no scalar type context"),
            TypeErrorKind::IntegerOutOfRange(value) => enclosed("integer `", value.as_str(), "` is out of range"),
            TypeErrorKind::TypeMismatch { expected, actual } => {
                let mut text = enclosed("expected ", scalar_debug_text(*expected), ", found ");
                text.append(scalar_debug_text(*actual));
                text
            },
            TypeErrorKind::InvalidPredicate(actual) => enclosed(
                "predicate has type ",
                scalar_debug_text(*actual),
                ", not BOOLEAN",
            ),
            TypeErrorKind::UnsupportedCast { source, target } => {
                let mut text = enclosed("cannot cast ", scalar_debug_text(*source), " to ");
                text.append(scalar_debug_text(*target));
                text
            },
            TypeErrorKind::InQueryArity(arity) => enclosed_number(
                "IN query has ",
                *arity as u64,
                " result fields, expected one",
            ),
            TypeErrorKind::SetArity { left, right } => {
                let mut text = enclosed_number("set operands have arities ", *left as u64, " and ");
                push_decimal(&mut text, *right as u64);
                text
            },
            TypeErrorKind::InvalidAggregateArgument => String::from_str("invalid aggregate argument"),
            TypeErrorKind::InvalidCrossRowPlacement => String::from_str(
                "aggregate or ranking expression is not permitted here",
            ),
            TypeErrorKind::HavingWithoutAggregate => String::from_str("HAVING requires an aggregate query"),
            TypeErrorKind::UngroupedColumn => String::from_str("expression is not group-valid"),
            TypeErrorKind::NullableOrderingWithoutPlacement => String::from_str(
                "nullable ordering expression requires NULLS FIRST or LAST",
            ),
            TypeErrorKind::IncompleteRowNumberOrdering => String::from_str(
                "ROW_NUMBER ordering does not cover a complete row value",
            ),
            TypeErrorKind::IncompleteRowBoundOrdering => String::from_str(
                "row-bound ordering does not reference every result field",
            ),
            TypeErrorKind::MissingFieldDescriptor(field) => enclosed_number(
                "field ",
                field.0 as u64,
                " has no type descriptor",
            ),
        }
    }
}

// ---------------------------------------------------------------------------
// Scalar rules
// ---------------------------------------------------------------------------

fn ensure_scalar(expected: ScalarType, actual: ScalarType, span: Span) -> (r: Result<(), TypeError>)
    ensures
        r is Ok <==> expected == actual,
        r matches Err(e) ==> e == (TypeError {
            kind: TypeErrorKind::TypeMismatch { expected, actual },
            span,
        }),
{
    if expected == actual {
        Ok(())
    } else {
        Err(TypeError { kind: TypeErrorKind::TypeMismatch { expected, actual }, span })
    }
}

/// Casts are permitted between equal types and between TEXT and each other type.
pub open spec fn spec_cast_permitted(source: ScalarType, target: ScalarType) -> bool {
    source == target || (source == ScalarType::Int64 && target == ScalarType::Text) || (source
        == ScalarType::Text && target == ScalarType::Int64) || (source == ScalarType::Boolean
        && target == ScalarType::Text) || (source == ScalarType::Text && target
        == ScalarType::Boolean)
}

/// A cast exists between equal scalar types and between TEXT and any
/// other type, and between no other pair: no INT64 is cast to BOOLEAN, nor
/// a BOOLEAN to INT64.
pub proof fn lemma_casts_permitted(source: ScalarType, target: ScalarType)
    ensures
        spec_cast_permitted(source, target) <==> (source == target || source == ScalarType::Text || target
            == ScalarType::Text),
        !spec_cast_permitted(ScalarType::Int64, ScalarType::Boolean),
        !spec_cast_permitted(ScalarType::Boolean, ScalarType::Int64),
{
}

/// A typed CAST converts between equal types or between TEXT and another
/// type, and keeps its operand's nullability.
pub proof fn lemma_typed_cast(environment: Seq<(FieldId, TypeDescriptor)>, expression: TypedExpression)
    requires
        expression_typed(environment, expression),
        expression.kind is Cast,
    ensures
        ({
            let source = expression.kind->Cast_expression.annotation.scalar;
            let target = expression.kind->Cast_scalar_type;
            &&& source == target || source == ScalarType::Text || target == ScalarType::Text
            &&& expression.annotation.scalar == target
            &&& expression.annotation.nullable == expression.kind->Cast_expression.annotation.nullable
        }),
{
    lemma_casts_permitted(
        expression.kind->Cast_expression.annotation.scalar,
        expression.kind->Cast_scalar_type,
    );
}

fn cast_permitted(source: ScalarType, target: ScalarType) -> (r: bool)
    ensures
        r == spec_cast_permitted(source, target),
        r <==> (source == target || source == ScalarType::Text || target == ScalarType::Text),
{
    source == target || match (source, target) {
        (ScalarType::Int64, ScalarType::Text) => true,
        (ScalarType::Text, ScalarType::Int64) => true,
        (ScalarType::Boolean, ScalarType::Text) => true,
        (ScalarType::Text, ScalarType::Boolean) => true,
        _ => false,
    }
}

/// Combines optional scalar hints: the first known type wins, and every
/// later known type must agree with it.
pub open spec fn spec_common_hint(
    first: Option<ScalarType>,
    second: Option<ScalarType>,
    third: Option<ScalarType>,
) -> Option<Option<ScalarType>> {
    let after_second = match (first, second) {
        (Some(a), Some(b)) => if a == b {
            Some(Some(a))
        } else {
            None
        },
        (Some(a), None) => Some(Some(a)),
        (None, b) => Some(b),
    };
    match after_second {
        None => None,
        Some(common) => match (common, third) {
            (Some(a), Some(b)) => if a == b {
                Some(Some(a))
            } else {
                None
            },
            (Some(a), None) => Some(Some(a)),
            (None, b) => Some(b),
        },
    }
}

fn common_hint(
    first: Option<ScalarType>,
    second: Option<ScalarType>,
    third: Option<ScalarType>,
    span: Span,
) -> (r: Result<Option<ScalarType>, TypeError>)
    ensures
        match spec_common_hint(first, second, third) {
            Some(common) => r == Ok::<Option<ScalarType>, TypeError>(common),
            None => r matches Err(e) && e.kind is TypeMismatch && e.span == span,
        },
{
    let mut common = first;
    match second {
        Some(candidate) => match common {
            Some(existing) => {
                ensure_scalar(existing, candidate, span)?;
            },
            None => {
                common = Some(candidate);
            },
        },
        None => {},
    }
    match third {
        Some(candidate) => match common {
            Some(existing) => {
                ensure_scalar(existing, candidate, span)?;
            },
            None => {
                common = Some(candidate);
            },
        },
        None => {},
    }
    Ok(common)
}

/// The value of the decimal digits `digits`.
pub open spec fn digits_value(digits: Seq<u8>) -> nat
    decreases digits.len(),
{
    if digits.len() == 0 {
        0
    } else {
        digits_value(digits.drop_last()) * 10 + (digits.last() - 48) as nat
    }
}

pub open spec fn is_digit_string(bytes: Seq<u8>) -> bool {
    bytes.len() > 0 && forall|k: int| 0 <= k < bytes.len() ==> 48 <= #[trigger] bytes[k] <= 57
}

/// Whether the UTF-8 bytes spell a signed 64-bit integer: an optional sign,
/// then decimal digits whose value lies in the INT64 range.
pub open spec fn spells_int64(bytes: Seq<u8>) -> bool {
    let negative = bytes.len() > 0 && bytes[0] == 45;
    let signed = bytes.len() > 0 && (bytes[0] == 45 || bytes[0] == 43);
    let digits = if signed {
        bytes.subrange(1, bytes.len() as int)
    } else {
        bytes
    };
    is_digit_string(digits) && if negative {
        digits_value(digits) <= 9223372036854775808
    } else {
        digits_value(digits) <= 9223372036854775807
    }
}

proof fn lemma_digits_prefix(digits: Seq<u8>, prefix: int)
    requires
        0 <= prefix <= digits.len(),
        forall|k: int| 0 <= k < digits.len() ==> 48 <= #[trigger] digits[k] <= 57,
    ensures
        digits_value(digits.subrange(0, prefix)) <= digits_value(digits),
    decreases digits.len() - prefix,
{
    if prefix < digits.len() {
        lemma_digits_prefix(digits.drop_last(), prefix);
        assert(digits.drop_last().subrange(0, prefix) =~= digits.subrange(0, prefix));
    } else {
        assert(digits.subrange(0, prefix) =~= digits);
    }
}

/// Whether an integer spelling denotes an INT64 value.
fn fits_int64(spelling: &String) -> (r: bool)
    ensures
        r == spells_int64(encode_utf8(spelling@)),
{
    let bytes = spelling.as_str().as_bytes();
    let ghost all = encode_utf8(spelling@);
    assert(bytes@ == all);
    let length = bytes.len();
    if length == 0 {
        return false;
    }
    let negative = bytes[0] == 45;
    let start: usize = if bytes[0] == 45 || bytes[0] == 43 {
        1
    } else {
        0
    };
    let ghost digits = bytes@.subrange(start as int, length as int);
    assert(digits =~= (if bytes@[0] == 45 || bytes@[0] == 43 {
        bytes@.subrange(1, bytes@.len() as int)
    } else {
        bytes@
    }));
    if start == length {
        return false;
    }
    let limit: u64 = if negative {
        9223372036854775808
    } else {
        9223372036854775807
    };
    let mut value: u64 = 0;
    let mut index = start;
    while index < length
        invariant
            start <= index <= length == bytes@.len(),
            start < length,
            digits == bytes@.subrange(start as int, length as int),
            forall|k: int| 0 <= k < index - start ==> 48 <= #[trigger] digits[k] <= 57,
            value == digits_value(digits.subrange(0, index - start)),
            value <= limit,
        decreases length - index,
    {
        let byte = bytes[index];
        if byte < 48 || byte > 57 {
            assert(digits[index - start] == byte);
            return false;
        }
        let ghost next = digits.subrange(0, index + 1 - start);
        assert(next.drop_last() =~= digits.subrange(0, index - start));
        let digit = (byte - 48) as u64;
        assert(digits_value(next) == value * 10 + digit);
        if value > (limit - digit) / 10 || digit > limit {
            assert(value * 10 + digit > limit) by (nonlinear_arith)
                requires
                    value > (limit - digit) / 10 || digit > limit,
                    digit <= 9,
            ;
            proof {
                if is_digit_string(digits) {
                    lemma_digits_prefix(digits, index + 1 - start);
                }
            }
            return false;
        }
        assert(value * 10 + digit <= limit) by (nonlinear_arith)
            requires
                digit <= limit,
                value <= (limit - digit) / 10,
        ;
        value = value * 10 + digit;
        index = index + 1;
    }
    assert(digits.subrange(0, length - start) =~= digits);
    true
}

/// The INT64 value that the UTF-8 bytes spell, where they spell one.
pub open spec fn int64_value(bytes: Seq<u8>) -> int {
    let negative = bytes.len() > 0 && bytes[0] == 45;
    let signed = bytes.len() > 0 && (bytes[0] == 45 || bytes[0] == 43);
    let digits = if signed {
        bytes.subrange(1, bytes.len() as int)
    } else {
        bytes
    };
    if negative {
        -digits_value(digits)
    } else {
        digits_value(digits) as int
    }
}

/// Reads an INT64 spelling: an optional sign, then decimal digits.
pub(crate) fn parse_int64(spelling: &String) -> (r: Option<i64>)
    ensures
        r is Some == spells_int64(encode_utf8(spelling@)),
        r matches Some(v) ==> v == int64_value(encode_utf8(spelling@)),
{
    if !fits_int64(spelling) {
        return None;
    }
    let bytes = spelling.as_str().as_bytes();
    let length = bytes.len();
    let negative = bytes[0] == 45;
    let start: usize = if bytes[0] == 45 || bytes[0] == 43 {
        1
    } else {
        0
    };
    let ghost digits = bytes@.subrange(start as int, length as int);
    assert(digits =~= (if bytes@[0] == 45 || bytes@[0] == 43 {
        bytes@.subrange(1, bytes@.len() as int)
    } else {
        bytes@
    }));
    let limit: u64 = if negative {
        9223372036854775808
    } else {
        9223372036854775807
    };
    let mut value: u64 = 0;
    let mut index = start;
    while index < length
        invariant
            start <= index <= length == bytes@.len(),
            digits == bytes@.subrange(start as int, length as int),
            is_digit_string(digits),
            digits_value(digits) <= limit,
            value == digits_value(digits.subrange(0, index - start)),
        decreases length - index,
    {
        let ghost next = digits.subrange(0, index + 1 - start);
        assert(next.drop_last() =~= digits.subrange(0, index - start));
        assert(48 <= digits[index - start] <= 57);
        let digit = (bytes[index] - 48) as u64;
        proof {
            lemma_digits_prefix(digits, index + 1 - start);
        }
        assert(digits_value(next) == value * 10 + digit);
        value = value * 10 + digit;
        index = index + 1;
    }
    assert(digits.subrange(0, length - start) =~= digits);
    if negative {
        if value == 9223372036854775808 {
            Some(i64::MIN)
        } else {
            Some(-(value as i64))
        }
    } else {
        Some(value as i64)
    }
}

/// The bytes of `9223372036854775808`, the magnitude of the minimum INT64.
pub open spec fn min_magnitude_bytes() -> Seq<u8> {
    seq![57u8, 50, 50, 51, 51, 55, 50, 48, 51, 54, 56, 53, 52, 55, 55, 53, 56, 48, 56]
}

/// Whether a spelling is exactly `9223372036854775808`.
fn is_min_magnitude(spelling: &String) -> (r: bool)
    ensures
        r == (encode_utf8(spelling@) == min_magnitude_bytes()),
{
    let expected: [u8; 19] = [57, 50, 50, 51, 51, 55, 50, 48, 51, 54, 56, 53, 52, 55, 55, 53, 56, 48, 56];
    let bytes = spelling.as_str().as_bytes();
    assert(expected@ =~= min_magnitude_bytes());
    if bytes.len() != 19 {
        return false;
    }
    let mut index: usize = 0;
    while index < 19
        invariant
            index <= 19,
            bytes@.len() == 19,
            bytes@ == encode_utf8(spelling@),
            expected@ == min_magnitude_bytes(),
            forall|k: int| 0 <= k < index ==> bytes@[k] == expected@[k],
        decreases 19 - index,
    {
        if bytes[index] != expected[index] {
            return false;
        }
        index = index + 1;
    }
    assert(bytes@ =~= expected@);
    true
}


// ---------------------------------------------------------------------------
// Field environments
// ---------------------------------------------------------------------------

/// The descriptors of fields by identity; a later entry overrides an earlier one.
pub type FieldEnvironment = Vec<(FieldId, TypeDescriptor)>;

/// The descriptor that `environment` gives field `id`: its last entry for `id`.
pub open spec fn env_lookup(environment: Seq<(FieldId, TypeDescriptor)>, id: FieldId) -> Option<
    TypeDescriptor,
>
    decreases environment.len(),
{
    if environment.len() == 0 {
        None
    } else if environment.last().0 == id {
        Some(environment.last().1)
    } else {
        env_lookup(environment.drop_last(), id)
    }
}

pub open spec fn field_entries(fields: Seq<TypedField>) -> Seq<(FieldId, TypeDescriptor)> {
    fields.map_values(|field: TypedField| (field.id, field.annotation))
}

fn environment(fields: &[TypedField]) -> (environment: FieldEnvironment)
    ensures
        environment@ == field_entries(fields@),
{
    let mut environment: FieldEnvironment = Vec::new();
    extend_environment(&mut environment, fields);
    assert(environment@ =~= field_entries(fields@));
    environment
}

fn extend_environment(environment: &mut FieldEnvironment, fields: &[TypedField])
    ensures
        final(environment)@ == old(environment)@ + field_entries(fields@),
{
    let mut index: usize = 0;
    while index < fields.len()
        invariant
            index <= fields@.len(),
            environment@ == old(environment)@ + field_entries(fields@.subrange(0, index as int)),
        decreases fields@.len() - index,
    {
        environment.push((fields[index].id, fields[index].annotation));
        assert(field_entries(fields@.subrange(0, index + 1)) =~= field_entries(
            fields@.subrange(0, index as int),
        ).push((fields@[index as int].id, fields@[index as int].annotation)));
        index = index + 1;
    }
    assert(fields@.subrange(0, fields@.len() as int) =~= fields@);
}

fn lookup(environment: &FieldEnvironment, id: FieldId) -> (r: Option<TypeDescriptor>)
    ensures
        r == env_lookup(environment@, id),
{
    let mut remaining = environment.len();
    assert(environment@.subrange(0, remaining as int) =~= environment@);
    while remaining > 0
        invariant
            remaining <= environment@.len(),
            env_lookup(environment@, id) == env_lookup(environment@.subrange(0, remaining as int), id),
        decreases remaining,
    {
        let ghost prefix = environment@.subrange(0, remaining as int);
        assert(prefix.drop_last() =~= environment@.subrange(0, remaining - 1));
        let entry = environment[remaining - 1];
        if entry.0 == id {
            return Some(entry.1);
        }
        remaining = remaining - 1;
    }
    None
}

// ---------------------------------------------------------------------------
// Operator and aggregate rules
// ---------------------------------------------------------------------------

pub open spec fn unary_operand(operator: UnaryOperator) -> ScalarType {
    match operator {
        UnaryOperator::Positive => ScalarType::Int64,
        UnaryOperator::Negative => ScalarType::Int64,
        UnaryOperator::Not => ScalarType::Boolean,
    }
}

pub open spec fn is_comparison(operator: BinaryOperator) -> bool {
    operator == BinaryOperator::Equal || operator == BinaryOperator::NotEqual || operator
        == BinaryOperator::Less || operator == BinaryOperator::LessEqual || operator
        == BinaryOperator::Greater || operator == BinaryOperator::GreaterEqual
}

/// The operand type of a non-comparison operator.
pub open spec fn binary_operand(operator: BinaryOperator) -> ScalarType {
    match operator {
        BinaryOperator::Concatenate => ScalarType::Text,
        BinaryOperator::And => ScalarType::Boolean,
        BinaryOperator::Or => ScalarType::Boolean,
        _ => ScalarType::Int64,
    }
}

pub open spec fn binary_result(operator: BinaryOperator) -> ScalarType {
    if is_comparison(operator) || operator == BinaryOperator::And || operator
        == BinaryOperator::Or {
        ScalarType::Boolean
    } else if operator == BinaryOperator::Concatenate {
        ScalarType::Text
    } else {
        ScalarType::Int64
    }
}

/// The typing of operators: +, -, *, / and % take and give INT64; ||
/// takes and gives TEXT; AND and OR take and give BOOLEAN; a comparison
/// gives BOOLEAN; unary + and - take INT64 and NOT takes BOOLEAN.
pub proof fn lemma_operator_types(operator: BinaryOperator)
    ensures
        (operator == BinaryOperator::Add || operator == BinaryOperator::Subtract || operator
            == BinaryOperator::Multiply || operator == BinaryOperator::Divide || operator
            == BinaryOperator::Remainder) ==> !is_comparison(operator) && binary_operand(operator)
            == ScalarType::Int64 && binary_result(operator) == ScalarType::Int64,
        operator == BinaryOperator::Concatenate ==> !is_comparison(operator) && binary_operand(operator)
            == ScalarType::Text && binary_result(operator) == ScalarType::Text,
        (operator == BinaryOperator::And || operator == BinaryOperator::Or) ==> !is_comparison(operator)
            && binary_operand(operator) == ScalarType::Boolean && binary_result(operator) == ScalarType::Boolean,
        (operator == BinaryOperator::Equal || operator == BinaryOperator::NotEqual || operator
            == BinaryOperator::Less || operator == BinaryOperator::LessEqual || operator
            == BinaryOperator::Greater || operator == BinaryOperator::GreaterEqual) ==> is_comparison(operator)
            && binary_result(operator) == ScalarType::Boolean,
        unary_operand(UnaryOperator::Positive) == ScalarType::Int64,
        unary_operand(UnaryOperator::Negative) == ScalarType::Int64,
        unary_operand(UnaryOperator::Not) == ScalarType::Boolean,
{
}

fn unary_operand_type(operator: UnaryOperator) -> (t: ScalarType)
    ensures
        t == unary_operand(operator),
{
    match operator {
        UnaryOperator::Positive => ScalarType::Int64,
        UnaryOperator::Negative => ScalarType::Int64,
        UnaryOperator::Not => ScalarType::Boolean,
    }
}

fn comparison(operator: BinaryOperator) -> (r: bool)
    ensures
        r == is_comparison(operator),
{
    match operator {
        BinaryOperator::Equal => true,
        BinaryOperator::NotEqual => true,
        BinaryOperator::Less => true,
        BinaryOperator::LessEqual => true,
        BinaryOperator::Greater => true,
        BinaryOperator::GreaterEqual => true,
        _ => false,
    }
}

fn binary_operand_type(operator: BinaryOperator) -> (t: ScalarType)
    ensures
        t == binary_operand(operator),
{
    match operator {
        BinaryOperator::Concatenate => ScalarType::Text,
        BinaryOperator::And => ScalarType::Boolean,
        BinaryOperator::Or => ScalarType::Boolean,
        _ => ScalarType::Int64,
    }
}

fn binary_result_type(operator: BinaryOperator) -> (t: ScalarType)
    ensures
        t == binary_result(operator),
{
    match operator {
        BinaryOperator::Equal => ScalarType::Boolean,
        BinaryOperator::NotEqual => ScalarType::Boolean,
        BinaryOperator::Less => ScalarType::Boolean,
        BinaryOperator::LessEqual => ScalarType::Boolean,
        BinaryOperator::Greater => ScalarType::Boolean,
        BinaryOperator::GreaterEqual => ScalarType::Boolean,
        BinaryOperator::And => ScalarType::Boolean,
        BinaryOperator::Or => ScalarType::Boolean,
        BinaryOperator::Concatenate => ScalarType::Text,
        _ => ScalarType::Int64,
    }
}

/// Which arguments an aggregate function accepts.
pub open spec fn aggregate_signature_ok(
    function: AggregateFunction,
    argument: AggregateArgument<TypeDescriptor, TypeDescriptor>,
) -> bool {
    match argument {
        AggregateArgument::Star(_) => function == AggregateFunction::Count,
        AggregateArgument::Expression(e) => match function {
            AggregateFunction::Sum => e.annotation.scalar == ScalarType::Int64,
            AggregateFunction::BoolAnd => e.annotation.scalar == ScalarType::Boolean,
            AggregateFunction::BoolOr => e.annotation.scalar == ScalarType::Boolean,
            _ => true,
        },
    }
}

/// The descriptor of an aggregate: counts are never NULL; every other
/// aggregate is NULL over no rows.
pub open spec fn spec_aggregate_descriptor(
    function: AggregateFunction,
    argument: AggregateArgument<TypeDescriptor, TypeDescriptor>,
) -> TypeDescriptor {
    match function {
        AggregateFunction::Count => TypeDescriptor { scalar: ScalarType::Int64, nullable: false },
        AggregateFunction::Sum => TypeDescriptor { scalar: ScalarType::Int64, nullable: true },
        AggregateFunction::BoolAnd => TypeDescriptor { scalar: ScalarType::Boolean, nullable: true },
        AggregateFunction::BoolOr => TypeDescriptor { scalar: ScalarType::Boolean, nullable: true },
        _ => TypeDescriptor {
            scalar: match argument {
                AggregateArgument::Expression(e) => e.annotation.scalar,
                AggregateArgument::Star(_) => ScalarType::Int64,
            },
            nullable: true,
        },
    }
}

fn validate_aggregate_signature(
    function: AggregateFunction,
    argument: &AggregateArgument<TypeDescriptor, TypeDescriptor>,
    span: Span,
) -> (r: Result<(), TypeError>)
    ensures
        r is Ok <==> aggregate_signature_ok(function, *argument),
        r matches Err(e) ==> e == (TypeError { kind: TypeErrorKind::InvalidAggregateArgument, span }),
{
    let valid = match argument {
        AggregateArgument::Star(_) => match function {
            AggregateFunction::Count => true,
            _ => false,
        },
        AggregateArgument::Expression(expression) => match function {
            AggregateFunction::Sum => expression.annotation.scalar == ScalarType::Int64,
            AggregateFunction::BoolAnd => expression.annotation.scalar == ScalarType::Boolean,
            AggregateFunction::BoolOr => expression.annotation.scalar == ScalarType::Boolean,
            _ => true,
        },
    };
    if valid {
        Ok(())
    } else {
        Err(TypeError { kind: TypeErrorKind::InvalidAggregateArgument, span })
    }
}

fn aggregate_descriptor(
    function: AggregateFunction,
    argument: &AggregateArgument<TypeDescriptor, TypeDescriptor>,
) -> (descriptor: TypeDescriptor)
    ensures
        descriptor == spec_aggregate_descriptor(function, *argument),
{
    match function {
        AggregateFunction::Count => TypeDescriptor::non_nullable(ScalarType::Int64),
        AggregateFunction::Sum => TypeDescriptor::nullable(ScalarType::Int64),
        AggregateFunction::BoolAnd => TypeDescriptor::nullable(ScalarType::Boolean),
        AggregateFunction::BoolOr => TypeDescriptor::nullable(ScalarType::Boolean),
        _ => TypeDescriptor::nullable(
            match argument {
                AggregateArgument::Expression(expression) => expression.annotation.scalar,
                AggregateArgument::Star(_) => ScalarType::Int64,
            },
        ),
    }
}

/// A nullable ordering expression names where NULLs sort.
pub open spec fn order_nullability_ok(
    expression: TypedExpression,
    placement: Option<NullPlacement>,
) -> bool {
    !(expression.annotation.nullable && placement is None)
}

fn validate_order_nullability(
    expression: &TypedExpression,
    placement: Option<NullPlacement>,
) -> (r: Result<(), TypeError>)
    ensures
        r is Ok <==> order_nullability_ok(*expression, placement),
        r matches Err(e) ==> e == (TypeError {
            kind: TypeErrorKind::NullableOrderingWithoutPlacement,
            span: expression.span,
        }),
{
    if expression.annotation.nullable && placement.is_none() {
        Err(TypeError { kind: TypeErrorKind::NullableOrderingWithoutPlacement, span: expression.span })
    } else {
        Ok(())
    }
}

/// The field an expression is, looking through parentheses.
pub open spec fn spec_direct_field<E, F>(expression: Expression<E, F>) -> Option<FieldId>
    decreases expression,
{
    match expression.kind {
        ExpressionKind::Field(field) => Some(field),
        ExpressionKind::Parenthesized(inner) => spec_direct_field(*inner),
        _ => None,
    }
}

fn direct_field<E, F>(expression: &Expression<E, F>) -> (field: Option<FieldId>)
    ensures
        field == spec_direct_field(*expression),
    decreases *expression,
{
    match &expression.kind {
        ExpressionKind::Field(field) => Some(*field),
        ExpressionKind::Parenthesized(inner) => direct_field(inner),
        _ => None,
    }
}

/// Whether some ordering item is directly the field `id`.
pub open spec fn directly_ordered<E, F>(order_by: Seq<OrderItem<E, F>>, id: FieldId) -> bool {
    exists|k: int| 0 <= k < order_by.len() && spec_direct_field(#[trigger] order_by[k].expression) == Some(id)
}

fn is_directly_ordered<E, F>(order_by: &[OrderItem<E, F>], id: FieldId) -> (r: bool)
    ensures
        r == directly_ordered(order_by@, id),
{
    let mut index: usize = 0;
    while index < order_by.len()
        invariant
            index <= order_by@.len(),
            forall|k: int| 0 <= k < index ==> spec_direct_field(#[trigger] order_by@[k].expression) != Some(id),
        decreases order_by@.len() - index,
    {
        if direct_field(&order_by[index].expression) == Some(id) {
            return true;
        }
        index = index + 1;
    }
    false
}

fn contains_field(fields: &Vec<FieldId>, id: FieldId) -> (r: bool)
    ensures
        r == fields@.contains(id),
{
    let mut index: usize = 0;
    while index < fields.len()
        invariant
            index <= fields@.len(),
            forall|k: int| 0 <= k < index ==> fields@[k] != id,
        decreases fields@.len() - index,
    {
        if fields[index] == id {
            assert(fields@[index as int] == id);
            return true;
        }
        index = index + 1;
    }
    false
}


// ---------------------------------------------------------------------------
// Placement of cross-row expressions
// ---------------------------------------------------------------------------

/// Where grouping aggregates and window expressions may stand.
#[derive(Clone, Copy)]
struct Placement {
    grouping: bool,
    window: bool,
}

spec fn nowhere() -> Placement {
    Placement { grouping: false, window: false }
}

/// Whether every aggregate and ranking expression stands where `placement`
/// permits it; their own arguments permit neither.
spec fn placement_ok(expression: BoundExpression, placement: Placement) -> bool
    decreases expression,
{
    match expression.kind {
        ExpressionKind::Aggregate { argument, window, .. } => (if window is Some {
            placement.window
        } else {
            placement.grouping
        }) && (match argument {
            AggregateArgument::Expression(a) => placement_ok(*a, nowhere()),
            AggregateArgument::Star(_) => true,
        }) && (match window {
            Some(w) => forall|k: int|
                0 <= k < w.partition_by@.len() ==> placement_ok(#[trigger] w.partition_by@[k], nowhere()),
            None => true,
        }),
        ExpressionKind::Ranking { partition_by, order_by, .. } => placement.window && (forall|k: int|
            0 <= k < partition_by@.len() ==> placement_ok(#[trigger] partition_by@[k], nowhere()))
            && forall|k: int|
            0 <= k < order_by@.len() ==> placement_ok(#[trigger] order_by@[k].expression, nowhere()),
        ExpressionKind::Parenthesized(inner) => placement_ok(*inner, placement),
        ExpressionKind::Unary { expression: inner, .. } => placement_ok(*inner, placement),
        ExpressionKind::IsNull { expression: inner, .. } => placement_ok(*inner, placement),
        ExpressionKind::Cast { expression: inner, .. } => placement_ok(*inner, placement),
        ExpressionKind::Binary { left, right, .. } => placement_ok(*left, placement) && placement_ok(
            *right,
            placement,
        ),
        ExpressionKind::InList { expression: inner, values, .. } => placement_ok(*inner, placement)
            && forall|k: int| 0 <= k < values@.len() ==> placement_ok(#[trigger] values@[k], placement),
        ExpressionKind::InQuery { expression: inner, .. } => placement_ok(*inner, placement),
        ExpressionKind::Case { branches, else_expression } => (forall|k: int|
            0 <= k < branches@.len() ==> placement_ok(#[trigger] branches@[k].condition, placement)
                && placement_ok(branches@[k].result, placement)) && match else_expression {
            Some(e) => placement_ok(*e, placement),
            None => true,
        },
        _ => true,
    }
}

fn validate_placement(expression: &BoundExpression, placement: Placement) -> (r: Result<(), TypeError>)
    ensures
        r is Ok <==> placement_ok(*expression, placement),
        r matches Err(e) ==> e.kind is InvalidCrossRowPlacement,
    decreases *expression,
{
    let none = Placement { grouping: false, window: false };
    match &expression.kind {
        ExpressionKind::Aggregate { argument, window, .. } => {
            let permitted = if window.is_some() {
                placement.window
            } else {
                placement.grouping
            };
            if !permitted {
                return Err(TypeError { kind: TypeErrorKind::InvalidCrossRowPlacement, span: expression.span });
            }
            match argument {
                AggregateArgument::Expression(inner) => validate_placement(inner, none)?,
                AggregateArgument::Star(_) => {},
            }
            match window {
                Some(w) => validate_all_placements(&w.partition_by, none, Ghost(*expression))?,
                None => {},
            }
            Ok(())
        },
        ExpressionKind::Ranking { partition_by, order_by, .. } => {
            if !placement.window {
                return Err(TypeError { kind: TypeErrorKind::InvalidCrossRowPlacement, span: expression.span });
            }
            validate_all_placements(partition_by, none, Ghost(*expression))?;
            let mut index: usize = 0;
            while index < order_by.len()
                invariant
                    index <= order_by@.len(),
                    forall|k: int| 0 <= k < index ==> placement_ok(#[trigger] order_by@[k].expression, nowhere()),
                decreases order_by@.len() - index,
            {
                assert(decreases_to!(*expression => order_by@[index as int].expression));
                validate_placement(&order_by[index].expression, none)?;
                index = index + 1;
            }
            Ok(())
        },
        ExpressionKind::Parenthesized(inner) => validate_placement(inner, placement),
        ExpressionKind::Unary { expression: inner, .. } => validate_placement(inner, placement),
        ExpressionKind::IsNull { expression: inner, .. } => validate_placement(inner, placement),
        ExpressionKind::Cast { expression: inner, .. } => validate_placement(inner, placement),
        ExpressionKind::Binary { left, right, .. } => {
            validate_placement(left, placement)?;
            validate_placement(right, placement)
        },
        ExpressionKind::InList { expression: inner, values, .. } => {
            validate_placement(inner, placement)?;
            validate_all_placements(values, placement, Ghost(*expression))
        },
        ExpressionKind::InQuery { expression: inner, .. } => validate_placement(inner, placement),
        ExpressionKind::Case { branches, else_expression } => {
            let mut index: usize = 0;
            while index < branches.len()
                invariant
                    index <= branches@.len(),
                    forall|k: int|
                        0 <= k < index ==> placement_ok(#[trigger] branches@[k].condition, placement)
                            && placement_ok(branches@[k].result, placement),
                decreases branches@.len() - index,
            {
                assert(decreases_to!(*expression => branches@[index as int].condition));
                assert(decreases_to!(*expression => branches@[index as int].result));
                validate_placement(&branches[index].condition, placement)?;
                validate_placement(&branches[index].result, placement)?;
                index = index + 1;
            }
            match else_expression {
                Some(inner) => validate_placement(inner, placement),
                None => Ok(()),
            }
        },
        _ => Ok(()),
    }
}

fn validate_all_placements(
    expressions: &Vec<BoundExpression>,
    placement: Placement,
    Ghost(parent): Ghost<BoundExpression>,
) -> (r: Result<(), TypeError>)
    requires
        forall|k: int| 0 <= k < expressions@.len() ==> decreases_to!(parent => #[trigger] expressions@[k]),
    ensures
        r is Ok <==> forall|k: int| 0 <= k < expressions@.len() ==> placement_ok(#[trigger] expressions@[k], placement),
        r matches Err(e) ==> e.kind is InvalidCrossRowPlacement,
    decreases parent, 0int,
{
    let mut index: usize = 0;
    while index < expressions.len()
        invariant
            index <= expressions@.len(),
            forall|k: int| 0 <= k < index ==> placement_ok(#[trigger] expressions@[k], placement),
        decreases expressions@.len() - index,
    {
        validate_placement(&expressions[index], placement)?;
        index = index + 1;
    }
    Ok(())
}

// ---------------------------------------------------------------------------
// Grouping validity
// ---------------------------------------------------------------------------

/// Whether an expression is computable from each group: it equals a grouping
/// expression, or it is built only from such parts, allowed result fields,
/// constants, grouping aggregates, and nested queries.
pub open spec fn spec_group_valid<E1, F1, E2, F2>(
    expression: Expression<E1, F1>,
    group_by: Seq<Expression<E2, F2>>,
    allowed: Seq<FieldId>,
) -> bool
    decreases expression,
{
    (exists|k: int| 0 <= k < group_by.len() && structurally_equivalent(expression, #[trigger] group_by[k]))
        || match expression.kind {
        ExpressionKind::Literal(_) => true,
        ExpressionKind::Exists { .. } => true,
        ExpressionKind::Field(field) => allowed.contains(field),
        ExpressionKind::Parenthesized(inner) => spec_group_valid(*inner, group_by, allowed),
        ExpressionKind::Unary { expression: inner, .. } => spec_group_valid(*inner, group_by, allowed),
        ExpressionKind::IsNull { expression: inner, .. } => spec_group_valid(*inner, group_by, allowed),
        ExpressionKind::Cast { expression: inner, .. } => spec_group_valid(*inner, group_by, allowed),
        ExpressionKind::Binary { left, right, .. } => spec_group_valid(*left, group_by, allowed)
            && spec_group_valid(*right, group_by, allowed),
        ExpressionKind::InList { expression: inner, values, .. } => spec_group_valid(
            *inner,
            group_by,
            allowed,
        ) && forall|k: int|
            0 <= k < values@.len() ==> spec_group_valid(#[trigger] values@[k], group_by, allowed),
        ExpressionKind::InQuery { expression: inner, .. } => spec_group_valid(*inner, group_by, allowed),
        ExpressionKind::Case { branches, else_expression } => (forall|k: int|
            0 <= k < branches@.len() ==> spec_group_valid(#[trigger] branches@[k].condition, group_by, allowed)
                && spec_group_valid(branches@[k].result, group_by, allowed)) && match else_expression {
            Some(e) => spec_group_valid(*e, group_by, allowed),
            None => true,
        },
        ExpressionKind::Aggregate { argument, window, .. } => window is None || ((match argument {
            AggregateArgument::Star(_) => true,
            AggregateArgument::Expression(a) => spec_group_valid(*a, group_by, allowed),
        }) && match window {
            Some(w) => forall|k: int|
                0 <= k < w.partition_by@.len() ==> spec_group_valid(#[trigger] w.partition_by@[k], group_by, allowed),
            None => true,
        }),
        ExpressionKind::Ranking { partition_by, order_by, .. } => (forall|k: int|
            0 <= k < partition_by@.len() ==> spec_group_valid(#[trigger] partition_by@[k], group_by, allowed))
            && forall|k: int|
            0 <= k < order_by@.len() ==> spec_group_valid(#[trigger] order_by@[k].expression, group_by, allowed),
    }
}

fn group_valid<E1, F1, E2, F2>(
    expression: &Expression<E1, F1>,
    group_by: &[Expression<E2, F2>],
    allowed: &Vec<FieldId>,
) -> (r: bool)
    ensures
        r == spec_group_valid(*expression, group_by@, allowed@),
    decreases *expression,
{
    let mut index: usize = 0;
    while index < group_by.len()
        invariant
            index <= group_by@.len(),
            forall|k: int| 0 <= k < index ==> !structurally_equivalent(*expression, #[trigger] group_by@[k]),
        decreases group_by@.len() - index,
    {
        if structurally_equal(expression, &group_by[index]) {
            return true;
        }
        index = index + 1;
    }
    match &expression.kind {
        ExpressionKind::Literal(_) => true,
        ExpressionKind::Exists { .. } => true,
        ExpressionKind::Field(field) => contains_field(allowed, *field),
        ExpressionKind::Parenthesized(inner) => group_valid(inner, group_by, allowed),
        ExpressionKind::Unary { expression: inner, .. } => group_valid(inner, group_by, allowed),
        ExpressionKind::IsNull { expression: inner, .. } => group_valid(inner, group_by, allowed),
        ExpressionKind::Cast { expression: inner, .. } => group_valid(inner, group_by, allowed),
        ExpressionKind::Binary { left, right, .. } => group_valid(left, group_by, allowed)
            && group_valid(right, group_by, allowed),
        ExpressionKind::InList { expression: inner, values, .. } => group_valid(
            inner,
            group_by,
            allowed,
        ) && all_group_valid(values, group_by, allowed, Ghost(*expression)),
        ExpressionKind::InQuery { expression: inner, .. } => group_valid(inner, group_by, allowed),
        ExpressionKind::Case { branches, else_expression } => {
            let mut index: usize = 0;
            while index < branches.len()
                invariant
                    index <= branches@.len(),
                    forall|k: int|
                        0 <= k < index ==> spec_group_valid(#[trigger] branches@[k].condition, group_by@, allowed@)
                            && spec_group_valid(branches@[k].result, group_by@, allowed@),
                decreases branches@.len() - index,
            {
                assert(decreases_to!(*expression => branches@[index as int].condition));
                assert(decreases_to!(*expression => branches@[index as int].result));
                if !group_valid(&branches[index].condition, group_by, allowed) || !group_valid(
                    &branches[index].result,
                    group_by,
                    allowed,
                ) {
                    return false;
                }
                index = index + 1;
            }
            match else_expression {
                Some(inner) => group_valid(inner, group_by, allowed),
                None => true,
            }
        },
        ExpressionKind::Aggregate { argument, window, .. } => match window {
            None => true,
            Some(w) => {
                let argument_valid = match argument {
                    AggregateArgument::Star(_) => true,
                    AggregateArgument::Expression(inner) => group_valid(inner, group_by, allowed),
                };
                argument_valid && all_group_valid(&w.partition_by, group_by, allowed, Ghost(*expression))
            },
        },
        ExpressionKind::Ranking { partition_by, order_by, .. } => {
            if !all_group_valid(partition_by, group_by, allowed, Ghost(*expression)) {
                return false;
            }
            let mut index: usize = 0;
            while index < order_by.len()
                invariant
                    index <= order_by@.len(),
                    forall|k: int|
                        0 <= k < index ==> spec_group_valid(#[trigger] order_by@[k].expression, group_by@, allowed@),
                decreases order_by@.len() - index,
            {
                assert(decreases_to!(*expression => order_by@[index as int].expression));
                if !group_valid(&order_by[index].expression, group_by, allowed) {
                    return false;
                }
                index = index + 1;
            }
            true
        },
    }
}

fn all_group_valid<E1, F1, E2, F2>(
    expressions: &Vec<Expression<E1, F1>>,
    group_by: &[Expression<E2, F2>],
    allowed: &Vec<FieldId>,
    Ghost(parent): Ghost<Expression<E1, F1>>,
) -> (r: bool)
    requires
        forall|k: int| 0 <= k < expressions@.len() ==> decreases_to!(parent => #[trigger] expressions@[k]),
    ensures
        r == forall|k: int| 0 <= k < expressions@.len() ==> spec_group_valid(#[trigger] expressions@[k], group_by@, allowed@),
    decreases parent, 0int,
{
    let mut index: usize = 0;
    while index < expressions.len()
        invariant
            index <= expressions@.len(),
            forall|k: int| 0 <= k < index ==> spec_group_valid(#[trigger] expressions@[k], group_by@, allowed@),
        decreases expressions@.len() - index,
    {
        if !group_valid(&expressions[index], group_by, allowed) {
            return false;
        }
        index = index + 1;
    }
    true
}


// ---------------------------------------------------------------------------
// ROW_NUMBER determinism
// ---------------------------------------------------------------------------

/// A ROW_NUMBER ordering covers a complete row value: every source field of a
/// plain query, or every grouping expression of a grouped query.
pub open spec fn row_number_complete(
    order_by: Seq<OrderItem<TypeDescriptor, TypeDescriptor>>,
    select: SelectQuery<TypeDescriptor, TypeDescriptor>,
) -> bool {
    if !select.is_aggregate {
        forall|k: int| 0 <= k < select.source_fields@.len() ==> directly_ordered(order_by, #[trigger] select.source_fields@[k].id)
    } else if select.group_by@.len() > 0 {
        forall|g: int|
            0 <= g < select.group_by@.len() ==> ordered_by_equivalent(order_by, #[trigger] select.group_by@[g])
    } else {
        true
    }
}

/// Some ordering item is structurally the expression.
pub open spec fn ordered_by_equivalent(
    order_by: Seq<OrderItem<TypeDescriptor, TypeDescriptor>>,
    expression: TypedExpression,
) -> bool {
    exists|k: int| 0 <= k < order_by.len() && structurally_equivalent(expression, #[trigger] order_by[k].expression)
}

/// Whether every ROW_NUMBER in the expression orders a complete row value.
pub open spec fn row_numbers_ok(
    expression: TypedExpression,
    select: SelectQuery<TypeDescriptor, TypeDescriptor>,
) -> bool
    decreases expression,
{
    match expression.kind {
        ExpressionKind::Ranking { function, order_by, .. } => function != RankingFunction::RowNumber
            || row_number_complete(order_by@, select),
        ExpressionKind::Parenthesized(inner) => row_numbers_ok(*inner, select),
        ExpressionKind::Unary { expression: inner, .. } => row_numbers_ok(*inner, select),
        ExpressionKind::IsNull { expression: inner, .. } => row_numbers_ok(*inner, select),
        ExpressionKind::Cast { expression: inner, .. } => row_numbers_ok(*inner, select),
        ExpressionKind::Binary { left, right, .. } => row_numbers_ok(*left, select) && row_numbers_ok(
            *right,
            select,
        ),
        ExpressionKind::InList { expression: inner, values, .. } => row_numbers_ok(*inner, select)
            && forall|k: int| 0 <= k < values@.len() ==> row_numbers_ok(#[trigger] values@[k], select),
        ExpressionKind::InQuery { expression: inner, .. } => row_numbers_ok(*inner, select),
        ExpressionKind::Case { branches, else_expression } => (forall|k: int|
            0 <= k < branches@.len() ==> row_numbers_ok(#[trigger] branches@[k].condition, select)
                && row_numbers_ok(branches@[k].result, select)) && match else_expression {
            Some(e) => row_numbers_ok(*e, select),
            None => true,
        },
        ExpressionKind::Aggregate { argument, window, .. } => (match argument {
            AggregateArgument::Expression(a) => row_numbers_ok(*a, select),
            AggregateArgument::Star(_) => true,
        }) && match window {
            Some(w) => forall|k: int|
                0 <= k < w.partition_by@.len() ==> row_numbers_ok(#[trigger] w.partition_by@[k], select),
            None => true,
        },
        _ => true,
    }
}

fn row_number_ordering_complete(
    order_by: &Vec<OrderItem<TypeDescriptor, TypeDescriptor>>,
    select: &SelectQuery<TypeDescriptor, TypeDescriptor>,
) -> (r: bool)
    ensures
        r == row_number_complete(order_by@, *select),
{
    if !select.is_aggregate {
        let mut index: usize = 0;
        while index < select.source_fields.len()
            invariant
                index <= select.source_fields@.len(),
                forall|k: int| 0 <= k < index ==> directly_ordered(order_by@, #[trigger] select.source_fields@[k].id),
            decreases select.source_fields@.len() - index,
        {
            if !is_directly_ordered(order_by.as_slice(), select.source_fields[index].id) {
                return false;
            }
            index = index + 1;
        }
        true
    } else if select.group_by.len() > 0 {
        let mut group: usize = 0;
        while group < select.group_by.len()
            invariant
                group <= select.group_by@.len(),
                forall|g: int|
                    0 <= g < group ==> ordered_by_equivalent(order_by@, #[trigger] select.group_by@[g]),
            decreases select.group_by@.len() - group,
        {
            let mut index: usize = 0;
            let mut found = false;
            while index < order_by.len() && !found
                invariant
                    index <= order_by@.len(),
                    found ==> ordered_by_equivalent(order_by@, select.group_by@[group as int]),
                    !found ==> forall|k: int|
                        0 <= k < index ==> !structurally_equivalent(
                            select.group_by@[group as int],
                            #[trigger] order_by@[k].expression,
                        ),
                decreases order_by@.len() - index,
            {
                if structurally_equal(&select.group_by[group], &order_by[index].expression) {
                    found = true;
                }
                index = index + 1;
            }
            if !found {
                assert(!ordered_by_equivalent(order_by@, select.group_by@[group as int]));
                return false;
            }
            group = group + 1;
        }
        true
    } else {
        true
    }
}

fn validate_row_number_expressions(
    expression: &TypedExpression,
    select: &SelectQuery<TypeDescriptor, TypeDescriptor>,
) -> (r: Result<(), TypeError>)
    ensures
        r is Ok <==> row_numbers_ok(*expression, *select),
        r matches Err(e) ==> e.kind is IncompleteRowNumberOrdering,
    decreases *expression,
{
    match &expression.kind {
        ExpressionKind::Ranking { function, order_by, .. } => {
            if *function == RankingFunction::RowNumber && !row_number_ordering_complete(order_by, select) {
                return Err(TypeError { kind: TypeErrorKind::IncompleteRowNumberOrdering, span: expression.span });
            }
            Ok(())
        },
        ExpressionKind::Parenthesized(inner) => validate_row_number_expressions(inner, select),
        ExpressionKind::Unary { expression: inner, .. } => validate_row_number_expressions(inner, select),
        ExpressionKind::IsNull { expression: inner, .. } => validate_row_number_expressions(inner, select),
        ExpressionKind::Cast { expression: inner, .. } => validate_row_number_expressions(inner, select),
        ExpressionKind::Binary { left, right, .. } => {
            validate_row_number_expressions(left, select)?;
            validate_row_number_expressions(right, select)
        },
        ExpressionKind::InList { expression: inner, values, .. } => {
            validate_row_number_expressions(inner, select)?;
            validate_all_row_numbers(values, select, Ghost(*expression))
        },
        ExpressionKind::InQuery { expression: inner, .. } => validate_row_number_expressions(inner, select),
        ExpressionKind::Case { branches, else_expression } => {
            let mut index: usize = 0;
            while index < branches.len()
                invariant
                    index <= branches@.len(),
                    forall|k: int|
                        0 <= k < index ==> row_numbers_ok(#[trigger] branches@[k].condition, *select)
                            && row_numbers_ok(branches@[k].result, *select),
                decreases branches@.len() - index,
            {
                assert(decreases_to!(*expression => branches@[index as int].condition));
                assert(decreases_to!(*expression => branches@[index as int].result));
                validate_row_number_expressions(&branches[index].condition, select)?;
                validate_row_number_expressions(&branches[index].result, select)?;
                index = index + 1;
            }
            match else_expression {
                Some(inner) => validate_row_number_expressions(inner, select),
                None => Ok(()),
            }
        },
        ExpressionKind::Aggregate { argument, window, .. } => {
            match argument {
                AggregateArgument::Expression(inner) => validate_row_number_expressions(inner, select)?,
                AggregateArgument::Star(_) => {},
            }
            match window {
                Some(w) => validate_all_row_numbers(&w.partition_by, select, Ghost(*expression)),
                None => Ok(()),
            }
        },
        _ => Ok(()),
    }
}

fn validate_all_row_numbers(
    expressions: &Vec<TypedExpression>,
    select: &SelectQuery<TypeDescriptor, TypeDescriptor>,
    Ghost(parent): Ghost<TypedExpression>,
) -> (r: Result<(), TypeError>)
    requires
        forall|k: int| 0 <= k < expressions@.len() ==> decreases_to!(parent => #[trigger] expressions@[k]),
    ensures
        r is Ok <==> forall|k: int| 0 <= k < expressions@.len() ==> row_numbers_ok(#[trigger] expressions@[k], *select),
        r matches Err(e) ==> e.kind is IncompleteRowNumberOrdering,
    decreases parent, 0int,
{
    let mut index: usize = 0;
    while index < expressions.len()
        invariant
            index <= expressions@.len(),
            forall|k: int| 0 <= k < index ==> row_numbers_ok(#[trigger] expressions@[k], *select),
        decreases expressions@.len() - index,
    {
        validate_row_number_expressions(&expressions[index], select)?;
        index = index + 1;
    }
    Ok(())
}


// ---------------------------------------------------------------------------
// Scalar hints
// ---------------------------------------------------------------------------

/// The scalar type an expression is known to have before it is typed, if
/// any (`Some(None)` where no type is known yet); `None` where finding it
/// fails.
pub open spec fn hint_of(
    expression: BoundExpression,
    environment: Seq<(FieldId, TypeDescriptor)>,
) -> Option<Option<ScalarType>>
    decreases expression, 0int,
{
    match expression.kind {
        ExpressionKind::Literal(value) => Some(
            match value {
                LiteralValue::Null => None,
                LiteralValue::Integer(_) => Some(ScalarType::Int64),
                LiteralValue::Text(_) => Some(ScalarType::Text),
                LiteralValue::Boolean(_) => Some(ScalarType::Boolean),
            },
        ),
        ExpressionKind::Field(field) => match env_lookup(environment, field) {
            Some(descriptor) => Some(Some(descriptor.scalar)),
            None => None,
        },
        ExpressionKind::Parenthesized(inner) => hint_of(*inner, environment),
        ExpressionKind::Unary { operator, .. } => Some(Some(unary_operand(operator))),
        ExpressionKind::Binary { operator, .. } => Some(Some(binary_result(operator))),
        ExpressionKind::IsNull { .. } => Some(Some(ScalarType::Boolean)),
        ExpressionKind::InList { .. } => Some(Some(ScalarType::Boolean)),
        ExpressionKind::InQuery { .. } => Some(Some(ScalarType::Boolean)),
        ExpressionKind::Exists { .. } => Some(Some(ScalarType::Boolean)),
        ExpressionKind::Case { branches, else_expression } => match branches_hint(
            branches@,
            branches@.len() as int,
            environment,
        ) {
            None => None,
            Some(common) => match else_expression {
                None => Some(common),
                Some(e) => match hint_of(*e, environment) {
                    None => None,
                    Some(h) => spec_common_hint(common, h, None),
                },
            },
        },
        ExpressionKind::Cast { scalar_type, .. } => Some(Some(scalar_type)),
        ExpressionKind::Aggregate { function, argument, .. } => match function {
            AggregateFunction::Count => Some(Some(ScalarType::Int64)),
            AggregateFunction::Sum => Some(Some(ScalarType::Int64)),
            AggregateFunction::BoolAnd => Some(Some(ScalarType::Boolean)),
            AggregateFunction::BoolOr => Some(Some(ScalarType::Boolean)),
            _ => match argument {
                AggregateArgument::Star(_) => Some(None),
                AggregateArgument::Expression(e) => hint_of(*e, environment),
            },
        },
        ExpressionKind::Ranking { .. } => Some(Some(ScalarType::Int64)),
    }
}

/// The common hint of the results of the first `count` branches.
pub open spec fn branches_hint(
    branches: Seq<WhenClause<(), BoundFieldAnnotation>>,
    count: int,
    environment: Seq<(FieldId, TypeDescriptor)>,
) -> Option<Option<ScalarType>>
    decreases branches, count,
{
    if count <= 0 || count > branches.len() {
        Some(None)
    } else {
        match branches_hint(branches, count - 1, environment) {
            None => None,
            Some(common) => match hint_of(branches[count - 1].result, environment) {
                None => None,
                Some(h) => spec_common_hint(common, h, None),
            },
        }
    }
}

/// Once finding the branch hint fails, it fails for every longer prefix.
proof fn lemma_branches_hint_fails(
    branches: Seq<WhenClause<(), BoundFieldAnnotation>>,
    failing: int,
    count: int,
    environment: Seq<(FieldId, TypeDescriptor)>,
)
    requires
        0 <= failing <= count <= branches.len(),
        branches_hint(branches, failing, environment) is None,
    ensures
        branches_hint(branches, count, environment) is None,
    decreases count - failing,
{
    if failing < count {
        lemma_branches_hint_fails(branches, failing, count - 1, environment);
    }
}

fn scalar_hint(expression: &BoundExpression, environment: &FieldEnvironment) -> (r: Result<
    Option<ScalarType>,
    TypeError,
>)
    ensures
        match hint_of(*expression, environment@) {
            Some(h) => r == Ok::<Option<ScalarType>, TypeError>(h),
            None => r is Err,
        },
    decreases *expression,
{
    match &expression.kind {
        ExpressionKind::Literal(value) => Ok(
            match value {
                LiteralValue::Null => None,
                LiteralValue::Integer(_) => Some(ScalarType::Int64),
                LiteralValue::Text(_) => Some(ScalarType::Text),
                LiteralValue::Boolean(_) => Some(ScalarType::Boolean),
            },
        ),
        ExpressionKind::Field(field) => match lookup(environment, *field) {
            Some(descriptor) => Ok(Some(descriptor.scalar)),
            None => Err(TypeError { kind: TypeErrorKind::MissingFieldDescriptor(*field), span: expression.span }),
        },
        ExpressionKind::Parenthesized(inner) => scalar_hint(inner, environment),
        ExpressionKind::Unary { operator, .. } => Ok(Some(unary_operand_type(*operator))),
        ExpressionKind::Binary { operator, .. } => Ok(Some(binary_result_type(*operator))),
        ExpressionKind::IsNull { .. } => Ok(Some(ScalarType::Boolean)),
        ExpressionKind::InList { .. } => Ok(Some(ScalarType::Boolean)),
        ExpressionKind::InQuery { .. } => Ok(Some(ScalarType::Boolean)),
        ExpressionKind::Exists { .. } => Ok(Some(ScalarType::Boolean)),
        ExpressionKind::Case { branches, else_expression } => {
            let mut common: Option<ScalarType> = None;
            let mut index: usize = 0;
            while index < branches.len()
                invariant
                    index <= branches@.len(),
                    branches_hint(branches@, index as int, environment@) == Some(common),
                decreases branches@.len() - index,
            {
                assert(decreases_to!(*expression => branches@[index as int].result));
                let hint = match scalar_hint(&branches[index].result, environment) {
                    Ok(hint) => hint,
                    Err(error) => {
                        proof {
                            lemma_branches_hint_fails(branches@, index + 1, branches@.len() as int, environment@);
                        }
                        return Err(error);
                    },
                };
                common = match common_hint(common, hint, None, branches[index].result.span) {
                    Ok(common) => common,
                    Err(error) => {
                        proof {
                            lemma_branches_hint_fails(branches@, index + 1, branches@.len() as int, environment@);
                        }
                        return Err(error);
                    },
                };
                index = index + 1;
            }
            match else_expression {
                Some(inner) => {
                    let hint = scalar_hint(inner, environment)?;
                    common_hint(common, hint, None, inner.span)
                },
                None => Ok(common),
            }
        },
        ExpressionKind::Cast { scalar_type, .. } => Ok(Some(*scalar_type)),
        ExpressionKind::Aggregate { function, argument, .. } => match function {
            AggregateFunction::Count => Ok(Some(ScalarType::Int64)),
            AggregateFunction::Sum => Ok(Some(ScalarType::Int64)),
            AggregateFunction::BoolAnd => Ok(Some(ScalarType::Boolean)),
            AggregateFunction::BoolOr => Ok(Some(ScalarType::Boolean)),
            _ => match argument {
                AggregateArgument::Star(_) => Ok(None),
                AggregateArgument::Expression(inner) => scalar_hint(inner, environment),
            },
        },
        ExpressionKind::Ranking { .. } => Ok(Some(ScalarType::Int64)),
    }
}


// ---------------------------------------------------------------------------
// Typing rules
// ---------------------------------------------------------------------------

pub open spec fn descriptor(scalar: ScalarType, nullable: bool) -> TypeDescriptor {
    TypeDescriptor { scalar, nullable }
}

/// A typed expression follows the typing rules under `environment`: each
/// node's descriptor is the one its rule derives from its operands, and every
/// operand has the scalar type its operator requires.
pub open spec fn expression_typed(
    environment: Seq<(FieldId, TypeDescriptor)>,
    expression: TypedExpression,
) -> bool
    decreases expression,
{
    let d = expression.annotation;
    match expression.kind {
        ExpressionKind::Literal(value) => match value {
            LiteralValue::Integer(_) => d == descriptor(ScalarType::Int64, false),
            LiteralValue::Text(_) => d == descriptor(ScalarType::Text, false),
            LiteralValue::Boolean(_) => d == descriptor(ScalarType::Boolean, false),
            LiteralValue::Null => d.nullable,
        },
        ExpressionKind::Field(field) => env_lookup(environment, field) == Some(d),
        ExpressionKind::Parenthesized(inner) => d == inner.annotation && expression_typed(
            environment,
            *inner,
        ),
        ExpressionKind::Unary { operator, expression: inner } => inner.annotation.scalar
            == unary_operand(operator) && d == descriptor(
            unary_operand(operator),
            inner.annotation.nullable,
        ) && expression_typed(environment, *inner),
        ExpressionKind::Binary { left, operator, right } => left.annotation.scalar
            == right.annotation.scalar && (!is_comparison(operator) ==> left.annotation.scalar
            == binary_operand(operator)) && d == descriptor(
            binary_result(operator),
            left.annotation.nullable || right.annotation.nullable,
        ) && expression_typed(environment, *left) && expression_typed(environment, *right),
        ExpressionKind::IsNull { expression: inner, .. } => d == descriptor(ScalarType::Boolean, false)
            && expression_typed(environment, *inner),
        ExpressionKind::InList { expression: inner, values, .. } => (forall|k: int|
            0 <= k < values@.len() ==> (#[trigger] values@[k]).annotation.scalar
                == inner.annotation.scalar && expression_typed(environment, values@[k])) && d
            == descriptor(
            ScalarType::Boolean,
            inner.annotation.nullable || exists|k: int|
                0 <= k < values@.len() && (#[trigger] values@[k]).annotation.nullable,
        ) && expression_typed(environment, *inner),
        ExpressionKind::InQuery { expression: inner, query, .. } => query.result_fields@.len() >= 1
            && query.result_fields@[0].annotation.scalar == inner.annotation.scalar && d
            == descriptor(
            ScalarType::Boolean,
            inner.annotation.nullable || query.result_fields@[0].annotation.nullable,
        ) && expression_typed(environment, *inner),
        ExpressionKind::Case { branches, else_expression } => (forall|k: int|
            0 <= k < branches@.len() ==> (#[trigger] branches@[k]).condition.annotation.scalar
                == ScalarType::Boolean && branches@[k].result.annotation.scalar == d.scalar
                && expression_typed(environment, branches@[k].condition) && expression_typed(
                environment,
                branches@[k].result,
            )) && (match else_expression {
            Some(e) => e.annotation.scalar == d.scalar && expression_typed(environment, *e),
            None => true,
        }) && d.nullable == ((exists|k: int|
            0 <= k < branches@.len() && (#[trigger] branches@[k]).result.annotation.nullable)
            || match else_expression {
            Some(e) => e.annotation.nullable,
            None => true,
        }),
        ExpressionKind::Cast { expression: inner, scalar_type } => spec_cast_permitted(
            inner.annotation.scalar,
            scalar_type,
        ) && d == descriptor(scalar_type, inner.annotation.nullable) && expression_typed(
            environment,
            *inner,
        ),
        ExpressionKind::Exists { .. } => d == descriptor(ScalarType::Boolean, false),
        ExpressionKind::Aggregate { function, argument, window } => aggregate_signature_ok(
            function,
            argument,
        ) && d == spec_aggregate_descriptor(function, argument) && (match argument {
            AggregateArgument::Expression(a) => expression_typed(environment, *a),
            AggregateArgument::Star(_) => true,
        }) && match window {
            Some(w) => forall|k: int|
                0 <= k < w.partition_by@.len() ==> expression_typed(environment, #[trigger] w.partition_by@[k]),
            None => true,
        },
        ExpressionKind::Ranking { partition_by, order_by, .. } => d == descriptor(ScalarType::Int64, false)
            && (forall|k: int|
            0 <= k < partition_by@.len() ==> expression_typed(environment, #[trigger] partition_by@[k]))
            && forall|k: int|
            0 <= k < order_by@.len() ==> expression_typed(environment, (#[trigger] order_by@[k]).expression)
                && order_nullability_ok(order_by@[k].expression, order_by@[k].null_placement),
    }
}

/// The two expressions have one shape: the same constructor, literal,
/// field, operator, flags and span at every level, and subqueries with the
/// same spans.
pub open spec fn same_shape<E1, F1, E2, F2>(left: Expression<E1, F1>, right: Expression<E2, F2>) -> bool
    decreases left, right,
{
    left.span == right.span && match (left.kind, right.kind) {
        (ExpressionKind::Literal(a), ExpressionKind::Literal(b)) => same_literal(a, b),
        (ExpressionKind::Field(a), ExpressionKind::Field(b)) => a == b,
        (ExpressionKind::Parenthesized(a), ExpressionKind::Parenthesized(b)) => same_shape(*a, *b),
        (
            ExpressionKind::Unary { operator: lo, expression: le },
            ExpressionKind::Unary { operator: ro, expression: re },
        ) => lo == ro && same_shape(*le, *re),
        (
            ExpressionKind::Binary { left: ll, operator: lo, right: lr },
            ExpressionKind::Binary { left: rl, operator: ro, right: rr },
        ) => lo == ro && same_shape(*ll, *rl) && same_shape(*lr, *rr),
        (
            ExpressionKind::IsNull { expression: le, negated: ln },
            ExpressionKind::IsNull { expression: re, negated: rn },
        ) => ln == rn && same_shape(*le, *re),
        (
            ExpressionKind::InList { expression: le, negated: ln, values: lv },
            ExpressionKind::InList { expression: re, negated: rn, values: rv },
        ) => ln == rn && same_shape(*le, *re) && lv@.len() == rv@.len() && forall|i: int|
            0 <= i < lv@.len() ==> same_shape(#[trigger] lv@[i], rv@[i]),
        (
            ExpressionKind::InQuery { expression: le, negated: ln, query: lq },
            ExpressionKind::InQuery { expression: re, negated: rn, query: rq },
        ) => ln == rn && same_shape(*le, *re) && lq.span == rq.span,
        (
            ExpressionKind::Case { branches: lb, else_expression: le },
            ExpressionKind::Case { branches: rb, else_expression: re },
        ) => lb@.len() == rb@.len() && (forall|i: int|
            0 <= i < lb@.len() ==> #[trigger] lb@[i].span == rb@[i].span && same_shape(lb@[i].condition, rb@[i].condition)
                && same_shape(lb@[i].result, rb@[i].result)) && match (le, re) {
            (Some(a), Some(b)) => same_shape(*a, *b),
            (None, None) => true,
            _ => false,
        },
        (
            ExpressionKind::Cast { expression: le, scalar_type: lt },
            ExpressionKind::Cast { expression: re, scalar_type: rt },
        ) => lt == rt && same_shape(*le, *re),
        (ExpressionKind::Exists { query: lq }, ExpressionKind::Exists { query: rq }) => lq.span == rq.span,
        (
            ExpressionKind::Aggregate { function: lf, argument: la, window: lw },
            ExpressionKind::Aggregate { function: rf, argument: ra, window: rw },
        ) => lf == rf && match (la, ra) {
            (AggregateArgument::Star(a), AggregateArgument::Star(b)) => a == b,
            (AggregateArgument::Expression(a), AggregateArgument::Expression(b)) => same_shape(*a, *b),
            _ => false,
        } && match (lw, rw) {
            (Some(a), Some(b)) => a.span == b.span && a.partition_by@.len() == b.partition_by@.len() && forall|
                i: int,
            | 0 <= i < a.partition_by@.len() ==> same_shape(#[trigger] a.partition_by@[i], b.partition_by@[i]),
            (None, None) => true,
            _ => false,
        },
        (
            ExpressionKind::Ranking { function: lf, partition_by: lp, order_by: lo },
            ExpressionKind::Ranking { function: rf, partition_by: rp, order_by: ro },
        ) => lf == rf && lp@.len() == rp@.len() && (forall|i: int|
            0 <= i < lp@.len() ==> same_shape(#[trigger] lp@[i], rp@[i])) && lo@.len() == ro@.len() && forall|
            i: int,
        |
            0 <= i < lo@.len() ==> #[trigger] lo@[i].direction == ro@[i].direction && lo@[i].null_placement
                == ro@[i].null_placement && lo@[i].span == ro@[i].span && same_shape(
                lo@[i].expression,
                ro@[i].expression,
            ),
        _ => false,
    }
}

/// The expression is typed, has the expected scalar type, and has the
/// shape of the bound expression it types.
pub open spec fn typed_as(
    environment: Seq<(FieldId, TypeDescriptor)>,
    bound: BoundExpression,
    expected: Option<ScalarType>,
    typed: TypedExpression,
) -> bool {
    &&& expression_typed(environment, typed)
    &&& same_shape(typed, bound)
    &&& match expected {
        Some(scalar) => typed.annotation.scalar == scalar,
        None => true,
    }
}

// ---------------------------------------------------------------------------
// Typed occurrences
// ---------------------------------------------------------------------------

fn copy_typed_fields(fields: &[TypedField]) -> (copies: Vec<TypedField>)
    ensures
        field_entries(copies@) == field_entries(fields@),
        copies@.len() == fields@.len(),
        forall|k: int|
            0 <= k < fields@.len() ==> (#[trigger] copies@[k]).name@ == fields@[k].name@ && copies@[k].id
                == fields@[k].id && copies@[k].annotation == fields@[k].annotation,
{
    let mut copies: Vec<TypedField> = Vec::new();
    let mut index: usize = 0;
    while index < fields.len()
        invariant
            index <= fields@.len(),
            copies@.len() == index,
            forall|k: int|
                0 <= k < index ==> (#[trigger] copies@[k]).id == fields@[k].id && copies@[k].annotation
                    == fields@[k].annotation && copies@[k].name@ == fields@[k].name@,
        decreases fields@.len() - index,
    {
        let field = &fields[index];
        copies.push(Field { id: field.id, name: field.name.clone(), annotation: field.annotation });
        index = index + 1;
    }
    assert(field_entries(copies@) =~= field_entries(fields@));
    copies
}

fn type_catalog_occurrence(
    occurrence: &RelationOccurrence<BoundFieldAnnotation>,
    span: Span,
) -> (r: Result<RelationOccurrence<TypeDescriptor>, TypeError>)
    ensures
        r matches Ok(typed) ==> typed.id == occurrence.id && typed.fields@.len()
            == occurrence.fields@.len() && forall|k: int|
            0 <= k < occurrence.fields@.len() ==> (#[trigger] typed.fields@[k]).id
                == occurrence.fields@[k].id && occurrence.fields@[k].annotation == Some(
                typed.fields@[k].annotation,
            ),
        r is Err <==> exists|k: int|
            0 <= k < occurrence.fields@.len() && (#[trigger] occurrence.fields@[k]).annotation is None,
{
    let mut fields: Vec<TypedField> = Vec::new();
    let mut index: usize = 0;
    while index < occurrence.fields.len()
        invariant
            index <= occurrence.fields@.len(),
            fields@.len() == index,
            forall|k: int|
                0 <= k < index ==> (#[trigger] fields@[k]).id == occurrence.fields@[k].id
                    && occurrence.fields@[k].annotation == Some(fields@[k].annotation),
            forall|k: int| 0 <= k < index ==> (#[trigger] occurrence.fields@[k]).annotation is Some,
        decreases occurrence.fields@.len() - index,
    {
        let field = &occurrence.fields[index];
        match field.annotation {
            Some(annotation) => {
                fields.push(Field { id: field.id, name: field.name.clone(), annotation });
            },
            None => {
                return Err(TypeError { kind: TypeErrorKind::MissingFieldDescriptor(field.id), span });
            },
        }
        index = index + 1;
    }
    Ok(RelationOccurrence { id: occurrence.id, qualifier: occurrence.qualifier.clone(), fields })
}

fn type_derived_occurrence(
    occurrence: &RelationOccurrence<BoundFieldAnnotation>,
    source_fields: &[TypedField],
    span: Span,
) -> (r: Result<RelationOccurrence<TypeDescriptor>, TypeError>)
    ensures
        r is Ok <==> occurrence.fields@.len() == source_fields@.len(),
        r matches Ok(typed) ==> typed.id == occurrence.id && typed.fields@.len()
            == occurrence.fields@.len() && forall|k: int|
            0 <= k < occurrence.fields@.len() ==> (#[trigger] typed.fields@[k]).id
                == occurrence.fields@[k].id && typed.fields@[k].annotation
                == source_fields@[k].annotation,
        r matches Err(e) ==> e == (TypeError {
            kind: TypeErrorKind::SetArity {
                left: occurrence.fields@.len() as usize,
                right: source_fields@.len() as usize,
            },
            span,
        }),
{
    if occurrence.fields.len() != source_fields.len() {
        return Err(
            TypeError {
                kind: TypeErrorKind::SetArity {
                    left: occurrence.fields.len(),
                    right: source_fields.len(),
                },
                span,
            },
        );
    }
    let mut fields: Vec<TypedField> = Vec::new();
    let mut index: usize = 0;
    while index < occurrence.fields.len()
        invariant
            index <= occurrence.fields@.len(),
            occurrence.fields@.len() == source_fields@.len(),
            fields@.len() == index,
            forall|k: int|
                0 <= k < index ==> (#[trigger] fields@[k]).id == occurrence.fields@[k].id
                    && fields@[k].annotation == source_fields@[k].annotation,
        decreases occurrence.fields@.len() - index,
    {
        let field = &occurrence.fields[index];
        fields.push(
            Field { id: field.id, name: field.name.clone(), annotation: source_fields[index].annotation },
        );
        index = index + 1;
    }
    Ok(RelationOccurrence { id: occurrence.id, qualifier: occurrence.qualifier.clone(), fields })
}

pub open spec fn nullable_entries(entries: Seq<(FieldId, TypeDescriptor)>) -> Seq<(FieldId, TypeDescriptor)> {
    entries.map_values(|entry: (FieldId, TypeDescriptor)| (entry.0, descriptor(entry.1.scalar, true)))
}

/// Every field of the schema may be NULL.
fn nullable_schema(fields: Vec<TypedField>) -> (widened: Vec<TypedField>)
    ensures
        field_entries(widened@) == nullable_entries(field_entries(fields@)),
{
    let mut widened: Vec<TypedField> = Vec::new();
    let mut index: usize = 0;
    while index < fields.len()
        invariant
            index <= fields@.len(),
            widened@.len() == index,
            forall|k: int|
                0 <= k < index ==> (#[trigger] widened@[k]).id == fields@[k].id && widened@[k].annotation
                    == descriptor(fields@[k].annotation.scalar, true),
        decreases fields@.len() - index,
    {
        let field = &fields[index];
        widened.push(
            Field { id: field.id, name: field.name.clone(), annotation: field.annotation.with_nullable(true) },
        );
        index = index + 1;
    }
    assert(field_entries(widened@) =~= nullable_entries(field_entries(fields@)));
    widened
}

fn append_fields(target: &mut Vec<TypedField>, fields: Vec<TypedField>)
    ensures
        field_entries(final(target)@) == field_entries(old(target)@) + field_entries(fields@),
{
    let mut index: usize = 0;
    while index < fields.len()
        invariant
            index <= fields@.len(),
            field_entries(target@) == field_entries(old(target)@) + field_entries(
                fields@.subrange(0, index as int),
            ),
        decreases fields@.len() - index,
    {
        let field = &fields[index];
        let ghost before = target@;
        target.push(Field { id: field.id, name: field.name.clone(), annotation: field.annotation });
        assert(field_entries(target@) =~= field_entries(before).push((field.id, field.annotation)));
        assert(field_entries(fields@.subrange(0, index + 1)) =~= field_entries(
            fields@.subrange(0, index as int),
        ).push((field.id, field.annotation)));
        index = index + 1;
    }
    assert(fields@.subrange(0, fields@.len() as int) =~= fields@);
}

/// The schema a join produces: the side that a join extends with NULLs
/// becomes nullable, and only that side.
pub open spec fn join_schema(
    left: Seq<(FieldId, TypeDescriptor)>,
    kind: JoinKind,
    right: Seq<(FieldId, TypeDescriptor)>,
) -> Seq<(FieldId, TypeDescriptor)> {
    match kind {
        JoinKind::Cross => left + right,
        JoinKind::Inner => left + right,
        JoinKind::Left => left + nullable_entries(right),
        JoinKind::Right => nullable_entries(left) + right,
        JoinKind::Full => nullable_entries(left) + nullable_entries(right),
    }
}

pub open spec fn table_entries(table: TablePrimary<TypeDescriptor, TypeDescriptor>) -> Seq<(FieldId, TypeDescriptor)> {
    field_entries(table.spec_occurrence().fields@)
}

/// The schema of a joined table after its first `count` joins, starting from
/// the schema `left` of its leftmost table.
pub open spec fn joins_schema(
    left: Seq<(FieldId, TypeDescriptor)>,
    joins: Seq<Join<TypeDescriptor, TypeDescriptor>>,
    count: int,
) -> Seq<(FieldId, TypeDescriptor)>
    decreases count,
{
    if count <= 0 {
        left
    } else {
        join_schema(
            joins_schema(left, joins, count - 1),
            joins[count - 1].kind,
            table_entries(joins[count - 1].right),
        )
    }
}

proof fn lemma_joins_schema_prefix(
    left: Seq<(FieldId, TypeDescriptor)>,
    joins: Seq<Join<TypeDescriptor, TypeDescriptor>>,
    next: Join<TypeDescriptor, TypeDescriptor>,
    count: int,
)
    requires
        0 <= count <= joins.len(),
    ensures
        joins_schema(left, joins.push(next), count) == joins_schema(left, joins, count),
    decreases count,
{
    if count > 0 {
        lemma_joins_schema_prefix(left, joins, next, count - 1);
    }
}

pub open spec fn joined_schema(joined: JoinedTable<TypeDescriptor, TypeDescriptor>) -> Seq<(FieldId, TypeDescriptor)> {
    joins_schema(table_entries(joined.left), joined.joins@, joined.joins@.len() as int)
}

/// The schema of a FROM list: the joined tables' schemas, left to right.
pub open spec fn from_schema(from: Seq<JoinedTable<TypeDescriptor, TypeDescriptor>>) -> Seq<
    (FieldId, TypeDescriptor),
>
    decreases from.len(),
{
    if from.len() == 0 {
        Seq::empty()
    } else {
        from_schema(from.drop_last()) + joined_schema(from.last())
    }
}


// ---------------------------------------------------------------------------
// The checker
// ---------------------------------------------------------------------------

enum CteTypeState {
    Unvisited,
    Typing,
    Typed { fields: Vec<TypedField>, query: Option<Box<QueryExpression<TypeDescriptor, TypeDescriptor>>> },
}

struct CteEntry<'a> {
    declaration: &'a CommonTableExpression<(), BoundFieldAnnotation>,
    state: CteTypeState,
}

spec fn count_unvisited(entries: Seq<CteEntry>) -> nat
    decreases entries.len(),
{
    if entries.len() == 0 {
        0
    } else {
        count_unvisited(entries.drop_last()) + if entries.last().state is Unvisited {
            1nat
        } else {
            0nat
        }
    }
}

proof fn lemma_count_push(entries: Seq<CteEntry>, next: CteEntry)
    ensures
        count_unvisited(entries.push(next)) == count_unvisited(entries) + if next.state is Unvisited {
            1nat
        } else {
            0nat
        },
{
    assert(entries.push(next).drop_last() =~= entries);
}

proof fn lemma_count_update(entries: Seq<CteEntry>, index: int, next: CteEntry)
    requires
        0 <= index < entries.len(),
    ensures
        count_unvisited(entries.update(index, next)) + (if entries[index].state is Unvisited {
            1nat
        } else {
            0nat
        }) == count_unvisited(entries) + if next.state is Unvisited {
            1nat
        } else {
            0nat
        },
    decreases entries.len(),
{
    if index == entries.len() - 1 {
        assert(entries.update(index, next).drop_last() =~= entries.drop_last());
    } else {
        lemma_count_update(entries.drop_last(), index, next);
        assert(entries.update(index, next).drop_last() =~= entries.drop_last().update(index, next));
    }
}

spec fn entry_progressed(before: CteTypeState, after: CteTypeState) -> bool {
    match before {
        CteTypeState::Unvisited => true,
        CteTypeState::Typing => after is Typing,
        CteTypeState::Typed { fields, .. } => after matches CteTypeState::Typed { fields: f, .. } && f
            == fields,
    }
}

/// The common table expressions met so far, by identity.
struct TypeChecker<'a> {
    entries: Vec<CteEntry<'a>>,
    /// How many more declarations may still be registered: a bound far above
    /// what any program held in memory can declare, which makes plain that
    /// typing terminates.
    capacity: usize,
}

proof fn lemma_advanced_through_typing<'a>(
    first: &TypeChecker<'a>,
    second: &TypeChecker<'a>,
    third: &TypeChecker<'a>,
    index: int,
)
    requires
        first.advanced(second),
        second.advanced_except(third, index),
        0 <= index < first.entries@.len() ==> first.entries@[index].state is Unvisited,
    ensures
        first.advanced(third),
{
    assert forall|i: int| 0 <= i < first.entries@.len() implies entry_progressed(
        first.entries@[i].state,
        (#[trigger] third.entries@[i]).state,
    ) by {
        assert(entry_progressed(first.entries@[i].state, second.entries@[i].state));
        if i != index {
            assert(entry_progressed(second.entries@[i].state, third.entries@[i].state));
        }
    }
    assert forall|i: int| 0 <= i < first.entries@.len() implies (#[trigger] third.entries@[i]).declaration
        == first.entries@[i].declaration by {
        assert(second.entries@[i].declaration == first.entries@[i].declaration);
    }
}

proof fn lemma_advanced_chain<'a>(first: &TypeChecker<'a>, second: &TypeChecker<'a>, third: &TypeChecker<'a>)
    requires
        first.advanced(second),
        second.advanced(third),
    ensures
        first.advanced(third),
{
    assert forall|i: int| 0 <= i < first.entries@.len() implies entry_progressed(
        first.entries@[i].state,
        (#[trigger] third.entries@[i]).state,
    ) by {
        assert(entry_progressed(first.entries@[i].state, second.entries@[i].state));
        assert(entry_progressed(second.entries@[i].state, third.entries@[i].state));
    }
    assert forall|i: int| 0 <= i < first.entries@.len() implies (#[trigger] third.entries@[i]).declaration
        == first.entries@[i].declaration by {
        assert(second.entries@[i].declaration == first.entries@[i].declaration);
    }
}

impl<'a> TypeChecker<'a> {
    /// Declarations that may still be typed: registered and not yet visited,
    /// or not yet registered.
    spec fn potential(&self) -> nat {
        count_unvisited(self.entries@) + self.capacity as nat
    }

    /// `next` is a later state of this checker: earlier entries keep their
    /// declarations, entries being typed stay so, and typed entries keep
    /// their fields; only the entry at `except` may change otherwise.
    spec fn advanced_except(&self, next: &Self, except: int) -> bool {
        &&& next.potential() <= self.potential()
        &&& self.entries@.len() <= next.entries@.len()
        &&& forall|i: int|
            0 <= i < self.entries@.len() ==> (#[trigger] next.entries@[i]).declaration
                == self.entries@[i].declaration
        &&& forall|i: int|
            0 <= i < self.entries@.len() && i != except ==> entry_progressed(
                self.entries@[i].state,
                (#[trigger] next.entries@[i]).state,
            )
    }

    spec fn advanced(&self, next: &Self) -> bool {
        self.advanced_except(next, -1)
    }

    /// The entry of the declaration `id`, if it is registered.
    fn find_entry(&self, id: CteId) -> (r: Option<usize>)
        ensures
            r matches Some(index) ==> index < self.entries@.len() && self.entries@[index as int].declaration.id == id
                && forall|k: int| 0 <= k < index ==> (#[trigger] self.entries@[k]).declaration.id != id,
            r is None ==> forall|k: int| 0 <= k < self.entries@.len() ==> (#[trigger] self.entries@[k]).declaration.id != id,
    {
        let mut index: usize = 0;
        while index < self.entries.len()
            invariant
                index <= self.entries@.len(),
                forall|k: int| 0 <= k < index ==> (#[trigger] self.entries@[k]).declaration.id != id,
            decreases self.entries@.len() - index,
        {
            if self.entries[index].declaration.id == id {
                return Some(index);
            }
            index = index + 1;
        }
        None
    }

    /// Registers the declarations of a WITH list that are not registered yet.
    fn register_ctes(&mut self, declarations: &'a Vec<CommonTableExpression<(), BoundFieldAnnotation>>) -> (r: Result<(), TypeError>)
        ensures
            old(self).advanced(final(self)),
            old(self).capacity >= declarations@.len() ==> r is Ok,
            r is Ok ==> forall|k: int|
                0 <= k < declarations@.len() ==> exists|i: int|
                    0 <= i < final(self).entries@.len() && final(self).entries@[i].declaration.id
                        == (#[trigger] declarations@[k]).id,
    {
        let mut index: usize = 0;
        while index < declarations.len()
            invariant
                old(self).advanced(self),
                index <= declarations@.len(),
                self.capacity + index >= old(self).capacity,
                forall|k: int|
                    0 <= k < index ==> exists|i: int|
                        0 <= i < self.entries@.len() && self.entries@[i].declaration.id
                            == (#[trigger] declarations@[k]).id,
            decreases declarations@.len() - index,
        {
            let ghost before = self.entries@;
            let declaration = &declarations[index];
            if self.find_entry(declaration.id).is_none() {
                if self.capacity == 0 {
                    return Err(
                        TypeError {
                            kind: TypeErrorKind::MissingFieldDescriptor(FieldId::from_index(declaration.id.index())),
                            span: declaration.span,
                        },
                    );
                }
                let entry = CteEntry { declaration, state: CteTypeState::Unvisited };
                proof {
                    lemma_count_push(self.entries@, entry);
                }
                self.entries.push(entry);
                self.capacity = self.capacity - 1;
                proof {
                    assert forall|k: int|
                        0 <= k < index + 1 implies exists|i: int|
                            0 <= i < self.entries@.len() && self.entries@[i].declaration.id
                                == (#[trigger] declarations@[k]).id by {
                        if k < index {
                            let i = choose|i: int|
                                0 <= i < before.len() && before[i].declaration.id == declarations@[k].id;
                            assert(self.entries@[i] == before[i]);
                        } else {
                            assert(self.entries@[before.len() as int].declaration.id == declaration.id);
                        }
                    }
                }
            }
            index = index + 1;
        }
        Ok(())
    }

    /// Starts typing the declaration `id`: its entry, and whether it still
    /// has to be typed. A declaration met again while it is being typed, or
    /// never registered, has no descriptors.
    fn begin_cte(&mut self, id: CteId, span: Span) -> (r: Result<(usize, bool), TypeError>)
        ensures
            old(self).advanced(final(self)),
            final(self).entries@.len() == old(self).entries@.len(),
            r is Ok <==> exists|k: int|
                0 <= k < old(self).entries@.len() && (#[trigger] old(self).entries@[k]).declaration.id == id
                    && (forall|j: int| 0 <= j < k ==> old(self).entries@[j].declaration.id != id)
                    && !(old(self).entries@[k].state is Typing),
            r matches Ok((index, fresh)) ==> fresh == (old(self).entries@[index as int].state is Unvisited),
            r matches Ok((index, fresh)) ==> index < final(self).entries@.len() && final(self).entries@[index as int].declaration.id == id && (fresh ==> final(self).entries@[index as int].state is Typing && old(self).entries@[index as int].state is Unvisited && final(self).potential() < old(self).potential()) && (!fresh ==> final(self).entries@[index as int].state is Typed),
    {
        let index = match self.find_entry(id) {
            Some(index) => index,
            None => {
                return Err(
                    TypeError {
                        kind: TypeErrorKind::MissingFieldDescriptor(FieldId::from_index(id.index())),
                        span,
                    },
                );
            },
        };
        let state = match &self.entries[index].state {
            CteTypeState::Unvisited => 0u8,
            CteTypeState::Typing => 1u8,
            CteTypeState::Typed { .. } => 2u8,
        };
        if state == 2 {
            return Ok((index, false));
        }
        let declaration = self.entries[index].declaration;
        if state == 1 {
            return Err(
                TypeError {
                    kind: TypeErrorKind::MissingFieldDescriptor(FieldId::from_index(id.index())),
                    span: declaration.span,
                },
            );
        }
        let entry = CteEntry { declaration, state: CteTypeState::Typing };
        proof {
            lemma_count_update(self.entries@, index as int, entry);
        }
        self.entries.set(index, entry);
        Ok((index, true))
    }

    /// Hands over the typed query of the entry at `index`, keeping its fields.
    fn take_typed_query(&mut self, index: usize) -> (r: Option<Box<QueryExpression<TypeDescriptor, TypeDescriptor>>>)
        requires
            index < old(self).entries@.len(),
        ensures
            old(self).advanced(final(self)),
            final(self).entries@.len() == old(self).entries@.len(),
            r is Some <==> old(self).entries@[index as int].state matches CteTypeState::Typed { query: Some(_), .. },
            r matches Some(typed) ==> old(self).entries@[index as int].state matches CteTypeState::Typed {
                query: Some(q),
                fields,
            } && *typed == *q && final(self).entries@[index as int].state == (CteTypeState::Typed { fields, query: None }),
            r is None ==> final(self).entries@ == old(self).entries@,
    {
        let declaration = self.entries[index].declaration;
        let mut taken = CteEntry { declaration, state: CteTypeState::Unvisited };
        proof {
            lemma_count_update(self.entries@, index as int, taken);
        }
        let ghost before = self.entries@;
        self.entries.set_and_swap(index, &mut taken);
        let ghost middle = self.entries@;
        match taken.state {
            CteTypeState::Typed { fields, query: Some(typed) } => {
                let kept = CteEntry { declaration, state: CteTypeState::Typed { fields, query: None } };
                proof {
                    lemma_count_update(middle, index as int, kept);
                    assert(middle.update(index as int, kept) =~= before.update(index as int, kept));
                }
                self.entries.set(index, kept);
                Some(typed)
            },
            other => {
                let kept = CteEntry { declaration, state: other };
                proof {
                    lemma_count_update(middle, index as int, kept);
                    assert(middle.update(index as int, kept) =~= before);
                }
                self.entries.set(index, kept);
                None
            },
        }
    }

    /// Types the query of the declaration at `index`, which is being typed.
    fn type_cte_query(&mut self, index: usize) -> (r: Result<(), TypeError>)
        requires
            index < old(self).entries@.len(),
            old(self).entries@[index as int].state is Typing,
        ensures
            old(self).advanced_except(final(self), index as int),
            r is Ok ==> final(self).entries@[index as int].state is Typed,
        decreases old(self).potential(), *old(self).entries@[index as int].declaration, 0int,
    {
        let declaration = self.entries[index].declaration;
        assert(decreases_to!(*declaration => *declaration.query));
        let query = self.type_query_expression(&declaration.query, None, true)?;
        let fields = copy_typed_fields(query.result_fields.as_slice());
        let entry = CteEntry {
            declaration,
            state: CteTypeState::Typed { fields, query: Some(Box::new(query)) },
        };
        proof {
            lemma_count_update(self.entries@, index as int, entry);
        }
        self.entries.set(index, entry);
        Ok(())
    }
}


/// The result scalars agree with the expected ones wherever one is expected.
pub open spec fn meets_expectations(
    fields: Seq<TypedField>,
    expected: Option<Seq<Option<ScalarType>>>,
) -> bool {
    match expected {
        None => true,
        Some(scalars) => forall|k: int|
            0 <= k < fields.len() && k < scalars.len() ==> match #[trigger] scalars[k] {
                Some(t) => fields[k].annotation.scalar == t,
                None => true,
            },
    }
}

pub open spec fn expectations_of(expected: Option<&[Option<ScalarType>]>) -> Option<Seq<Option<ScalarType>>> {
    match expected {
        Some(e) => Some(e@),
        None => None,
    }
}

/// The typed query keeps its span, its body is typed as `body_typed` says,
/// its result fields are those of its body, its ordering items have the
/// shape of the bound ones and name where NULLs sort when they may be NULL,
/// and a row bound, kept where the bound query has one, is placed only under
/// an ordering that names every result field.
pub open spec fn query_typed(query: QueryExpression<TypeDescriptor, TypeDescriptor>, bound: BoundQueryExpression) -> bool
    decreases bound,
{
    &&& query.span == bound.span
    &&& body_typed(query.body, bound.body)
    &&& field_entries(query.result_fields@) == field_entries(query.body.spec_result_fields())
    &&& forall|k: int|
        0 <= k < query.result_fields@.len() ==> (#[trigger] query.result_fields@[k]).name@
            == query.body.spec_result_fields()[k].name@
    &&& query.order_by@.len() == bound.order_by@.len()
    &&& forall|k: int|
        0 <= k < query.order_by@.len() ==> same_shape(
            (#[trigger] query.order_by@[k]).expression,
            bound.order_by@[k].expression,
        ) && query.order_by@[k].direction == bound.order_by@[k].direction && query.order_by@[k].null_placement
            == bound.order_by@[k].null_placement && query.order_by@[k].span == bound.order_by@[k].span
    &&& (query.row_bound is Some <==> bound.row_bound is Some)
    &&& forall|k: int|
        0 <= k < query.order_by@.len() ==> order_nullability_ok(
            (#[trigger] query.order_by@[k]).expression,
            query.order_by@[k].null_placement,
        )
    &&& (query.row_bound is Some ==> forall|k: int|
        0 <= k < query.result_fields@.len() ==> directly_ordered(query.order_by@, (#[trigger] query.result_fields@[k]).id))
}

/// The typed query block: its source fields are the schema of its FROM list,
/// its predicates are BOOLEAN, its items are typed over the source fields,
/// each result field carries the descriptor of its item, and its clauses
/// and items have the shape of the bound ones.
pub open spec fn select_typed(
    select: SelectQuery<TypeDescriptor, TypeDescriptor>,
    bound: SelectQuery<(), BoundFieldAnnotation>,
) -> bool {
    let environment = field_entries(select.source_fields@);
    &&& select.span == bound.span
    &&& select.distinct == bound.distinct
    &&& select.is_aggregate == bound.is_aggregate
    &&& field_entries(select.source_fields@) == from_schema(select.from@)
    &&& (select.having is Some ==> select.is_aggregate)
    &&& match select.where_clause {
        Some(w) => w.annotation.scalar == ScalarType::Boolean && expression_typed(environment, w),
        None => true,
    }
    &&& match select.having {
        Some(h) => h.annotation.scalar == ScalarType::Boolean && expression_typed(environment, h),
        None => true,
    }
    &&& select.result_fields@.len() == select.select_list@.len()
    &&& forall|k: int|
        0 <= k < select.select_list@.len() ==> expression_typed(
            environment,
            (#[trigger] select.select_list@[k]).expression,
        ) && select.result_fields@[k].annotation == select.select_list@[k].expression.annotation
            && select.result_fields@[k].id == select.select_list@[k].output.id
            && select.result_fields@[k].name@ == bound.select_list@[k].output.name@
            && select.select_list@[k].output.annotation == select.select_list@[k].expression.annotation
            && row_numbers_ok(select.select_list@[k].expression, select)
    &&& select.select_list@.len() == bound.select_list@.len()
    &&& forall|k: int|
        0 <= k < select.select_list@.len() ==> same_shape(
            (#[trigger] select.select_list@[k]).expression,
            bound.select_list@[k].expression,
        ) && select.select_list@[k].output.id == bound.select_list@[k].output.id
            && select.select_list@[k].span == bound.select_list@[k].span
    &&& select.from@.len() == bound.from@.len()
    &&& match (select.where_clause, bound.where_clause) {
        (Some(w), Some(b)) => same_shape(w, b),
        (None, None) => true,
        _ => false,
    }
    &&& match (select.having, bound.having) {
        (Some(h), Some(b)) => same_shape(h, b),
        (None, None) => true,
        _ => false,
    }
    &&& select.group_by@.len() == bound.group_by@.len()
    &&& forall|k: int|
        0 <= k < select.group_by@.len() ==> same_shape(#[trigger] select.group_by@[k], bound.group_by@[k])
}

/// The least of three integers.
pub open spec fn min3(a: int, b: int, c: int) -> int {
    if a <= b && a <= c {
        a
    } else if b <= c {
        b
    } else {
        c
    }
}

/// The typed body: a set operation's fields have the common scalar of both
/// operands and are NULL where either operand may be, and keep the
/// identities and names of its result fields as far as both operands reach.
pub open spec fn body_typed(body: QueryBody<TypeDescriptor, TypeDescriptor>, bound: QueryBody<(), BoundFieldAnnotation>) -> bool
    decreases bound,
{
    match (body, bound) {
        (QueryBody::Select(typed), QueryBody::Select(select)) => select_typed(*typed, *select),
        (
            QueryBody::Parenthesized { query: typed, span: typed_span },
            QueryBody::Parenthesized { query, span },
        ) => typed_span == span && query_typed(*typed, *query),
        (
            QueryBody::SetOperation { left, operator, all, right, result_fields, span },
            QueryBody::SetOperation {
                left: bound_left,
                operator: bound_operator,
                all: bound_all,
                right: bound_right,
                span: bound_span,
                ..
            },
        ) => {
            &&& operator == bound_operator
            &&& all == bound_all
            &&& span == bound_span
            &&& body_typed(*left, *bound_left)
            &&& body_typed(*right, *bound_right)
            &&& result_fields@.len() == min3(
                bound.spec_result_fields().len() as int,
                left.spec_result_fields().len() as int,
                right.spec_result_fields().len() as int,
            )
            &&& forall|k: int|
                0 <= k < result_fields@.len() ==> (#[trigger] result_fields@[k]).id == bound.spec_result_fields()[k].id
                    && result_fields@[k].name@ == bound.spec_result_fields()[k].name@
            &&& forall|k: int|
                0 <= k < result_fields@.len() ==> k < left.spec_result_fields().len() && k
                    < right.spec_result_fields().len() && left.spec_result_fields()[k].annotation.scalar
                    == right.spec_result_fields()[k].annotation.scalar && (#[trigger] result_fields@[k]).annotation
                    == descriptor(
                    left.spec_result_fields()[k].annotation.scalar,
                    left.spec_result_fields()[k].annotation.nullable
                        || right.spec_result_fields()[k].annotation.nullable,
                )
        },
        _ => false,
    }
}

spec fn condition_placed(condition: Option<BoundExpression>, placement: Placement) -> bool {
    match condition {
        Some(c) => placement_ok(c, placement),
        None => true,
    }
}

/// Cross-row operations stand only where a query block admits them: none in
/// join conditions, WHERE or GROUP BY; grouping aggregates in HAVING; both
/// kinds in the select list.
spec fn select_placements(select: SelectQuery<(), BoundFieldAnnotation>) -> bool {
    let none = Placement { grouping: false, window: false };
    &&& forall|i: int, j: int|
        0 <= i < select.from@.len() && 0 <= j < select.from@[i].joins@.len() ==> condition_placed((#[trigger] select.from@[i].joins@[j]).condition, none)
    &&& select.where_clause matches Some(w) ==> placement_ok(w, none)
    &&& forall|k: int| 0 <= k < select.group_by@.len() ==> placement_ok(#[trigger] select.group_by@[k], none)
    &&& select.having matches Some(h) ==> placement_ok(h, Placement { grouping: true, window: false })
    &&& forall|k: int|
        0 <= k < select.select_list@.len() ==> placement_ok(
            (#[trigger] select.select_list@[k]).expression,
            Placement { grouping: true, window: true },
        )
}

fn select_placements_ok(select: &SelectQuery<(), BoundFieldAnnotation>) -> (r: Result<(), TypeError>)
    ensures
        r matches Err(e) ==> e.kind is InvalidCrossRowPlacement,
        r is Ok <==> select_placements(*select),
{
    let none = Placement { grouping: false, window: false };
    let mut index: usize = 0;
    while index < select.from.len()
        invariant
            index <= select.from@.len(),
            none == (Placement { grouping: false, window: false }),
            forall|i: int, j: int|
                0 <= i < index && 0 <= j < select.from@[i].joins@.len() ==> condition_placed((#[trigger] select.from@[i].joins@[j]).condition, none),
        decreases select.from@.len() - index,
    {
        let joined = &select.from[index];
        let mut inner: usize = 0;
        while inner < joined.joins.len()
            invariant
                inner <= joined.joins@.len(),
                *joined == select.from@[index as int],
                index < select.from@.len(),
                forall|i: int, j: int|
                    0 <= i < index && 0 <= j < select.from@[i].joins@.len() ==> condition_placed((#[trigger] select.from@[i].joins@[j]).condition, none),
                forall|j: int|
                    0 <= j < inner ==> condition_placed((#[trigger] select.from@[index as int].joins@[j]).condition, none),
            decreases joined.joins@.len() - inner,
        {
            match &joined.joins[inner].condition {
                Some(condition) => validate_placement(condition, none)?,
                None => {},
            }
            inner = inner + 1;
        }
        index = index + 1;
    }
    match &select.where_clause {
        Some(expression) => validate_placement(expression, none)?,
        None => {},
    }
    let mut index: usize = 0;
    while index < select.group_by.len()
        invariant
            index <= select.group_by@.len(),
            forall|k: int| 0 <= k < index ==> placement_ok(#[trigger] select.group_by@[k], none),
        decreases select.group_by@.len() - index,
    {
        validate_placement(&select.group_by[index], none)?;
        index = index + 1;
    }
    match &select.having {
        Some(expression) => validate_placement(expression, Placement { grouping: true, window: false })?,
        None => {},
    }
    let mut index: usize = 0;
    while index < select.select_list.len()
        invariant
            index <= select.select_list@.len(),
            forall|k: int|
                0 <= k < index ==> placement_ok(
                    (#[trigger] select.select_list@[k]).expression,
                    Placement { grouping: true, window: true },
                ),
        decreases select.select_list@.len() - index,
    {
        validate_placement(&select.select_list[index].expression, Placement { grouping: true, window: true })?;
        index = index + 1;
    }
    Ok(())
}

/// Type checks a wholly bound program and constructs a wholly typed program.
///
/// Every typed expression follows the typing rules over the fields in scope,
/// every query block's predicates are BOOLEAN, every nullable ordering item
/// names where NULLs sort, and every set operation's fields have the common
/// scalar of both operands.
pub fn type_check(program: BoundProgram) -> (r: Result<TypedProgram, TypeError>)
    ensures
        r matches Ok(typed) ==> typed.span == program.span && query_typed(typed.query, program.query),
{
    let mut checker = TypeChecker { entries: Vec::new(), capacity: usize::MAX };
    let query = checker.type_query_expression(&program.query, None, true)?;
    Ok(Program { query, span: program.span })
}

impl<'a> TypeChecker<'a> {
    fn type_query_expression(
        &mut self,
        query: &'a BoundQueryExpression,
        expected: Option<&[Option<ScalarType>]>,
        assemble: bool,
    ) -> (r: Result<QueryExpression<TypeDescriptor, TypeDescriptor>, TypeError>)
        ensures
            old(self).advanced(final(self)),
            r matches Ok(typed) ==> query_typed(typed, *query),
        decreases old(self).potential(), *query, 2int,
    {
        self.register_ctes(&query.common_table_expressions)?;
        let body = self.type_query_body(&query.body, expected, assemble)?;
        let result_fields = copy_typed_fields(body.result_fields());
        let mut order_environment = environment(result_fields.as_slice());
        let mut order_placement = Placement { grouping: false, window: false };
        match &body {
            QueryBody::Select(select) => {
                if !select.distinct {
                    order_placement = Placement { grouping: false, window: true };
                    extend_environment(&mut order_environment, select.source_fields.as_slice());
                }
                if select.is_aggregate {
                    let mut allowed: Vec<FieldId> = Vec::new();
                    let mut index: usize = 0;
                    while index < result_fields.len()
                        invariant
                            index <= result_fields@.len(),
                        decreases result_fields@.len() - index,
                    {
                        allowed.push(result_fields[index].id);
                        index = index + 1;
                    }
                    let mut index: usize = 0;
                    while index < query.order_by.len()
                        invariant
                            index <= query.order_by@.len(),
                        decreases query.order_by@.len() - index,
                    {
                        let item = &query.order_by[index];
                        if !group_valid(&item.expression, select.group_by.as_slice(), &allowed) {
                            return Err(TypeError { kind: TypeErrorKind::UngroupedColumn, span: item.expression.span });
                        }
                        index = index + 1;
                    }
                }
            },
            _ => {},
        }
        let mut order_by: Vec<OrderItem<TypeDescriptor, TypeDescriptor>> = Vec::new();
        let mut index: usize = 0;
        while index < query.order_by.len()
            invariant
                old(self).advanced(self),
                index <= query.order_by@.len(),
                order_by@.len() == index,
                forall|k: int|
                    0 <= k < index ==> order_nullability_ok(
                        (#[trigger] order_by@[k]).expression,
                        order_by@[k].null_placement,
                    ) && same_shape(order_by@[k].expression, query.order_by@[k].expression)
                        && order_by@[k].direction == query.order_by@[k].direction
                        && order_by@[k].null_placement == query.order_by@[k].null_placement
                        && order_by@[k].span == query.order_by@[k].span,
            decreases query.order_by@.len() - index,
        {
            let item = &query.order_by[index];
            assert(decreases_to!(*query => query.order_by@[index as int].expression));
            validate_placement(&item.expression, order_placement)?;
            let ghost before = *self;
            let expression = self.type_expression(&item.expression, &order_environment, None, assemble)?;
            validate_order_nullability(&expression, item.null_placement)?;
            order_by.push(
                OrderItem {
                    expression,
                    direction: item.direction,
                    null_placement: item.null_placement,
                    span: item.span,
                },
            );
            index = index + 1;
        }
        match &body {
            QueryBody::Select(select) => {
                let mut index: usize = 0;
                while index < order_by.len()
                    invariant
                        index <= order_by@.len(),
                    decreases order_by@.len() - index,
                {
                    validate_row_number_expressions(&order_by[index].expression, select)?;
                    index = index + 1;
                }
            },
            _ => {},
        }
        let row_bound = match &query.row_bound {
            Some(bound) => Some(type_row_bound(bound, order_by.as_slice(), result_fields.as_slice())?),
            None => None,
        };
        let mut common_table_expressions: Vec<CommonTableExpression<TypeDescriptor, TypeDescriptor>> = Vec::new();
        let mut index: usize = 0;
        while index < query.common_table_expressions.len()
            invariant
                old(self).advanced(self),
                index <= query.common_table_expressions@.len(),
            decreases query.common_table_expressions@.len() - index,
        {
            let declaration = &query.common_table_expressions[index];
            let ghost before = *self;
            let ghost before_begin = *self;
            let (entry, fresh) = self.begin_cte(declaration.id, declaration.span)?;
            proof {
                lemma_advanced_chain(old(self), &before_begin, self);
            }
            if fresh {
                let ghost begun = *self;
                let typed = self.type_cte_query(entry);
                proof {
                    lemma_advanced_through_typing(&before_begin, &begun, self, entry as int);
                    lemma_advanced_chain(old(self), &before_begin, self);
                }
                typed?;
            }
            if assemble {
                match self.take_typed_query(entry) {
                    Some(typed) => {
                        common_table_expressions.push(
                            CommonTableExpression {
                                id: declaration.id,
                                name: declaration.name.clone(),
                                query: typed,
                                span: declaration.span,
                            },
                        );
                    },
                    None => {
                        return Err(
                            TypeError {
                                kind: TypeErrorKind::MissingFieldDescriptor(FieldId::from_index(declaration.id.index())),
                                span: declaration.span,
                            },
                        );
                    },
                }
            }
            index = index + 1;
        }
        Ok(
            QueryExpression {
                common_table_expressions,
                body,
                order_by,
                row_bound,
                result_fields,
                span: query.span,
            },
        )
    }
}


/// Checks a row bound: its values are INT64 spellings, and the ordering names
/// every result field directly.
fn type_row_bound(
    bound: &RowBound,
    order_by: &[OrderItem<TypeDescriptor, TypeDescriptor>],
    result_fields: &[TypedField],
) -> (r: Result<RowBound, TypeError>)
    ensures
        r is Ok ==> forall|k: int|
            0 <= k < result_fields@.len() ==> directly_ordered(order_by@, (#[trigger] result_fields@[k]).id),
        r is Ok ==> (bound.limit matches Some(v) ==> spells_int64(encode_utf8(v.spelling@)))
            && (bound.offset matches Some(v) ==> spells_int64(encode_utf8(v.spelling@))),
        r is Ok <==> (bound.limit matches Some(v) ==> spells_int64(encode_utf8(v.spelling@))) && (
        bound.offset matches Some(v) ==> spells_int64(encode_utf8(v.spelling@))) && forall|k: int|
            0 <= k < result_fields@.len() ==> directly_ordered(order_by@, (#[trigger] result_fields@[k]).id),
        r matches Ok(typed) ==> typed.span == bound.span && (typed.limit is Some <==> bound.limit is Some)
            && (typed.offset is Some <==> bound.offset is Some) && (typed.limit matches Some(v)
            ==> v.spelling@ == bound.limit->0.spelling@ && v.span == bound.limit->0.span) && (
        typed.offset matches Some(v) ==> v.spelling@ == bound.offset->0.spelling@ && v.span
            == bound.offset->0.span),
{
    match &bound.limit {
        Some(value) => {
            if !fits_int64(&value.spelling) {
                return Err(
                    TypeError {
                        kind: TypeErrorKind::IntegerOutOfRange(value.spelling.clone()),
                        span: value.span,
                    },
                );
            }
        },
        None => {},
    }
    match &bound.offset {
        Some(value) => {
            if !fits_int64(&value.spelling) {
                return Err(
                    TypeError {
                        kind: TypeErrorKind::IntegerOutOfRange(value.spelling.clone()),
                        span: value.span,
                    },
                );
            }
        },
        None => {},
    }
    let mut index: usize = 0;
    while index < result_fields.len()
        invariant
            index <= result_fields@.len(),
            forall|k: int| 0 <= k < index ==> directly_ordered(order_by@, (#[trigger] result_fields@[k]).id),
        decreases result_fields@.len() - index,
    {
        if !is_directly_ordered(order_by, result_fields[index].id) {
            return Err(TypeError { kind: TypeErrorKind::IncompleteRowBoundOrdering, span: bound.span });
        }
        index = index + 1;
    }
    let limit = match &bound.limit {
        Some(value) => Some(crate::hir::IntegerValue { spelling: value.spelling.clone(), span: value.span }),
        None => None,
    };
    let offset = match &bound.offset {
        Some(value) => Some(crate::hir::IntegerValue { spelling: value.spelling.clone(), span: value.span }),
        None => None,
    };
    Ok(RowBound { limit, offset, span: bound.span })
}

fn expectation_at(expected: Option<&[Option<ScalarType>]>, index: usize) -> (r: Option<ScalarType>)
    ensures
        match expected {
            Some(e) => if index < e@.len() {
                r == e@[index as int]
            } else {
                r is None
            },
            None => r is None,
        },
{
    match expected {
        Some(scalars) => if index < scalars.len() {
            scalars[index]
        } else {
            None
        },
        None => None,
    }
}

impl<'a> TypeChecker<'a> {
    fn type_query_body(
        &mut self,
        body: &'a QueryBody<(), BoundFieldAnnotation>,
        expected: Option<&[Option<ScalarType>]>,
        assemble: bool,
    ) -> (r: Result<QueryBody<TypeDescriptor, TypeDescriptor>, TypeError>)
        ensures
            old(self).advanced(final(self)),
            r matches Ok(typed) ==> body_typed(typed, *body) && typed.spec_span() == body.spec_span(),
        decreases old(self).potential(), *body, 0int,
    {
        match body {
            QueryBody::Select(select) => {
                let typed = self.type_select_query(select, expected, assemble)?;
                Ok(QueryBody::Select(Box::new(typed)))
            },
            QueryBody::Parenthesized { query, span } => {
                let typed = self.type_query_expression(query, expected, assemble)?;
                Ok(QueryBody::Parenthesized { query: Box::new(typed), span: *span })
            },
            QueryBody::SetOperation { left, operator, all, right, result_fields, span } => {
                let left_arity = left.result_fields().len();
                let right_arity = right.result_fields().len();
                if left_arity != right_arity {
                    return Err(
                        TypeError {
                            kind: TypeErrorKind::SetArity { left: left_arity, right: right_arity },
                            span: *span,
                        },
                    );
                }
                let left_hints = self.body_hints(left)?;
                let right_hints = self.body_hints(right)?;
                let mut common: Vec<Option<ScalarType>> = Vec::new();
                let mut index: usize = 0;
                while index < left_arity
                    invariant
                        old(self).advanced(self),
                        index <= left_arity,
                        common@.len() == index,
                    decreases left_arity - index,
                {
                    let external = expectation_at(expected, index);
                    let left_hint = expectation_at(Some(left_hints.as_slice()), index);
                    let right_hint = expectation_at(Some(right_hints.as_slice()), index);
                    let hint = common_hint(external, left_hint, right_hint, *span)?;
                    common.push(hint);
                    index = index + 1;
                }
                let typed_left = self.type_query_body(left, Some(common.as_slice()), assemble)?;
                let typed_right = self.type_query_body(right, Some(common.as_slice()), assemble)?;
                let left_fields = typed_left.result_fields();
                let right_fields = typed_right.result_fields();
                let mut typed_results: Vec<TypedField> = Vec::new();
                let mut index: usize = 0;
                while index < result_fields.len() && index < left_fields.len() && index < right_fields.len()
                    invariant
                        index <= result_fields@.len(),
                        index <= left_fields@.len(),
                        index <= right_fields@.len(),
                        typed_results@.len() == index,
                        forall|k: int|
                            0 <= k < index ==> (#[trigger] typed_results@[k]).id == result_fields@[k].id
                                && typed_results@[k].name@ == result_fields@[k].name@,
                        forall|k: int|
                            0 <= k < index ==> left_fields@[k].annotation.scalar == right_fields@[k].annotation.scalar
                                && (#[trigger] typed_results@[k]).annotation == descriptor(
                                left_fields@[k].annotation.scalar,
                                left_fields@[k].annotation.nullable || right_fields@[k].annotation.nullable,
                            ),
                    decreases result_fields@.len() - index,
                {
                    let left_field = &left_fields[index];
                    let right_field = &right_fields[index];
                    ensure_scalar(left_field.annotation.scalar, right_field.annotation.scalar, *span)?;
                    let output = &result_fields[index];
                    typed_results.push(
                        Field {
                            id: output.id,
                            name: output.name.clone(),
                            annotation: TypeDescriptor::new(
                                left_field.annotation.scalar,
                                left_field.annotation.nullable || right_field.annotation.nullable,
                            ),
                        },
                    );
                    index = index + 1;
                }
                Ok(
                    QueryBody::SetOperation {
                        left: Box::new(typed_left),
                        operator: *operator,
                        all: *all,
                        right: Box::new(typed_right),
                        result_fields: typed_results,
                        span: *span,
                    },
                )
            },
        }
    }

    /// The scalar types the result fields of a body are known to have before
    /// the body is typed.
    fn body_hints(&mut self, body: &'a QueryBody<(), BoundFieldAnnotation>) -> (r: Result<Vec<Option<ScalarType>>, TypeError>)
        ensures
            old(self).advanced(final(self)),
        decreases old(self).potential(), *body, 1int,
    {
        match body {
            QueryBody::Select(select) => {
                let source_fields = self.source_schema_hint(select)?;
                let environment = environment(source_fields.as_slice());
                let mut hints: Vec<Option<ScalarType>> = Vec::new();
                let mut index: usize = 0;
                while index < select.select_list.len()
                    invariant
                        index <= select.select_list@.len(),
                    decreases select.select_list@.len() - index,
                {
                    hints.push(scalar_hint(&select.select_list[index].expression, &environment)?);
                    index = index + 1;
                }
                Ok(hints)
            },
            QueryBody::Parenthesized { query, .. } => self.query_hints(query),
            QueryBody::SetOperation { left, right, span, .. } => {
                let left_hints = self.body_hints(left)?;
                let right_hints = self.body_hints(right)?;
                if left_hints.len() != right_hints.len() {
                    return Ok(left_hints);
                }
                let mut hints: Vec<Option<ScalarType>> = Vec::new();
                let mut index: usize = 0;
                while index < left_hints.len()
                    invariant
                        index <= left_hints@.len(),
                        left_hints@.len() == right_hints@.len(),
                    decreases left_hints@.len() - index,
                {
                    hints.push(common_hint(None, left_hints[index], right_hints[index], *span)?);
                    index = index + 1;
                }
                Ok(hints)
            },
        }
    }

    fn query_hints(&mut self, query: &'a BoundQueryExpression) -> (r: Result<Vec<Option<ScalarType>>, TypeError>)
        ensures
            old(self).advanced(final(self)),
        decreases old(self).potential(), *query, 1int,
    {
        self.register_ctes(&query.common_table_expressions)?;
        self.body_hints(&query.body)
    }

    /// The schema a query block's sources are known to have before it is typed.
    fn source_schema_hint(&mut self, select: &'a SelectQuery<(), BoundFieldAnnotation>) -> (r: Result<Vec<TypedField>, TypeError>)
        ensures
            old(self).advanced(final(self)),
        decreases old(self).potential(), *select, 0int,
    {
        let mut complete: Vec<TypedField> = Vec::new();
        let mut index: usize = 0;
        while index < select.from.len()
            invariant
                old(self).advanced(self),
                index <= select.from@.len(),
            decreases select.from@.len() - index,
        {
            let joined = &select.from[index];
            assert(decreases_to!(*select => select.from@[index as int].left));
            let mut schema = self.primary_schema_hint(&joined.left)?;
            let mut inner: usize = 0;
            while inner < joined.joins.len()
                invariant
                    old(self).advanced(self),
                    inner <= joined.joins@.len(),
                decreases joined.joins@.len() - inner,
            {
                let join = &joined.joins[inner];
                assert(decreases_to!(*select => select.from@[index as int].joins@[inner as int].right));
                let right = self.primary_schema_hint(&join.right)?;
                schema = widen_schema(schema, join.kind, right);
                inner = inner + 1;
            }
            append_fields(&mut complete, schema);
            index = index + 1;
        }
        Ok(complete)
    }

    fn primary_schema_hint(&mut self, primary: &'a TablePrimary<(), BoundFieldAnnotation>) -> (r: Result<Vec<TypedField>, TypeError>)
        ensures
            old(self).advanced(final(self)),
            r matches Ok(fields) ==> fields@.len() == primary.spec_occurrence().fields@.len() && forall|k: int|
                0 <= k < fields@.len() ==> (#[trigger] fields@[k]).id == primary.spec_occurrence().fields@[k].id,
            primary is Catalog ==> (r is Ok <==> forall|k: int|
                0 <= k < primary.spec_occurrence().fields@.len() ==> (
                #[trigger] primary.spec_occurrence().fields@[k]).annotation is Some),
            primary is Catalog ==> (r matches Ok(fields) ==> forall|k: int|
                0 <= k < fields@.len() ==> primary.spec_occurrence().fields@[k].annotation == Some(
                    (#[trigger] fields@[k]).annotation,
                )),
        decreases old(self).potential(), *primary, 1int,
    {
        match primary {
            TablePrimary::Catalog { occurrence, span, .. } => {
                let typed = type_catalog_occurrence(occurrence, *span)?;
                Ok(typed.fields)
            },
            TablePrimary::CommonTableExpression { declaration, occurrence, span } => {
                let fields = self.cte_fields(*declaration, *span, Ghost(*primary))?;
                let typed = type_derived_occurrence(occurrence, fields.as_slice(), *span)?;
                Ok(typed.fields)
            },
            TablePrimary::Derived { query, occurrence, span } => {
                let typed_query = self.type_query_expression(query, None, false)?;
                let typed = type_derived_occurrence(occurrence, typed_query.result_fields.as_slice(), *span)?;
                Ok(typed.fields)
            },
        }
    }

    /// The result fields of the declaration `id`, typing it where it is not
    /// typed yet.
    fn cte_fields(
        &mut self,
        id: CteId,
        span: Span,
        Ghost(primary): Ghost<TablePrimary<(), BoundFieldAnnotation>>,
    ) -> (r: Result<Vec<TypedField>, TypeError>)
        ensures
            old(self).advanced(final(self)),
            (forall|k: int| 0 <= k < old(self).entries@.len() ==> (#[trigger] old(self).entries@[k]).declaration.id != id)
                ==> r is Err,
            r matches Ok(fields) ==> exists|k: int|
                0 <= k < final(self).entries@.len() && (#[trigger] final(self).entries@[k]).declaration.id == id
                    && (final(self).entries@[k].state matches CteTypeState::Typed { fields: typed, .. }
                    && field_entries(fields@) == field_entries(typed@)),
        decreases old(self).potential(), primary, 0int,
    {
        let (entry, fresh) = self.begin_cte(id, span)?;
        if fresh {
            let ghost begun = *self;
            let typed = self.type_cte_query(entry);
            proof {
                lemma_advanced_through_typing(old(self), &begun, self, entry as int);
            }
            typed?;
        }
        match &self.entries[entry].state {
            CteTypeState::Typed { fields, .. } => {
                let copy = copy_typed_fields(fields.as_slice());
                assert(self.entries@[entry as int].declaration.id == id);
                Ok(copy)
            },
            _ => vstd::pervasive::unreached(),
        }
    }
}

/// The schema after joining `right` to `schema` by `kind`.
fn widen_schema(schema: Vec<TypedField>, kind: JoinKind, right: Vec<TypedField>) -> (joined: Vec<TypedField>)
    ensures
        field_entries(joined@) == join_schema(field_entries(schema@), kind, field_entries(right@)),
{
    match kind {
        JoinKind::Cross => {
            let mut joined = schema;
            append_fields(&mut joined, right);
            joined
        },
        JoinKind::Inner => {
            let mut joined = schema;
            append_fields(&mut joined, right);
            joined
        },
        JoinKind::Left => {
            let mut joined = schema;
            append_fields(&mut joined, nullable_schema(right));
            joined
        },
        JoinKind::Right => {
            let mut joined = nullable_schema(schema);
            append_fields(&mut joined, right);
            joined
        },
        JoinKind::Full => {
            let mut joined = nullable_schema(schema);
            append_fields(&mut joined, nullable_schema(right));
            joined
        },
    }
}


impl<'a> TypeChecker<'a> {
    fn type_select_query(
        &mut self,
        select: &'a SelectQuery<(), BoundFieldAnnotation>,
        expected: Option<&[Option<ScalarType>]>,
        assemble: bool,
    ) -> (r: Result<SelectQuery<TypeDescriptor, TypeDescriptor>, TypeError>)
        ensures
            old(self).advanced(final(self)),
            r matches Ok(typed) ==> select_typed(typed, *select) && meets_expectations(
                typed.result_fields@,
                expectations_of(expected),
            ),
        decreases old(self).potential(), *select, 1int,
    {
        match &select.having {
            Some(having) => {
                if !select.is_aggregate {
                    return Err(TypeError { kind: TypeErrorKind::HavingWithoutAggregate, span: having.span });
                }
            },
            None => {},
        }
        select_placements_ok(select)?;
        if select.is_aggregate {
            let no_fields: Vec<FieldId> = Vec::new();
            let mut index: usize = 0;
            while index < select.select_list.len()
                invariant
                    index <= select.select_list@.len(),
                decreases select.select_list@.len() - index,
            {
                let item = &select.select_list[index];
                if !group_valid(&item.expression, select.group_by.as_slice(), &no_fields) {
                    return Err(TypeError { kind: TypeErrorKind::UngroupedColumn, span: item.expression.span });
                }
                index = index + 1;
            }
            match &select.having {
                Some(having) => {
                    if !group_valid(having, select.group_by.as_slice(), &no_fields) {
                        return Err(TypeError { kind: TypeErrorKind::UngroupedColumn, span: having.span });
                    }
                },
                None => {},
            }
        }
        let (from, source_fields) = self.type_from(select, assemble)?;
        let environment = environment(source_fields.as_slice());
        let where_clause = match &select.where_clause {
            Some(expression) => Some(self.type_predicate(expression, &environment, assemble)?),
            None => None,
        };
        let mut group_by: Vec<TypedExpression> = Vec::new();
        let mut index: usize = 0;
        while index < select.group_by.len()
            invariant
                old(self).advanced(self),
                index <= select.group_by@.len(),
                group_by@.len() == index,
                forall|k: int| 0 <= k < index ==> same_shape(#[trigger] group_by@[k], select.group_by@[k]),
            decreases select.group_by@.len() - index,
        {
            assert(decreases_to!(*select => select.group_by@[index as int]));
            let expression = self.type_expression(&select.group_by[index], &environment, None, assemble)?;
            group_by.push(expression);
            index = index + 1;
        }
        let having = match &select.having {
            Some(expression) => Some(self.type_predicate(expression, &environment, assemble)?),
            None => None,
        };
        let mut select_list: Vec<SelectField<TypeDescriptor, TypeDescriptor>> = Vec::new();
        let mut result_fields: Vec<TypedField> = Vec::new();
        let mut index: usize = 0;
        while index < select.select_list.len()
            invariant
                old(self).advanced(self),
                index <= select.select_list@.len(),
                select_list@.len() == index,
                result_fields@.len() == index,
                environment@ == field_entries(source_fields@),
                forall|k: int|
                    0 <= k < index ==> expression_typed(environment@, (#[trigger] select_list@[k]).expression)
                        && result_fields@[k].annotation == select_list@[k].expression.annotation
                        && result_fields@[k].id == select_list@[k].output.id
                        && result_fields@[k].name@ == select.select_list@[k].output.name@
                        && select_list@[k].output.annotation == select_list@[k].expression.annotation
                        && same_shape(select_list@[k].expression, select.select_list@[k].expression)
                        && select_list@[k].output.id == select.select_list@[k].output.id
                        && select_list@[k].span == select.select_list@[k].span,
                meets_expectations(result_fields@, expectations_of(expected)),
            decreases select.select_list@.len() - index,
        {
            let item = &select.select_list[index];
            let expected_scalar = expectation_at(expected, index);
            assert(decreases_to!(*select => select.select_list@[index as int].expression));
            let expression = self.type_expression(&item.expression, &environment, expected_scalar, assemble)?;
            let annotation = expression.annotation;
            result_fields.push(Field { id: item.output.id, name: item.output.name.clone(), annotation });
            select_list.push(
                SelectField {
                    output: Field { id: item.output.id, name: item.output.name.clone(), annotation },
                    expression,
                    span: item.span,
                },
            );
            index = index + 1;
        }
        let typed = SelectQuery {
            distinct: select.distinct,
            select_list,
            from,
            source_fields,
            where_clause,
            group_by,
            having,
            result_fields,
            is_aggregate: select.is_aggregate,
            span: select.span,
        };
        let mut index: usize = 0;
        while index < typed.select_list.len()
            invariant
                index <= typed.select_list@.len(),
                forall|k: int| 0 <= k < index ==> row_numbers_ok((#[trigger] typed.select_list@[k]).expression, typed),
            decreases typed.select_list@.len() - index,
        {
            validate_row_number_expressions(&typed.select_list[index].expression, &typed)?;
            index = index + 1;
        }
        Ok(typed)
    }

    fn type_from(
        &mut self,
        select: &'a SelectQuery<(), BoundFieldAnnotation>,
        assemble: bool,
    ) -> (r: Result<(Vec<JoinedTable<TypeDescriptor, TypeDescriptor>>, Vec<TypedField>), TypeError>)
        ensures
            old(self).advanced(final(self)),
            r matches Ok((from, schema)) ==> field_entries(schema@) == from_schema(from@) && from@.len()
                == select.from@.len(),
        decreases old(self).potential(), *select, 0int,
    {
        let mut typed_tables: Vec<JoinedTable<TypeDescriptor, TypeDescriptor>> = Vec::new();
        let mut complete: Vec<TypedField> = Vec::new();
        let mut index: usize = 0;
        while index < select.from.len()
            invariant
                old(self).advanced(self),
                index <= select.from@.len(),
                typed_tables@.len() == index,
                field_entries(complete@) == from_schema(typed_tables@),
            decreases select.from@.len() - index,
        {
            let joined = &select.from[index];
            assert(decreases_to!(*select => select.from@[index as int].left));
            let (left, mut schema) = self.type_table_primary(&joined.left, assemble)?;
            let mut joins: Vec<Join<TypeDescriptor, TypeDescriptor>> = Vec::new();
            let mut inner: usize = 0;
            while inner < joined.joins.len()
                invariant
                    old(self).advanced(self),
                    inner <= joined.joins@.len(),
                    joins@.len() == inner,
                    field_entries(schema@) == joins_schema(table_entries(left), joins@, inner as int),
                decreases joined.joins@.len() - inner,
            {
                let join = &joined.joins[inner];
                assert(decreases_to!(*select => select.from@[index as int].joins@[inner as int].right));
                let (right, right_schema) = self.type_table_primary(&join.right, assemble)?;
                let mut condition_schema = copy_typed_fields(schema.as_slice());
                append_fields(&mut condition_schema, copy_typed_fields(right_schema.as_slice()));
                let condition_environment = environment(condition_schema.as_slice());
                let condition = match &join.condition {
                    Some(condition) => {
                        assert(decreases_to!(*select => select.from@[index as int].joins@[inner as int].condition));
                        validate_placement(condition, Placement { grouping: false, window: false })?;
                        Some(self.type_predicate(condition, &condition_environment, assemble)?)
                    },
                    None => None,
                };
                let ghost previous_joins = joins@;
                schema = widen_schema(schema, join.kind, right_schema);
                let bound_join = Join { kind: join.kind, right, condition, span: join.span };
                proof {
                    lemma_joins_schema_prefix(table_entries(left), previous_joins, bound_join, inner as int);
                }
                joins.push(bound_join);
                inner = inner + 1;
            }
            let table = JoinedTable { left, joins, span: joined.span };
            let ghost previous = typed_tables@;
            append_fields(&mut complete, schema);
            typed_tables.push(table);
            assert(typed_tables@.drop_last() =~= previous);
            index = index + 1;
        }
        Ok((typed_tables, complete))
    }
}


impl<'a> TypeChecker<'a> {
    fn type_table_primary(
        &mut self,
        primary: &'a TablePrimary<(), BoundFieldAnnotation>,
        assemble: bool,
    ) -> (r: Result<(TablePrimary<TypeDescriptor, TypeDescriptor>, Vec<TypedField>), TypeError>)
        ensures
            old(self).advanced(final(self)),
            r matches Ok((table, schema)) ==> field_entries(schema@) == table_entries(table)
                && table.spec_span() == primary.spec_span(),
        decreases old(self).potential(), *primary, 1int,
    {
        match primary {
            TablePrimary::Catalog { binding, occurrence, span } => {
                let typed = type_catalog_occurrence(occurrence, *span)?;
                let schema = copy_typed_fields(typed.fields.as_slice());
                Ok((TablePrimary::Catalog { binding: binding.clone(), occurrence: typed, span: *span }, schema))
            },
            TablePrimary::CommonTableExpression { declaration, occurrence, span } => {
                let fields = self.cte_fields(*declaration, *span, Ghost(*primary))?;
                let typed = type_derived_occurrence(occurrence, fields.as_slice(), *span)?;
                let schema = copy_typed_fields(typed.fields.as_slice());
                Ok(
                    (
                        TablePrimary::CommonTableExpression {
                            declaration: *declaration,
                            occurrence: typed,
                            span: *span,
                        },
                        schema,
                    ),
                )
            },
            TablePrimary::Derived { query, occurrence, span } => {
                let typed_query = self.type_query_expression(query, None, assemble)?;
                let typed = type_derived_occurrence(occurrence, typed_query.result_fields.as_slice(), *span)?;
                let schema = copy_typed_fields(typed.fields.as_slice());
                Ok(
                    (
                        TablePrimary::Derived { query: Box::new(typed_query), occurrence: typed, span: *span },
                        schema,
                    ),
                )
            },
        }
    }

    fn type_predicate(
        &mut self,
        expression: &'a BoundExpression,
        environment: &FieldEnvironment,
        assemble: bool,
    ) -> (r: Result<TypedExpression, TypeError>)
        ensures
            old(self).advanced(final(self)),
            r matches Ok(typed) ==> typed_as(environment@, *expression, Some(ScalarType::Boolean), typed),
        decreases old(self).potential(), *expression, 4int,
    {
        let span = expression.span;
        let typed = self.type_expression(expression, environment, Some(ScalarType::Boolean), assemble)?;
        if typed.annotation.scalar != ScalarType::Boolean {
            return Err(TypeError { kind: TypeErrorKind::InvalidPredicate(typed.annotation.scalar), span });
        }
        Ok(typed)
    }

    fn type_expression(
        &mut self,
        expression: &'a BoundExpression,
        environment: &FieldEnvironment,
        expected: Option<ScalarType>,
        assemble: bool,
    ) -> (r: Result<TypedExpression, TypeError>)
        ensures
            old(self).advanced(final(self)),
            r matches Ok(typed) ==> typed_as(environment@, *expression, expected, typed),
        decreases old(self).potential(), *expression, 3int,
    {
        self.type_expression_inner(expression, environment, expected, false, assemble)
    }

    /// Types each expression of a list of `parent` with one expected scalar.
    fn type_list(
        &mut self,
        expressions: &'a Vec<BoundExpression>,
        Ghost(parent): Ghost<BoundExpression>,
        environment: &FieldEnvironment,
        expected: Option<ScalarType>,
        assemble: bool,
    ) -> (r: Result<Vec<TypedExpression>, TypeError>)
        requires
            forall|k: int| 0 <= k < expressions@.len() ==> decreases_to!(parent => #[trigger] expressions@[k]),
        ensures
            old(self).advanced(final(self)),
            r matches Ok(typed) ==> typed@.len() == expressions@.len() && forall|k: int|
                0 <= k < expressions@.len() ==> typed_as(environment@, expressions@[k], expected, #[trigger] typed@[k]),
        decreases old(self).potential(), parent, 0int,
    {
        let mut typed: Vec<TypedExpression> = Vec::new();
        let mut index: usize = 0;
        while index < expressions.len()
            invariant
                old(self).advanced(self),
                index <= expressions@.len(),
                typed@.len() == index,
                forall|k: int| 0 <= k < index ==> typed_as(environment@, expressions@[k], expected, #[trigger] typed@[k]),
            decreases expressions@.len() - index,
        {
            let expression = self.type_expression(&expressions[index], environment, expected, assemble)?;
            typed.push(expression);
            index = index + 1;
        }
        Ok(typed)
    }

    fn type_branches(
        &mut self,
        branches: &'a Vec<WhenClause<(), BoundFieldAnnotation>>,
        Ghost(parent): Ghost<BoundExpression>,
        environment: &FieldEnvironment,
        result_scalar: ScalarType,
        assemble: bool,
    ) -> (r: Result<Vec<WhenClause<TypeDescriptor, TypeDescriptor>>, TypeError>)
        requires
            forall|k: int|
                0 <= k < branches@.len() ==> decreases_to!(parent => (#[trigger] branches@[k]).condition)
                    && decreases_to!(parent => branches@[k].result),
        ensures
            old(self).advanced(final(self)),
            r matches Ok(typed) ==> typed@.len() == branches@.len() && forall|k: int|
                0 <= k < branches@.len() ==> typed_as(
                    environment@,
                    branches@[k].condition,
                    Some(ScalarType::Boolean),
                    (#[trigger] typed@[k]).condition,
                ) && typed_as(environment@, branches@[k].result, Some(result_scalar), typed@[k].result)
                    && typed@[k].span == branches@[k].span,
        decreases old(self).potential(), parent, 0int,
    {
        let mut typed: Vec<WhenClause<TypeDescriptor, TypeDescriptor>> = Vec::new();
        let mut index: usize = 0;
        while index < branches.len()
            invariant
                old(self).advanced(self),
                index <= branches@.len(),
                typed@.len() == index,
                forall|k: int|
                    0 <= k < index ==> typed_as(
                        environment@,
                        branches@[k].condition,
                        Some(ScalarType::Boolean),
                        (#[trigger] typed@[k]).condition,
                    ) && typed_as(environment@, branches@[k].result, Some(result_scalar), typed@[k].result)
                        && typed@[k].span == branches@[k].span,
            decreases branches@.len() - index,
        {
            let branch = &branches[index];
            let condition = self.type_predicate(&branch.condition, environment, assemble)?;
            let result = self.type_expression(&branch.result, environment, Some(result_scalar), assemble)?;
            typed.push(WhenClause { condition, result, span: branch.span });
            index = index + 1;
        }
        Ok(typed)
    }

    fn type_window_order(
        &mut self,
        order_by: &'a Vec<OrderItem<(), BoundFieldAnnotation>>,
        Ghost(parent): Ghost<BoundExpression>,
        environment: &FieldEnvironment,
        assemble: bool,
    ) -> (r: Result<Vec<OrderItem<TypeDescriptor, TypeDescriptor>>, TypeError>)
        requires
            forall|k: int| 0 <= k < order_by@.len() ==> decreases_to!(parent => (#[trigger] order_by@[k]).expression),
        ensures
            old(self).advanced(final(self)),
            r matches Ok(typed) ==> typed@.len() == order_by@.len() && forall|k: int|
                0 <= k < order_by@.len() ==> expression_typed(environment@, (#[trigger] typed@[k]).expression)
                    && order_nullability_ok(typed@[k].expression, typed@[k].null_placement)
                    && same_shape(typed@[k].expression, order_by@[k].expression) && typed@[k].direction
                    == order_by@[k].direction && typed@[k].null_placement == order_by@[k].null_placement
                    && typed@[k].span == order_by@[k].span,
        decreases old(self).potential(), parent, 0int,
    {
        let mut typed: Vec<OrderItem<TypeDescriptor, TypeDescriptor>> = Vec::new();
        let mut index: usize = 0;
        while index < order_by.len()
            invariant
                old(self).advanced(self),
                index <= order_by@.len(),
                typed@.len() == index,
                forall|k: int|
                    0 <= k < index ==> expression_typed(environment@, (#[trigger] typed@[k]).expression)
                        && order_nullability_ok(typed@[k].expression, typed@[k].null_placement)
                        && same_shape(typed@[k].expression, order_by@[k].expression) && typed@[k].direction
                        == order_by@[k].direction && typed@[k].null_placement == order_by@[k].null_placement
                        && typed@[k].span == order_by@[k].span,
            decreases order_by@.len() - index,
        {
            let item = &order_by[index];
            let expression = self.type_expression(&item.expression, environment, None, assemble)?;
            validate_order_nullability(&expression, item.null_placement)?;
            typed.push(
                OrderItem {
                    expression,
                    direction: item.direction,
                    null_placement: item.null_placement,
                    span: item.span,
                },
            );
            index = index + 1;
        }
        Ok(typed)
    }
}


impl<'a> TypeChecker<'a> {
    #[verifier::rlimit(80)]
    #[verifier::spinoff_prover]
    fn type_expression_inner(
        &mut self,
        expression: &'a BoundExpression,
        environment: &FieldEnvironment,
        expected: Option<ScalarType>,
        allow_min_magnitude: bool,
        assemble: bool,
    ) -> (r: Result<TypedExpression, TypeError>)
        ensures
            old(self).advanced(final(self)),
            r matches Ok(typed) ==> typed_as(environment@, *expression, expected, typed),
            expression.kind matches ExpressionKind::Literal(LiteralValue::Text(_)) ==> settled_as(
                r,
                expected,
                ScalarType::Text,
                expression.span,
            ),
            expression.kind matches ExpressionKind::Literal(LiteralValue::Boolean(_)) ==> settled_as(
                r,
                expected,
                ScalarType::Boolean,
                expression.span,
            ),
            expression.kind matches ExpressionKind::Literal(LiteralValue::Null) ==> (r is Ok <==> expected is Some)
                && (r matches Err(e) ==> e == (TypeError { kind: TypeErrorKind::UnconstrainedNull, span: expression.span })),
            expression.kind matches ExpressionKind::Literal(LiteralValue::Integer(spelling)) ==> if spells_int64(
                encode_utf8(spelling@),
            ) || allow_min_magnitude && encode_utf8(spelling@) == min_magnitude_bytes() {
                settled_as(r, expected, ScalarType::Int64, expression.span)
            } else {
                r matches Err(e) && e.kind matches TypeErrorKind::IntegerOutOfRange(text) && text@ == spelling@
                    && e.span == expression.span
            },
            expression.kind matches ExpressionKind::Field(field) ==> match env_lookup(environment@, field) {
                Some(descriptor) => settled_as(r, expected, descriptor.scalar, expression.span),
                None => r == Err::<TypedExpression, TypeError>(
                    TypeError { kind: TypeErrorKind::MissingFieldDescriptor(field), span: expression.span },
                ),
            },
        decreases old(self).potential(), *expression, 2int,
    {
        let span = expression.span;
        let typed: TypedExpression = match &expression.kind {
            ExpressionKind::Literal(value) => match value {
                LiteralValue::Integer(spelling) => {
                    if !fits_int64(spelling) && !(allow_min_magnitude && is_min_magnitude(spelling)) {
                        return Err(
                            TypeError { kind: TypeErrorKind::IntegerOutOfRange(spelling.clone()), span },
                        );
                    }
                    Expression::new(
                        ExpressionKind::Literal(LiteralValue::Integer(spelling.clone())),
                        TypeDescriptor::non_nullable(ScalarType::Int64),
                        span,
                    )
                },
                LiteralValue::Text(text) => Expression::new(
                    ExpressionKind::Literal(LiteralValue::Text(text.clone())),
                    TypeDescriptor::non_nullable(ScalarType::Text),
                    span,
                ),
                LiteralValue::Boolean(value) => Expression::new(
                    ExpressionKind::Literal(LiteralValue::Boolean(*value)),
                    TypeDescriptor::non_nullable(ScalarType::Boolean),
                    span,
                ),
                LiteralValue::Null => match expected {
                    Some(scalar) => Expression::new(
                        ExpressionKind::Literal(LiteralValue::Null),
                        TypeDescriptor::nullable(scalar),
                        span,
                    ),
                    None => {
                        return Err(TypeError { kind: TypeErrorKind::UnconstrainedNull, span });
                    },
                },
            },
            ExpressionKind::Field(field) => match lookup(environment, *field) {
                Some(descriptor) => Expression::new(ExpressionKind::Field(*field), descriptor, span),
                None => {
                    return Err(TypeError { kind: TypeErrorKind::MissingFieldDescriptor(*field), span });
                },
            },
            ExpressionKind::Parenthesized(inner) => {
                let inner = self.type_expression_inner(inner, environment, expected, false, assemble)?;
                let descriptor = inner.annotation;
                Expression::new(ExpressionKind::Parenthesized(Box::new(inner)), descriptor, span)
            },
            ExpressionKind::Unary { operator, expression: inner } => {
                let required = unary_operand_type(*operator);
                let special_min = *operator == UnaryOperator::Negative && match &inner.kind {
                    ExpressionKind::Literal(LiteralValue::Integer(value)) => is_min_magnitude(value),
                    _ => false,
                };
                let inner = self.type_expression_inner(inner, environment, Some(required), special_min, assemble)?;
                ensure_scalar(required, inner.annotation.scalar, span)?;
                let descriptor = TypeDescriptor::new(required, inner.annotation.nullable);
                Expression::new(
                    ExpressionKind::Unary { operator: *operator, expression: Box::new(inner) },
                    descriptor,
                    span,
                )
            },
            ExpressionKind::Binary { .. } => self.type_binary(expression, environment, expected, assemble)?,
            ExpressionKind::IsNull { expression: inner, negated } => {
                let hint = scalar_hint(inner, environment)?;
                let inner = self.type_expression(inner, environment, hint, assemble)?;
                Expression::new(
                    ExpressionKind::IsNull { expression: Box::new(inner), negated: *negated },
                    TypeDescriptor::non_nullable(ScalarType::Boolean),
                    span,
                )
            },
            ExpressionKind::InList { .. } => self.type_in_list(expression, environment, expected, assemble)?,
            ExpressionKind::InQuery { .. } => self.type_in_query(expression, environment, expected, assemble)?,
            ExpressionKind::Case { .. } => self.type_case(expression, environment, expected, assemble)?,
            ExpressionKind::Cast { expression: inner, scalar_type } => {
                let source_hint = scalar_hint(inner, environment)?;
                let inner_expected = match source_hint {
                    Some(scalar) => Some(scalar),
                    None => Some(*scalar_type),
                };
                let inner = self.type_expression(inner, environment, inner_expected, assemble)?;
                if !cast_permitted(inner.annotation.scalar, *scalar_type) {
                    return Err(
                        TypeError {
                            kind: TypeErrorKind::UnsupportedCast { source: inner.annotation.scalar, target: *scalar_type },
                            span,
                        },
                    );
                }
                let descriptor = TypeDescriptor::new(*scalar_type, inner.annotation.nullable);
                Expression::new(
                    ExpressionKind::Cast { expression: Box::new(inner), scalar_type: *scalar_type },
                    descriptor,
                    span,
                )
            },
            ExpressionKind::Exists { query } => {
                let typed_query = self.type_query_expression(query, None, assemble)?;
                Expression::new(
                    ExpressionKind::Exists { query: Box::new(typed_query) },
                    TypeDescriptor::non_nullable(ScalarType::Boolean),
                    span,
                )
            },
            ExpressionKind::Aggregate { .. } => self.type_aggregate(expression, environment, expected, assemble)?,
            ExpressionKind::Ranking { function, partition_by, order_by } => {
                let typed_partition = self.type_list(partition_by, Ghost(*expression), environment, None, assemble)?;
                let typed_order = self.type_window_order(order_by, Ghost(*expression), environment, assemble)?;
                Expression::new(
                    ExpressionKind::Ranking { function: *function, partition_by: typed_partition, order_by: typed_order },
                    TypeDescriptor::non_nullable(ScalarType::Int64),
                    span,
                )
            },
        };
        match expected {
            Some(scalar) => ensure_scalar(scalar, typed.annotation.scalar, span)?,
            None => {},
        }
        Ok(typed)
    }
}


/// Whether a result of type `actual` meets what the context expects: it
/// succeeds exactly where the expected type, if any, is `actual`, and
/// otherwise reports the mismatch at `span`.
pub open spec fn settled_as(
    r: Result<TypedExpression, TypeError>,
    expected: Option<ScalarType>,
    actual: ScalarType,
    span: Span,
) -> bool {
    match expected {
        Some(scalar) if scalar != actual => r == Err::<TypedExpression, TypeError>(
            TypeError { kind: TypeErrorKind::TypeMismatch { expected: scalar, actual }, span },
        ),
        _ => r is Ok,
    }
}

impl<'a> TypeChecker<'a> {
    fn type_binary(
        &mut self,
        expression: &'a BoundExpression,
        environment: &FieldEnvironment,
        expected: Option<ScalarType>,
        assemble: bool,
    ) -> (r: Result<TypedExpression, TypeError>)
        requires
            expression.kind is Binary,
        ensures
            old(self).advanced(final(self)),
            r matches Ok(typed) ==> expression_typed(environment@, typed) && same_shape(typed, *expression),
        decreases old(self).potential(), *expression, 1int,
    {
        let span = expression.span;
        match &expression.kind {
            ExpressionKind::Binary { left, operator, right } => {
        let operand = if comparison(*operator) {
            let left_hint = scalar_hint(left, environment)?;
            let right_hint = scalar_hint(right, environment)?;
            match common_hint(None, left_hint, right_hint, span)? {
                Some(scalar) => scalar,
                None => {
                    return Err(TypeError { kind: TypeErrorKind::UnconstrainedNull, span });
                },
            }
        } else {
            binary_operand_type(*operator)
        };
        let left = self.type_expression(left, environment, Some(operand), assemble)?;
        let right = self.type_expression(right, environment, Some(operand), assemble)?;
        ensure_scalar(operand, left.annotation.scalar, span)?;
        ensure_scalar(operand, right.annotation.scalar, span)?;
        let descriptor = TypeDescriptor::new(
            binary_result_type(*operator),
            left.annotation.nullable || right.annotation.nullable,
        );
        Ok(Expression::new(
            ExpressionKind::Binary { left: Box::new(left), operator: *operator, right: Box::new(right) },
            descriptor,
            span,
        ))
            },
            _ => vstd::pervasive::unreached(),
        }
    }

    fn type_in_list(
        &mut self,
        expression: &'a BoundExpression,
        environment: &FieldEnvironment,
        expected: Option<ScalarType>,
        assemble: bool,
    ) -> (r: Result<TypedExpression, TypeError>)
        requires
            expression.kind is InList,
        ensures
            old(self).advanced(final(self)),
            r matches Ok(typed) ==> expression_typed(environment@, typed) && same_shape(typed, *expression),
        decreases old(self).potential(), *expression, 1int,
    {
        let span = expression.span;
        match &expression.kind {
            ExpressionKind::InList { expression: value, negated, values } => {
        let mut common = scalar_hint(value, environment)?;
        let mut index: usize = 0;
        while index < values.len()
            invariant
                index <= values@.len(),
            decreases values@.len() - index,
        {
            let hint = scalar_hint(&values[index], environment)?;
            common = common_hint(common, hint, None, span)?;
            index = index + 1;
        }
        let common = match common {
            Some(scalar) => scalar,
            None => {
                return Err(TypeError { kind: TypeErrorKind::UnconstrainedNull, span });
            },
        };
        let value = self.type_expression(value, environment, Some(common), assemble)?;
        let typed_values = self.type_list(values, Ghost(*expression), environment, Some(common), assemble)?;
        let mut nullable = value.annotation.nullable;
        let mut index: usize = 0;
        while index < typed_values.len()
            invariant
                index <= typed_values@.len(),
                nullable == (value.annotation.nullable || exists|k: int|
                    0 <= k < index && (#[trigger] typed_values@[k]).annotation.nullable),
            decreases typed_values@.len() - index,
        {
            if typed_values[index].annotation.nullable {
                nullable = true;
            }
            index = index + 1;
        }
        Ok(Expression::new(
            ExpressionKind::InList { expression: Box::new(value), negated: *negated, values: typed_values },
            TypeDescriptor::new(ScalarType::Boolean, nullable),
            span,
        ))
            },
            _ => vstd::pervasive::unreached(),
        }
    }

    fn type_in_query(
        &mut self,
        expression: &'a BoundExpression,
        environment: &FieldEnvironment,
        expected: Option<ScalarType>,
        assemble: bool,
    ) -> (r: Result<TypedExpression, TypeError>)
        requires
            expression.kind is InQuery,
        ensures
            old(self).advanced(final(self)),
            r matches Ok(typed) ==> expression_typed(environment@, typed) && same_shape(typed, *expression),
        decreases old(self).potential(), *expression, 1int,
    {
        let span = expression.span;
        match &expression.kind {
            ExpressionKind::InQuery { expression: value, negated, query } => {
        if query.result_fields.len() != 1 {
            return Err(
                TypeError { kind: TypeErrorKind::InQueryArity(query.result_fields.len()), span: query.span },
            );
        }
        let query_hints = self.query_hints(query)?;
        let value_hint = scalar_hint(value, environment)?;
        let first = expectation_at(Some(query_hints.as_slice()), 0);
        let common = match common_hint(None, value_hint, first, span)? {
            Some(scalar) => scalar,
            None => {
                return Err(TypeError { kind: TypeErrorKind::UnconstrainedNull, span });
            },
        };
        let value = self.type_expression(value, environment, Some(common), assemble)?;
        let expectations: Vec<Option<ScalarType>> = vec![Some(common)];
        let typed_query = self.type_query_expression(query, Some(expectations.as_slice()), assemble)?;
        if typed_query.result_fields.len() == 0 {
            return Err(TypeError { kind: TypeErrorKind::InQueryArity(0), span: query.span });
        }
        let field_descriptor = typed_query.result_fields[0].annotation;
        ensure_scalar(common, field_descriptor.scalar, span)?;
        let nullable = value.annotation.nullable || field_descriptor.nullable;
        Ok(Expression::new(
            ExpressionKind::InQuery {
                expression: Box::new(value),
                negated: *negated,
                query: Box::new(typed_query),
            },
            TypeDescriptor::new(ScalarType::Boolean, nullable),
            span,
        ))
            },
            _ => vstd::pervasive::unreached(),
        }
    }

    fn type_case(
        &mut self,
        expression: &'a BoundExpression,
        environment: &FieldEnvironment,
        expected: Option<ScalarType>,
        assemble: bool,
    ) -> (r: Result<TypedExpression, TypeError>)
        requires
            expression.kind is Case,
        ensures
            old(self).advanced(final(self)),
            r matches Ok(typed) ==> expression_typed(environment@, typed) && same_shape(typed, *expression),
        decreases old(self).potential(), *expression, 1int,
    {
        let span = expression.span;
        match &expression.kind {
            ExpressionKind::Case { branches, else_expression } => {
        let mut result_scalar = expected;
        let mut index: usize = 0;
        while index < branches.len()
            invariant
                index <= branches@.len(),
            decreases branches@.len() - index,
        {
            let branch = &branches[index];
            let hint = scalar_hint(&branch.result, environment)?;
            result_scalar = common_hint(result_scalar, hint, None, branch.result.span)?;
            index = index + 1;
        }
        match else_expression {
            Some(inner) => {
                let hint = scalar_hint(inner, environment)?;
                result_scalar = common_hint(result_scalar, hint, None, inner.span)?;
            },
            None => {},
        }
        let result_scalar = match result_scalar {
            Some(scalar) => scalar,
            None => {
                return Err(TypeError { kind: TypeErrorKind::UnconstrainedNull, span });
            },
        };
        let typed_branches = self.type_branches(
            branches,
            Ghost(*expression),
            environment,
            result_scalar,
            assemble,
        )?;
        let typed_else = match else_expression {
            Some(inner) => Some(
                Box::new(self.type_expression(inner, environment, Some(result_scalar), assemble)?),
            ),
            None => None,
        };
        let mut nullable = match &typed_else {
            Some(inner) => inner.annotation.nullable,
            None => true,
        };
        let ghost else_nullable = nullable;
        let mut index: usize = 0;
        while index < typed_branches.len()
            invariant
                index <= typed_branches@.len(),
                nullable == (else_nullable || exists|k: int|
                    0 <= k < index && (#[trigger] typed_branches@[k]).result.annotation.nullable),
            decreases typed_branches@.len() - index,
        {
            if typed_branches[index].result.annotation.nullable {
                nullable = true;
            }
            index = index + 1;
        }
        Ok(Expression::new(
            ExpressionKind::Case { branches: typed_branches, else_expression: typed_else },
            TypeDescriptor::new(result_scalar, nullable),
            span,
        ))
            },
            _ => vstd::pervasive::unreached(),
        }
    }

    fn type_aggregate(
        &mut self,
        expression: &'a BoundExpression,
        environment: &FieldEnvironment,
        expected: Option<ScalarType>,
        assemble: bool,
    ) -> (r: Result<TypedExpression, TypeError>)
        requires
            expression.kind is Aggregate,
        ensures
            old(self).advanced(final(self)),
            r matches Ok(typed) ==> expression_typed(environment@, typed) && same_shape(typed, *expression),
        decreases old(self).potential(), *expression, 1int,
    {
        let span = expression.span;
        match &expression.kind {
            ExpressionKind::Aggregate { function, argument, window } => {
        let argument_expected = match function {
            AggregateFunction::Sum => Some(ScalarType::Int64),
            AggregateFunction::BoolAnd => Some(ScalarType::Boolean),
            AggregateFunction::BoolOr => Some(ScalarType::Boolean),
            AggregateFunction::Count => None,
            _ => expected,
        };
        let typed_argument = match argument {
            AggregateArgument::Star(star) => AggregateArgument::Star(*star),
            AggregateArgument::Expression(inner) => AggregateArgument::Expression(
                Box::new(self.type_expression(inner, environment, argument_expected, assemble)?),
            ),
        };
        validate_aggregate_signature(*function, &typed_argument, span)?;
        let typed_window = match window {
            Some(w) => {
                let partition_by = self.type_list(&w.partition_by, Ghost(*expression), environment, None, assemble)?;
                Some(AggregateWindow { partition_by, span: w.span })
            },
            None => None,
        };
        let descriptor = aggregate_descriptor(*function, &typed_argument);
        Ok(Expression::new(
            ExpressionKind::Aggregate { function: *function, argument: typed_argument, window: typed_window },
            descriptor,
            span,
        ))
            },
            _ => vstd::pervasive::unreached(),
        }
    }
}

} // verus!
