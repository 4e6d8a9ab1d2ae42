#![verifier::loop_isolation(false)]
//! Strict Shape IR Interchange 0.1 mapping between JSON values and graphs.
//!
//! Reading JSON text into a [`JsonValue`], with duplicate object members
//! rejected, and writing a [`JsonValue`] out as text happen at the edge of
//! the library; this module maps JSON values to graphs and back.
use crate::catalog::RelationBinding;
use crate::document::{
    lemma_document_determines_graph, lemma_valid_graph_readable, same_graph,
    readable_graph, readable_node, readable_node_kind,
    aggregates_json, optional_member, node_member_names, grouping_keys_json, lemma_differs, project_entries_json,
    readable_aggregate_call, readable_aggregates, readable_grouping_keys, readable_ordering_items,
    readable_project_entries, readable_project_entry, readable_window, readable_windows, windows_json,
    case_arm_json, case_arms_json, readable_case_arms, readable_expression, readable_expressions,
    differs_within, distinct_within, names_known_within,
    allowed_within, first_named, known_members, lemma_name_signatures, lemma_object_readable,
    aggregate_function_text, aggregate_json, argument_names, binary_text, collection_text,
    expression_json, expression_kind_text, expression_member_names, expressions_json, field_json,
    grouping_key_json, items_of, join_type_text, literal_json, member_at, members_named,
    node_json, node_kind_json, node_kind_member_names, node_kind_name, object_named,
    ordering_item_json, ordering_items_json, project_entry_json, ranking_function_text,
    scalar_text, schema_json, set_operation_text, set_quantifier_text, text_json, type_json,
    unary_text, window_json, document_json,
};
use crate::lower::{decimal_digits, push_decimal};
use crate::shape_ir::{
    AggregateDefinition, AggregateFunction, BinaryOperation, CaseArm, CollectionKind, Direction,
    Expression, ExpressionKind, Field, FieldId, Graph, GroupingKey, JoinType, LiteralValue, Node,
    NodeId, NodeKind, NullPlacement, OrderingItem, ProjectEntry, RankingFunction, SetOperation,
    SetQuantifier, UnaryOperation, ValidationError, ValidationSummary, WindowDefinition, literal_fits,
    validation_error_text, validation_outcome,
    version_text,
};
use crate::types::{enclosed, ScalarType, TypeDescriptor};
use crate::typecheck::{digits_value, int64_value, is_digit_string, parse_int64, spells_int64};
use vstd::prelude::*;

verus! {

/// The Shape IR Interchange version implemented by this module.
pub const VERSION: &'static str = "0.1";

/// A JSON value as the interchange reads it: numbers are kept only as the
/// fact that a number stood there, and object members keep their order.
#[derive(Debug, PartialEq, Eq)]
pub enum JsonValue {
    Null,
    Bool(bool),
    Number,
    String(String),
    Array(Vec<JsonValue>),
    Object(Vec<(String, JsonValue)>),
}

/// A JSON or structural mapping failure, at a JSON path.
#[derive(Debug, PartialEq, Eq)]
pub struct InterchangeError {
    pub path: String,
    pub message: String,
}

impl InterchangeError {
    /// The path and the message, as one line of text.
    pub fn describe(&self) -> (text: String)
        ensures
            text@ == if self.path@.len() == 0 {
                self.message@
            } else {
                self.path@ + ": "@ + self.message@
            },
    {
        if self.path.as_str().unicode_len() == 0 {
            return self.message.clone();
        }
        let mut text = self.path.clone();
        text.append(": ");
        text.append(self.message.as_str());
        proof {
            reveal_strlit(": ");
        }
        text
    }
}

/// A failure that prevents a conforming document from being written.
#[derive(Debug, PartialEq, Eq)]
pub enum EncodeError {
    Validation(ValidationError),
    InvalidIdentifier(String),
}

impl EncodeError {
    /// The error as one line of text.
    pub fn describe(&self) -> (text: String)
        ensures
            text@ == match self {
                EncodeError::Validation(error) => "invalid Shape IR graph: "@ + validation_error_text(
                    error.kind,
                ),
                EncodeError::InvalidIdentifier(identity) => "identity `"@ + identity@
                    + "` is not interchange-compatible"@,
            },
    {
        match self {
            EncodeError::Validation(error) => {
                let mut text = String::from_str("invalid Shape IR graph: ");
                let inner = error.describe();
                text.append(inner.as_str());
                text
            },
            EncodeError::InvalidIdentifier(identity) => enclosed(
                "identity `",
                identity.as_str(),
                "` is not interchange-compatible",
            ),
        }
    }
}

fn error(path: String, message: &str) -> (e: InterchangeError)
    ensures
        e.path@ == path@,
        e.message@ == message@,
{
    InterchangeError { path, message: String::from_str(message) }
}

/// Whether the text is `literal`.
fn text_is(text: &String, literal: &str) -> (r: bool)
    ensures
        r == (text@ == literal@),
{
    *text == String::from_str(literal)
}

fn root_path() -> (path: String)
    ensures
        path@ == "$"@,
{
    String::from_str("$")
}

/// `path.member`.
fn member_path(path: &String, member: &str) -> (text: String)
    ensures
        text@ == path@ + "."@ + member@,
{
    let mut text = path.clone();
    text.append(".");
    text.append(member);
    text
}

/// `path[index]`.
fn index_path(path: &String, index: usize) -> (text: String)
    ensures
        text@ == path@ + "["@ + decimal_digits(index as nat) + "]"@,
{
    let mut text = path.clone();
    text.append("[");
    push_decimal(&mut text, index as u64);
    text.append("]");
    text
}

// ---------------------------------------------------------------------------
// Identifiers
// ---------------------------------------------------------------------------

pub open spec fn identifier_start(c: char) -> bool {
    ('a' <= c && c <= 'z') || ('A' <= c && c <= 'Z') || c == '_'
}

pub open spec fn identifier_continue(c: char) -> bool {
    identifier_start(c) || ('0' <= c && c <= '9') || c == '-' || c == '.' || c == ':'
}

/// An interchange identifier: an ASCII letter or underscore, then letters,
/// digits, and `_ - . :`.
pub open spec fn is_identifier_text(text: Seq<char>) -> bool {
    &&& text.len() > 0
    &&& identifier_start(text[0])
    &&& forall|i: int| 1 <= i < text.len() ==> identifier_continue(#[trigger] text[i])
}

/// Every identity of the graph that interchange writes out is an identifier.
pub open spec fn encodable_identities(graph: Graph) -> bool {
    &&& is_identifier_text(graph.root@)
    &&& forall|k: int|
        0 <= k < graph.nodes@.len() ==> is_identifier_text((#[trigger] graph.nodes@[k]).id@) && forall|
            f: int,
        |
            0 <= f < graph.nodes@[k].output_schema@.len() ==> is_identifier_text(
                (#[trigger] graph.nodes@[k].output_schema@[f]).id@,
            )
}

fn is_identifier(text: &str) -> (r: bool)
    ensures
        r == is_identifier_text(text@),
{
    let length = text.unicode_len();
    if length == 0 {
        return false;
    }
    let first = text.get_char(0);
    if !(('a' <= first && first <= 'z') || ('A' <= first && first <= 'Z') || first == '_') {
        return false;
    }
    let mut index: usize = 1;
    while index < length
        invariant
            1 <= index <= length,
            length == text@.len(),
            forall|i: int| 1 <= i < index ==> identifier_continue(#[trigger] text@[i]),
        decreases length - index,
    {
        let c = text.get_char(index);
        if !(('a' <= c && c <= 'z') || ('A' <= c && c <= 'Z') || c == '_' || ('0' <= c && c <= '9')
            || c == '-' || c == '.' || c == ':') {
            return false;
        }
        index = index + 1;
    }
    true
}

// ---------------------------------------------------------------------------
// Reading values
// ---------------------------------------------------------------------------

fn wrong_type(path: &String, expected: &str) -> (e: InterchangeError)
    ensures
        e.path@ == path@,
        e.message@ == "expected JSON "@ + expected@,
{
    let mut message = String::from_str("expected JSON ");
    message.append(expected);
    InterchangeError { path: path.clone(), message }
}

fn expect_object<'v>(value: &'v JsonValue, path: &String) -> (r: Result<&'v Vec<(String, JsonValue)>, InterchangeError>)
    ensures
        r matches Ok(members) ==> *value == JsonValue::Object(*members),
        r is Err <==> !(value is Object),
{
    match value {
        JsonValue::Object(members) => Ok(members),
        _ => Err(wrong_type(path, "object")),
    }
}

fn expect_array<'v>(value: &'v JsonValue, path: &String) -> (r: Result<&'v Vec<JsonValue>, InterchangeError>)
    ensures
        r matches Ok(items) ==> *value == JsonValue::Array(*items),
        r is Err <==> !(value is Array),
{
    match value {
        JsonValue::Array(items) => Ok(items),
        _ => Err(wrong_type(path, "array")),
    }
}

fn expect_string<'v>(value: &'v JsonValue, path: &String) -> (r: Result<&'v String, InterchangeError>)
    ensures
        r matches Ok(text) ==> *value == JsonValue::String(*text),
        r is Err <==> !(value is String),
{
    match value {
        JsonValue::String(text) => Ok(text),
        _ => Err(wrong_type(path, "string")),
    }
}

fn expect_bool(value: &JsonValue, path: &String) -> (r: Result<bool, InterchangeError>)
    ensures
        r matches Ok(b) ==> *value == JsonValue::Bool(b),
        r is Err <==> !(value is Bool),
{
    match value {
        JsonValue::Bool(b) => Ok(*b),
        _ => Err(wrong_type(path, "Boolean")),
    }
}

/// The first member named `name`.
fn find_member<'v>(members: &'v Vec<(String, JsonValue)>, name: &str) -> (r: Option<usize>)
    ensures
        r matches Some(i) ==> first_named(members@, name@, i as int),
        r is None ==> forall|i: int| 0 <= i < members@.len() ==> (#[trigger] members@[i]).0@ != name@,
{
    let mut index: usize = 0;
    while index < members.len()
        invariant
            index <= members@.len(),
            forall|i: int| 0 <= i < index ==> (#[trigger] members@[i]).0@ != name@,
        decreases members@.len() - index,
    {
        if text_is(&members[index].0, name) {
            return Some(index);
        }
        index = index + 1;
    }
    None
}

/// The members of one JSON object being read, checked to be known.
struct Record<'v> {
    value: &'v JsonValue,
    members: &'v Vec<(String, JsonValue)>,
    path: String,
}

/// Every member of an object is one of the allowed names, or, where
/// metadata is allowed, `metadata`.
pub open spec fn members_known(value: JsonValue, allowed: Seq<&str>, metadata_allowed: bool) -> bool {
    value matches JsonValue::Object(members) && forall|i: int|
        0 <= i < members@.len() ==> (if (#[trigger] members@[i]).0@ == "metadata"@ {
            metadata_allowed
        } else {
            allowed_within(members@[i].0@, allowed, allowed.len() as int)
        })
}

impl<'v> Record<'v> {
    spec fn wf(&self) -> bool {
        *self.value == JsonValue::Object(*self.members)
    }

    /// Reads an object with the given members; a `metadata` member holding
    /// an object is allowed where `metadata_allowed` holds.
    fn new(value: &'v JsonValue, path: String, allowed: &[&str], metadata_allowed: bool) -> (r: Result<
        Self,
        InterchangeError,
    >)
        ensures
            r matches Ok(record) ==> record.wf() && record.value == value && record.path@ == path@,
            value is Object && known_members(value->Object_0@, allowed@) ==> r is Ok,
            r is Ok ==> members_known(*value, allowed@, metadata_allowed),
    {
        let members = expect_object(value, &path)?;
        if let Some(index) = find_member(members, "metadata") {
            if !metadata_allowed {
                return Err(error(member_path(&path, "metadata"), "unknown member"));
            }
            expect_object(&members[index].1, &member_path(&path, "metadata"))?;
        }
        let ghost metadata_ok = (exists|i: int|
            0 <= i < members@.len() && (#[trigger] members@[i]).0@ == "metadata"@) ==> metadata_allowed;
        assert(metadata_ok);
        let mut index: usize = 0;
        while index < members.len()
            invariant
                index <= members@.len(),
                *value == JsonValue::Object(*members),
                metadata_ok,
                forall|i: int|
                    0 <= i < index && (#[trigger] members@[i]).0@ != "metadata"@ ==> allowed_within(
                        members@[i].0@,
                        allowed@,
                        allowed@.len() as int,
                    ),
            decreases members@.len() - index,
        {
            let name = &members[index].0;
            if !text_is(name, "metadata") {
                let mut known = false;
                let mut position: usize = 0;
                while position < allowed.len()
                    invariant
                        position <= allowed@.len(),
                        known == allowed_within(name@, allowed@, position as int),
                    decreases allowed@.len() - position,
                {
                    if text_is(name, allowed[position]) {
                        known = true;
                    }
                    position = position + 1;
                }
                if !known {
                    return Err(error(member_path(&path, name.as_str()), "unknown member"));
                }
            }
            index = index + 1;
        }
        Ok(Record { value, members, path })
    }

    fn required(&self, name: &str) -> (r: Result<&'v JsonValue, InterchangeError>)
        requires
            self.wf(),
        ensures
            r matches Ok(member) ==> decreases_to!(*self.value => *member),
            forall|k: int| first_named(self.members@, name@, k) ==> (r matches Ok(member) && *member == self.members@[k].1),
            r matches Ok(member) ==> exists|k: int|
                #[trigger] first_named(self.members@, name@, k) && *member == self.members@[k].1,
    {
        match find_member(self.members, name) {
            Some(index) => {
                proof {
                    let members = *self.members;
                    assert(decreases_to!(*self.value => (*self.value)->Object_0));
                    assert(decreases_to!(members => members@));
                    assert(decreases_to!(members@ => members@[index as int]));
                    assert(decreases_to!(members@[index as int] => members@[index as int].1));
                }
                Ok(&self.members[index].1)
            },
            None => Err(error(member_path(&self.path, name), "missing required member")),
        }
    }

    fn optional(&self, name: &str) -> (r: Option<&'v JsonValue>)
        requires
            self.wf(),
        ensures
            r matches Some(member) ==> decreases_to!(*self.value => *member),
            forall|k: int| first_named(self.members@, name@, k) ==> (r matches Some(member) && *member == self.members@[k].1),
            (forall|i: int| 0 <= i < self.members@.len() ==> (#[trigger] self.members@[i]).0@ != name@) ==> r is None,
    {
        match find_member(self.members, name) {
            Some(index) => {
                proof {
                    let members = *self.members;
                    assert(decreases_to!(*self.value => (*self.value)->Object_0));
                    assert(decreases_to!(members => members@));
                    assert(decreases_to!(members@ => members@[index as int]));
                    assert(decreases_to!(members@[index as int] => members@[index as int].1));
                }
                Some(&self.members[index].1)
            },
            None => None,
        }
    }
}

fn parse_identifier(value: &JsonValue, path: &String) -> (r: Result<String, InterchangeError>)
    ensures
        r matches Ok(text) ==> is_identifier_text(text@) && (*value matches JsonValue::String(s) && s@ == text@),
        *value matches JsonValue::String(s) && is_identifier_text(s@) ==> r is Ok,
{
    let text = expect_string(value, path)?;
    if is_identifier(text.as_str()) {
        Ok(text.clone())
    } else {
        Err(error(path.clone(), "invalid identifier"))
    }
}

fn parse_node_id(value: &JsonValue, path: &String) -> (r: Result<NodeId, InterchangeError>)
    ensures
        r matches Ok(id) ==> is_identifier_text(id@) && (*value matches JsonValue::String(s) && s@ == id@),
        *value matches JsonValue::String(s) && is_identifier_text(s@) ==> r is Ok,
{
    let text = parse_identifier(value, path)?;
    Ok(NodeId::from_string(text))
}

fn parse_field_id(value: &JsonValue, path: &String) -> (r: Result<FieldId, InterchangeError>)
    ensures
        r matches Ok(id) ==> is_identifier_text(id@) && (*value matches JsonValue::String(s) && s@ == id@),
        *value matches JsonValue::String(s) && is_identifier_text(s@) ==> r is Ok,
{
    let text = parse_identifier(value, path)?;
    Ok(FieldId::from_string(text))
}

/// The canonical decimal spelling of an INT64 value.
pub open spec fn int64_spelling(value: int) -> Seq<char> {
    if value < 0 {
        seq!['-'] + decimal_digits((-value) as nat)
    } else {
        decimal_digits(value as nat)
    }
}

pub(crate) fn int64_text(value: i64) -> (text: String)
    ensures
        text@ == int64_spelling(value as int),
{
    let mut text = String::new();
    if value < 0 {
        push_char_minus(&mut text);
        let magnitude: u64 = if value == i64::MIN {
            9223372036854775808u64
        } else {
            (-value) as u64
        };
        push_decimal(&mut text, magnitude);
    } else {
        push_decimal(&mut text, value as u64);
    }
    text
}

/// The bytes of ASCII characters, one for one.
spec fn ascii_bytes(chars: Seq<char>) -> Seq<u8> {
    Seq::new(chars.len(), |i: int| chars[i] as u8)
}

proof fn lemma_ascii_encoding(chars: Seq<char>)
    requires
        vstd::utf8::is_ascii_chars(chars),
    ensures
        vstd::utf8::encode_utf8(chars) == ascii_bytes(chars),
{
    vstd::utf8::is_ascii_chars_encode_utf8(chars);
    assert(vstd::utf8::encode_utf8(chars) =~= ascii_bytes(chars));
}

proof fn lemma_digit_byte(d: nat)
    requires
        d < 10,
    ensures
        crate::lower::digit_char(d) as u8 == 48 + d,
        '0' <= crate::lower::digit_char(d) <= '9',
{
}

proof fn lemma_decimal_digits_read(n: nat)
    ensures
        vstd::utf8::is_ascii_chars(decimal_digits(n)),
        is_digit_string(ascii_bytes(decimal_digits(n))),
        digits_value(ascii_bytes(decimal_digits(n))) == n,
    decreases n,
{
    let digits = decimal_digits(n);
    let bytes = ascii_bytes(digits);
    lemma_digit_byte(n % 10);
    if n < 10 {
        assert(digits =~= seq![crate::lower::digit_char(n)]);
        assert(bytes.drop_last() =~= Seq::<u8>::empty());
        assert(bytes.last() == 48 + n);
        assert(digits_value(bytes) == digits_value(bytes.drop_last()) * 10 + (bytes.last() - 48) as nat);
    } else {
        lemma_decimal_digits_read(n / 10);
        let prefix = decimal_digits(n / 10);
        assert(digits == prefix.push(crate::lower::digit_char(n % 10)));
        assert(bytes.drop_last() =~= ascii_bytes(prefix));
        assert(bytes.last() == 48 + n % 10);
        assert(digits_value(bytes) == digits_value(bytes.drop_last()) * 10 + (bytes.last() - 48) as nat);
        assert(digits_value(bytes.drop_last()) == n / 10);
        assert((n / 10) * 10 + n % 10 == n);
        assert forall|i: int| 0 <= i < digits.len() implies '\0' <= #[trigger] digits[i] <= '\u{7f}' by {
            if i < prefix.len() {
                assert(digits[i] == prefix[i]);
            }
        }
        assert forall|k: int| 0 <= k < bytes.len() implies 48 <= #[trigger] bytes[k] <= 57 by {
            if k < prefix.len() {
                assert(bytes[k] == ascii_bytes(prefix)[k]);
            }
        }
    }
}

/// The canonical spelling of an INT64 value spells that value.
pub(crate) proof fn lemma_int64_spelling_reads(n: int)
    requires
        i64::MIN <= n <= i64::MAX,
    ensures
        spells_int64(vstd::utf8::encode_utf8(int64_spelling(n))),
        int64_value(vstd::utf8::encode_utf8(int64_spelling(n))) == n,
{
    let magnitude: nat = if n < 0 { (-n) as nat } else { n as nat };
    lemma_decimal_digits_read(magnitude);
    let digits = decimal_digits(magnitude);
    let spelling = int64_spelling(n);
    if n < 0 {
        assert(vstd::utf8::is_ascii_chars(spelling)) by {
            assert forall|i: int| 0 <= i < spelling.len() implies '\0' <= #[trigger] spelling[i] <= '\u{7f}' by {
                if i > 0 {
                    assert(spelling[i] == digits[i - 1]);
                }
            }
        }
        lemma_ascii_encoding(spelling);
        let bytes = ascii_bytes(spelling);
        assert(bytes[0] == 45);
        assert(bytes.subrange(1, bytes.len() as int) =~= ascii_bytes(digits));
    } else {
        assert(spelling == digits);
        lemma_ascii_encoding(spelling);
        let bytes = ascii_bytes(spelling);
        assert(48 <= bytes[0] <= 57);
    }
}

fn push_char_minus(text: &mut String)
    ensures
        final(text)@ == old(text)@ + seq!['-'],
{
    crate::frontend::push_char(text, '-');
    assert(text@ =~= old(text)@ + seq!['-']);
}

/// Reads an INT64 written as a JSON string in its canonical spelling.
fn parse_i64(value: &JsonValue, path: &String) -> (r: Result<i64, InterchangeError>)
    ensures
        r matches Ok(n) ==> *value matches JsonValue::String(s) && s@ == int64_spelling(n as int),
        forall|n: i64| #[trigger] text_json(*value, int64_spelling(n as int)) ==> r == Ok::<i64, InterchangeError>(n),
{
    proof {
        assert forall|n: i64| #[trigger] text_json(*value, int64_spelling(n as int)) implies spells_int64(
            vstd::utf8::encode_utf8(value->String_0@),
        ) && int64_value(vstd::utf8::encode_utf8(value->String_0@)) == n by {
            lemma_int64_spelling_reads(n as int);
        }
    }
    let spelling = expect_string(value, path)?;
    match parse_int64(spelling) {
        Some(parsed) => {
            let canonical = int64_text(parsed);
            if canonical == *spelling {
                Ok(parsed)
            } else {
                Err(error(path.clone(), "invalid canonical INT64 spelling"))
            }
        },
        None => Err(error(path.clone(), "invalid canonical INT64 spelling")),
    }
}

fn parse_scalar(value: &JsonValue, path: &String) -> (r: Result<ScalarType, InterchangeError>)
    ensures
        r matches Ok(x) ==> text_json(*value, scalar_text(x)),
        forall|x: ScalarType| #[trigger] text_json(*value, scalar_text(x)) ==> r == Ok::<ScalarType, InterchangeError>(x),
{
    proof {
        lemma_name_signatures();
    }
    let text = expect_string(value, path)?;
    if text_is(text, "boolean") {
        Ok(ScalarType::Boolean)
    } else if text_is(text, "int64") {
        Ok(ScalarType::Int64)
    } else if text_is(text, "text") {
        Ok(ScalarType::Text)
    } else {
        Err(error(path.clone(), "unknown scalar type"))
    }
}

fn parse_type(value: &JsonValue, path: &String) -> (r: Result<TypeDescriptor, InterchangeError>)
    ensures
        forall|d: TypeDescriptor| #[trigger] type_json(*value, d) ==> r == Ok::<TypeDescriptor, InterchangeError>(d),
{
    let allowed: &[&str] = &["scalar", "nullable"];
    proof {
        lemma_name_signatures();
        reveal_with_fuel(names_known_within, 3);
        reveal_with_fuel(allowed_within, 3);
        reveal_with_fuel(distinct_within, 3);
        reveal_with_fuel(differs_within, 3);
        if exists|d: TypeDescriptor| type_json(*value, d) {
            lemma_object_readable(*value, seq!["scalar"@, "nullable"@], allowed@);
        }
    }
    let record = Record::new(value, path.clone(), allowed, false)?;
    let scalar = parse_scalar(record.required("scalar")?, &member_path(path, "scalar"))?;
    let nullable = expect_bool(record.required("nullable")?, &member_path(path, "nullable"))?;
    Ok(TypeDescriptor { scalar, nullable })
}

fn parse_field(value: &JsonValue, path: &String, Ghost(model): Ghost<Field>) -> (r: Result<Field, InterchangeError>)
    ensures
        r matches Ok(field) ==> is_identifier_text(field.id@),
        field_json(*value, model) && is_identifier_text(model.id@) ==> (r matches Ok(field) && field_json(*value, field)),
{
    let allowed: &[&str] = &["id", "name", "type"];
    proof {
        lemma_name_signatures();
        reveal_with_fuel(names_known_within, 4);
        reveal_with_fuel(allowed_within, 4);
        reveal_with_fuel(distinct_within, 4);
        reveal_with_fuel(differs_within, 4);
        if field_json(*value, model) {
            lemma_object_readable(*value, seq!["id"@, "name"@, "type"@], allowed@);
        }
    }
    let record = Record::new(value, path.clone(), allowed, true)?;
    let id = parse_field_id(record.required("id")?, &member_path(path, "id"))?;
    let name = expect_string(record.required("name")?, &member_path(path, "name"))?;
    let descriptor = parse_type(record.required("type")?, &member_path(path, "type"))?;
    Ok(Field { id, name: name.clone(), descriptor })
}

fn parse_schema(value: &JsonValue, path: &String, Ghost(model): Ghost<Seq<Field>>) -> (r: Result<Vec<Field>, InterchangeError>)
    ensures
        r matches Ok(schema) ==> forall|f: int|
            0 <= f < schema@.len() ==> is_identifier_text((#[trigger] schema@[f]).id@),
        r matches Ok(schema) ==> *value is Array && schema@.len() == items_of(*value).len(),
        schema_json(*value, model) && (forall|f: int| 0 <= f < model.len() ==> is_identifier_text((#[trigger] model[f]).id@))
            ==> (r matches Ok(schema) && schema_json(*value, schema@)),
{
    let ghost hypothesis = schema_json(*value, model) && (forall|f: int|
        0 <= f < model.len() ==> is_identifier_text((#[trigger] model[f]).id@));
    let items = expect_array(value, path)?;
    let mut schema: Vec<Field> = Vec::new();
    let mut index: usize = 0;
    while index < items.len()
        invariant
            index <= items@.len(),
            *value == JsonValue::Array(*items),
            schema@.len() == index,
            forall|f: int| 0 <= f < schema@.len() ==> is_identifier_text((#[trigger] schema@[f]).id@),
            hypothesis ==> forall|f: int| 0 <= f < index ==> field_json(items@[f], #[trigger] schema@[f]),
        decreases items@.len() - index,
    {
        schema.push(parse_field(&items[index], &index_path(path, index), Ghost(model[index as int]))?);
        index = index + 1;
    }
    Ok(schema)
}

/// Reads the `kind` member of an object that is told apart by it.
fn discriminant<'v>(value: &'v JsonValue, path: &String) -> (r: Result<&'v String, InterchangeError>)
    ensures
        forall|k: int|
            value is Object && first_named(value->Object_0@, "kind"@, k) && #[trigger] value->Object_0@[k].1 is String
                ==> (r matches Ok(kind) && value->Object_0@[k].1 == JsonValue::String(*kind)),
        r matches Ok(kind) ==> member_text(*value, "kind"@, kind@),
{
    let members = expect_object(value, path)?;
    let kind_path = member_path(path, "kind");
    match find_member(members, "kind") {
        Some(index) => match &members[index].1 {
            JsonValue::String(kind) => Ok(kind),
            _ => Err(wrong_type(&kind_path, "string")),
        },
        None => Err(error(kind_path, "missing required member")),
    }
}

fn parse_collection(value: &JsonValue, path: &String) -> (r: Result<CollectionKind, InterchangeError>)
    ensures
        r matches Ok(x) ==> text_json(*value, collection_text(x)),
        forall|x: CollectionKind| #[trigger] text_json(*value, collection_text(x)) ==> r == Ok::<CollectionKind, InterchangeError>(x),
{
    proof {
        lemma_name_signatures();
    }
    let text = expect_string(value, path)?;
    if text_is(text, "bag") {
        Ok(CollectionKind::Bag)
    } else if text_is(text, "ordered") {
        Ok(CollectionKind::Ordered)
    } else {
        Err(error(path.clone(), "unknown collection kind"))
    }
}

fn parse_set_operation(value: &JsonValue, path: &String) -> (r: Result<SetOperation, InterchangeError>)
    ensures
        r matches Ok(x) ==> text_json(*value, set_operation_text(x)),
        forall|x: SetOperation| #[trigger] text_json(*value, set_operation_text(x)) ==> r == Ok::<SetOperation, InterchangeError>(x),
{
    proof {
        lemma_name_signatures();
    }
    let text = expect_string(value, path)?;
    if text_is(text, "union") {
        Ok(SetOperation::Union)
    } else if text_is(text, "intersect") {
        Ok(SetOperation::Intersect)
    } else if text_is(text, "except") {
        Ok(SetOperation::Except)
    } else {
        Err(error(path.clone(), "unknown set operation"))
    }
}

fn parse_set_quantifier(value: &JsonValue, path: &String) -> (r: Result<SetQuantifier, InterchangeError>)
    ensures
        r matches Ok(x) ==> text_json(*value, set_quantifier_text(x)),
        forall|x: SetQuantifier| #[trigger] text_json(*value, set_quantifier_text(x)) ==> r == Ok::<SetQuantifier, InterchangeError>(x),
{
    proof {
        lemma_name_signatures();
    }
    let text = expect_string(value, path)?;
    if text_is(text, "all") {
        Ok(SetQuantifier::All)
    } else if text_is(text, "distinct") {
        Ok(SetQuantifier::Distinct)
    } else {
        Err(error(path.clone(), "unknown set quantifier"))
    }
}

fn parse_join_type(value: &JsonValue, path: &String) -> (r: Result<JoinType, InterchangeError>)
    ensures
        r matches Ok(x) ==> text_json(*value, join_type_text(x)),
        forall|x: JoinType| #[trigger] text_json(*value, join_type_text(x)) ==> r == Ok::<JoinType, InterchangeError>(x),
{
    proof {
        lemma_name_signatures();
    }
    let text = expect_string(value, path)?;
    if text_is(text, "cross") {
        Ok(JoinType::Cross)
    } else if text_is(text, "inner") {
        Ok(JoinType::Inner)
    } else if text_is(text, "left") {
        Ok(JoinType::Left)
    } else if text_is(text, "right") {
        Ok(JoinType::Right)
    } else if text_is(text, "full") {
        Ok(JoinType::Full)
    } else {
        Err(error(path.clone(), "unknown join type"))
    }
}

fn parse_aggregate_function(value: &JsonValue, path: &String) -> (r: Result<AggregateFunction, InterchangeError>)
    ensures
        r matches Ok(x) ==> text_json(*value, aggregate_function_text(x)),
        forall|x: AggregateFunction| #[trigger] text_json(*value, aggregate_function_text(x)) ==> r == Ok::<AggregateFunction, InterchangeError>(x),
{
    proof {
        lemma_name_signatures();
    }
    let text = expect_string(value, path)?;
    if text_is(text, "count_all") {
        Ok(AggregateFunction::CountAll)
    } else if text_is(text, "count") {
        Ok(AggregateFunction::Count)
    } else if text_is(text, "sum") {
        Ok(AggregateFunction::Sum)
    } else if text_is(text, "min") {
        Ok(AggregateFunction::Min)
    } else if text_is(text, "max") {
        Ok(AggregateFunction::Max)
    } else if text_is(text, "bool_and") {
        Ok(AggregateFunction::BoolAnd)
    } else if text_is(text, "bool_or") {
        Ok(AggregateFunction::BoolOr)
    } else {
        Err(error(path.clone(), "unknown aggregate function"))
    }
}

fn parse_ranking_function(value: &JsonValue, path: &String) -> (r: Result<RankingFunction, InterchangeError>)
    ensures
        r matches Ok(x) ==> text_json(*value, ranking_function_text(x)),
        forall|x: RankingFunction| #[trigger] text_json(*value, ranking_function_text(x)) ==> r == Ok::<RankingFunction, InterchangeError>(x),
{
    proof {
        lemma_name_signatures();
    }
    let text = expect_string(value, path)?;
    if text_is(text, "row_number") {
        Ok(RankingFunction::RowNumber)
    } else if text_is(text, "rank") {
        Ok(RankingFunction::Rank)
    } else if text_is(text, "dense_rank") {
        Ok(RankingFunction::DenseRank)
    } else {
        Err(error(path.clone(), "unknown ranking function"))
    }
}

fn parse_unary_operation(value: &JsonValue, path: &String) -> (r: Result<UnaryOperation, InterchangeError>)
    ensures
        r matches Ok(x) ==> text_json(*value, unary_text(x)),
        forall|x: UnaryOperation| #[trigger] text_json(*value, unary_text(x)) ==> r == Ok::<UnaryOperation, InterchangeError>(x),
{
    proof {
        lemma_name_signatures();
    }
    let text = expect_string(value, path)?;
    if text_is(text, "positive") {
        Ok(UnaryOperation::Positive)
    } else if text_is(text, "negative") {
        Ok(UnaryOperation::Negative)
    } else if text_is(text, "not") {
        Ok(UnaryOperation::Not)
    } else {
        Err(error(path.clone(), "unknown unary operation"))
    }
}

fn parse_binary_operation(value: &JsonValue, path: &String) -> (r: Result<BinaryOperation, InterchangeError>)
    ensures
        r matches Ok(x) ==> text_json(*value, binary_text(x)),
        forall|x: BinaryOperation| #[trigger] text_json(*value, binary_text(x)) ==> r == Ok::<BinaryOperation, InterchangeError>(x),
{
    proof {
        lemma_name_signatures();
    }
    let text = expect_string(value, path)?;
    if text_is(text, "add") {
        Ok(BinaryOperation::Add)
    } else if text_is(text, "subtract") {
        Ok(BinaryOperation::Subtract)
    } else if text_is(text, "multiply") {
        Ok(BinaryOperation::Multiply)
    } else if text_is(text, "divide") {
        Ok(BinaryOperation::Divide)
    } else if text_is(text, "remainder") {
        Ok(BinaryOperation::Remainder)
    } else if text_is(text, "concatenate") {
        Ok(BinaryOperation::Concatenate)
    } else if text_is(text, "equal") {
        Ok(BinaryOperation::Equal)
    } else if text_is(text, "not_equal") {
        Ok(BinaryOperation::NotEqual)
    } else if text_is(text, "less") {
        Ok(BinaryOperation::Less)
    } else if text_is(text, "less_or_equal") {
        Ok(BinaryOperation::LessOrEqual)
    } else if text_is(text, "greater") {
        Ok(BinaryOperation::Greater)
    } else if text_is(text, "greater_or_equal") {
        Ok(BinaryOperation::GreaterOrEqual)
    } else if text_is(text, "and") {
        Ok(BinaryOperation::And)
    } else if text_is(text, "or") {
        Ok(BinaryOperation::Or)
    } else {
        Err(error(path.clone(), "unknown binary operation"))
    }
}

fn parse_literal(value: &JsonValue, path: &String, scalar: ScalarType) -> (r: Result<LiteralValue, InterchangeError>)
    ensures
        r matches Ok(read) ==> literal_fits(read, scalar),
        forall|l: LiteralValue|
            #[trigger] literal_json(*value, l) && literal_fits(l, scalar) ==> (r matches Ok(read) && literal_json(*value, read)),
{
    if let JsonValue::Null = value {
        return Ok(LiteralValue::Null);
    }
    match scalar {
        ScalarType::Boolean => Ok(LiteralValue::Boolean(expect_bool(value, path)?)),
        ScalarType::Int64 => Ok(LiteralValue::Int64(parse_i64(value, path)?)),
        ScalarType::Text => Ok(LiteralValue::Text(expect_string(value, path)?.clone())),
    }
}

fn nonempty_error(path: String) -> (e: InterchangeError) {
    error(path, "array must be nonempty")
}

/// Reads an expression object.
///
/// An object written for a readable expression is read back as an
/// expression with the same document.
fn parse_expression(value: &JsonValue, path: &String, Ghost(model): Ghost<Expression>) -> (r: Result<
    Expression,
    InterchangeError,
>)
    ensures
        r matches Ok(e) ==> readable_expression(e),
        expression_json(*value, model) && readable_expression(model) ==> (r matches Ok(e)
            && expression_json(*value, e)),
    decreases *value,
{
    let ghost hypothesis = expression_json(*value, model) && readable_expression(model);
    let ghost names = seq!["kind"@, "type"@] + expression_member_names(model.kind);
    proof {
        lemma_name_signatures();
        reveal_with_fuel(names_known_within, 6);
        reveal_with_fuel(allowed_within, 6);
        reveal_with_fuel(distinct_within, 6);
        reveal_with_fuel(differs_within, 6);
    }
    let kind = discriminant(value, path)?;
    let specific: &[&str] = if text_is(kind, "literal") {
        let allowed: &[&str] = &["kind", "type", "value"];
        proof {
            if hypothesis {
                lemma_object_readable(*value, names, allowed@);
            }
        }
        allowed
    } else if text_is(kind, "field") {
        let allowed: &[&str] = &["kind", "type", "field"];
        proof {
            if hypothesis {
                lemma_object_readable(*value, names, allowed@);
            }
        }
        allowed
    } else if text_is(kind, "unary") {
        let allowed: &[&str] = &["kind", "type", "operation", "operand"];
        proof {
            if hypothesis {
                lemma_object_readable(*value, names, allowed@);
            }
        }
        allowed
    } else if text_is(kind, "binary") {
        let allowed: &[&str] = &["kind", "type", "operation", "left", "right"];
        proof {
            if hypothesis {
                lemma_object_readable(*value, names, allowed@);
            }
        }
        allowed
    } else if text_is(kind, "is_null") {
        let allowed: &[&str] = &["kind", "type", "operand", "negated"];
        proof {
            if hypothesis {
                lemma_object_readable(*value, names, allowed@);
            }
        }
        allowed
    } else if text_is(kind, "case") {
        let allowed: &[&str] = &["kind", "type", "arms", "fallback"];
        proof {
            if hypothesis {
                lemma_object_readable(*value, names, allowed@);
            }
        }
        allowed
    } else if text_is(kind, "cast") {
        let allowed: &[&str] = &["kind", "type", "operand", "target"];
        proof {
            if hypothesis {
                lemma_object_readable(*value, names, allowed@);
            }
        }
        allowed
    } else if text_is(kind, "in_list") {
        let allowed: &[&str] = &["kind", "type", "value", "candidates"];
        proof {
            if hypothesis {
                lemma_object_readable(*value, names, allowed@);
            }
        }
        allowed
    } else if text_is(kind, "exists") {
        let allowed: &[&str] = &["kind", "type", "query"];
        proof {
            if hypothesis {
                lemma_object_readable(*value, names, allowed@);
            }
        }
        allowed
    } else if text_is(kind, "in_query") {
        let allowed: &[&str] = &["kind", "type", "value", "query", "field"];
        proof {
            if hypothesis {
                lemma_object_readable(*value, names, allowed@);
            }
        }
        allowed
    } else {
        return Err(error(member_path(path, "kind"), "unknown expression kind"));
    };
    let record = Record::new(value, path.clone(), specific, true)?;
    record.required("kind")?;
    let descriptor = parse_type(record.required("type")?, &member_path(path, "type"))?;
    let expression_kind = if text_is(kind, "literal") {
        ExpressionKind::Literal(
            parse_literal(record.required("value")?, &member_path(path, "value"), descriptor.scalar)?,
        )
    } else if text_is(kind, "field") {
        ExpressionKind::Field(parse_field_id(record.required("field")?, &member_path(path, "field"))?)
    } else if text_is(kind, "unary") {
        let operation = parse_unary_operation(
            record.required("operation")?,
            &member_path(path, "operation"),
        )?;
        let operand = parse_expression(
            record.required("operand")?,
            &member_path(path, "operand"),
            Ghost(*model.kind->Unary_operand),
        )?;
        ExpressionKind::Unary { operation, operand: Box::new(operand) }
    } else if text_is(kind, "binary") {
        let operation = parse_binary_operation(
            record.required("operation")?,
            &member_path(path, "operation"),
        )?;
        let left = parse_expression(
            record.required("left")?,
            &member_path(path, "left"),
            Ghost(*model.kind->Binary_left),
        )?;
        let right = parse_expression(
            record.required("right")?,
            &member_path(path, "right"),
            Ghost(*model.kind->Binary_right),
        )?;
        ExpressionKind::Binary { operation, left: Box::new(left), right: Box::new(right) }
    } else if text_is(kind, "is_null") {
        let operand = parse_expression(
            record.required("operand")?,
            &member_path(path, "operand"),
            Ghost(*model.kind->IsNull_operand),
        )?;
        let negated = expect_bool(record.required("negated")?, &member_path(path, "negated"))?;
        ExpressionKind::IsNull { operand: Box::new(operand), negated }
    } else if text_is(kind, "case") {
        let arms_path = member_path(path, "arms");
        let arms = parse_case_arms(record.required("arms")?, &arms_path, Ghost(model.kind->arms@))?;
        if arms.len() == 0 {
            return Err(nonempty_error(arms_path));
        }
        let fallback = parse_expression(
            record.required("fallback")?,
            &member_path(path, "fallback"),
            Ghost(*model.kind->fallback),
        )?;
        ExpressionKind::Case { arms, fallback: Box::new(fallback) }
    } else if text_is(kind, "cast") {
        let operand = parse_expression(
            record.required("operand")?,
            &member_path(path, "operand"),
            Ghost(*model.kind->Cast_operand),
        )?;
        let target = parse_scalar(record.required("target")?, &member_path(path, "target"))?;
        ExpressionKind::Cast { operand: Box::new(operand), target }
    } else if text_is(kind, "in_list") {
        let candidates_path = member_path(path, "candidates");
        let candidates = parse_expression_array(
            record.required("candidates")?,
            &candidates_path,
            Ghost(model.kind->candidates@),
        )?;
        if candidates.len() == 0 {
            return Err(nonempty_error(candidates_path));
        }
        let inner = parse_expression(
            record.required("value")?,
            &member_path(path, "value"),
            Ghost(*model.kind->InList_value),
        )?;
        ExpressionKind::InList { value: Box::new(inner), candidates }
    } else if text_is(kind, "exists") {
        ExpressionKind::Exists {
            query: parse_node_id(record.required("query")?, &member_path(path, "query"))?,
        }
    } else {
        let inner = parse_expression(
            record.required("value")?,
            &member_path(path, "value"),
            Ghost(*model.kind->InQuery_value),
        )?;
        let query = parse_node_id(record.required("query")?, &member_path(path, "query"))?;
        let field = parse_field_id(record.required("field")?, &member_path(path, "field"))?;
        ExpressionKind::InQuery { value: Box::new(inner), query, field }
    };
    Ok(Expression { kind: expression_kind, descriptor })
}

/// Reads an array of expressions.
fn parse_expression_array(value: &JsonValue, path: &String, Ghost(models): Ghost<Seq<Expression>>) -> (r: Result<
    Vec<Expression>,
    InterchangeError,
>)
    ensures
        r matches Ok(expressions) ==> readable_expressions(expressions@),
        expressions_json(*value, models) && readable_expressions(models) ==> (r matches Ok(expressions)
            && expressions_json(*value, expressions@)),
    decreases *value,
{
    let ghost hypothesis = expressions_json(*value, models) && readable_expressions(models);
    let items = expect_array(value, path)?;
    let mut expressions: Vec<Expression> = Vec::new();
    let mut index: usize = 0;
    while index < items.len()
        invariant
            readable_expressions(expressions@),
            index <= items@.len(),
            *value == JsonValue::Array(*items),
            expressions@.len() == index,
            hypothesis ==> forall|i: int|
                0 <= i < index ==> expression_json(items@[i], #[trigger] expressions@[i]),
        decreases items@.len() - index,
    {
        proof {
            assert(decreases_to!(*value => (*value)->Array_0));
            assert(decreases_to!(*items => items@));
            assert(decreases_to!(items@ => items@[index as int]));
        }
        expressions.push(
            parse_expression(&items[index], &index_path(path, index), Ghost(models[index as int]))?,
        );
        index = index + 1;
    }
    Ok(expressions)
}

/// Reads the arms of a `case` expression.
fn parse_case_arms(value: &JsonValue, path: &String, Ghost(models): Ghost<Seq<CaseArm>>) -> (r: Result<
    Vec<CaseArm>,
    InterchangeError,
>)
    ensures
        r matches Ok(arms) ==> readable_case_arms(arms@),
        case_arms_json(*value, models) && readable_case_arms(models) ==> (r matches Ok(arms)
            && case_arms_json(*value, arms@)),
    decreases *value,
{
    let ghost hypothesis = case_arms_json(*value, models) && readable_case_arms(models);
    let allowed: &[&str] = &["when", "then"];
    proof {
        lemma_name_signatures();
        reveal_with_fuel(names_known_within, 3);
        reveal_with_fuel(allowed_within, 3);
        reveal_with_fuel(distinct_within, 3);
        reveal_with_fuel(differs_within, 3);
    }
    let items = expect_array(value, path)?;
    let mut arms: Vec<CaseArm> = Vec::new();
    let mut index: usize = 0;
    while index < items.len()
        invariant
            readable_case_arms(arms@),
            index <= items@.len(),
            *value == JsonValue::Array(*items),
            arms@.len() == index,
            allowed@ == seq!["when", "then"],
            hypothesis ==> forall|i: int|
                0 <= i < index ==> case_arm_json(items@[i], #[trigger] arms@[i]),
        decreases items@.len() - index,
    {
        proof {
            assert(decreases_to!(*value => (*value)->Array_0));
            assert(decreases_to!(*items => items@));
            assert(decreases_to!(items@ => items@[index as int]));
            if hypothesis {
                lemma_object_readable(items@[index as int], seq!["when"@, "then"@], allowed@);
            }
        }
        let arm_path = index_path(path, index);
        let record = Record::new(&items[index], arm_path.clone(), allowed, false)?;
        let when = parse_expression(
            record.required("when")?,
            &member_path(&arm_path, "when"),
            Ghost(models[index as int].when),
        )?;
        let result = parse_expression(
            record.required("then")?,
            &member_path(&arm_path, "then"),
            Ghost(models[index as int].result),
        )?;
        arms.push(CaseArm { when, result });
        index = index + 1;
    }
    Ok(arms)
}

fn parse_ordering_item(value: &JsonValue, path: &String, Ghost(model): Ghost<OrderingItem>) -> (r: Result<
    OrderingItem,
    InterchangeError,
>)
    ensures
        r matches Ok(item) ==> readable_expression(item.expression),
        ordering_item_json(*value, model) && readable_expression(model.expression) ==> (r matches Ok(
            item,
        ) && ordering_item_json(*value, item)),
{
    let ghost hypothesis = ordering_item_json(*value, model) && readable_expression(model.expression);
    let allowed: &[&str] = &["expression", "direction", "null_placement"];
    proof {
        lemma_name_signatures();
        reveal_with_fuel(names_known_within, 4);
        reveal_with_fuel(allowed_within, 4);
        reveal_with_fuel(distinct_within, 4);
        reveal_with_fuel(differs_within, 4);
        if hypothesis {
            lemma_object_readable(*value, seq!["expression"@, "direction"@, "null_placement"@], allowed@);
        }
    }
    let record = Record::new(value, path.clone(), allowed, false)?;
    let expression = parse_expression(
        record.required("expression")?,
        &member_path(path, "expression"),
        Ghost(model.expression),
    )?;
    let direction_path = member_path(path, "direction");
    let direction_text = expect_string(record.required("direction")?, &direction_path)?;
    let direction = if text_is(direction_text, "ascending") {
        Direction::Ascending
    } else if text_is(direction_text, "descending") {
        Direction::Descending
    } else {
        return Err(error(direction_path, "unknown direction"));
    };
    let placement_path = member_path(path, "null_placement");
    let placement_text = expect_string(record.required("null_placement")?, &placement_path)?;
    let null_placement = if text_is(placement_text, "first") {
        NullPlacement::First
    } else if text_is(placement_text, "last") {
        NullPlacement::Last
    } else if text_is(placement_text, "not_applicable") {
        NullPlacement::NotApplicable
    } else {
        return Err(error(placement_path, "unknown null placement"));
    };
    Ok(OrderingItem { expression, direction, null_placement })
}

fn parse_ordering_items(value: &JsonValue, path: &String, Ghost(models): Ghost<Seq<OrderingItem>>) -> (r: Result<
    Vec<OrderingItem>,
    InterchangeError,
>)
    ensures
        r matches Ok(items) ==> readable_ordering_items(items@),
        ordering_items_json(*value, models) && readable_ordering_items(models) ==> (r matches Ok(items)
            && ordering_items_json(*value, items@)),
{
    let ghost hypothesis = ordering_items_json(*value, models) && readable_ordering_items(models);
    let items = expect_array(value, path)?;
    let mut parsed: Vec<OrderingItem> = Vec::new();
    let mut index: usize = 0;
    while index < items.len()
        invariant
            readable_ordering_items(parsed@),
            index <= items@.len(),
            *value == JsonValue::Array(*items),
            parsed@.len() == index,
            hypothesis ==> forall|i: int| 0 <= i < index ==> ordering_item_json(items@[i], #[trigger] parsed@[i]),
        decreases items@.len() - index,
    {
        parsed.push(parse_ordering_item(&items[index], &index_path(path, index), Ghost(models[index as int]))?);
        index = index + 1;
    }
    Ok(parsed)
}

fn parse_project_entry(value: &JsonValue, path: &String, Ghost(model): Ghost<ProjectEntry>) -> (r: Result<
    ProjectEntry,
    InterchangeError,
>)
    ensures
        r matches Ok(entry) ==> readable_project_entry(entry),
        project_entry_json(*value, model) && readable_project_entry(model) ==> (r matches Ok(entry)
            && project_entry_json(*value, entry)),
{
    let ghost hypothesis = project_entry_json(*value, model) && readable_project_entry(model);
    proof {
        lemma_name_signatures();
        reveal_with_fuel(names_known_within, 4);
        reveal_with_fuel(allowed_within, 4);
        reveal_with_fuel(distinct_within, 4);
        reveal_with_fuel(differs_within, 4);
    }
    let kind = discriminant(value, path)?;
    if text_is(kind, "keep") {
        let allowed: &[&str] = &["kind", "field"];
        proof {
            if hypothesis {
                lemma_object_readable(*value, seq!["kind"@, "field"@], allowed@);
            }
        }
        let record = Record::new(value, path.clone(), allowed, false)?;
        record.required("kind")?;
        Ok(ProjectEntry::Keep(parse_field_id(record.required("field")?, &member_path(path, "field"))?))
    } else if text_is(kind, "compute") {
        let allowed: &[&str] = &["kind", "output", "expression"];
        proof {
            if hypothesis {
                lemma_object_readable(*value, seq!["kind"@, "output"@, "expression"@], allowed@);
            }
        }
        let record = Record::new(value, path.clone(), allowed, false)?;
        record.required("kind")?;
        let output = parse_field_id(record.required("output")?, &member_path(path, "output"))?;
        let expression = parse_expression(
            record.required("expression")?,
            &member_path(path, "expression"),
            Ghost(model->expression),
        )?;
        Ok(ProjectEntry::Compute { output, expression })
    } else {
        Err(error(member_path(path, "kind"), "unknown project-entry kind"))
    }
}

fn parse_project_entries(value: &JsonValue, path: &String, Ghost(models): Ghost<Seq<ProjectEntry>>) -> (r: Result<
    Vec<ProjectEntry>,
    InterchangeError,
>)
    ensures
        r matches Ok(entries) ==> readable_project_entries(entries@),
        project_entries_json(*value, models) && readable_project_entries(models) ==> (r matches Ok(entries)
            && project_entries_json(*value, entries@)),
{
    let ghost hypothesis = project_entries_json(*value, models) && readable_project_entries(models);
    let items = expect_array(value, path)?;
    let mut entries: Vec<ProjectEntry> = Vec::new();
    let mut index: usize = 0;
    while index < items.len()
        invariant
            readable_project_entries(entries@),
            index <= items@.len(),
            *value == JsonValue::Array(*items),
            entries@.len() == index,
            hypothesis ==> forall|i: int| 0 <= i < index ==> project_entry_json(items@[i], #[trigger] entries@[i]),
        decreases items@.len() - index,
    {
        entries.push(parse_project_entry(&items[index], &index_path(path, index), Ghost(models[index as int]))?);
        index = index + 1;
    }
    Ok(entries)
}

fn parse_grouping_keys(value: &JsonValue, path: &String, Ghost(models): Ghost<Seq<GroupingKey>>) -> (r: Result<
    Vec<GroupingKey>,
    InterchangeError,
>)
    ensures
        r matches Ok(keys) ==> readable_grouping_keys(keys@),
        grouping_keys_json(*value, models) && readable_grouping_keys(models) ==> (r matches Ok(keys)
            && grouping_keys_json(*value, keys@)),
{
    let ghost hypothesis = grouping_keys_json(*value, models) && readable_grouping_keys(models);
    let allowed: &[&str] = &["output", "expression"];
    proof {
        lemma_name_signatures();
        reveal_with_fuel(names_known_within, 3);
        reveal_with_fuel(allowed_within, 3);
        reveal_with_fuel(distinct_within, 3);
        reveal_with_fuel(differs_within, 3);
    }
    let items = expect_array(value, path)?;
    let mut keys: Vec<GroupingKey> = Vec::new();
    let mut index: usize = 0;
    while index < items.len()
        invariant
            readable_grouping_keys(keys@),
            index <= items@.len(),
            *value == JsonValue::Array(*items),
            keys@.len() == index,
            allowed@ == seq!["output", "expression"],
            hypothesis ==> forall|i: int| 0 <= i < index ==> grouping_key_json(items@[i], #[trigger] keys@[i]),
        decreases items@.len() - index,
    {
        proof {
            if hypothesis {
                lemma_object_readable(items@[index as int], seq!["output"@, "expression"@], allowed@);
            }
        }
        let item_path = index_path(path, index);
        let record = Record::new(&items[index], item_path.clone(), allowed, false)?;
        let output = parse_field_id(record.required("output")?, &member_path(&item_path, "output"))?;
        let expression = parse_expression(
            record.required("expression")?,
            &member_path(&item_path, "expression"),
            Ghost(models[index as int].expression),
        )?;
        keys.push(GroupingKey { output, expression });
        index = index + 1;
    }
    Ok(keys)
}

/// The argument of an aggregate: prohibited for `count_all`, required for
/// every other function.
fn parse_aggregate_argument(
    record: &Record,
    path: &String,
    function: AggregateFunction,
    Ghost(position): Ghost<int>,
    Ghost(model): Ghost<Option<Expression>>,
) -> (r: Result<Option<Expression>, InterchangeError>)
    requires
        record.wf(),
    ensures
        r matches Ok(argument) ==> readable_aggregate_call(function, argument),
        readable_aggregate_call(function, model) && optional_member(record.members@, "argument"@, position, model) ==> (
        r matches Ok(argument) && (argument is Some == model is Some) && optional_member(
            record.members@,
            "argument"@,
            position,
            argument,
        )),
{
    let argument_path = member_path(path, "argument");
    match (function, record.optional("argument")) {
        (AggregateFunction::CountAll, None) => Ok(None),
        (AggregateFunction::CountAll, Some(_)) => Err(
            error(argument_path, "argument is prohibited for count_all"),
        ),
        (_, Some(value)) => {
            proof {
                if readable_aggregate_call(function, model) && optional_member(record.members@, "argument"@, position, model) {
                    assert(decreases_to!(*record.value => *value));
                }
            }
            Ok(Some(parse_expression(value, &argument_path, Ghost(model->0))?))
        },
        (_, None) => Err(error(argument_path, "missing required member")),
    }
}

fn parse_aggregates(value: &JsonValue, path: &String, Ghost(models): Ghost<Seq<AggregateDefinition>>) -> (r: Result<
    Vec<AggregateDefinition>,
    InterchangeError,
>)
    ensures
        r matches Ok(aggregates) ==> readable_aggregates(aggregates@),
        aggregates_json(*value, models) && readable_aggregates(models) ==> (r matches Ok(aggregates)
            && aggregates_json(*value, aggregates@)),
{
    let ghost hypothesis = aggregates_json(*value, models) && readable_aggregates(models);
    let allowed: &[&str] = &["output", "function", "argument"];
    proof {
        lemma_name_signatures();
        reveal_with_fuel(names_known_within, 4);
        reveal_with_fuel(allowed_within, 4);
        reveal_with_fuel(distinct_within, 4);
        reveal_with_fuel(differs_within, 4);
    }
    let items = expect_array(value, path)?;
    let mut aggregates: Vec<AggregateDefinition> = Vec::new();
    let mut index: usize = 0;
    while index < items.len()
        invariant
            readable_aggregates(aggregates@),
            index <= items@.len(),
            *value == JsonValue::Array(*items),
            aggregates@.len() == index,
            allowed@ == seq!["output", "function", "argument"],
            hypothesis ==> forall|i: int| 0 <= i < index ==> aggregate_json(items@[i], #[trigger] aggregates@[i]),
        decreases items@.len() - index,
    {
        let ghost item = items@[index as int];
        let ghost model = models[index as int];
        let ghost names = seq!["output"@, "function"@] + argument_names(model.argument);
        proof {
            if hypothesis {
                lemma_object_readable(item, names, allowed@);
                if model.argument is None {
                    lemma_differs("argument"@, names, names.len() as int);
                    assert forall|i: int| 0 <= i < item->Object_0@.len() implies (
                    #[trigger] item->Object_0@[i]).0@ != "argument"@ by {
                        assert(item->Object_0@[i].0@ == names[i]);
                    }
                }
            }
        }
        let item_path = index_path(path, index);
        let record = Record::new(&items[index], item_path.clone(), allowed, false)?;
        let output = parse_field_id(record.required("output")?, &member_path(&item_path, "output"))?;
        let function = parse_aggregate_function(
            record.required("function")?,
            &member_path(&item_path, "function"),
        )?;
        let argument = parse_aggregate_argument(&record, &item_path, function, Ghost(2), Ghost(model.argument))?;
        aggregates.push(AggregateDefinition { output, function, argument });
        proof {
            if hypothesis {
                let read = aggregates@[index as int];
                assert(argument_names(read.argument) == names.subrange(2, names.len() as int));
                assert(object_named(item, seq!["output"@, "function"@] + argument_names(read.argument)));
            }
        }
        index = index + 1;
    }
    Ok(aggregates)
}

fn parse_window_definition(value: &JsonValue, path: &String, Ghost(model): Ghost<WindowDefinition>) -> (r: Result<
    WindowDefinition,
    InterchangeError,
>)
    ensures
        r matches Ok(definition) ==> readable_window(definition),
        window_json(*value, model) && readable_window(model) ==> (r matches Ok(definition)
            && window_json(*value, definition)),
{
    let ghost hypothesis = window_json(*value, model) && readable_window(model);
    let ghost names = match model {
        WindowDefinition::PartitionedAggregate { argument, .. } => seq!["kind"@, "output"@, "function"@]
            + argument_names(argument) + seq!["partition_by"@],
        WindowDefinition::Ranking { .. } => seq!["kind"@, "output"@, "function"@, "partition_by"@, "order_by"@],
    };
    proof {
        lemma_name_signatures();
        reveal_with_fuel(names_known_within, 6);
        reveal_with_fuel(allowed_within, 6);
        reveal_with_fuel(distinct_within, 6);
        reveal_with_fuel(differs_within, 6);
    }
    let kind = discriminant(value, path)?;
    let partitioned = if text_is(kind, "partitioned_aggregate") {
        true
    } else if text_is(kind, "ranking") {
        false
    } else {
        return Err(error(member_path(path, "kind"), "unknown window-definition kind"));
    };
    let allowed: &[&str] = if partitioned {
        &["kind", "output", "function", "argument", "partition_by"]
    } else {
        &["kind", "output", "function", "partition_by", "order_by"]
    };
    proof {
        if hypothesis {
            lemma_object_readable(*value, names, allowed@);
            if model matches WindowDefinition::PartitionedAggregate { argument: None, .. } {
                lemma_differs("argument"@, names, names.len() as int);
                assert forall|i: int| 0 <= i < value->Object_0@.len() implies (
                #[trigger] value->Object_0@[i]).0@ != "argument"@ by {
                    assert(value->Object_0@[i].0@ == names[i]);
                }
            }
        }
    }
    let record = Record::new(value, path.clone(), allowed, false)?;
    record.required("kind")?;
    let output = parse_field_id(record.required("output")?, &member_path(path, "output"))?;
    let partition_by = parse_expression_array(
        record.required("partition_by")?,
        &member_path(path, "partition_by"),
        Ghost(
            match model {
                WindowDefinition::PartitionedAggregate { partition_by, .. } => partition_by@,
                WindowDefinition::Ranking { partition_by, .. } => partition_by@,
            },
        ),
    )?;
    if partitioned {
        let function = parse_aggregate_function(record.required("function")?, &member_path(path, "function"))?;
        let argument = parse_aggregate_argument(&record, path, function, Ghost(3), Ghost(model->argument))?;
        let definition = WindowDefinition::PartitionedAggregate { output, function, argument, partition_by };
        proof {
            if hypothesis {
                assert(argument_names(argument) == argument_names(model->argument));
            }
        }
        Ok(definition)
    } else {
        let function = parse_ranking_function(record.required("function")?, &member_path(path, "function"))?;
        let order_path = member_path(path, "order_by");
        let order_by = parse_ordering_items(record.required("order_by")?, &order_path, Ghost(model->order_by@))?;
        if order_by.len() == 0 {
            return Err(nonempty_error(order_path));
        }
        Ok(WindowDefinition::Ranking { output, function, partition_by, order_by })
    }
}

fn parse_window_definitions(value: &JsonValue, path: &String, Ghost(models): Ghost<Seq<WindowDefinition>>) -> (r: Result<
    Vec<WindowDefinition>,
    InterchangeError,
>)
    ensures
        r matches Ok(definitions) ==> readable_windows(definitions@),
        windows_json(*value, models) && readable_windows(models) ==> (r matches Ok(definitions)
            && windows_json(*value, definitions@)),
{
    let ghost hypothesis = windows_json(*value, models) && readable_windows(models);
    let items = expect_array(value, path)?;
    let mut definitions: Vec<WindowDefinition> = Vec::new();
    let mut index: usize = 0;
    while index < items.len()
        invariant
            readable_windows(definitions@),
            index <= items@.len(),
            *value == JsonValue::Array(*items),
            definitions@.len() == index,
            hypothesis ==> forall|i: int| 0 <= i < index ==> window_json(items@[i], #[trigger] definitions@[i]),
        decreases items@.len() - index,
    {
        definitions.push(
            parse_window_definition(&items[index], &index_path(path, index), Ghost(models[index as int]))?,
        );
        index = index + 1;
    }
    Ok(definitions)
}

/// Reads the members of a join node.
fn parse_join_node(record: &Record, path: &String, Ghost(model): Ghost<Node>) -> (r: Result<NodeKind, InterchangeError>)
    requires
        record.wf(),
    ensures
        r matches Ok(kind) ==> readable_node_kind(kind),
        r matches Ok(kind) ==> kind is Join && member_text(*record.value, "left"@, kind->Join_left@) && member_text(
            *record.value,
            "right"@,
            kind->Join_right@,
        ),
        ({
            &&& node_json(*record.value, model)
            &&& readable_node(model)
            &&& model.kind is Join
            &&& forall|k: int|
                0 <= k < node_member_names(model.kind).len() ==> first_named(
                    record.members@,
                    #[trigger] node_member_names(model.kind)[k],
                    k,
                )
            &&& model.kind->condition is None ==> forall|i: int|
                0 <= i < record.members@.len() ==> (#[trigger] record.members@[i]).0@ != "condition"@
        }) ==> (r matches Ok(kind) && node_kind_json(*record.value, kind) && node_member_names(kind)
            == node_member_names(model.kind) && node_kind_name(kind) == node_kind_name(model.kind)),
{
    proof {
        if node_json(*record.value, model) && model.kind is Join {
            let names = node_member_names(model.kind);
            assert(names[2] == "left"@ && names[3] == "right"@ && names[4] == "join_type"@);
            if model.kind->condition is Some {
                assert(names[5] == "condition"@);
            }
        }
    }
    let join_type_path = member_path(path, "join_type");
    let join_type = parse_join_type(record.required("join_type")?, &join_type_path)?;
    let condition_path = member_path(path, "condition");
    let condition = match (join_type, record.optional("condition")) {
        (JoinType::Cross, None) => None,
        (JoinType::Cross, Some(_)) => {
            return Err(error(condition_path, "condition is prohibited for a cross join"));
        },
        (_, Some(value)) => Some(parse_expression(value, &condition_path, Ghost(model.kind->condition->0))?),
        (_, None) => {
            return Err(error(condition_path, "missing required member"));
        },
    };
    let left = parse_node_id(record.required("left")?, &member_path(path, "left"))?;
    let right = parse_node_id(record.required("right")?, &member_path(path, "right"))?;
    Ok(NodeKind::Join { left, right, join_type, condition })
}

/// Reads one node object: its common members, then the members of its kind.
///
/// An object written for a readable node is read back as a node with the
/// same document.
fn parse_node(value: &JsonValue, path: &String, Ghost(model): Ghost<Node>) -> (r: Result<Node, InterchangeError>)
    ensures
        r matches Ok(node) ==> readable_node(node),
        r matches Ok(node) ==> is_identifier_text(node.id@) && forall|f: int|
            0 <= f < node.output_schema@.len() ==> is_identifier_text(
                (#[trigger] node.output_schema@[f]).id@,
            ),
        node_json(*value, model) && readable_node(model) ==> (r matches Ok(node) && node_json(*value, node)),
        r matches Ok(node) ==> node_read(*value, node),
{
    let ghost hypothesis = node_json(*value, model) && readable_node(model);
    let ghost names = node_member_names(model.kind);
    proof {
        lemma_name_signatures();
        reveal_with_fuel(names_known_within, 9);
        reveal_with_fuel(allowed_within, 9);
        reveal_with_fuel(distinct_within, 9);
        reveal_with_fuel(differs_within, 9);
        if hypothesis {
            let members = value->Object_0@;
            assert forall|j: int| 0 <= j < 1 implies (#[trigger] members[j]).0@ != "kind"@ by {
                assert(j == 0);
            }
            assert(first_named(members, "kind"@, 1));
        }
    }
    let kind = discriminant(value, path)?;
    let allowed: &[&str] = if text_is(kind, "input") {
        let allowed: &[&str] = &["id", "kind", "output_schema", "collection", "binding"];
        proof {
            if hypothesis {
                lemma_object_readable(*value, names, allowed@);
            }
        }
        allowed
    } else if text_is(kind, "empty") {
        let allowed: &[&str] = &["id", "kind", "output_schema", "collection"];
        proof {
            if hypothesis {
                lemma_object_readable(*value, names, allowed@);
            }
        }
        allowed
    } else if text_is(kind, "project") {
        let allowed: &[&str] = &["id", "kind", "output_schema", "collection", "input", "entries"];
        proof {
            if hypothesis {
                lemma_object_readable(*value, names, allowed@);
            }
        }
        allowed
    } else if text_is(kind, "filter") {
        let allowed: &[&str] = &["id", "kind", "output_schema", "collection", "input", "predicate"];
        proof {
            if hypothesis {
                lemma_object_readable(*value, names, allowed@);
            }
        }
        allowed
    } else if text_is(kind, "join") {
        let allowed: &[&str] = &["id", "kind", "output_schema", "collection", "left", "right", "join_type", "condition"];
        proof {
            if hypothesis {
                lemma_object_readable(*value, names, allowed@);
            }
        }
        allowed
    } else if text_is(kind, "aggregate") {
        let allowed: &[&str] = &["id", "kind", "output_schema", "collection", "input", "grouping_keys", "aggregates"];
        proof {
            if hypothesis {
                lemma_object_readable(*value, names, allowed@);
            }
        }
        allowed
    } else if text_is(kind, "window") {
        let allowed: &[&str] = &["id", "kind", "output_schema", "collection", "input", "definitions"];
        proof {
            if hypothesis {
                lemma_object_readable(*value, names, allowed@);
            }
        }
        allowed
    } else if text_is(kind, "distinct") {
        let allowed: &[&str] = &["id", "kind", "output_schema", "collection", "input"];
        proof {
            if hypothesis {
                lemma_object_readable(*value, names, allowed@);
            }
        }
        allowed
    } else if text_is(kind, "set") {
        let allowed: &[&str] = &["id", "kind", "output_schema", "collection", "left", "right", "operation", "quantifier"];
        proof {
            if hypothesis {
                lemma_object_readable(*value, names, allowed@);
            }
        }
        allowed
    } else if text_is(kind, "order") {
        let allowed: &[&str] = &["id", "kind", "output_schema", "collection", "input", "items"];
        proof {
            if hypothesis {
                lemma_object_readable(*value, names, allowed@);
            }
        }
        allowed
    } else if text_is(kind, "slice") {
        let allowed: &[&str] = &["id", "kind", "output_schema", "collection", "input", "offset", "limit"];
        proof {
            if hypothesis {
                lemma_object_readable(*value, names, allowed@);
            }
        }
        allowed
    } else if text_is(kind, "forget_order") {
        let allowed: &[&str] = &["id", "kind", "output_schema", "collection", "input"];
        proof {
            if hypothesis {
                lemma_object_readable(*value, names, allowed@);
            }
        }
        allowed
    } else {
        return Err(error(member_path(path, "kind"), "unknown node kind"));
    };
    proof {
        if hypothesis && model.kind matches NodeKind::Join { condition: None, .. } {
            lemma_differs("condition"@, names, names.len() as int);
            assert forall|i: int| 0 <= i < value->Object_0@.len() implies (
            #[trigger] value->Object_0@[i]).0@ != "condition"@ by {
                assert(value->Object_0@[i].0@ == names[i]);
            }
        }
    }
    let record = Record::new(value, path.clone(), allowed, true)?;
    let id = parse_node_id(record.required("id")?, &member_path(path, "id"))?;
    expect_string(record.required("kind")?, &member_path(path, "kind"))?;
    let output_schema = parse_schema(
        record.required("output_schema")?,
        &member_path(path, "output_schema"),
        Ghost(model.output_schema@),
    )?;
    let collection = parse_collection(record.required("collection")?, &member_path(path, "collection"))?;
    let node_kind = if text_is(kind, "input") {
        let binding_path = member_path(path, "binding");
        let binding = expect_string(record.required("binding")?, &binding_path)?;
        if binding.as_str().unicode_len() == 0 {
            return Err(error(binding_path, "binding must be nonempty"));
        }
        NodeKind::Input { binding: RelationBinding::from_string(binding.clone()) }
    } else if text_is(kind, "empty") {
        NodeKind::Empty
    } else if text_is(kind, "project") {
        let input = parse_node_id(record.required("input")?, &member_path(path, "input"))?;
        let entries = parse_project_entries(
            record.required("entries")?,
            &member_path(path, "entries"),
            Ghost(model.kind->entries@),
        )?;
        NodeKind::Project { input, entries }
    } else if text_is(kind, "filter") {
        let input = parse_node_id(record.required("input")?, &member_path(path, "input"))?;
        let predicate = parse_expression(
            record.required("predicate")?,
            &member_path(path, "predicate"),
            Ghost(model.kind->predicate),
        )?;
        NodeKind::Filter { input, predicate }
    } else if text_is(kind, "join") {
        parse_join_node(&record, path, Ghost(model))?
    } else if text_is(kind, "aggregate") {
        let input = parse_node_id(record.required("input")?, &member_path(path, "input"))?;
        let grouping_keys = parse_grouping_keys(
            record.required("grouping_keys")?,
            &member_path(path, "grouping_keys"),
            Ghost(model.kind->grouping_keys@),
        )?;
        let aggregates = parse_aggregates(
            record.required("aggregates")?,
            &member_path(path, "aggregates"),
            Ghost(model.kind->aggregates@),
        )?;
        NodeKind::Aggregate { input, grouping_keys, aggregates }
    } else if text_is(kind, "window") {
        let definitions_path = member_path(path, "definitions");
        let definitions = parse_window_definitions(
            record.required("definitions")?,
            &definitions_path,
            Ghost(model.kind->definitions@),
        )?;
        if definitions.len() == 0 {
            return Err(nonempty_error(definitions_path));
        }
        let input = parse_node_id(record.required("input")?, &member_path(path, "input"))?;
        NodeKind::Window { input, definitions }
    } else if text_is(kind, "distinct") {
        NodeKind::Distinct { input: parse_node_id(record.required("input")?, &member_path(path, "input"))? }
    } else if text_is(kind, "set") {
        let left = parse_node_id(record.required("left")?, &member_path(path, "left"))?;
        let right = parse_node_id(record.required("right")?, &member_path(path, "right"))?;
        let operation = parse_set_operation(record.required("operation")?, &member_path(path, "operation"))?;
        let quantifier = parse_set_quantifier(
            record.required("quantifier")?,
            &member_path(path, "quantifier"),
        )?;
        NodeKind::SetOperation { left, right, operation, quantifier }
    } else if text_is(kind, "order") {
        let items_path = member_path(path, "items");
        let items = parse_ordering_items(record.required("items")?, &items_path, Ghost(model.kind->items@))?;
        if items.len() == 0 {
            return Err(nonempty_error(items_path));
        }
        let input = parse_node_id(record.required("input")?, &member_path(path, "input"))?;
        NodeKind::Order { input, items }
    } else if text_is(kind, "slice") {
        let limit_path = member_path(path, "limit");
        let limit = match record.required("limit")? {
            JsonValue::Null => None,
            bound => Some(parse_i64(bound, &limit_path)?),
        };
        let input = parse_node_id(record.required("input")?, &member_path(path, "input"))?;
        let offset = parse_i64(record.required("offset")?, &member_path(path, "offset"))?;
        NodeKind::Slice { input, offset, limit }
    } else {
        NodeKind::ForgetOrder { input: parse_node_id(record.required("input")?, &member_path(path, "input"))? }
    };
    Ok(Node { id, kind: node_kind, output_schema, collection })
}

/// The first member named `name` of an object value is the string `text`.
pub open spec fn member_text(value: JsonValue, name: Seq<char>, text: Seq<char>) -> bool {
    value matches JsonValue::Object(members) && exists|k: int|
        #[trigger] first_named(members@, name, k) && text_json(members@[k].1, text)
}

/// The first member named `name` of an object value is an array of `count`
/// items.
pub open spec fn member_items(value: JsonValue, name: Seq<char>, count: nat) -> bool {
    value matches JsonValue::Object(members) && exists|k: int|
        #[trigger] first_named(members@, name, k) && members@[k].1 is Array && items_of(members@[k].1).len() == count
}

/// What a node read from an object says of the object, member by name in
/// whatever order the members stand: its identity, kind and collection are
/// the strings of those members, its schema has as many fields as the
/// `output_schema` array has items, and the nodes it reads are named by its
/// `input`, or `left` and `right`, members; an input node's binding is its
/// `binding` member.
pub open spec fn node_read(value: JsonValue, node: Node) -> bool {
    &&& member_text(value, "id"@, node.id@)
    &&& member_text(value, "kind"@, node_kind_name(node.kind))
    &&& member_text(value, "collection"@, collection_text(node.collection))
    &&& member_items(value, "output_schema"@, node.output_schema@.len())
    &&& match node.kind {
        NodeKind::Input { binding } => member_text(value, "binding"@, binding@),
        NodeKind::Empty => true,
        NodeKind::Join { left, right, .. } => member_text(value, "left"@, left@) && member_text(value, "right"@, right@),
        NodeKind::SetOperation { left, right, .. } => member_text(value, "left"@, left@) && member_text(
            value,
            "right"@,
            right@,
        ),
        NodeKind::Project { input, .. } => member_text(value, "input"@, input@),
        NodeKind::Filter { input, .. } => member_text(value, "input"@, input@),
        NodeKind::Aggregate { input, .. } => member_text(value, "input"@, input@),
        NodeKind::Window { input, .. } => member_text(value, "input"@, input@),
        NodeKind::Distinct { input } => member_text(value, "input"@, input@),
        NodeKind::Order { input, .. } => member_text(value, "input"@, input@),
        NodeKind::Slice { input, .. } => member_text(value, "input"@, input@),
        NodeKind::ForgetOrder { input } => member_text(value, "input"@, input@),
    }
}

/// What a graph read from a document says of the document, member by name:
/// both versions are `0.1`, the root is the `root` member, and the `nodes`
/// member is an array whose items are read as the graph's nodes, in order.
pub open spec fn graph_read(value: JsonValue, graph: Graph) -> bool {
    &&& member_text(value, "interchange_version"@, "0.1"@)
    &&& member_text(value, "shape_ir_version"@, "0.1"@)
    &&& member_text(value, "root"@, graph.root@)
    &&& value matches JsonValue::Object(members) && exists|k: int|
        #[trigger] first_named(members@, "nodes"@, k) && members@[k].1 is Array && items_of(members@[k].1).len()
            == graph.nodes@.len() && forall|i: int|
            0 <= i < graph.nodes@.len() ==> node_read(items_of(members@[k].1)[i], #[trigger] graph.nodes@[i])
}

fn require_version(value: &JsonValue, path: &String, name: &str) -> (r: Result<(), InterchangeError>)
    ensures
        r is Ok <==> (*value matches JsonValue::String(s) && s@ == "0.1"@),
{
    let text = expect_string(value, path)?;
    if text_is(text, "0.1") {
        Ok(())
    } else {
        let mut message = String::from_str("unsupported ");
        message.append(name);
        message.append(" version `");
        message.append(text.as_str());
        message.append("`");
        Err(InterchangeError { path: path.clone(), message })
    }
}

/// Whether bytes begin with the UTF-8 byte order mark.
pub open spec fn starts_with_byte_order_mark(bytes: Seq<u8>) -> bool {
    bytes.len() >= 3 && bytes[0] == 0xefu8 && bytes[1] == 0xbbu8 && bytes[2] == 0xbfu8
}

/// Refuses an interchange document that begins with a UTF-8 byte order
/// mark, at the document's root; every other byte sequence goes on to JSON
/// parsing.
pub fn refuse_byte_order_mark(bytes: &[u8]) -> (r: Result<(), InterchangeError>)
    ensures
        r is Err <==> starts_with_byte_order_mark(bytes@),
        r matches Err(e) ==> e.path@ == "$"@ && e.message@ == "a UTF-8 BOM is not permitted"@,
{
    if bytes.len() >= 3 && bytes[0] == 0xef && bytes[1] == 0xbb && bytes[2] == 0xbf {
        Err(InterchangeError {
            path: String::from_str("$"),
            message: String::from_str("a UTF-8 BOM is not permitted"),
        })
    } else {
        Ok(())
    }
}

/// Maps one interchange document to a graph, without validating it.
///
/// A decoded graph has the supported version, at least one node, and
/// interchange identifiers for its root and every node and field identity.
/// Members are read by name, in whatever order they stand: the graph's
/// root, its nodes' identities, kinds, collections, schema widths and the
/// nodes they read are those the document names, and the document holds no
/// member besides the four of a graph and `metadata`.
/// The document written for a readable graph is read back as a graph with
/// the same document.
pub fn decode_document(value: &JsonValue) -> (r: Result<Graph, InterchangeError>)
    ensures
        r matches Ok(graph) ==> readable_graph(graph),
        r matches Ok(graph) ==> graph_read(*value, graph),
        r is Ok ==> members_known(*value, seq!["interchange_version", "shape_ir_version", "root", "nodes"], true),
        r matches Ok(graph) ==> {
            &&& graph.version@ == version_text()
            &&& graph.nodes@.len() > 0
            &&& encodable_identities(graph)
        },
        forall|graph: Graph|
            #[trigger] document_json(*value, graph) && readable_graph(graph) ==> (r matches Ok(read)
                && document_json(*value, read)),
{
    let ghost hypothesis = exists|graph: Graph| #[trigger] document_json(*value, graph) && readable_graph(graph);
    let ghost model = choose|graph: Graph| #[trigger] document_json(*value, graph) && readable_graph(graph);
    let allowed: &[&str] = &["interchange_version", "shape_ir_version", "root", "nodes"];
    proof {
        lemma_name_signatures();
        reveal_strlit("0.1");
        reveal_with_fuel(names_known_within, 5);
        reveal_with_fuel(allowed_within, 5);
        reveal_with_fuel(distinct_within, 5);
        reveal_with_fuel(differs_within, 5);
        if hypothesis {
            lemma_object_readable(
                *value,
                seq!["interchange_version"@, "shape_ir_version"@, "root"@, "nodes"@],
                allowed@,
            );
        }
    }
    let path = root_path();
    let record = Record::new(value, path.clone(), allowed, true)?;
    assert(allowed@ =~= seq!["interchange_version", "shape_ir_version", "root", "nodes"]);
    require_version(
        record.required("interchange_version")?,
        &member_path(&path, "interchange_version"),
        "Shape IR Interchange",
    )?;
    require_version(
        record.required("shape_ir_version")?,
        &member_path(&path, "shape_ir_version"),
        "Shape IR",
    )?;
    let root = parse_node_id(record.required("root")?, &member_path(&path, "root"))?;
    let nodes_path = member_path(&path, "nodes");
    let nodes_value = record.required("nodes")?;
    let items = expect_array(nodes_value, &nodes_path)?;
    if items.len() == 0 {
        return Err(nonempty_error(nodes_path));
    }
    let ghost heading = member_text(*value, "interchange_version"@, "0.1"@) && member_text(
        *value,
        "shape_ir_version"@,
        "0.1"@,
    ) && member_text(*value, "root"@, root@);
    assert(heading);
    let mut nodes: Vec<Node> = Vec::new();
    let mut index: usize = 0;
    while index < items.len()
        invariant
            heading,
            *nodes_value == JsonValue::Array(*items),
            value is Object && exists|k: int|
                #[trigger] first_named(value->Object_0@, "nodes"@, k) && value->Object_0@[k].1 == *nodes_value,
            forall|k: int| 0 <= k < nodes@.len() ==> node_read(items@[k], #[trigger] nodes@[k]),
            forall|k: int| 0 <= k < nodes@.len() ==> readable_node(#[trigger] nodes@[k]),
            index <= items@.len(),
            nodes@.len() == index,
            forall|k: int|
                0 <= k < nodes@.len() ==> is_identifier_text((#[trigger] nodes@[k]).id@) && forall|f: int|
                    0 <= f < nodes@[k].output_schema@.len() ==> is_identifier_text(
                        (#[trigger] nodes@[k].output_schema@[f]).id@,
                    ),
            hypothesis ==> items@ == items_of(member_at(*value, 3)),
            hypothesis ==> forall|k: int| 0 <= k < index ==> node_json(items@[k], #[trigger] nodes@[k]),
        decreases items@.len() - index,
    {
        nodes.push(parse_node(&items[index], &index_path(&nodes_path, index), Ghost(model.nodes@[index as int]))?);
        index = index + 1;
    }
    let graph = Graph::new(root.as_str(), nodes);
    proof {
        assert("0.1"@ =~= version_text());
    }
    Ok(graph)
}

// ---------------------------------------------------------------------------
// Writing values
// ---------------------------------------------------------------------------

fn text_value(text: &str) -> (value: JsonValue)
    ensures
        value matches JsonValue::String(s) && s@ == text@,
{
    JsonValue::String(String::from_str(text))
}

fn member(name: &str, value: JsonValue) -> (m: (String, JsonValue))
    ensures
        m.0@ == name@,
        m.1 == value,
{
    (String::from_str(name), value)
}

fn scalar_name(scalar: ScalarType) -> (name: &'static str)
    ensures
        name@ == scalar_text(scalar),
{
    match scalar {
        ScalarType::Boolean => "boolean",
        ScalarType::Int64 => "int64",
        ScalarType::Text => "text",
    }
}

fn encode_type(descriptor: TypeDescriptor) -> (value: JsonValue)
    ensures
        type_json(value, descriptor),
{
    let mut members: Vec<(String, JsonValue)> = Vec::new();
    members.push(member("scalar", text_value(scalar_name(descriptor.scalar))));
    members.push(member("nullable", JsonValue::Bool(descriptor.nullable)));
    let value = JsonValue::Object(members);
    assert(members_named(members@, seq!["scalar"@, "nullable"@]));
    value
}

fn encode_field(field: &Field) -> (value: JsonValue)
    ensures
        field_json(value, *field),
{
    let mut members: Vec<(String, JsonValue)> = Vec::new();
    members.push(member("id", text_value(field.id.as_str())));
    members.push(member("name", JsonValue::String(field.name.clone())));
    members.push(member("type", encode_type(field.descriptor)));
    assert(members_named(members@, seq!["id"@, "name"@, "type"@]));
    JsonValue::Object(members)
}

fn collection_name(kind: CollectionKind) -> (name: &'static str)
    ensures
        name@ == collection_text(kind),
{
    match kind {
        CollectionKind::Bag => "bag",
        CollectionKind::Ordered => "ordered",
    }
}

fn join_type_name(join_type: JoinType) -> (name: &'static str)
    ensures
        name@ == join_type_text(join_type),
{
    match join_type {
        JoinType::Cross => "cross",
        JoinType::Inner => "inner",
        JoinType::Left => "left",
        JoinType::Right => "right",
        JoinType::Full => "full",
    }
}

fn set_operation_name(operation: SetOperation) -> (name: &'static str)
    ensures
        name@ == set_operation_text(operation),
{
    match operation {
        SetOperation::Union => "union",
        SetOperation::Intersect => "intersect",
        SetOperation::Except => "except",
    }
}

fn set_quantifier_name(quantifier: SetQuantifier) -> (name: &'static str)
    ensures
        name@ == set_quantifier_text(quantifier),
{
    match quantifier {
        SetQuantifier::All => "all",
        SetQuantifier::Distinct => "distinct",
    }
}

fn aggregate_function_name(function: AggregateFunction) -> (name: &'static str)
    ensures
        name@ == aggregate_function_text(function),
{
    match function {
        AggregateFunction::CountAll => "count_all",
        AggregateFunction::Count => "count",
        AggregateFunction::Sum => "sum",
        AggregateFunction::Min => "min",
        AggregateFunction::Max => "max",
        AggregateFunction::BoolAnd => "bool_and",
        AggregateFunction::BoolOr => "bool_or",
    }
}

fn ranking_function_name(function: RankingFunction) -> (name: &'static str)
    ensures
        name@ == ranking_function_text(function),
{
    match function {
        RankingFunction::RowNumber => "row_number",
        RankingFunction::Rank => "rank",
        RankingFunction::DenseRank => "dense_rank",
    }
}

fn unary_operation_name(operation: UnaryOperation) -> (name: &'static str)
    ensures
        name@ == unary_text(operation),
{
    match operation {
        UnaryOperation::Positive => "positive",
        UnaryOperation::Negative => "negative",
        UnaryOperation::Not => "not",
    }
}

fn binary_operation_name(operation: BinaryOperation) -> (name: &'static str)
    ensures
        name@ == binary_text(operation),
{
    match operation {
        BinaryOperation::Add => "add",
        BinaryOperation::Subtract => "subtract",
        BinaryOperation::Multiply => "multiply",
        BinaryOperation::Divide => "divide",
        BinaryOperation::Remainder => "remainder",
        BinaryOperation::Concatenate => "concatenate",
        BinaryOperation::Equal => "equal",
        BinaryOperation::NotEqual => "not_equal",
        BinaryOperation::Less => "less",
        BinaryOperation::LessOrEqual => "less_or_equal",
        BinaryOperation::Greater => "greater",
        BinaryOperation::GreaterOrEqual => "greater_or_equal",
        BinaryOperation::And => "and",
        BinaryOperation::Or => "or",
    }
}

fn encode_literal(value: &LiteralValue) -> (json: JsonValue)
    ensures
        literal_json(json, *value),
{
    match value {
        LiteralValue::Boolean(b) => JsonValue::Bool(*b),
        LiteralValue::Int64(n) => JsonValue::String(int64_text(*n)),
        LiteralValue::Text(text) => JsonValue::String(text.clone()),
        LiteralValue::Null => JsonValue::Null,
    }
}

fn encode_expression_array(expressions: &Vec<Expression>) -> (value: JsonValue)
    ensures
        expressions_json(value, expressions@),
    decreases *expressions,
{
    let mut items: Vec<JsonValue> = Vec::new();
    let mut index: usize = 0;
    while index < expressions.len()
        invariant
            index <= expressions@.len(),
            items@.len() == index,
            forall|i: int| 0 <= i < index ==> expression_json(#[trigger] items@[i], expressions@[i]),
        decreases expressions@.len() - index,
    {
        proof {
            assert(decreases_to!(*expressions => expressions@));
            assert(decreases_to!(expressions@ => expressions@[index as int]));
        }
        items.push(encode_expression(&expressions[index]));
        index = index + 1;
    }
    JsonValue::Array(items)
}

fn expression_kind_name(kind: &ExpressionKind) -> (name: &'static str)
    ensures
        name@ == expression_kind_text(*kind),
{
    match kind {
        ExpressionKind::Literal(_) => "literal",
        ExpressionKind::Field(_) => "field",
        ExpressionKind::Unary { .. } => "unary",
        ExpressionKind::Binary { .. } => "binary",
        ExpressionKind::IsNull { .. } => "is_null",
        ExpressionKind::Case { .. } => "case",
        ExpressionKind::Cast { .. } => "cast",
        ExpressionKind::InList { .. } => "in_list",
        ExpressionKind::Exists { .. } => "exists",
        ExpressionKind::InQuery { .. } => "in_query",
    }
}

fn encode_case_arms(expression: &Expression, arms: &Vec<CaseArm>) -> (value: JsonValue)
    requires
        expression.kind matches ExpressionKind::Case { arms: a, .. } && a == *arms,
    ensures
        value is Array,
        items_of(value).len() == arms@.len(),
        forall|i: int|
            0 <= i < arms@.len() ==> object_named(#[trigger] items_of(value)[i], seq!["when"@, "then"@])
                && expression_json(member_at(items_of(value)[i], 0), arms@[i].when)
                && expression_json(member_at(items_of(value)[i], 1), arms@[i].result),
    decreases *expression, 0nat,
{
    let mut items: Vec<JsonValue> = Vec::new();
    let mut index: usize = 0;
    while index < arms.len()
        invariant
            index <= arms@.len(),
            items@.len() == index,
            forall|i: int|
                0 <= i < index ==> object_named(#[trigger] items@[i], seq!["when"@, "then"@])
                    && expression_json(member_at(items@[i], 0), arms@[i].when)
                    && expression_json(member_at(items@[i], 1), arms@[i].result),
        decreases arms@.len() - index,
    {
        assert(decreases_to!(*expression => arms@[index as int].when));
        assert(decreases_to!(*expression => arms@[index as int].result));
        let mut arm: Vec<(String, JsonValue)> = Vec::new();
        arm.push(member("when", encode_expression(&arms[index].when)));
        arm.push(member("then", encode_expression(&arms[index].result)));
        assert(members_named(arm@, seq!["when"@, "then"@]));
        items.push(JsonValue::Object(arm));
        index = index + 1;
    }
    JsonValue::Array(items)
}

fn encode_expression(expression: &Expression) -> (value: JsonValue)
    ensures
        expression_json(value, *expression),
    decreases *expression, 1nat,
{
    let mut members: Vec<(String, JsonValue)> = Vec::new();
    members.push(member("kind", text_value(expression_kind_name(&expression.kind))));
    members.push(member("type", encode_type(expression.descriptor)));
    let ghost start = members@;
    match &expression.kind {
        ExpressionKind::Literal(literal) => {
            members.push(member("value", encode_literal(literal)));
        },
        ExpressionKind::Field(field) => {
            members.push(member("field", text_value(field.as_str())));
        },
        ExpressionKind::Unary { operation, operand } => {
            members.push(member("operation", text_value(unary_operation_name(*operation))));
            members.push(member("operand", encode_expression(operand)));
        },
        ExpressionKind::Binary { operation, left, right } => {
            members.push(member("operation", text_value(binary_operation_name(*operation))));
            members.push(member("left", encode_expression(left)));
            members.push(member("right", encode_expression(right)));
        },
        ExpressionKind::IsNull { operand, negated } => {
            members.push(member("operand", encode_expression(operand)));
            members.push(member("negated", JsonValue::Bool(*negated)));
        },
        ExpressionKind::Case { arms, fallback } => {
            members.push(member("arms", encode_case_arms(expression, arms)));
            members.push(member("fallback", encode_expression(fallback)));
        },
        ExpressionKind::Cast { operand, target } => {
            members.push(member("operand", encode_expression(operand)));
            members.push(member("target", text_value(scalar_name(*target))));
        },
        ExpressionKind::InList { value, candidates } => {
            members.push(member("value", encode_expression(value)));
            members.push(member("candidates", encode_expression_array(candidates)));
        },
        ExpressionKind::Exists { query } => {
            members.push(member("query", text_value(query.as_str())));
        },
        ExpressionKind::InQuery { value, query, field } => {
            members.push(member("value", encode_expression(value)));
            members.push(member("query", text_value(query.as_str())));
            members.push(member("field", text_value(field.as_str())));
        },
    }
    let ghost names = seq!["kind"@, "type"@] + expression_member_names(expression.kind);
    assert(members_named(members@, names));
    JsonValue::Object(members)
}

fn encode_ordering_item(item: &OrderingItem) -> (value: JsonValue)
    ensures
        ordering_item_json(value, *item),
{
    let direction = match item.direction {
        Direction::Ascending => "ascending",
        Direction::Descending => "descending",
    };
    let placement = match item.null_placement {
        NullPlacement::First => "first",
        NullPlacement::Last => "last",
        NullPlacement::NotApplicable => "not_applicable",
    };
    let mut members: Vec<(String, JsonValue)> = Vec::new();
    members.push(member("expression", encode_expression(&item.expression)));
    members.push(member("direction", text_value(direction)));
    members.push(member("null_placement", text_value(placement)));
    assert(members_named(members@, seq!["expression"@, "direction"@, "null_placement"@]));
    JsonValue::Object(members)
}

fn encode_ordering_items(items: &Vec<OrderingItem>) -> (value: JsonValue)
    ensures
        ordering_items_json(value, items@),
{
    let mut values: Vec<JsonValue> = Vec::new();
    let mut index: usize = 0;
    while index < items.len()
        invariant
            index <= items@.len(),
            values@.len() == index,
            forall|i: int| 0 <= i < index ==> ordering_item_json(#[trigger] values@[i], items@[i]),
        decreases items@.len() - index,
    {
        values.push(encode_ordering_item(&items[index]));
        index = index + 1;
    }
    JsonValue::Array(values)
}

fn encode_project_entry(entry: &ProjectEntry) -> (value: JsonValue)
    ensures
        project_entry_json(value, *entry),
{
    let mut members: Vec<(String, JsonValue)> = Vec::new();
    match entry {
        ProjectEntry::Keep(field) => {
            members.push(member("kind", text_value("keep")));
            members.push(member("field", text_value(field.as_str())));
            assert(members_named(members@, seq!["kind"@, "field"@]));
        },
        ProjectEntry::Compute { output, expression } => {
            members.push(member("kind", text_value("compute")));
            members.push(member("output", text_value(output.as_str())));
            members.push(member("expression", encode_expression(expression)));
            assert(members_named(members@, seq!["kind"@, "output"@, "expression"@]));
        },
    }
    JsonValue::Object(members)
}

/// Appends `function`, then `argument` where there is one.
fn encode_aggregate_parts(
    members: &mut Vec<(String, JsonValue)>,
    function: AggregateFunction,
    argument: &Option<Expression>,
)
    ensures
        final(members)@.len() == old(members)@.len() + 1 + argument_names(*argument).len(),
        final(members)@.subrange(0, old(members)@.len() as int) == old(members)@,
        final(members)@[old(members)@.len() as int].0@ == "function"@,
        text_json(final(members)@[old(members)@.len() as int].1, aggregate_function_text(function)),
        *argument matches Some(e) ==> final(members)@[old(members)@.len() + 1int].0@ == "argument"@
            && expression_json(final(members)@[old(members)@.len() + 1int].1, e),
{
    members.push(member("function", text_value(aggregate_function_name(function))));
    if let Some(argument) = argument {
        members.push(member("argument", encode_expression(argument)));
    }
}

fn encode_aggregate(aggregate: &AggregateDefinition) -> (value: JsonValue)
    ensures
        aggregate_json(value, *aggregate),
{
    let mut members: Vec<(String, JsonValue)> = Vec::new();
    members.push(member("output", text_value(aggregate.output.as_str())));
    let ghost before = members@;
    encode_aggregate_parts(&mut members, aggregate.function, &aggregate.argument);
    assert(members@[0] == before[0]);
    assert(members_named(members@, seq!["output"@, "function"@] + argument_names(aggregate.argument)));
    JsonValue::Object(members)
}

fn encode_window_definition(definition: &WindowDefinition) -> (value: JsonValue)
    ensures
        window_json(value, *definition),
{
    let mut members: Vec<(String, JsonValue)> = Vec::new();
    match definition {
        WindowDefinition::PartitionedAggregate { output, function, argument, partition_by } => {
            members.push(member("kind", text_value("partitioned_aggregate")));
            members.push(member("output", text_value(output.as_str())));
            let ghost before = members@;
            encode_aggregate_parts(&mut members, *function, argument);
            let ghost middle = members@;
            assert(middle[0] == before[0] && middle[1] == before[1]);
            members.push(member("partition_by", encode_expression_array(partition_by)));
            assert(members@.subrange(0, middle.len() as int) == middle);
            let ghost names = seq!["kind"@, "output"@, "function"@] + argument_names(*argument) + seq![
                "partition_by"@,
            ];
            assert(members_named(members@, names));
        },
        WindowDefinition::Ranking { output, function, partition_by, order_by } => {
            members.push(member("kind", text_value("ranking")));
            members.push(member("output", text_value(output.as_str())));
            members.push(member("function", text_value(ranking_function_name(*function))));
            members.push(member("partition_by", encode_expression_array(partition_by)));
            members.push(member("order_by", encode_ordering_items(order_by)));
            assert(members_named(
                members@,
                seq!["kind"@, "output"@, "function"@, "partition_by"@, "order_by"@],
            ));
        },
    }
    JsonValue::Object(members)
}

fn kind_name(kind: &NodeKind) -> (name: &'static str)
    ensures
        name@ == node_kind_name(*kind),
{
    match kind {
        NodeKind::Input { .. } => "input",
        NodeKind::Empty => "empty",
        NodeKind::Project { .. } => "project",
        NodeKind::Filter { .. } => "filter",
        NodeKind::Join { .. } => "join",
        NodeKind::Aggregate { .. } => "aggregate",
        NodeKind::Window { .. } => "window",
        NodeKind::Distinct { .. } => "distinct",
        NodeKind::SetOperation { .. } => "set",
        NodeKind::Order { .. } => "order",
        NodeKind::Slice { .. } => "slice",
        NodeKind::ForgetOrder { .. } => "forget_order",
    }
}

fn encode_project_entries(entries: &Vec<ProjectEntry>) -> (value: JsonValue)
    ensures
        value is Array,
        items_of(value).len() == entries@.len(),
        forall|i: int| 0 <= i < entries@.len() ==> project_entry_json(#[trigger] items_of(value)[i], entries@[i]),
{
    let mut items: Vec<JsonValue> = Vec::new();
    let mut index: usize = 0;
    while index < entries.len()
        invariant
            index <= entries@.len(),
            items@.len() == index,
            forall|i: int| 0 <= i < index ==> project_entry_json(#[trigger] items@[i], entries@[i]),
        decreases entries@.len() - index,
    {
        items.push(encode_project_entry(&entries[index]));
        index = index + 1;
    }
    JsonValue::Array(items)
}

fn encode_grouping_keys(keys: &Vec<GroupingKey>) -> (value: JsonValue)
    ensures
        value is Array,
        items_of(value).len() == keys@.len(),
        forall|i: int| 0 <= i < keys@.len() ==> grouping_key_json(#[trigger] items_of(value)[i], keys@[i]),
{
    let mut items: Vec<JsonValue> = Vec::new();
    let mut index: usize = 0;
    while index < keys.len()
        invariant
            index <= keys@.len(),
            items@.len() == index,
            forall|i: int| 0 <= i < index ==> grouping_key_json(#[trigger] items@[i], keys@[i]),
        decreases keys@.len() - index,
    {
        let mut key: Vec<(String, JsonValue)> = Vec::new();
        key.push(member("output", text_value(keys[index].output.as_str())));
        key.push(member("expression", encode_expression(&keys[index].expression)));
        assert(members_named(key@, seq!["output"@, "expression"@]));
        items.push(JsonValue::Object(key));
        index = index + 1;
    }
    JsonValue::Array(items)
}

fn encode_aggregates(aggregates: &Vec<AggregateDefinition>) -> (value: JsonValue)
    ensures
        value is Array,
        items_of(value).len() == aggregates@.len(),
        forall|i: int| 0 <= i < aggregates@.len() ==> aggregate_json(#[trigger] items_of(value)[i], aggregates@[i]),
{
    let mut items: Vec<JsonValue> = Vec::new();
    let mut index: usize = 0;
    while index < aggregates.len()
        invariant
            index <= aggregates@.len(),
            items@.len() == index,
            forall|i: int| 0 <= i < index ==> aggregate_json(#[trigger] items@[i], aggregates@[i]),
        decreases aggregates@.len() - index,
    {
        items.push(encode_aggregate(&aggregates[index]));
        index = index + 1;
    }
    JsonValue::Array(items)
}

fn encode_window_definitions(definitions: &Vec<WindowDefinition>) -> (value: JsonValue)
    ensures
        value is Array,
        items_of(value).len() == definitions@.len(),
        forall|i: int| 0 <= i < definitions@.len() ==> window_json(#[trigger] items_of(value)[i], definitions@[i]),
{
    let mut items: Vec<JsonValue> = Vec::new();
    let mut index: usize = 0;
    while index < definitions.len()
        invariant
            index <= definitions@.len(),
            items@.len() == index,
            forall|i: int| 0 <= i < index ==> window_json(#[trigger] items@[i], definitions@[i]),
        decreases definitions@.len() - index,
    {
        items.push(encode_window_definition(&definitions[index]));
        index = index + 1;
    }
    JsonValue::Array(items)
}

fn encode_schema(schema: &Vec<Field>) -> (value: JsonValue)
    ensures
        schema_json(value, schema@),
{
    let mut fields: Vec<JsonValue> = Vec::new();
    let mut index: usize = 0;
    while index < schema.len()
        invariant
            index <= schema@.len(),
            fields@.len() == index,
            forall|i: int| 0 <= i < index ==> field_json(#[trigger] fields@[i], schema@[i]),
        decreases schema@.len() - index,
    {
        fields.push(encode_field(&schema[index]));
        index = index + 1;
    }
    JsonValue::Array(fields)
}

/// Appends the members that a node's kind contributes.
fn encode_node_kind(members: &mut Vec<(String, JsonValue)>, kind: &NodeKind)
    requires
        old(members)@.len() == 2,
    ensures
        final(members)@.len() == 2 + node_kind_member_names(*kind).len(),
        final(members)@[0] == old(members)@[0],
        final(members)@[1] == old(members)@[1],
        forall|i: int|
            0 <= i < node_kind_member_names(*kind).len() ==> #[trigger] final(members)@[2 + i].0@
                == node_kind_member_names(*kind)[i],
        node_kind_json(JsonValue::Object(*final(members)), *kind),
{
    let ghost start = members@;
    match kind {
        NodeKind::Input { binding } => {
            members.push(member("binding", text_value(binding.as_str())));
        },
        NodeKind::Empty => {},
        NodeKind::Project { input, entries } => {
            members.push(member("input", text_value(input.as_str())));
            members.push(member("entries", encode_project_entries(entries)));
        },
        NodeKind::Filter { input, predicate } => {
            members.push(member("input", text_value(input.as_str())));
            members.push(member("predicate", encode_expression(predicate)));
        },
        NodeKind::Join { left, right, join_type, condition } => {
            members.push(member("left", text_value(left.as_str())));
            members.push(member("right", text_value(right.as_str())));
            members.push(member("join_type", text_value(join_type_name(*join_type))));
            if let Some(condition) = condition {
                members.push(member("condition", encode_expression(condition)));
            }
        },
        NodeKind::Aggregate { input, grouping_keys, aggregates } => {
            members.push(member("input", text_value(input.as_str())));
            members.push(member("grouping_keys", encode_grouping_keys(grouping_keys)));
            members.push(member("aggregates", encode_aggregates(aggregates)));
        },
        NodeKind::Window { input, definitions } => {
            members.push(member("input", text_value(input.as_str())));
            members.push(member("definitions", encode_window_definitions(definitions)));
        },
        NodeKind::Distinct { input } => {
            members.push(member("input", text_value(input.as_str())));
        },
        NodeKind::SetOperation { left, right, operation, quantifier } => {
            members.push(member("left", text_value(left.as_str())));
            members.push(member("right", text_value(right.as_str())));
            members.push(member("operation", text_value(set_operation_name(*operation))));
            members.push(member("quantifier", text_value(set_quantifier_name(*quantifier))));
        },
        NodeKind::Order { input, items } => {
            members.push(member("input", text_value(input.as_str())));
            members.push(member("items", encode_ordering_items(items)));
        },
        NodeKind::Slice { input, offset, limit } => {
            members.push(member("input", text_value(input.as_str())));
            members.push(member("offset", JsonValue::String(int64_text(*offset))));
            let bound = match limit {
                Some(limit) => JsonValue::String(int64_text(*limit)),
                None => JsonValue::Null,
            };
            members.push(member("limit", bound));
        },
        NodeKind::ForgetOrder { input } => {
            members.push(member("input", text_value(input.as_str())));
        },
    }
}

fn encode_node(node: &Node) -> (value: JsonValue)
    ensures
        node_json(value, *node),
{
    let mut members: Vec<(String, JsonValue)> = Vec::new();
    members.push(member("id", text_value(node.id.as_str())));
    members.push(member("kind", text_value(kind_name(&node.kind))));
    encode_node_kind(&mut members, &node.kind);
    let ghost middle_members = members;
    let ghost middle = members@;
    members.push(member("output_schema", encode_schema(&node.output_schema)));
    members.push(member("collection", text_value(collection_name(node.collection))));
    let ghost names = seq!["id"@, "kind"@] + node_kind_member_names(node.kind) + seq![
        "output_schema"@,
        "collection"@,
    ];
    assert(members@.subrange(0, middle.len() as int) == middle);
    assert(members_named(members@, names)) by {
        assert forall|i: int| 0 <= i < names.len() implies #[trigger] members@[i].0@ == names[i] by {
            if 2 <= i < middle.len() {
                assert(members@[i] == middle[2 + (i - 2)]);
            }
        }
    }
    let value = JsonValue::Object(members);
    assert(node_kind_json(value, node.kind)) by {
        assert forall|i: int| 0 <= i < middle.len() implies member_at(value, i) == member_at(
            JsonValue::Object(middle_members),
            i,
        ) by {
            assert(members@[i] == middle[i]);
        }
    }
    value
}

/// The JSON document of a graph, in the writer's member order.
fn encode_graph(graph: &Graph) -> (value: JsonValue)
    ensures
        document_json(value, *graph),
{
    let mut nodes: Vec<JsonValue> = Vec::new();
    let mut index: usize = 0;
    while index < graph.nodes.len()
        invariant
            index <= graph.nodes@.len(),
            nodes@.len() == index,
            forall|k: int| 0 <= k < index ==> node_json(#[trigger] nodes@[k], graph.nodes@[k]),
        decreases graph.nodes@.len() - index,
    {
        nodes.push(encode_node(&graph.nodes[index]));
        index = index + 1;
    }
    let mut members: Vec<(String, JsonValue)> = Vec::new();
    members.push(member("interchange_version", text_value(VERSION)));
    members.push(member("shape_ir_version", JsonValue::String(graph.version.clone())));
    members.push(member("root", text_value(graph.root.as_str())));
    members.push(member("nodes", JsonValue::Array(nodes)));
    assert(members_named(
        members@,
        seq!["interchange_version"@, "shape_ir_version"@, "root"@, "nodes"@],
    ));
    JsonValue::Object(members)
}

/// Reports the first identity, in graph order, that is not an interchange
/// identifier.
fn ensure_encodable_identities(graph: &Graph) -> (r: Result<(), EncodeError>)
    ensures
        r is Ok <==> encodable_identities(*graph),
        r matches Err(e) ==> e matches EncodeError::InvalidIdentifier(text) && !is_identifier_text(
            text@,
        ),
{
    if !is_identifier(graph.root.as_str()) {
        return Err(EncodeError::InvalidIdentifier(String::from_str(graph.root.as_str())));
    }
    let mut index: usize = 0;
    while index < graph.nodes.len()
        invariant
            index <= graph.nodes@.len(),
            is_identifier_text(graph.root@),
            forall|k: int|
                0 <= k < index ==> is_identifier_text((#[trigger] graph.nodes@[k]).id@) && forall|f: int|
                    0 <= f < graph.nodes@[k].output_schema@.len() ==> is_identifier_text(
                        (#[trigger] graph.nodes@[k].output_schema@[f]).id@,
                    ),
        decreases graph.nodes@.len() - index,
    {
        let node = &graph.nodes[index];
        if !is_identifier(node.id.as_str()) {
            return Err(EncodeError::InvalidIdentifier(String::from_str(node.id.as_str())));
        }
        let mut position: usize = 0;
        while position < node.output_schema.len()
            invariant
                position <= node.output_schema@.len(),
                forall|f: int| 0 <= f < position ==> is_identifier_text((#[trigger] node.output_schema@[f]).id@),
            decreases node.output_schema@.len() - position,
        {
            let field = &node.output_schema[position];
            if !is_identifier(field.id.as_str()) {
                return Err(EncodeError::InvalidIdentifier(String::from_str(field.id.as_str())));
            }
            position = position + 1;
        }
        index = index + 1;
    }
    Ok(())
}

/// Validates a graph and maps it to its interchange document.
///
/// An invalid graph is refused with the validation error; a graph with an
/// identity that is not an interchange identifier is refused with that
/// identity; every other graph is written out in full, and its document is
/// one that `decode_document` reads back.
pub fn encode_document(graph: &Graph) -> (r: Result<JsonValue, EncodeError>)
    ensures
        r matches Err(EncodeError::Validation(e)) ==> validation_outcome(graph, Err(e)),
        r matches Err(EncodeError::InvalidIdentifier(text)) ==> !encodable_identities(*graph)
            && !is_identifier_text(text@),
        r matches Ok(document) ==> encodable_identities(*graph) && document_json(document, *graph)
            && readable_graph(*graph),
{
    let summary = match graph.validate() {
        Err(e) => return Err(EncodeError::Validation(e)),
        Ok(summary) => summary,
    };
    ensure_encodable_identities(graph)?;
    proof {
        lemma_valid_graph_readable(*graph, summary);
    }
    Ok(encode_graph(graph))
}

/// Writing a valid graph and reading the document back gives the same graph:
/// for a graph that validates and has interchange identifiers, any graph
/// read from its document (which `decode_document` then returns, and whose
/// parts it makes readable) is the same graph, node by node and part by part.
pub proof fn lemma_round_trip(graph: Graph, summary: ValidationSummary, document: JsonValue, read: Graph)
    requires
        validation_outcome(&graph, Ok(summary)),
        encodable_identities(graph),
        document_json(document, graph),
        document_json(document, read),
        readable_graph(read),
    ensures
        same_graph(graph, read),
{
    lemma_valid_graph_readable(graph, summary);
    lemma_document_determines_graph(document, graph, read);
}

} // verus!
