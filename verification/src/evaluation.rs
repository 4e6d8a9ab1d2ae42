#![verifier::loop_isolation(false)]
//! Fully materialized evaluation of valid Shape IR 0.1 graphs.
use crate::catalog::RelationBinding;
use crate::lexer::{char_from_u32, is_scalar_value};
use crate::interchange::int64_text;
use crate::shape_ir::{
    AggregateDefinition, AggregateFunction, BinaryOperation, CaseArm, CollectionKind, Direction, Expression,
    ExpressionKind, Field, FieldId, Graph, GroupingKey, JoinType, LiteralValue, Node, NodeId,
    NodeKind, NullPlacement, OrderingItem, ProjectEntry, RankingFunction, SetOperation,
    SetQuantifier, UnaryOperation, ValidationError, ValidationErrorKind, ValidationSummary,
    WindowDefinition, checked_node, clone_fields, named_width, node_ids_distinct, schema_view,
    validation_error_text, validation_outcome,
};
use crate::typecheck::{int64_value, parse_int64, spells_int64};
use crate::lower::{decimal_digits, push_decimal};
use crate::types::{
    descriptor_debug, enclosed, enclosed_number, push_descriptor_debug, scalar_debug, scalar_debug_text,
    ScalarType,
    TypeDescriptor,
};
use vstd::prelude::*;
use vstd::utf8::encode_utf8;

verus! {

// ---------------------------------------------------------------------------
// Values and rows
// ---------------------------------------------------------------------------

/// One runtime scalar value. A null value takes its scalar type from its
/// field or expression descriptor.
#[derive(Debug, PartialEq, Eq, Hash)]
pub enum Value {
    Boolean(bool),
    Int64(i64),
    Text(String),
    Null,
}

/// The mathematical content of a [`Value`].
pub enum ScalarValue {
    Boolean(bool),
    Int64(int),
    Text(Seq<char>),
    Null,
}

impl View for Value {
    type V = ScalarValue;

    open spec fn view(&self) -> ScalarValue {
        match self {
            Value::Boolean(b) => ScalarValue::Boolean(*b),
            Value::Int64(n) => ScalarValue::Int64(*n as int),
            Value::Text(t) => ScalarValue::Text(t@),
            Value::Null => ScalarValue::Null,
        }
    }
}

impl Clone for Value {
    fn clone(&self) -> (copy: Self)
        ensures
            copy@ == self@,
    {
        match self {
            Value::Boolean(b) => Value::Boolean(*b),
            Value::Int64(n) => Value::Int64(*n),
            Value::Text(t) => Value::Text(t.clone()),
            Value::Null => Value::Null,
        }
    }
}

/// The scalar type of a non-null value.
pub open spec fn scalar_of(value: ScalarValue) -> Option<ScalarType> {
    match value {
        ScalarValue::Boolean(_) => Some(ScalarType::Boolean),
        ScalarValue::Int64(_) => Some(ScalarType::Int64),
        ScalarValue::Text(_) => Some(ScalarType::Text),
        ScalarValue::Null => None,
    }
}

impl Value {
    /// The scalar type of a non-null value.
    pub fn scalar_type(&self) -> (scalar: Option<ScalarType>)
        ensures
            scalar == scalar_of(self@),
    {
        match self {
            Value::Boolean(_) => Some(ScalarType::Boolean),
            Value::Int64(_) => Some(ScalarType::Int64),
            Value::Text(_) => Some(ScalarType::Text),
            Value::Null => None,
        }
    }

    pub fn is_null(&self) -> (r: bool)
        ensures
            r == (self@ is Null),
    {
        match self {
            Value::Null => true,
            _ => false,
        }
    }
}

/// Whether two values are the same value.
pub fn same_value(left: &Value, right: &Value) -> (r: bool)
    ensures
        r == (left@ == right@),
{
    match (left, right) {
        (Value::Boolean(a), Value::Boolean(b)) => *a == *b,
        (Value::Int64(a), Value::Int64(b)) => *a == *b,
        (Value::Text(a), Value::Text(b)) => *a == *b,
        (Value::Null, Value::Null) => true,
        _ => false,
    }
}

/// One row occurrence. Equal rows in a relation are its multiplicity.
#[derive(Debug, PartialEq, Eq, Hash)]
pub struct Row {
    pub values: Vec<Value>,
}

/// The values of a row.
pub open spec fn row_view(row: Row) -> Seq<ScalarValue> {
    row.values@.map_values(|value: Value| value@)
}

/// The rows of a relation.
pub open spec fn rows_view(rows: Seq<Row>) -> Seq<Seq<ScalarValue>> {
    rows.map_values(|row: Row| row_view(row))
}

impl Row {
    pub fn new(values: Vec<Value>) -> (row: Self)
        ensures
            row.values == values,
    {
        Row { values }
    }
}

fn clone_values(values: &Vec<Value>) -> (copy: Vec<Value>)
    ensures
        copy@.map_values(|value: Value| value@) == values@.map_values(|value: Value| value@),
{
    let mut copy: Vec<Value> = Vec::new();
    let mut index: usize = 0;
    while index < values.len()
        invariant
            index <= values@.len(),
            copy@.len() == index,
            forall|k: int| 0 <= k < index ==> (#[trigger] copy@[k])@ == values@[k]@,
        decreases values@.len() - index,
    {
        copy.push(values[index].clone());
        index = index + 1;
    }
    assert(copy@.map_values(|value: Value| value@) =~= values@.map_values(|value: Value| value@));
    copy
}

impl Clone for Row {
    fn clone(&self) -> (copy: Self)
        ensures
            row_view(copy) == row_view(*self),
    {
        Row { values: clone_values(&self.values) }
    }
}

/// Whether two rows hold the same values.
pub fn same_row(left: &Row, right: &Row) -> (r: bool)
    ensures
        r == (row_view(*left) == row_view(*right)),
{
    if left.values.len() != right.values.len() {
        assert(row_view(*left).len() != row_view(*right).len());
        return false;
    }
    let mut index: usize = 0;
    while index < left.values.len()
        invariant
            index <= left.values@.len(),
            left.values@.len() == right.values@.len(),
            forall|k: int| 0 <= k < index ==> (#[trigger] left.values@[k])@ == right.values@[k]@,
        decreases left.values@.len() - index,
    {
        if !same_value(&left.values[index], &right.values[index]) {
            assert(row_view(*left)[index as int] != row_view(*right)[index as int]);
            return false;
        }
        index = index + 1;
    }
    assert(row_view(*left) =~= row_view(*right));
    true
}

fn clone_rows(rows: &Vec<Row>) -> (copy: Vec<Row>)
    ensures
        rows_view(copy@) == rows_view(rows@),
{
    let mut copy: Vec<Row> = Vec::new();
    let mut index: usize = 0;
    while index < rows.len()
        invariant
            index <= rows@.len(),
            copy@.len() == index,
            forall|k: int| 0 <= k < index ==> row_view(#[trigger] copy@[k]) == row_view(rows@[k]),
        decreases rows@.len() - index,
    {
        copy.push(rows[index].clone());
        index = index + 1;
    }
    assert(rows_view(copy@) =~= rows_view(rows@));
    copy
}

// ---------------------------------------------------------------------------
// Host relations
// ---------------------------------------------------------------------------

/// One host field declaration, without a graph-local field identity.
#[derive(Debug, PartialEq, Eq)]
pub struct InputField {
    pub name: String,
    pub descriptor: TypeDescriptor,
}

impl InputField {
    pub fn new(name: &str, descriptor: TypeDescriptor) -> (field: Self)
        ensures
            field.name@ == name@,
            field.descriptor == descriptor,
    {
        InputField { name: String::from_str(name), descriptor }
    }
}

/// A complete finite host relation supplied through one binding.
#[derive(Debug, PartialEq, Eq)]
pub struct InputRelation {
    pub schema: Vec<InputField>,
    pub rows: Vec<Row>,
}

impl InputRelation {
    pub fn new(schema: Vec<InputField>, rows: Vec<Row>) -> (relation: Self)
        ensures
            relation.schema == schema,
            relation.rows == rows,
    {
        InputRelation { schema, rows }
    }
}

#[derive(Debug, PartialEq, Eq)]
pub enum SnapshotError {
    DuplicateBinding(RelationBinding),
}

/// An immutable set of host relations, each under a distinct binding.
///
/// A relation is checked only when its input node is demanded, so a missing
/// or malformed relation that only an unselected dependency names stays
/// unobserved.
#[derive(Debug, PartialEq, Eq)]
pub struct Snapshot {
    relations: Vec<(RelationBinding, InputRelation)>,
}

/// The bindings of a snapshot, in insertion order.
pub open spec fn binding_views(relations: Seq<(RelationBinding, InputRelation)>) -> Seq<Seq<char>> {
    relations.map_values(|entry: (RelationBinding, InputRelation)| entry.0@)
}

impl Snapshot {
    pub closed spec fn entries(&self) -> Seq<(RelationBinding, InputRelation)> {
        self.relations@
    }

    /// Every snapshot holds each binding at most once.
    #[verifier::type_invariant]
    spec fn bindings_distinct(self) -> bool {
        forall|i: int, j: int|
            0 <= i < j < self.relations@.len() ==> #[trigger] self.relations@[i].0@
                != #[trigger] self.relations@[j].0@
    }

    /// No binding occurs twice.
    pub open spec fn wf(&self) -> bool {
        forall|i: int, j: int|
            0 <= i < j < self.entries().len() ==> #[trigger] self.entries()[i].0@
                != #[trigger] self.entries()[j].0@
    }

    /// Whether the snapshot holds a relation under `binding`.
    pub open spec fn binds(&self, binding: Seq<char>) -> bool {
        exists|i: int| 0 <= i < self.entries().len() && #[trigger] self.entries()[i].0@ == binding
    }

    pub fn new() -> (snapshot: Self)
        ensures
            snapshot.entries().len() == 0,
            snapshot.wf(),
    {
        Snapshot { relations: Vec::new() }
    }

    /// Adds a relation under a binding that the snapshot does not hold yet.
    pub fn insert(&mut self, binding: RelationBinding, relation: InputRelation) -> (r: Result<(), SnapshotError>)
        ensures
            final(self).wf(),
            r is Err <==> old(self).binds(binding@),
            r matches Err(SnapshotError::DuplicateBinding(b)) ==> b@ == binding@ && final(self).entries()
                == old(self).entries(),
            r is Ok ==> final(self).entries() == old(self).entries().push((binding, relation)),
    {
        proof {
            use_type_invariant(&*self);
        }
        let mut index: usize = 0;
        while index < self.relations.len()
            invariant
                index <= self.relations@.len(),
                self.relations == old(self).relations,
                forall|i: int| 0 <= i < index ==> (#[trigger] self.relations@[i]).0@ != binding@,
            decreases self.relations@.len() - index,
        {
            if self.relations[index].0.same(&binding) {
                assert(self.entries()[index as int].0@ == binding@);
                return Err(SnapshotError::DuplicateBinding(binding));
            }
            index = index + 1;
        }
        assert(!self.binds(binding@));
        let mut relations: Vec<(RelationBinding, InputRelation)> = Vec::new();
        std::mem::swap(&mut relations, &mut self.relations);
        relations.push((binding, relation));
        assert forall|i: int, j: int|
            0 <= i < j < relations@.len() implies #[trigger] relations@[i].0@
                != #[trigger] relations@[j].0@ by {
            if j < relations@.len() - 1 {
                assert(old(self).entries()[i] == relations@[i]);
                assert(old(self).entries()[j] == relations@[j]);
            }
        }
        self.relations = relations;
        Ok(())
    }

    /// A snapshot of the given relations, refused at the first binding that
    /// repeats an earlier one.
    #[verifier::rlimit(40)]
    pub fn from_relations(relations: Vec<(RelationBinding, InputRelation)>) -> (r: Result<Self, SnapshotError>)
        ensures
            r matches Ok(snapshot) ==> snapshot.wf() && binding_views(snapshot.entries()) == binding_views(
                relations@,
            ),
            r matches Ok(snapshot) ==> snapshot.entries() == relations@,
            r is Ok <==> forall|i: int, j: int|
                0 <= i < j < relations@.len() ==> #[trigger] relations@[i].0@ != #[trigger] relations@[j].0@,
            r matches Err(SnapshotError::DuplicateBinding(b)) ==> exists|j: int|
                0 <= j < relations@.len() && b@ == (#[trigger] relations@[j]).0@ && (exists|i: int|
                    0 <= i < j && relations@[i].0@ == relations@[j].0@) && forall|i: int, k: int|
                    0 <= i < k < j ==> #[trigger] relations@[i].0@ != #[trigger] relations@[k].0@,
    {
        let ghost all = relations@;
        let mut snapshot = Snapshot::new();
        let mut remaining = relations;
        let ghost mut taken: int = 0;
        while remaining.len() > 0
            invariant
                snapshot.wf(),
                0 <= taken <= all.len(),
                remaining@ == all.subrange(taken, all.len() as int),
                binding_views(snapshot.entries()) == binding_views(all.take(taken)),
                snapshot.entries() == all.take(taken),
                forall|i: int, j: int|
                    0 <= i < j < taken ==> #[trigger] all[i].0@ != #[trigger] all[j].0@,
            decreases remaining@.len(),
        {
            let entry = remaining.remove(0);
            let ghost expected = entry;
            assert(expected == all[taken]);
            let (binding, relation) = entry;
            let ghost entries = snapshot.entries();
            match snapshot.insert(binding, relation) {
                Err(e) => {
                    proof {
                        let i = choose|i: int| 0 <= i < entries.len() && #[trigger] entries[i].0@ == all[taken].0@;
                        assert(binding_views(entries)[i] == binding_views(all.take(taken))[i]);
                        assert(all[i].0@ == all[taken].0@);
                        assert(all[taken] == expected);
                    }
                    return Err(e);
                },
                Ok(()) => {},
            }
            proof {
                assert(forall|i: int| 0 <= i < entries.len() ==> #[trigger] entries[i].0@ != all[taken].0@);
                assert forall|i: int| 0 <= i < taken implies #[trigger] all[i].0@ != all[taken].0@ by {
                    assert(binding_views(entries)[i] == binding_views(all.take(taken))[i]);
                }
                assert(snapshot.entries() == entries.push(expected));
                assert(all.take(taken + 1) =~= all.take(taken).push(all[taken]));
                assert(binding_views(entries.push(expected)) =~= binding_views(entries).push(expected.0@));
                assert(binding_views(all.take(taken).push(all[taken])) =~= binding_views(
                    all.take(taken),
                ).push(all[taken].0@));
                assert(binding_views(snapshot.entries()) =~= binding_views(all.take(taken + 1)));
                assert(snapshot.entries() =~= all.take(taken + 1));
                taken = taken + 1;
            }
        }
        assert(all.take(taken) =~= all);
        Ok(snapshot)
    }

    pub fn get(&self, binding: &RelationBinding) -> (r: Option<&InputRelation>)
        ensures
            r is Some <==> self.binds(binding@),
            r matches Some(relation) ==> exists|i: int|
                0 <= i < self.entries().len() && self.entries()[i].0@ == binding@ && *relation
                    == #[trigger] self.entries()[i].1,
    {
        let mut index: usize = 0;
        while index < self.relations.len()
            invariant
                index <= self.relations@.len(),
                forall|i: int| 0 <= i < index ==> (#[trigger] self.relations@[i]).0@ != binding@,
            decreases self.relations@.len() - index,
        {
            if self.relations[index].0.same(binding) {
                assert(self.entries()[index as int].0@ == binding@);
                return Some(&self.relations[index].1);
            }
            index = index + 1;
        }
        None
    }

    pub fn len(&self) -> (n: usize)
        ensures
            n == self.entries().len(),
    {
        self.relations.len()
    }

    pub fn is_empty(&self) -> (r: bool)
        ensures
            r == (self.entries().len() == 0),
    {
        self.relations.len() == 0
    }
}

// ---------------------------------------------------------------------------
// Scalar semantics
// ---------------------------------------------------------------------------

#[derive(Clone, Copy, Debug, PartialEq, Eq, Structural)]
pub enum EvaluationErrorKind {
    IntegerOverflow,
    DivisionByZero,
    RemainderByZero,
    InvalidTextCast { target: ScalarType },
}

/// The order of two values of one scalar type.
#[derive(Clone, Copy, Debug, PartialEq, Eq, Structural)]
pub enum Comparison {
    Less,
    Equal,
    Greater,
}

/// What a scalar operation gives: a value, a runtime error, or nothing at
/// all where its operands have types that a valid graph never gives it.
pub enum Outcome {
    Produced(ScalarValue),
    Failed(EvaluationErrorKind),
    Mismatched,
}

pub open spec fn in_int64(value: int) -> bool {
    i64::MIN <= value <= i64::MAX
}

pub open spec fn magnitude(value: int) -> int {
    if value < 0 {
        -value
    } else {
        value
    }
}

/// Integer division rounding toward zero.
pub open spec fn truncated_quotient(a: int, b: int) -> int {
    if (a < 0) == (b < 0) {
        magnitude(a) / magnitude(b)
    } else {
        -(magnitude(a) / magnitude(b))
    }
}

/// The remainder of division rounding toward zero: it has the sign of `a`.
pub open spec fn truncated_remainder(a: int, b: int) -> int {
    if a < 0 {
        -(magnitude(a) % magnitude(b))
    } else {
        a % magnitude(b)
    }
}

/// Lexicographic order of texts by Unicode scalar value, which is the order
/// of their UTF-8 bytes.
pub open spec fn compare_text(a: Seq<char>, b: Seq<char>) -> Comparison
    decreases a.len(),
{
    if a.len() == 0 {
        if b.len() == 0 {
            Comparison::Equal
        } else {
            Comparison::Less
        }
    } else if b.len() == 0 {
        Comparison::Greater
    } else if (a[0] as int) < (b[0] as int) {
        Comparison::Less
    } else if (a[0] as int) > (b[0] as int) {
        Comparison::Greater
    } else {
        compare_text(a.drop_first(), b.drop_first())
    }
}

pub open spec fn compare_numbers(a: int, b: int) -> Comparison {
    if a < b {
        Comparison::Less
    } else if a == b {
        Comparison::Equal
    } else {
        Comparison::Greater
    }
}

/// The order of two non-null values of the same scalar type; FALSE comes
/// before TRUE.
pub open spec fn compare_values(a: ScalarValue, b: ScalarValue) -> Option<Comparison> {
    match (a, b) {
        (ScalarValue::Boolean(x), ScalarValue::Boolean(y)) => Some(
            if x == y {
                Comparison::Equal
            } else if !x {
                Comparison::Less
            } else {
                Comparison::Greater
            },
        ),
        (ScalarValue::Int64(x), ScalarValue::Int64(y)) => Some(compare_numbers(x, y)),
        (ScalarValue::Text(x), ScalarValue::Text(y)) => Some(compare_text(x, y)),
        _ => None,
    }
}

proof fn lemma_compare_text_skip(a: Seq<char>, b: Seq<char>, i: int)
    requires
        0 <= i <= a.len(),
        i <= b.len(),
        a.take(i) == b.take(i),
    ensures
        compare_text(a, b) == compare_text(a.skip(i), b.skip(i)),
    decreases i,
{
    if i > 0 {
        assert(a[0] == a.take(i)[0]);
        assert(b[0] == b.take(i)[0]);
        assert(a.drop_first().take(i - 1) =~= a.take(i).drop_first());
        assert(b.drop_first().take(i - 1) =~= b.take(i).drop_first());
        lemma_compare_text_skip(a.drop_first(), b.drop_first(), i - 1);
        assert(a.drop_first().skip(i - 1) =~= a.skip(i));
        assert(b.drop_first().skip(i - 1) =~= b.skip(i));
    } else {
        assert(a.skip(0) =~= a);
        assert(b.skip(0) =~= b);
    }
}

fn compare_texts(left: &String, right: &String) -> (r: Comparison)
    ensures
        r == compare_text(left@, right@),
{
    let a = left.as_str();
    let b = right.as_str();
    let a_len = a.unicode_len();
    let b_len = b.unicode_len();
    let mut index: usize = 0;
    while index < a_len && index < b_len
        invariant
            a_len == left@.len(),
            b_len == right@.len(),
            index <= a_len,
            index <= b_len,
            left@.take(index as int) == right@.take(index as int),
        decreases a_len - index,
    {
        let x = a.get_char(index);
        let y = b.get_char(index);
        if (x as u32) < (y as u32) || (x as u32) > (y as u32) {
            proof {
                lemma_compare_text_skip(left@, right@, index as int);
                assert(left@.skip(index as int)[0] == x);
                assert(right@.skip(index as int)[0] == y);
            }
            if (x as u32) < (y as u32) {
                return Comparison::Less;
            } else {
                return Comparison::Greater;
            }
        }
        assert(left@.take(index + 1) =~= left@.take(index as int).push(x));
        assert(right@.take(index + 1) =~= right@.take(index as int).push(y));
        index = index + 1;
    }
    proof {
        lemma_compare_text_skip(left@, right@, index as int);
    }
    if index < a_len {
        Comparison::Greater
    } else if index < b_len {
        Comparison::Less
    } else {
        Comparison::Equal
    }
}

/// Compares two non-null values of the same scalar type.
pub fn compare_non_null(left: &Value, right: &Value) -> (r: Option<Comparison>)
    ensures
        r == compare_values(left@, right@),
{
    match (left, right) {
        (Value::Boolean(x), Value::Boolean(y)) => Some(
            if *x == *y {
                Comparison::Equal
            } else if !*x {
                Comparison::Less
            } else {
                Comparison::Greater
            },
        ),
        (Value::Int64(x), Value::Int64(y)) => Some(
            if *x < *y {
                Comparison::Less
            } else if *x == *y {
                Comparison::Equal
            } else {
                Comparison::Greater
            },
        ),
        (Value::Text(x), Value::Text(y)) => Some(compare_texts(x, y)),
        _ => None,
    }
}

/// Equality under SQL rules: unknown where either value is null.
pub open spec fn ordinary_equality(a: ScalarValue, b: ScalarValue) -> Option<bool> {
    if a is Null || b is Null {
        None
    } else {
        match compare_values(a, b) {
            Some(c) => Some(c is Equal),
            None => Some(false),
        }
    }
}

fn ordinary_equal(left: &Value, right: &Value) -> (r: Option<bool>)
    ensures
        r == ordinary_equality(left@, right@),
{
    if left.is_null() || right.is_null() {
        None
    } else {
        match compare_non_null(left, right) {
            Some(c) => Some(c == Comparison::Equal),
            None => Some(false),
        }
    }
}

/// The result of a strict binary operator: null where either operand is
/// null, checked INT64 arithmetic, text concatenation, and comparisons.
pub open spec fn strict_binary(operation: BinaryOperation, a: ScalarValue, b: ScalarValue) -> Outcome {
    if a is Null || b is Null {
        Outcome::Produced(ScalarValue::Null)
    } else {
        match (a, b) {
            (ScalarValue::Int64(x), ScalarValue::Int64(y)) => match operation {
                BinaryOperation::Add => if in_int64(x + y) {
                    Outcome::Produced(ScalarValue::Int64(x + y))
                } else {
                    Outcome::Failed(EvaluationErrorKind::IntegerOverflow)
                },
                BinaryOperation::Subtract => if in_int64(x - y) {
                    Outcome::Produced(ScalarValue::Int64(x - y))
                } else {
                    Outcome::Failed(EvaluationErrorKind::IntegerOverflow)
                },
                BinaryOperation::Multiply => if in_int64(x * y) {
                    Outcome::Produced(ScalarValue::Int64(x * y))
                } else {
                    Outcome::Failed(EvaluationErrorKind::IntegerOverflow)
                },
                BinaryOperation::Divide => if y == 0 {
                    Outcome::Failed(EvaluationErrorKind::DivisionByZero)
                } else if in_int64(truncated_quotient(x, y)) {
                    Outcome::Produced(ScalarValue::Int64(truncated_quotient(x, y)))
                } else {
                    Outcome::Failed(EvaluationErrorKind::IntegerOverflow)
                },
                BinaryOperation::Remainder => if y == 0 {
                    Outcome::Failed(EvaluationErrorKind::RemainderByZero)
                } else {
                    Outcome::Produced(ScalarValue::Int64(truncated_remainder(x, y)))
                },
                _ => comparison_outcome(operation, a, b),
            },
            (ScalarValue::Text(x), ScalarValue::Text(y)) => match operation {
                BinaryOperation::Concatenate => Outcome::Produced(ScalarValue::Text(x + y)),
                _ => comparison_outcome(operation, a, b),
            },
            _ => comparison_outcome(operation, a, b),
        }
    }
}

pub open spec fn comparison_outcome(operation: BinaryOperation, a: ScalarValue, b: ScalarValue) -> Outcome {
    match compare_values(a, b) {
        Some(c) => match operation {
            BinaryOperation::Equal => Outcome::Produced(ScalarValue::Boolean(c is Equal)),
            BinaryOperation::NotEqual => Outcome::Produced(ScalarValue::Boolean(!(c is Equal))),
            BinaryOperation::Less => Outcome::Produced(ScalarValue::Boolean(c is Less)),
            BinaryOperation::LessOrEqual => Outcome::Produced(ScalarValue::Boolean(!(c is Greater))),
            BinaryOperation::Greater => Outcome::Produced(ScalarValue::Boolean(c is Greater)),
            BinaryOperation::GreaterOrEqual => Outcome::Produced(ScalarValue::Boolean(!(c is Less))),
            _ => Outcome::Mismatched,
        },
        None => Outcome::Mismatched,
    }
}

/// What a computed value, runtime error, or mismatch is as an outcome.
pub open spec fn outcome_of(r: Result<Value, Option<EvaluationErrorKind>>) -> Outcome {
    match r {
        Ok(value) => Outcome::Produced(value@),
        Err(Some(kind)) => Outcome::Failed(kind),
        Err(None) => Outcome::Mismatched,
    }
}

/// Whether `p` is the first position at which `schema` holds a field named
/// by `field`.
pub open spec fn first_field_position(schema: Seq<Field>, field: Seq<char>, p: int) -> bool {
    &&& 0 <= p < schema.len()
    &&& schema[p].id@ == field
    &&& forall|j: int| 0 <= j < p ==> (#[trigger] schema[j]).id@ != field
}

/// What reading `field` from a row with `values` under `schema` gives: the
/// value at the field's first position, or a mismatch where the schema does
/// not name the field or the row is too short.
pub open spec fn field_outcome(schema: Seq<Field>, values: Seq<ScalarValue>, field: Seq<char>) -> Outcome {
    if exists|p: int| #[trigger] first_field_position(schema, field, p) && p < values.len() {
        Outcome::Produced(values[choose|p: int| #[trigger] first_field_position(schema, field, p) && p < values.len()])
    } else {
        Outcome::Mismatched
    }
}

/// The value of a literal.
pub open spec fn literal_scalar(literal: LiteralValue) -> ScalarValue {
    match literal {
        LiteralValue::Boolean(b) => ScalarValue::Boolean(b),
        LiteralValue::Int64(n) => ScalarValue::Int64(n as int),
        LiteralValue::Text(t) => ScalarValue::Text(t@),
        LiteralValue::Null => ScalarValue::Null,
    }
}

/// The outcome of a scalar expression over one row whose fields are
/// described by `schema` and hold `values`.
///
/// AND and OR decide on their left operand where it decides, with the
/// three-valued truth tables otherwise; CASE takes the result of the first
/// arm whose condition is TRUE, else its fallback; IN over a list reads the
/// value, then each candidate in turn. The first failure met, in that order,
/// is the outcome. `None` where the evaluation reaches a subquery, whose
/// rows depend on the whole graph.
pub open spec fn expression_outcome(expression: Expression, schema: Seq<Field>, values: Seq<ScalarValue>) -> Option<
    Outcome,
>
    decreases expression,
{
    match expression.kind {
        ExpressionKind::Literal(literal) => Some(Outcome::Produced(literal_scalar(literal))),
        ExpressionKind::Field(field) => Some(field_outcome(schema, values, field@)),
        ExpressionKind::Unary { operation, operand } => match expression_outcome(*operand, schema, values) {
            Some(Outcome::Produced(v)) => Some(unary_outcome(operation, v)),
            other => other,
        },
        ExpressionKind::Binary { operation, left, right } => match expression_outcome(*left, schema, values) {
            Some(Outcome::Produced(l)) => {
                let r = expression_outcome(*right, schema, values);
                match operation {
                    BinaryOperation::And => match l {
                        ScalarValue::Boolean(false) => Some(Outcome::Produced(ScalarValue::Boolean(false))),
                        ScalarValue::Boolean(true) => r,
                        ScalarValue::Null => match r {
                            Some(Outcome::Produced(ScalarValue::Boolean(false))) => Some(
                                Outcome::Produced(ScalarValue::Boolean(false)),
                            ),
                            Some(Outcome::Produced(ScalarValue::Boolean(true))) => Some(Outcome::Produced(ScalarValue::Null)),
                            Some(Outcome::Produced(ScalarValue::Null)) => Some(Outcome::Produced(ScalarValue::Null)),
                            Some(Outcome::Produced(_)) => Some(Outcome::Mismatched),
                            other => other,
                        },
                        _ => Some(Outcome::Mismatched),
                    },
                    BinaryOperation::Or => match l {
                        ScalarValue::Boolean(true) => Some(Outcome::Produced(ScalarValue::Boolean(true))),
                        ScalarValue::Boolean(false) => r,
                        ScalarValue::Null => match r {
                            Some(Outcome::Produced(ScalarValue::Boolean(true))) => Some(
                                Outcome::Produced(ScalarValue::Boolean(true)),
                            ),
                            Some(Outcome::Produced(ScalarValue::Boolean(false))) => Some(Outcome::Produced(ScalarValue::Null)),
                            Some(Outcome::Produced(ScalarValue::Null)) => Some(Outcome::Produced(ScalarValue::Null)),
                            Some(Outcome::Produced(_)) => Some(Outcome::Mismatched),
                            other => other,
                        },
                        _ => Some(Outcome::Mismatched),
                    },
                    _ => match r {
                        Some(Outcome::Produced(rv)) => Some(strict_binary(operation, l, rv)),
                        other => other,
                    },
                }
            },
            other => other,
        },
        ExpressionKind::IsNull { operand, negated } => match expression_outcome(*operand, schema, values) {
            Some(Outcome::Produced(v)) => Some(
                Outcome::Produced(ScalarValue::Boolean(if negated { !(v is Null) } else { v is Null })),
            ),
            other => other,
        },
        ExpressionKind::Case { arms, fallback } => match case_outcome(arms@, schema, values) {
            Some(decided) => decided,
            None => expression_outcome(*fallback, schema, values),
        },
        ExpressionKind::Cast { operand, target } => match expression_outcome(*operand, schema, values) {
            Some(Outcome::Produced(v)) => Some(cast_outcome(v, target)),
            other => other,
        },
        ExpressionKind::InList { value, candidates } => match expression_outcome(*value, schema, values) {
            Some(Outcome::Produced(v)) => match list_outcome(candidates@, schema, values) {
                Some(Ok(vs)) => Some(Outcome::Produced(membership(v, vs))),
                Some(Err(failure)) => Some(failure),
                None => None,
            },
            other => other,
        },
        ExpressionKind::Exists { .. } => None,
        ExpressionKind::InQuery { .. } => None,
    }
}

/// Whether ordering keys were read from rows: each row's key holds the
/// value of each ordering expression over that row, wherever its evaluation
/// reaches no subquery.
#[verifier::opaque]
pub open spec fn keys_follow(
    keys: Seq<Seq<ScalarValue>>,
    items: Seq<OrderingItem>,
    schema: Seq<Field>,
    rows: Seq<Row>,
) -> bool {
    &&& keys.len() == rows.len()
    &&& forall|i: int| 0 <= i < keys.len() ==> (#[trigger] keys[i]).len() == items.len()
    &&& forall|i: int, j: int|
        #![trigger keys[i][j]]
        0 <= i < keys.len() && 0 <= j < items.len() ==> (expression_outcome(items[j].expression, schema, row_view(rows[i]))
            is Some ==> expression_outcome(items[j].expression, schema, row_view(rows[i])) == Some(
            Outcome::Produced(keys[i][j]),
        ))
}

/// Whether `output` is `input` sorted by its ordering keys: a permutation
/// of the input rows whose keys never descend.
#[verifier::opaque]
pub open spec fn sorted_from(
    output: Seq<Seq<ScalarValue>>,
    input: Seq<Row>,
    items: Seq<OrderingItem>,
    schema: Seq<Field>,
) -> bool {
    exists|keys: Seq<Seq<ScalarValue>>, order: Seq<usize>|
        #[trigger] sorted_positions(order, keys, items) && keys_follow(keys, items, schema, input) && output.len()
            == order.len() && forall|i: int| 0 <= i < output.len() ==> #[trigger] output[i] == row_view(input[order[i] as int])
}

/// The rows of an Order node are the rows of its input node sorted by the
/// node's ordering keys: some rows, read under the input node's schema,
/// from which they are sorted.
#[verifier::opaque]
pub open spec fn ordered_from_input(graph: Graph, input: Seq<char>, items: Seq<OrderingItem>, output: Seq<Seq<ScalarValue>>) -> bool {
    exists|k: int, source: Seq<Row>|
        0 <= k < graph.nodes@.len() && (#[trigger] graph.nodes@[k]).id@ == input && #[trigger] sorted_from(
            output,
            source,
            items,
            graph.nodes@[k].output_schema@,
        )
}

proof fn lemma_ordered_from_input(
    graph: Graph,
    input: Seq<char>,
    items: Seq<OrderingItem>,
    output: Seq<Seq<ScalarValue>>,
    k: int,
    source: Seq<Row>,
)
    requires
        0 <= k < graph.nodes@.len(),
        graph.nodes@[k].id@ == input,
        sorted_from(output, source, items, graph.nodes@[k].output_schema@),
    ensures
        ordered_from_input(graph, input, items, output),
{
    reveal(ordered_from_input);
}

/// Rows placed in the order of sorted positions are their input sorted.
proof fn lemma_sorted_output(
    output: Seq<Row>,
    input: Seq<Row>,
    keys: Seq<Seq<ScalarValue>>,
    order: Seq<usize>,
    items: Seq<OrderingItem>,
    schema: Seq<Field>,
)
    requires
        sorted_positions(order, keys, items),
        keys_follow(keys, items, schema, input),
        output.len() == order.len(),
        forall|i: int| 0 <= i < output.len() ==> row_view(#[trigger] output[i]) == row_view(input[order[i] as int]),
    ensures
        sorted_from(rows_view(output), input, items, schema),
{
    reveal(sorted_from);
    let out = rows_view(output);
    assert forall|i: int| 0 <= i < out.len() implies #[trigger] out[i] == row_view(input[order[i] as int]) by {
        assert(out[i] == row_view(output[i]));
    }
}

/// Division rounds toward zero: the quotient times the divisor, plus the
/// remainder, gives the dividend back; the remainder is smaller than the
/// divisor in magnitude and has the dividend's sign.
pub proof fn lemma_truncated_division(x: int, y: int)
    requires
        y != 0,
    ensures
        truncated_quotient(x, y) * y + truncated_remainder(x, y) == x,
        magnitude(truncated_remainder(x, y)) < magnitude(y),
        truncated_remainder(x, y) == 0 || ((truncated_remainder(x, y) < 0) == (x < 0)),
{
    let a = magnitude(x);
    let b = magnitude(y);
    let q = a / b;
    let r = a % b;
    assert(a == q * b + r && 0 <= r < b) by (nonlinear_arith)
        requires
            b > 0,
            q == a / b,
            r == a % b,
    ;
    if x < 0 {
        if y < 0 {
            assert(q * y == -(q * b)) by (nonlinear_arith)
                requires
                    y == -b,
            ;
        } else {
            assert((-q) * y == -(q * b)) by (nonlinear_arith)
                requires
                    y == b,
            ;
        }
    } else {
        if y < 0 {
            assert((-q) * y == q * b) by (nonlinear_arith)
                requires
                    y == -b,
            ;
        } else {
            assert(q * y == q * b) by (nonlinear_arith)
                requires
                    y == b,
            ;
        }
    }
}

/// Integer arithmetic on INT64 values: a sum, difference or product is the
/// exact one where it fits INT64 and an overflow otherwise; division and
/// remainder by zero fail, and otherwise round toward zero.
pub proof fn lemma_integer_arithmetic(x: int, y: int)
    ensures
        strict_binary(BinaryOperation::Add, ScalarValue::Int64(x), ScalarValue::Int64(y)) == if in_int64(x + y) {
            Outcome::Produced(ScalarValue::Int64(x + y))
        } else {
            Outcome::Failed(EvaluationErrorKind::IntegerOverflow)
        },
        strict_binary(BinaryOperation::Subtract, ScalarValue::Int64(x), ScalarValue::Int64(y)) == if in_int64(
            x - y,
        ) {
            Outcome::Produced(ScalarValue::Int64(x - y))
        } else {
            Outcome::Failed(EvaluationErrorKind::IntegerOverflow)
        },
        strict_binary(BinaryOperation::Multiply, ScalarValue::Int64(x), ScalarValue::Int64(y)) == if in_int64(
            x * y,
        ) {
            Outcome::Produced(ScalarValue::Int64(x * y))
        } else {
            Outcome::Failed(EvaluationErrorKind::IntegerOverflow)
        },
        y == 0 ==> strict_binary(BinaryOperation::Divide, ScalarValue::Int64(x), ScalarValue::Int64(y))
            == Outcome::Failed(EvaluationErrorKind::DivisionByZero),
        y == 0 ==> strict_binary(BinaryOperation::Remainder, ScalarValue::Int64(x), ScalarValue::Int64(y))
            == Outcome::Failed(EvaluationErrorKind::RemainderByZero),
        y != 0 ==> (strict_binary(BinaryOperation::Divide, ScalarValue::Int64(x), ScalarValue::Int64(y)) matches Outcome::Produced(
            ScalarValue::Int64(q),
        ) ==> magnitude(x - q * y) < magnitude(y) && (x - q * y == 0 || (x - q * y < 0) == (x < 0))),
        y != 0 ==> (strict_binary(BinaryOperation::Remainder, ScalarValue::Int64(x), ScalarValue::Int64(y)) matches Outcome::Produced(
            ScalarValue::Int64(r),
        ) ==> (x - r) % magnitude(y) == 0 && magnitude(r) < magnitude(y) && (r == 0 || (r < 0) == (x < 0))),
        y != 0 ==> strict_binary(BinaryOperation::Remainder, ScalarValue::Int64(x), ScalarValue::Int64(y)) is Produced,
{
    if y != 0 {
        lemma_truncated_division(x, y);
        let q = truncated_quotient(x, y);
        let r = truncated_remainder(x, y);
        assert(x - q * y == r);
        let b = magnitude(y);
        assert((q * y) % b == 0) by (nonlinear_arith)
            requires
                b > 0,
                y == b || y == -b,
        {
            if y == b {
                assert((q * b) % b == 0) by (nonlinear_arith)
                    requires
                        b > 0,
                ;
            } else {
                assert(q * y == (-q) * b) by (nonlinear_arith)
                    requires
                        y == -b,
                ;
                assert(((-q) * b) % b == 0) by (nonlinear_arith)
                    requires
                        b > 0,
                ;
            }
        }
        assert(x - r == q * y);
    }
}

/// A strict operator or cast meets NULL with NULL: where an operand is
/// NULL, the result is NULL.
pub proof fn lemma_null_propagates(operation: BinaryOperation, a: ScalarValue, b: ScalarValue, unary: UnaryOperation, target: ScalarType)
    ensures
        a is Null || b is Null ==> strict_binary(operation, a, b) == Outcome::Produced(ScalarValue::Null),
        unary_outcome(unary, ScalarValue::Null) == Outcome::Produced(ScalarValue::Null),
        cast_outcome(ScalarValue::Null, target) == Outcome::Produced(ScalarValue::Null),
{
}

/// Comparisons of INT64 values follow their numeric order, and of
/// booleans put FALSE before TRUE.
pub proof fn lemma_integer_comparisons(x: int, y: int, p: bool, q: bool)
    ensures
        strict_binary(BinaryOperation::Equal, ScalarValue::Int64(x), ScalarValue::Int64(y)) == Outcome::Produced(
            ScalarValue::Boolean(x == y),
        ),
        strict_binary(BinaryOperation::NotEqual, ScalarValue::Int64(x), ScalarValue::Int64(y)) == Outcome::Produced(
            ScalarValue::Boolean(x != y),
        ),
        strict_binary(BinaryOperation::Less, ScalarValue::Int64(x), ScalarValue::Int64(y)) == Outcome::Produced(
            ScalarValue::Boolean(x < y),
        ),
        strict_binary(BinaryOperation::LessOrEqual, ScalarValue::Int64(x), ScalarValue::Int64(y))
            == Outcome::Produced(ScalarValue::Boolean(x <= y)),
        strict_binary(BinaryOperation::Greater, ScalarValue::Int64(x), ScalarValue::Int64(y)) == Outcome::Produced(
            ScalarValue::Boolean(x > y),
        ),
        strict_binary(BinaryOperation::GreaterOrEqual, ScalarValue::Int64(x), ScalarValue::Int64(y))
            == Outcome::Produced(ScalarValue::Boolean(x >= y)),
        strict_binary(BinaryOperation::Less, ScalarValue::Boolean(p), ScalarValue::Boolean(q)) == Outcome::Produced(
            ScalarValue::Boolean(!p && q),
        ),
        strict_binary(BinaryOperation::Equal, ScalarValue::Boolean(p), ScalarValue::Boolean(q)) == Outcome::Produced(
            ScalarValue::Boolean(p == q),
        ),
        unary_outcome(UnaryOperation::Not, ScalarValue::Boolean(p)) == Outcome::Produced(ScalarValue::Boolean(!p)),
        in_int64(x) ==> unary_outcome(UnaryOperation::Negative, ScalarValue::Int64(x)) == if x == i64::MIN {
            Outcome::Failed(EvaluationErrorKind::IntegerOverflow)
        } else {
            Outcome::Produced(ScalarValue::Int64(-x))
        },
{
}

/// AND and OR follow three-valued logic: FALSE AND anything is FALSE and
/// TRUE OR anything is TRUE, without the other operand; TRUE AND b and
/// FALSE OR b are b; with a NULL operand, FALSE decides an AND and TRUE an
/// OR, and otherwise the result is NULL.
pub proof fn lemma_three_valued_logic(expression: Expression, schema: Seq<Field>, values: Seq<ScalarValue>)
    requires
        expression.kind matches ExpressionKind::Binary { operation, .. } && (operation == BinaryOperation::And
            || operation == BinaryOperation::Or),
    ensures
        ({
            let operation = expression.kind->Binary_operation;
            let l = expression_outcome(*expression.kind->Binary_left, schema, values);
            let r = expression_outcome(*expression.kind->Binary_right, schema, values);
            let o = expression_outcome(expression, schema, values);
            let conjunction = operation == BinaryOperation::And;
            &&& l == Some(Outcome::Produced(ScalarValue::Boolean(!conjunction))) ==> o == Some(
                Outcome::Produced(ScalarValue::Boolean(!conjunction)),
            )
            &&& l == Some(Outcome::Produced(ScalarValue::Boolean(conjunction))) ==> o == r
            &&& l == Some(Outcome::Produced(ScalarValue::Null)) && r == Some(
                Outcome::Produced(ScalarValue::Boolean(!conjunction)),
            ) ==> o == Some(Outcome::Produced(ScalarValue::Boolean(!conjunction)))
            &&& l == Some(Outcome::Produced(ScalarValue::Null)) && (r == Some(
                Outcome::Produced(ScalarValue::Boolean(conjunction)),
            ) || r == Some(Outcome::Produced(ScalarValue::Null))) ==> o == Some(Outcome::Produced(ScalarValue::Null))
            &&& (l matches Some(Outcome::Failed(_)) || l == Some(Outcome::Mismatched)) ==> o == l
        }),
{
}

/// Whether a filter predicate holds of a row: it evaluates to TRUE over
/// the row, wherever its evaluation reaches no subquery.
pub open spec fn predicate_holds(predicate: Expression, schema: Seq<Field>, values: Seq<ScalarValue>) -> bool {
    expression_outcome(predicate, schema, values) matches Some(o) ==> o == Outcome::Produced(ScalarValue::Boolean(true))
}

/// The first value of each row.
pub open spec fn first_values(rows: Seq<Seq<ScalarValue>>) -> Seq<ScalarValue> {
    rows.map_values(|row: Seq<ScalarValue>| row[0])
}

/// Whether an evaluation result at `node` is what `outcome` says: its value,
/// an evaluation error at `node` of the failure's kind, or, for a mismatch,
/// an invalid-node error.
pub open spec fn settles_as(r: Result<Value, EvaluateError>, outcome: Outcome, node: Seq<char>) -> bool {
    match outcome {
        Outcome::Produced(v) => r matches Ok(x) && x@ == v,
        Outcome::Failed(kind) => r matches Err(EvaluateError::Evaluation(e)) && e.node@ == node && e.kind == kind,
        Outcome::Mismatched => r matches Err(EvaluateError::Validation(e)) && e.kind is InvalidNode,
    }
}

/// The arms of a CASE taken in order: `Some` of the outcome where an arm's
/// condition is TRUE or fails, `None` where no arm decides.
pub open spec fn case_outcome(arms: Seq<CaseArm>, schema: Seq<Field>, values: Seq<ScalarValue>) -> Option<
    Option<Outcome>,
>
    decreases arms,
{
    if arms.len() == 0 {
        None
    } else {
        match expression_outcome(arms[0].when, schema, values) {
            Some(Outcome::Produced(ScalarValue::Boolean(true))) => Some(expression_outcome(arms[0].result, schema, values)),
            Some(Outcome::Produced(_)) => case_outcome(arms.drop_first(), schema, values),
            other => Some(other),
        }
    }
}

/// The values of a list of expressions taken in order, or the first
/// failure among them.
pub open spec fn list_outcome(expressions: Seq<Expression>, schema: Seq<Field>, values: Seq<ScalarValue>) -> Option<
    Result<Seq<ScalarValue>, Outcome>,
>
    decreases expressions,
{
    if expressions.len() == 0 {
        Some(Ok(Seq::empty()))
    } else {
        match expression_outcome(expressions[0], schema, values) {
            Some(Outcome::Produced(v)) => match list_outcome(expressions.drop_first(), schema, values) {
                Some(Ok(rest)) => Some(Ok(seq![v] + rest)),
                other => other,
            },
            Some(failure) => Some(Err(failure)),
            None => None,
        }
    }
}

fn comparison_value(operation: BinaryOperation, left: &Value, right: &Value) -> (r: Result<Value, Option<EvaluationErrorKind>>)
    ensures
        outcome_of(r) == comparison_outcome(operation, left@, right@),
{
    match compare_non_null(left, right) {
        Some(c) => match operation {
            BinaryOperation::Equal => Ok(Value::Boolean(c == Comparison::Equal)),
            BinaryOperation::NotEqual => Ok(Value::Boolean(c != Comparison::Equal)),
            BinaryOperation::Less => Ok(Value::Boolean(c == Comparison::Less)),
            BinaryOperation::LessOrEqual => Ok(Value::Boolean(c != Comparison::Greater)),
            BinaryOperation::Greater => Ok(Value::Boolean(c == Comparison::Greater)),
            BinaryOperation::GreaterOrEqual => Ok(Value::Boolean(c != Comparison::Less)),
            _ => Err(None),
        },
        None => Err(None),
    }
}

/// Applies a strict binary operator to two evaluated operands.
#[verifier::spinoff_prover]
#[verifier::rlimit(40)]
pub fn apply_strict_binary(operation: BinaryOperation, left: &Value, right: &Value) -> (r: Result<
    Value,
    Option<EvaluationErrorKind>,
>)
    ensures
        outcome_of(r) == strict_binary(operation, left@, right@),
{
    if left.is_null() || right.is_null() {
        return Ok(Value::Null);
    }
    match (left, right) {
        (Value::Int64(x), Value::Int64(y)) => {
            let x = *x;
            let y = *y;
            match operation {
                BinaryOperation::Add => match x.checked_add(y) {
                    Some(v) => Ok(Value::Int64(v)),
                    None => Err(Some(EvaluationErrorKind::IntegerOverflow)),
                },
                BinaryOperation::Subtract => match x.checked_sub(y) {
                    Some(v) => Ok(Value::Int64(v)),
                    None => Err(Some(EvaluationErrorKind::IntegerOverflow)),
                },
                BinaryOperation::Multiply => match x.checked_mul(y) {
                    Some(v) => Ok(Value::Int64(v)),
                    None => Err(Some(EvaluationErrorKind::IntegerOverflow)),
                },
                BinaryOperation::Divide => {
                    if y == 0 {
                        return Err(Some(EvaluationErrorKind::DivisionByZero));
                    }
                    match x.checked_div(y) {
                        Some(v) => Ok(Value::Int64(v)),
                        None => Err(Some(EvaluationErrorKind::IntegerOverflow)),
                    }
                },
                BinaryOperation::Remainder => {
                    if y == 0 {
                        return Err(Some(EvaluationErrorKind::RemainderByZero));
                    }
                    if y == -1 {
                        return Ok(Value::Int64(0));
                    }
                    match x.checked_rem(y) {
                        Some(v) => Ok(Value::Int64(v)),
                        None => Ok(Value::Int64(0)),
                    }
                },
                _ => comparison_value(operation, left, right),
            }
        },
        (Value::Text(x), Value::Text(y)) => match operation {
            BinaryOperation::Concatenate => {
                let mut text = x.clone();
                text.append(y.as_str());
                Ok(Value::Text(text))
            },
            _ => comparison_value(operation, left, right),
        },
        _ => comparison_value(operation, left, right),
    }
}

/// The unary operators: null stays null, negation is checked.
pub open spec fn unary_outcome(operation: UnaryOperation, a: ScalarValue) -> Outcome {
    match (operation, a) {
        (_, ScalarValue::Null) => Outcome::Produced(ScalarValue::Null),
        (UnaryOperation::Positive, ScalarValue::Int64(x)) => Outcome::Produced(ScalarValue::Int64(x)),
        (UnaryOperation::Negative, ScalarValue::Int64(x)) => if in_int64(-x) {
            Outcome::Produced(ScalarValue::Int64(-x))
        } else {
            Outcome::Failed(EvaluationErrorKind::IntegerOverflow)
        },
        (UnaryOperation::Not, ScalarValue::Boolean(b)) => Outcome::Produced(ScalarValue::Boolean(!b)),
        _ => Outcome::Mismatched,
    }
}

pub fn apply_unary(operation: UnaryOperation, value: Value) -> (r: Result<Value, Option<EvaluationErrorKind>>)
    ensures
        outcome_of(r) == unary_outcome(operation, value@),
{
    match (operation, value) {
        (_, Value::Null) => Ok(Value::Null),
        (UnaryOperation::Positive, Value::Int64(x)) => Ok(Value::Int64(x)),
        (UnaryOperation::Negative, Value::Int64(x)) => {
            if x == i64::MIN {
                Err(Some(EvaluationErrorKind::IntegerOverflow))
            } else {
                Ok(Value::Int64(-x))
            }
        },
        (UnaryOperation::Not, Value::Boolean(b)) => Ok(Value::Boolean(!b)),
        _ => Err(None),
    }
}

pub open spec fn ascii_lower(c: char) -> char {
    if 'A' <= c && c <= 'Z' {
        ((c as int) + 32) as char
    } else {
        c
    }
}

/// The texts are equal when ASCII letters are compared without case.
pub open spec fn equal_ignoring_ascii_case(a: Seq<char>, b: Seq<char>) -> bool {
    a.len() == b.len() && forall|i: int| 0 <= i < a.len() ==> ascii_lower(#[trigger] a[i]) == ascii_lower(b[i])
}

fn lower_char(c: char) -> (l: char)
    ensures
        l == ascii_lower(c),
{
    if 'A' <= c && c <= 'Z' {
        let code: u32 = (c as u32) + 32;
        assert(code == (c as int) + 32);
        match char_from_u32(code) {
            Some(lower) => {
                assert(lower as int == (c as int) + 32);
                assert(lower == ((c as int) + 32) as char);
                lower
            },
            None => {
                assert(is_scalar_value(code as int));
                c
            },
        }
    } else {
        c
    }
}

fn equals_ignoring_ascii_case(text: &String, word: &str) -> (r: bool)
    ensures
        r == equal_ignoring_ascii_case(text@, word@),
{
    let a = text.as_str();
    let a_len = a.unicode_len();
    let b_len = word.unicode_len();
    if a_len != b_len {
        return false;
    }
    let mut index: usize = 0;
    while index < a_len
        invariant
            a_len == text@.len(),
            b_len == word@.len(),
            a_len == b_len,
            index <= a_len,
            forall|i: int| 0 <= i < index ==> ascii_lower(#[trigger] text@[i]) == ascii_lower(word@[i]),
        decreases a_len - index,
    {
        if lower_char(a.get_char(index)) != lower_char(word.get_char(index)) {
            return false;
        }
        index = index + 1;
    }
    true
}

/// The casts between scalar types; text is read strictly.
pub open spec fn cast_outcome(a: ScalarValue, target: ScalarType) -> Outcome {
    match (a, target) {
        (ScalarValue::Null, _) => Outcome::Produced(ScalarValue::Null),
        (ScalarValue::Boolean(b), ScalarType::Boolean) => Outcome::Produced(ScalarValue::Boolean(b)),
        (ScalarValue::Int64(x), ScalarType::Int64) => Outcome::Produced(ScalarValue::Int64(x)),
        (ScalarValue::Text(t), ScalarType::Text) => Outcome::Produced(ScalarValue::Text(t)),
        (ScalarValue::Int64(x), ScalarType::Text) => Outcome::Produced(
            ScalarValue::Text(crate::interchange::int64_spelling(x)),
        ),
        (ScalarValue::Boolean(b), ScalarType::Text) => Outcome::Produced(
            ScalarValue::Text(
                if b {
                    "TRUE"@
                } else {
                    "FALSE"@
                },
            ),
        ),
        (ScalarValue::Text(t), ScalarType::Int64) => if spells_int64(encode_utf8(t)) {
            Outcome::Produced(ScalarValue::Int64(int64_value(encode_utf8(t))))
        } else {
            Outcome::Failed(EvaluationErrorKind::InvalidTextCast { target: ScalarType::Int64 })
        },
        (ScalarValue::Text(t), ScalarType::Boolean) => if equal_ignoring_ascii_case(t, "TRUE"@) {
            Outcome::Produced(ScalarValue::Boolean(true))
        } else if equal_ignoring_ascii_case(t, "FALSE"@) {
            Outcome::Produced(ScalarValue::Boolean(false))
        } else {
            Outcome::Failed(EvaluationErrorKind::InvalidTextCast { target: ScalarType::Boolean })
        },
        _ => Outcome::Mismatched,
    }
}

pub fn apply_cast(value: Value, target: ScalarType) -> (r: Result<Value, Option<EvaluationErrorKind>>)
    ensures
        outcome_of(r) == cast_outcome(value@, target),
{
    match (value, target) {
        (Value::Null, _) => Ok(Value::Null),
        (Value::Boolean(b), ScalarType::Boolean) => Ok(Value::Boolean(b)),
        (Value::Int64(x), ScalarType::Int64) => Ok(Value::Int64(x)),
        (Value::Text(t), ScalarType::Text) => Ok(Value::Text(t)),
        (Value::Int64(x), ScalarType::Text) => Ok(Value::Text(int64_text(x))),
        (Value::Boolean(b), ScalarType::Text) => {
            let text = if b {
                String::from_str("TRUE")
            } else {
                String::from_str("FALSE")
            };
            Ok(Value::Text(text))
        },
        (Value::Text(t), ScalarType::Int64) => match parse_int64(&t) {
            Some(x) => Ok(Value::Int64(x)),
            None => Err(Some(EvaluationErrorKind::InvalidTextCast { target: ScalarType::Int64 })),
        },
        (Value::Text(t), ScalarType::Boolean) => {
            if equals_ignoring_ascii_case(&t, "TRUE") {
                Ok(Value::Boolean(true))
            } else if equals_ignoring_ascii_case(&t, "FALSE") {
                Ok(Value::Boolean(false))
            } else {
                Err(Some(EvaluationErrorKind::InvalidTextCast { target: ScalarType::Boolean }))
            }
        },
        _ => Err(None),
    }
}




/// The result of `value IN (candidates)`: TRUE on a match, otherwise
/// unknown where a comparison was unknown, otherwise FALSE.
pub open spec fn membership(value: ScalarValue, candidates: Seq<ScalarValue>) -> ScalarValue {
    if exists|i: int| 0 <= i < candidates.len() && ordinary_equality(value, #[trigger] candidates[i]) == Some(true) {
        ScalarValue::Boolean(true)
    } else if exists|i: int| 0 <= i < candidates.len() && ordinary_equality(value, #[trigger] candidates[i]) is None {
        ScalarValue::Null
    } else {
        ScalarValue::Boolean(false)
    }
}

/// IN is TRUE where the value equals some candidate, NULL where none is
/// equal but the value or some candidate is NULL, and FALSE otherwise; it
/// is never anything but a boolean or NULL.
pub proof fn lemma_membership(value: ScalarValue, candidates: Seq<ScalarValue>)
    ensures
        membership(value, candidates) == ScalarValue::Boolean(true) <==> exists|i: int|
            0 <= i < candidates.len() && !(value is Null) && !(#[trigger] candidates[i] is Null) && compare_values(
                value,
                candidates[i],
            ) == Some(Comparison::Equal),
        membership(value, candidates) == ScalarValue::Null <==> (!(exists|i: int|
            0 <= i < candidates.len() && !(value is Null) && !(#[trigger] candidates[i] is Null) && compare_values(
                value,
                candidates[i],
            ) == Some(Comparison::Equal)) && exists|i: int|
            0 <= i < candidates.len() && (value is Null || #[trigger] candidates[i] is Null)),
        membership(value, candidates) is Boolean || membership(value, candidates) is Null,
        candidates.len() == 0 ==> membership(value, candidates) == ScalarValue::Boolean(false),
{
    if exists|i: int| 0 <= i < candidates.len() && ordinary_equality(value, #[trigger] candidates[i]) == Some(true) {
        let i = choose|i: int| 0 <= i < candidates.len() && ordinary_equality(value, #[trigger] candidates[i]) == Some(true);
        assert(!(candidates[i] is Null));
    }
    if exists|i: int| 0 <= i < candidates.len() && ordinary_equality(value, #[trigger] candidates[i]) is None {
        let i = choose|i: int| 0 <= i < candidates.len() && ordinary_equality(value, #[trigger] candidates[i]) is None;
        assert(value is Null || candidates[i] is Null);
    }
    if exists|i: int| 0 <= i < candidates.len() && (value is Null || #[trigger] candidates[i] is Null) {
        let i = choose|i: int| 0 <= i < candidates.len() && (value is Null || #[trigger] candidates[i] is Null);
        assert(ordinary_equality(value, candidates[i]) is None);
    }
    assert forall|i: int|
        0 <= i < candidates.len() && ordinary_equality(value, #[trigger] candidates[i]) == Some(true) implies !(
        value is Null) && !(candidates[i] is Null) && compare_values(value, candidates[i]) == Some(Comparison::Equal) by {
        if compare_values(value, candidates[i]) is None {
            assert(ordinary_equality(value, candidates[i]) == Some(false));
        }
    }
}

pub fn member_of(value: &Value, candidates: &Vec<Value>) -> (r: Value)
    ensures
        r@ == membership(value@, candidates@.map_values(|c: Value| c@)),
{
    let ghost views = candidates@.map_values(|c: Value| c@);
    let mut matched = false;
    let mut unknown = false;
    let mut index: usize = 0;
    while index < candidates.len()
        invariant
            index <= candidates@.len(),
            views == candidates@.map_values(|c: Value| c@),
            matched == exists|i: int| 0 <= i < index && ordinary_equality(value@, #[trigger] views[i]) == Some(true),
            unknown == exists|i: int| 0 <= i < index && ordinary_equality(value@, #[trigger] views[i]) is None,
        decreases candidates@.len() - index,
    {
        let ghost before = index;
        match ordinary_equal(value, &candidates[index]) {
            Some(true) => matched = true,
            Some(false) => {},
            None => unknown = true,
        }
        assert(views[index as int] == candidates@[index as int]@);
        index = index + 1;
    }
    if matched {
        Value::Boolean(true)
    } else if unknown {
        Value::Null
    } else {
        Value::Boolean(false)
    }
}

// ---------------------------------------------------------------------------
// Relational semantics on materialized rows
// ---------------------------------------------------------------------------

/// How often `row` occurs in `rows`.
pub open spec fn occurrences(rows: Seq<Seq<ScalarValue>>, row: Seq<ScalarValue>) -> nat
    decreases rows.len(),
{
    if rows.len() == 0 {
        0
    } else {
        occurrences(rows.drop_last(), row) + if rows.last() == row {
            1nat
        } else {
            0nat
        }
    }
}

/// The first occurrence of every row, in order.
pub open spec fn first_occurrences(rows: Seq<Seq<ScalarValue>>) -> Seq<Seq<ScalarValue>>
    decreases rows.len(),
{
    if rows.len() == 0 {
        seq![]
    } else {
        let kept = first_occurrences(rows.drop_last());
        if kept.contains(rows.last()) {
            kept
        } else {
            kept.push(rows.last())
        }
    }
}

/// The left rows, in order, that `keep` admits: `keep` sees each row with
/// the left rows before it.
pub open spec fn kept_rows(
    left: Seq<Seq<ScalarValue>>,
    keep: spec_fn(Seq<Seq<ScalarValue>>, Seq<ScalarValue>) -> bool,
) -> Seq<Seq<ScalarValue>>
    decreases left.len(),
{
    if left.len() == 0 {
        seq![]
    } else {
        let kept = kept_rows(left.drop_last(), keep);
        if keep(left.drop_last(), left.last()) {
            kept.push(left.last())
        } else {
            kept
        }
    }
}

/// The rows of a set operation, by its multiplicity rules: UNION ALL
/// concatenates; UNION keeps first occurrences; INTERSECT ALL keeps a left
/// row while fewer equal rows came before it than the right side holds;
/// EXCEPT ALL keeps it once that many came before; INTERSECT and EXCEPT keep
/// first occurrences of the left rows that the right side holds, or lacks.
pub open spec fn set_rows(
    operation: SetOperation,
    quantifier: SetQuantifier,
    left: Seq<Seq<ScalarValue>>,
    right: Seq<Seq<ScalarValue>>,
) -> Seq<Seq<ScalarValue>> {
    match (operation, quantifier) {
        (SetOperation::Union, SetQuantifier::All) => left + right,
        (SetOperation::Union, SetQuantifier::Distinct) => first_occurrences(left + right),
        (SetOperation::Intersect, SetQuantifier::All) => kept_rows(
            left,
            |before: Seq<Seq<ScalarValue>>, row: Seq<ScalarValue>| occurrences(before, row) < occurrences(right, row),
        ),
        (SetOperation::Except, SetQuantifier::All) => kept_rows(
            left,
            |before: Seq<Seq<ScalarValue>>, row: Seq<ScalarValue>| occurrences(before, row) >= occurrences(right, row),
        ),
        (SetOperation::Intersect, SetQuantifier::Distinct) => first_occurrences(
            kept_rows(left, |before: Seq<Seq<ScalarValue>>, row: Seq<ScalarValue>| right.contains(row)),
        ),
        (SetOperation::Except, SetQuantifier::Distinct) => first_occurrences(
            kept_rows(left, |before: Seq<Seq<ScalarValue>>, row: Seq<ScalarValue>| !right.contains(row)),
        ),
    }
}

proof fn lemma_occurrences_push(rows: Seq<Seq<ScalarValue>>, next: Seq<ScalarValue>, row: Seq<ScalarValue>)
    ensures
        occurrences(rows.push(next), row) == occurrences(rows, row) + if next == row {
            1nat
        } else {
            0nat
        },
{
    assert(rows.push(next).drop_last() =~= rows);
}

proof fn lemma_occurrences_contains(rows: Seq<Seq<ScalarValue>>, row: Seq<ScalarValue>)
    ensures
        (occurrences(rows, row) > 0) == rows.contains(row),
    decreases rows.len(),
{
    if rows.len() > 0 {
        lemma_occurrences_contains(rows.drop_last(), row);
        if rows.last() == row {
            assert(rows[rows.len() - 1] == row);
        } else if rows.drop_last().contains(row) {
            let i = choose|i: int| 0 <= i < rows.drop_last().len() && rows.drop_last()[i] == row;
            assert(rows[i] == row);
        } else {
            assert forall|i: int| 0 <= i < rows.len() implies rows[i] != row by {
                if i < rows.len() - 1 {
                    assert(rows[i] == rows.drop_last()[i]);
                }
            }
        }
    }
}

/// UNION ALL holds each row as often as both sides together.
pub proof fn lemma_union_all_multiplicity(left: Seq<Seq<ScalarValue>>, right: Seq<Seq<ScalarValue>>, row: Seq<ScalarValue>)
    ensures
        occurrences(set_rows(SetOperation::Union, SetQuantifier::All, left, right), row) == occurrences(left, row)
            + occurrences(right, row),
    decreases right.len(),
{
    if right.len() > 0 {
        lemma_union_all_multiplicity(left, right.drop_last(), row);
        assert(left + right =~= (left + right.drop_last()).push(right.last()));
        assert(right =~= right.drop_last().push(right.last()));
        lemma_occurrences_push(left + right.drop_last(), right.last(), row);
        lemma_occurrences_push(right.drop_last(), right.last(), row);
    } else {
        assert(left + right =~= left);
    }
}

/// INTERSECT ALL holds each row as often as the side that holds it fewer
/// times.
pub proof fn lemma_intersect_all_multiplicity(left: Seq<Seq<ScalarValue>>, right: Seq<Seq<ScalarValue>>, row: Seq<ScalarValue>)
    ensures
        occurrences(set_rows(SetOperation::Intersect, SetQuantifier::All, left, right), row) == if occurrences(left, row)
            <= occurrences(right, row) {
            occurrences(left, row)
        } else {
            occurrences(right, row)
        },
    decreases left.len(),
{
    if left.len() > 0 {
        lemma_intersect_all_multiplicity(left.drop_last(), right, row);
        let before = set_rows(SetOperation::Intersect, SetQuantifier::All, left.drop_last(), right);
        assert(left =~= left.drop_last().push(left.last()));
        lemma_occurrences_push(left.drop_last(), left.last(), row);
        lemma_occurrences_push(before, left.last(), row);
    }
}

/// EXCEPT ALL holds each row as often as the left side holds it beyond the
/// right side.
pub proof fn lemma_except_all_multiplicity(left: Seq<Seq<ScalarValue>>, right: Seq<Seq<ScalarValue>>, row: Seq<ScalarValue>)
    ensures
        occurrences(set_rows(SetOperation::Except, SetQuantifier::All, left, right), row) == if occurrences(left, row)
            >= occurrences(right, row) {
            occurrences(left, row) - occurrences(right, row)
        } else {
            0
        },
    decreases left.len(),
{
    if left.len() > 0 {
        lemma_except_all_multiplicity(left.drop_last(), right, row);
        let before = set_rows(SetOperation::Except, SetQuantifier::All, left.drop_last(), right);
        assert(left =~= left.drop_last().push(left.last()));
        lemma_occurrences_push(left.drop_last(), left.last(), row);
        lemma_occurrences_push(before, left.last(), row);
    }
}

/// Whether a sequence holds a row, told apart at its last item.
proof fn lemma_contains_split(rows: Seq<Seq<ScalarValue>>, row: Seq<ScalarValue>)
    requires
        rows.len() > 0,
    ensures
        rows.contains(row) == (rows.drop_last().contains(row) || rows.last() == row),
{
    if rows.contains(row) && rows.last() != row {
        let i = choose|i: int| 0 <= i < rows.len() && rows[i] == row;
        assert(rows.drop_last()[i] == row);
    }
    if rows.drop_last().contains(row) {
        let i = choose|i: int| 0 <= i < rows.drop_last().len() && rows.drop_last()[i] == row;
        assert(rows[i] == row);
    }
    if rows.last() == row {
        assert(rows[rows.len() - 1] == row);
    }
}

/// Keeping first occurrences keeps each row held exactly once.
pub proof fn lemma_first_occurrences(rows: Seq<Seq<ScalarValue>>, row: Seq<ScalarValue>)
    ensures
        first_occurrences(rows).contains(row) == rows.contains(row),
        occurrences(first_occurrences(rows), row) == if rows.contains(row) {
            1nat
        } else {
            0nat
        },
    decreases rows.len(),
{
    if rows.len() > 0 {
        let rest = rows.drop_last();
        let last = rows.last();
        lemma_first_occurrences(rest, row);
        lemma_first_occurrences(rest, last);
        lemma_contains_split(rows, row);
        let kept = first_occurrences(rest);
        lemma_occurrences_contains(kept, row);
        if !kept.contains(last) {
            lemma_occurrences_push(kept, last, row);
            assert(kept.push(last).drop_last() =~= kept);
            lemma_contains_split(kept.push(last), row);
        }
    }
}

/// Keeping the left rows that a condition on the row admits keeps exactly
/// the left rows for which it holds.
proof fn lemma_kept_filter(
    left: Seq<Seq<ScalarValue>>,
    keep: spec_fn(Seq<Seq<ScalarValue>>, Seq<ScalarValue>) -> bool,
    admits: spec_fn(Seq<ScalarValue>) -> bool,
    row: Seq<ScalarValue>,
)
    requires
        forall|before: Seq<Seq<ScalarValue>>, r: Seq<ScalarValue>| #[trigger] keep(before, r) == admits(r),
    ensures
        kept_rows(left, keep).contains(row) == (left.contains(row) && admits(row)),
    decreases left.len(),
{
    if left.len() > 0 {
        lemma_kept_filter(left.drop_last(), keep, admits, row);
        lemma_contains_split(left, row);
        let kept = kept_rows(left.drop_last(), keep);
        if keep(left.drop_last(), left.last()) {
            assert(kept.push(left.last()).drop_last() =~= kept);
            lemma_contains_split(kept.push(left.last()), row);
        }
    }
}

/// UNION, INTERSECT and EXCEPT without ALL hold each row at most once:
/// UNION where either side holds it, INTERSECT where both do, EXCEPT where
/// the left side holds it and the right side does not.
pub proof fn lemma_distinct_set_multiplicity(left: Seq<Seq<ScalarValue>>, right: Seq<Seq<ScalarValue>>, row: Seq<ScalarValue>)
    ensures
        occurrences(set_rows(SetOperation::Union, SetQuantifier::Distinct, left, right), row) == if left.contains(row)
            || right.contains(row) {
            1nat
        } else {
            0nat
        },
        occurrences(set_rows(SetOperation::Intersect, SetQuantifier::Distinct, left, right), row) == if left.contains(
            row,
        ) && right.contains(row) {
            1nat
        } else {
            0nat
        },
        occurrences(set_rows(SetOperation::Except, SetQuantifier::Distinct, left, right), row) == if left.contains(row)
            && !right.contains(row) {
            1nat
        } else {
            0nat
        },
{
    lemma_first_occurrences(left + right, row);
    lemma_union_all_multiplicity(left, right, row);
    lemma_occurrences_contains(left, row);
    lemma_occurrences_contains(right, row);
    lemma_occurrences_contains(left + right, row);
    let intersect = |before: Seq<Seq<ScalarValue>>, r: Seq<ScalarValue>| right.contains(r);
    let except = |before: Seq<Seq<ScalarValue>>, r: Seq<ScalarValue>| !right.contains(r);
    lemma_kept_filter(left, intersect, |r: Seq<ScalarValue>| right.contains(r), row);
    lemma_kept_filter(left, except, |r: Seq<ScalarValue>| !right.contains(r), row);
    lemma_first_occurrences(kept_rows(left, intersect), row);
    lemma_first_occurrences(kept_rows(left, except), row);
}

/// Whether `rows` holds a row with the values of `row`.
fn holds_row(rows: &Vec<Row>, row: &Row) -> (r: bool)
    ensures
        r == rows_view(rows@).contains(row_view(*row)),
{
    let ghost views = rows_view(rows@);
    let mut index: usize = 0;
    while index < rows.len()
        invariant
            index <= rows@.len(),
            views == rows_view(rows@),
            forall|i: int| 0 <= i < index ==> views[i] != row_view(*row),
        decreases rows@.len() - index,
    {
        if same_row(&rows[index], row) {
            assert(views[index as int] == row_view(*row));
            return true;
        }
        index = index + 1;
    }
    false
}

/// How often `rows` holds a row with the values of `row`, among its first
/// `end` rows.
fn count_rows(rows: &Vec<Row>, end: usize, row: &Row) -> (n: usize)
    requires
        end <= rows@.len(),
    ensures
        n == occurrences(rows_view(rows@).take(end as int), row_view(*row)),
{
    let ghost views = rows_view(rows@);
    let mut count: usize = 0;
    let mut index: usize = 0;
    while index < end
        invariant
            index <= end <= rows@.len(),
            views == rows_view(rows@),
            count == occurrences(views.take(index as int), row_view(*row)),
            count <= index,
        decreases end - index,
    {
        proof {
            assert(views.take(index + 1) =~= views.take(index as int).push(views[index as int]));
            lemma_occurrences_push(views.take(index as int), views[index as int], row_view(*row));
        }
        if same_row(&rows[index], row) {
            count = count + 1;
        }
        index = index + 1;
    }
    count
}

/// Appends a copy of `row` to `output` unless `output` holds it already.
fn push_new_row(output: &mut Vec<Row>, row: &Row)
    ensures
        rows_view(final(output)@) == if rows_view(old(output)@).contains(row_view(*row)) {
            rows_view(old(output)@)
        } else {
            rows_view(old(output)@).push(row_view(*row))
        },
{
    if !holds_row(output, row) {
        output.push(row.clone());
        assert(rows_view(output@) =~= rows_view(old(output)@).push(row_view(*row)));
    }
}

proof fn lemma_first_occurrences_push(rows: Seq<Seq<ScalarValue>>, next: Seq<ScalarValue>)
    ensures
        first_occurrences(rows.push(next)) == if first_occurrences(rows).contains(next) {
            first_occurrences(rows)
        } else {
            first_occurrences(rows).push(next)
        },
{
    assert(rows.push(next).drop_last() =~= rows);
}

/// The rows of a set operation on its two evaluated inputs.
pub fn evaluate_set_rows(
    operation: SetOperation,
    quantifier: SetQuantifier,
    left: &Vec<Row>,
    right: &Vec<Row>,
) -> (rows: Vec<Row>)
    ensures
        rows_view(rows@) == set_rows(operation, quantifier, rows_view(left@), rows_view(right@)),
{
    let ghost l = rows_view(left@);
    let ghost r = rows_view(right@);
    let mut rows: Vec<Row> = Vec::new();
    match (operation, quantifier) {
        (SetOperation::Union, SetQuantifier::All) => {
            rows = clone_rows(left);
            let mut more = clone_rows(right);
            rows.append(&mut more);
            assert(rows_view(rows@) =~= l + r);
        },
        (SetOperation::Union, SetQuantifier::Distinct) => {
            let ghost all = l + r;
            let mut index: usize = 0;
            while index < left.len()
                invariant
                    index <= left@.len(),
                    all == rows_view(left@) + rows_view(right@),
                    rows_view(rows@) == first_occurrences(all.take(index as int)),
                decreases left@.len() - index,
            {
                proof {
                    assert(row_view(left@[index as int]) == all[index as int]);
                    assert(all.take(index + 1) =~= all.take(index as int).push(all[index as int]));
                    lemma_first_occurrences_push(all.take(index as int), all[index as int]);
                }
                push_new_row(&mut rows, &left[index]);
                index = index + 1;
            }
            let mut position: usize = 0;
            while position < right.len()
                invariant
                    position <= right@.len(),
                    all == rows_view(left@) + rows_view(right@),
                    rows_view(rows@) == first_occurrences(all.take(left@.len() + position)),
                decreases right@.len() - position,
            {
                let ghost at = left@.len() + position;
                proof {
                    assert(row_view(right@[position as int]) == all[at]);
                    assert(all.take(at + 1) =~= all.take(at).push(all[at]));
                    lemma_first_occurrences_push(all.take(at), all[at]);
                }
                push_new_row(&mut rows, &right[position]);
                position = position + 1;
            }
            assert(all.take(left@.len() + position) =~= all);
        },
        (_, SetQuantifier::All) => {
            let intersect = operation == SetOperation::Intersect;
            let ghost keep = if intersect {
                |before: Seq<Seq<ScalarValue>>, row: Seq<ScalarValue>| occurrences(before, row) < occurrences(r, row)
            } else {
                |before: Seq<Seq<ScalarValue>>, row: Seq<ScalarValue>| occurrences(before, row) >= occurrences(r, row)
            };
            let mut index: usize = 0;
            while index < left.len()
                invariant
                    index <= left@.len(),
                    l == rows_view(left@),
                    r == rows_view(right@),
                    rows_view(rows@) == kept_rows(l.take(index as int), keep),
                decreases left@.len() - index,
            {
                let row = &left[index];
                let before = count_rows(left, index, row);
                let available = count_rows(right, right.len(), row);
                proof {
                    assert(l.take(index + 1).drop_last() =~= l.take(index as int));
                    assert(l.take(index + 1).last() == row_view(*row));
                    assert(r.take(right@.len() as int) =~= r);
                }
                if (intersect && before < available) || (!intersect && before >= available) {
                    rows.push(row.clone());
                    assert(rows_view(rows@) =~= kept_rows(l.take(index as int), keep).push(row_view(*row)));
                }
                index = index + 1;
            }
            assert(l.take(index as int) =~= l);
        },
        (_, SetQuantifier::Distinct) => {
            let intersect = operation == SetOperation::Intersect;
            let ghost keep = if intersect {
                |before: Seq<Seq<ScalarValue>>, row: Seq<ScalarValue>| r.contains(row)
            } else {
                |before: Seq<Seq<ScalarValue>>, row: Seq<ScalarValue>| !r.contains(row)
            };
            let mut index: usize = 0;
            while index < left.len()
                invariant
                    index <= left@.len(),
                    l == rows_view(left@),
                    r == rows_view(right@),
                    rows_view(rows@) == first_occurrences(kept_rows(l.take(index as int), keep)),
                decreases left@.len() - index,
            {
                let row = &left[index];
                let present = holds_row(right, row);
                proof {
                    assert(l.take(index + 1).drop_last() =~= l.take(index as int));
                    assert(l.take(index + 1).last() == row_view(*row));
                }
                if present == intersect {
                    proof {
                        lemma_first_occurrences_push(kept_rows(l.take(index as int), keep), row_view(*row));
                    }
                    push_new_row(&mut rows, row);
                }
                index = index + 1;
            }
            assert(l.take(index as int) =~= l);
        },
    }
    rows
}

/// The rows of DISTINCT: the first occurrence of every row.
pub fn distinct_rows(input: &Vec<Row>) -> (rows: Vec<Row>)
    ensures
        rows_view(rows@) == first_occurrences(rows_view(input@)),
{
    let ghost all = rows_view(input@);
    let mut rows: Vec<Row> = Vec::new();
    let mut index: usize = 0;
    while index < input.len()
        invariant
            index <= input@.len(),
            all == rows_view(input@),
            rows_view(rows@) == first_occurrences(all.take(index as int)),
        decreases input@.len() - index,
    {
        proof {
            assert(all.take(index + 1) =~= all.take(index as int).push(all[index as int]));
            lemma_first_occurrences_push(all.take(index as int), all[index as int]);
        }
        push_new_row(&mut rows, &input[index]);
        index = index + 1;
    }
    assert(all.take(index as int) =~= all);
    rows
}


/// The rows of a slice: skip `offset` rows, then keep at most `limit`.
pub open spec fn sliced_rows(rows: Seq<Seq<ScalarValue>>, offset: int, limit: Option<int>) -> Seq<Seq<ScalarValue>> {
    let start = if offset > rows.len() {
        rows.len() as int
    } else {
        offset
    };
    let end = match limit {
        Some(l) => if start + l > rows.len() {
            rows.len() as int
        } else {
            start + l
        },
        None => rows.len() as int,
    };
    rows.subrange(start, end)
}

pub fn slice_rows(input: &Vec<Row>, offset: i64, limit: Option<i64>) -> (rows: Vec<Row>)
    requires
        offset >= 0,
        limit matches Some(l) ==> l >= 0,
    ensures
        rows_view(rows@) == sliced_rows(
            rows_view(input@),
            offset as int,
            match limit {
                Some(l) => Some(l as int),
                None => None,
            },
        ),
{
    let length = input.len();
    let start: usize = if (offset as u64) > (length as u64) {
        length
    } else {
        offset as usize
    };
    let end: usize = match limit {
        Some(l) => if (l as u64) > ((length - start) as u64) {
            length
        } else {
            start + l as usize
        },
        None => length,
    };
    let mut rows: Vec<Row> = Vec::new();
    let mut index = start;
    while index < end
        invariant
            start <= index <= end <= input@.len(),
            rows_view(rows@) == rows_view(input@).subrange(start as int, index as int),
        decreases end - index,
    {
        rows.push(input[index].clone());
        assert(rows_view(input@).subrange(start as int, index + 1) =~= rows_view(input@).subrange(
            start as int,
            index as int,
        ).push(row_view(input@[index as int])));
        assert(rows_view(rows@) =~= rows_view(input@).subrange(start as int, index as int).push(
            row_view(input@[index as int]),
        ));
        index = index + 1;
    }
    rows
}

// ---------------------------------------------------------------------------
// Aggregates
// ---------------------------------------------------------------------------

/// How many of the values are not null.
pub open spec fn non_null_count(values: Seq<ScalarValue>) -> nat
    decreases values.len(),
{
    if values.len() == 0 {
        0
    } else {
        non_null_count(values.drop_last()) + if values.last() is Null {
            0nat
        } else {
            1nat
        }
    }
}

/// The exact sum of the INT64 values; `None` where a value is neither INT64
/// nor null.
pub open spec fn exact_sum(values: Seq<ScalarValue>) -> Option<int>
    decreases values.len(),
{
    if values.len() == 0 {
        Some(0)
    } else {
        match (exact_sum(values.drop_last()), values.last()) {
            (Some(s), ScalarValue::Int64(x)) => Some(s + x),
            (Some(s), ScalarValue::Null) => Some(s),
            _ => None,
        }
    }
}

/// The least (or, where `greatest` holds, the greatest) non-null value, the
/// first one among equals; null where every value is null.
pub open spec fn extreme(values: Seq<ScalarValue>, greatest: bool) -> Option<ScalarValue>
    decreases values.len(),
{
    if values.len() == 0 {
        Some(ScalarValue::Null)
    } else {
        match extreme(values.drop_last(), greatest) {
            None => None,
            Some(current) => {
                let value = values.last();
                if value is Null {
                    Some(current)
                } else if current is Null {
                    Some(value)
                } else {
                    match compare_values(value, current) {
                        None => None,
                        Some(c) => if (greatest && c is Greater) || (!greatest && c is Less) {
                            Some(value)
                        } else {
                            Some(current)
                        },
                    }
                }
            },
        }
    }
}

/// Whether every non-null value is a Boolean.
pub open spec fn all_booleans(values: Seq<ScalarValue>) -> bool {
    forall|i: int| 0 <= i < values.len() ==> (#[trigger] values[i] is Null || values[i] is Boolean)
}

/// The aggregate of a group: `rows` counts the group's rows and `values`
/// holds the argument for each of them.
pub open spec fn aggregate_outcome(function: AggregateFunction, rows: nat, values: Seq<ScalarValue>) -> Outcome {
    match function {
        AggregateFunction::CountAll => if in_int64(rows as int) {
            Outcome::Produced(ScalarValue::Int64(rows as int))
        } else {
            Outcome::Failed(EvaluationErrorKind::IntegerOverflow)
        },
        AggregateFunction::Count => if in_int64(non_null_count(values) as int) {
            Outcome::Produced(ScalarValue::Int64(non_null_count(values) as int))
        } else {
            Outcome::Failed(EvaluationErrorKind::IntegerOverflow)
        },
        AggregateFunction::Sum => match exact_sum(values) {
            None => Outcome::Mismatched,
            Some(s) => if non_null_count(values) == 0 {
                Outcome::Produced(ScalarValue::Null)
            } else if in_int64(s) {
                Outcome::Produced(ScalarValue::Int64(s))
            } else {
                Outcome::Failed(EvaluationErrorKind::IntegerOverflow)
            },
        },
        AggregateFunction::Min => match extreme(values, false) {
            Some(v) => Outcome::Produced(v),
            None => Outcome::Mismatched,
        },
        AggregateFunction::Max => match extreme(values, true) {
            Some(v) => Outcome::Produced(v),
            None => Outcome::Mismatched,
        },
        AggregateFunction::BoolAnd => if !all_booleans(values) {
            Outcome::Mismatched
        } else if non_null_count(values) == 0 {
            Outcome::Produced(ScalarValue::Null)
        } else {
            Outcome::Produced(
                ScalarValue::Boolean(
                    forall|i: int| 0 <= i < values.len() ==> !(#[trigger] values[i] matches ScalarValue::Boolean(false)),
                ),
            )
        },
        AggregateFunction::BoolOr => if !all_booleans(values) {
            Outcome::Mismatched
        } else if non_null_count(values) == 0 {
            Outcome::Produced(ScalarValue::Null)
        } else {
            Outcome::Produced(
                ScalarValue::Boolean(
                    exists|i: int| 0 <= i < values.len() && #[trigger] values[i] matches ScalarValue::Boolean(true),
                ),
            )
        },
    }
}

/// The non-null values, counted.
proof fn lemma_non_null_count(values: Seq<ScalarValue>)
    ensures
        non_null_count(values) == values.filter(|v: ScalarValue| !(v is Null)).len(),
        (forall|i: int| 0 <= i < values.len() ==> #[trigger] values[i] is Null) ==> exact_sum(values) == Some(0int)
            && non_null_count(values) == 0,
    decreases values.len(),
{
    reveal(Seq::filter);
    if values.len() > 0 {
        lemma_non_null_count(values.drop_last());
        if forall|i: int| 0 <= i < values.len() ==> #[trigger] values[i] is Null {
            assert forall|i: int| 0 <= i < values.drop_last().len() implies #[trigger] values.drop_last()[i] is Null by {
                assert(values[i] is Null);
            }
            assert(values[values.len() - 1] is Null);
        }
    }
}

/// COUNT(*) counts the rows of the group and COUNT counts its non-null
/// arguments; SUM, MIN, MAX, BOOL_AND and BOOL_OR of a group whose arguments
/// are all NULL are NULL.
pub proof fn lemma_aggregate_counts(rows: nat, values: Seq<ScalarValue>)
    ensures
        rows <= i64::MAX ==> aggregate_outcome(AggregateFunction::CountAll, rows, values) == Outcome::Produced(
            ScalarValue::Int64(rows as int),
        ),
        values.len() <= i64::MAX ==> aggregate_outcome(AggregateFunction::Count, rows, values) == Outcome::Produced(
            ScalarValue::Int64(values.filter(|v: ScalarValue| !(v is Null)).len() as int),
        ),
        (forall|i: int| 0 <= i < values.len() ==> #[trigger] values[i] is Null) ==> {
            &&& aggregate_outcome(AggregateFunction::Sum, rows, values) == Outcome::Produced(ScalarValue::Null)
            &&& aggregate_outcome(AggregateFunction::BoolAnd, rows, values) == Outcome::Produced(ScalarValue::Null)
            &&& aggregate_outcome(AggregateFunction::BoolOr, rows, values) == Outcome::Produced(ScalarValue::Null)
        },
{
    lemma_non_null_count(values);
    values.lemma_filter_len(|v: ScalarValue| !(v is Null));
    if forall|i: int| 0 <= i < values.len() ==> #[trigger] values[i] is Null {
        assert(all_booleans(values));
    }
}

pub open spec fn value_views(values: Seq<Value>) -> Seq<ScalarValue> {
    values.map_values(|value: Value| value@)
}

/// Folds the argument values of one group into its aggregate.
pub fn fold_aggregate(function: AggregateFunction, rows: usize, values: &Vec<Value>) -> (r: Result<
    Value,
    Option<EvaluationErrorKind>,
>)
    ensures
        outcome_of(r) == aggregate_outcome(function, rows as nat, value_views(values@)),
{
    let ghost views = value_views(values@);
    match function {
        AggregateFunction::CountAll => {
            if rows as u64 > 0x7fff_ffff_ffff_ffffu64 {
                Err(Some(EvaluationErrorKind::IntegerOverflow))
            } else {
                Ok(Value::Int64(rows as i64))
            }
        },
        AggregateFunction::Count => {
            let mut count: usize = 0;
            let mut index: usize = 0;
            while index < values.len()
                invariant
                    index <= values@.len(),
                    views == value_views(values@),
                    count == non_null_count(views.take(index as int)),
                    count <= index,
                decreases values@.len() - index,
            {
                assert(views.take(index + 1).drop_last() =~= views.take(index as int));
                if !values[index].is_null() {
                    count = count + 1;
                }
                index = index + 1;
            }
            assert(views.take(index as int) =~= views);
            if count as u64 > 0x7fff_ffff_ffff_ffffu64 {
                Err(Some(EvaluationErrorKind::IntegerOverflow))
            } else {
                Ok(Value::Int64(count as i64))
            }
        },
        AggregateFunction::Sum => {
            let mut sum: i128 = 0;
            let mut present = false;
            let mut index: usize = 0;
            while index < values.len()
                invariant
                    index <= values@.len(),
                    views == value_views(values@),
                    exact_sum(views.take(index as int)) == Some(sum as int),
                    present == (non_null_count(views.take(index as int)) > 0),
                    -(index as int) * 0x8000_0000_0000_0000 <= sum <= (index as int) * 0x8000_0000_0000_0000,
                    index <= usize::MAX,
                decreases values@.len() - index,
            {
                assert(views.take(index + 1).drop_last() =~= views.take(index as int));
                match &values[index] {
                    Value::Int64(x) => {
                        assert((index as int) * 0x8000_0000_0000_0000 <= 0x7fff_ffff_ffff_ffff_ffff_ffff_ffff_ffff) by (nonlinear_arith)
                            requires
                                index < 0x1_0000_0000_0000_0000,
                        ;
                        sum = sum + (*x as i128);
                        present = true;
                    },
                    Value::Null => {},
                    _ => {
                        proof {
                            assert(exact_sum(views.take(index + 1)) is None);
                            lemma_sum_stays_undefined(views, index as int + 1);
                            assert(views.take(views.len() as int) =~= views);
                        }
                        return Err(None);
                    },
                }
                index = index + 1;
            }
            assert(views.take(index as int) =~= views);
            if !present {
                Ok(Value::Null)
            } else if sum < -0x8000_0000_0000_0000i128 || sum > 0x7fff_ffff_ffff_ffffi128 {
                Err(Some(EvaluationErrorKind::IntegerOverflow))
            } else {
                Ok(Value::Int64(sum as i64))
            }
        },
        AggregateFunction::Min | AggregateFunction::Max => {
            let greatest = function == AggregateFunction::Max;
            let mut result = Value::Null;
            let mut index: usize = 0;
            while index < values.len()
                invariant
                    index <= values@.len(),
                    views == value_views(values@),
                    greatest == (function == AggregateFunction::Max),
                    extreme(views.take(index as int), greatest) == Some(result@),
                decreases values@.len() - index,
            {
                assert(views.take(index + 1).drop_last() =~= views.take(index as int));
                let value = &values[index];
                if !value.is_null() {
                    if result.is_null() {
                        result = value.clone();
                    } else {
                        match compare_non_null(value, &result) {
                            None => {
                                proof {
                                    lemma_extreme_stays_undefined(views, index as int + 1, greatest);
                                    assert(views.take(views.len() as int) =~= views);
                                }
                                return Err(None);
                            },
                            Some(c) => {
                                if (greatest && c == Comparison::Greater) || (!greatest && c == Comparison::Less) {
                                    result = value.clone();
                                }
                            },
                        }
                    }
                }
                index = index + 1;
            }
            assert(views.take(index as int) =~= views);
            Ok(result)
        },
        AggregateFunction::BoolAnd | AggregateFunction::BoolOr => {
            let conjunction = function == AggregateFunction::BoolAnd;
            let mut present = false;
            let mut result = conjunction;
            let mut index: usize = 0;
            while index < values.len()
                invariant
                    index <= values@.len(),
                    views == value_views(values@),
                    conjunction == (function == AggregateFunction::BoolAnd),
                    forall|i: int| 0 <= i < index ==> (#[trigger] views[i] is Null || views[i] is Boolean),
                    present == (non_null_count(views.take(index as int)) > 0),
                    conjunction ==> (result == forall|i: int|
                        0 <= i < index ==> !(#[trigger] views[i] matches ScalarValue::Boolean(false))),
                    !conjunction ==> (result == exists|i: int|
                        0 <= i < index && #[trigger] views[i] matches ScalarValue::Boolean(true)),
                decreases values@.len() - index,
            {
                assert(views.take(index + 1).drop_last() =~= views.take(index as int));
                match &values[index] {
                    Value::Boolean(b) => {
                        present = true;
                        if conjunction {
                            result = result && *b;
                        } else {
                            result = result || *b;
                        }
                    },
                    Value::Null => {},
                    _ => {
                        assert(views[index as int] == values@[index as int]@);
                        assert(!(views[index as int] is Null || views[index as int] is Boolean));
                        assert(!all_booleans(views));
                        return Err(None);
                    },
                }
                index = index + 1;
            }
            assert(views.take(index as int) =~= views);
            if present {
                Ok(Value::Boolean(result))
            } else {
                Ok(Value::Null)
            }
        },
    }
}

proof fn lemma_sum_stays_undefined(values: Seq<ScalarValue>, from: int)
    requires
        0 <= from <= values.len(),
        exact_sum(values.take(from)) is None,
    ensures
        exact_sum(values) is None,
    decreases values.len() - from,
{
    if from < values.len() {
        assert(values.take(from + 1).drop_last() =~= values.take(from));
        lemma_sum_stays_undefined(values, from + 1);
    } else {
        assert(values.take(from) =~= values);
    }
}

proof fn lemma_extreme_stays_undefined(values: Seq<ScalarValue>, from: int, greatest: bool)
    requires
        0 <= from <= values.len(),
        extreme(values.take(from), greatest) is None,
    ensures
        extreme(values, greatest) is None,
    decreases values.len() - from,
{
    if from < values.len() {
        assert(values.take(from + 1).drop_last() =~= values.take(from));
        lemma_extreme_stays_undefined(values, from + 1, greatest);
    } else {
        assert(values.take(from) =~= values);
    }
}

// ---------------------------------------------------------------------------
// Ordering
// ---------------------------------------------------------------------------

pub open spec fn reverse(c: Comparison) -> Comparison {
    match c {
        Comparison::Less => Comparison::Greater,
        Comparison::Equal => Comparison::Equal,
        Comparison::Greater => Comparison::Less,
    }
}

/// The order of two values of one ordering item: nulls go first or last
/// whatever the direction, other values follow the direction.
pub open spec fn order_value_comparison(a: ScalarValue, b: ScalarValue, item: OrderingItem) -> Option<Comparison> {
    match (a, b) {
        (ScalarValue::Null, ScalarValue::Null) => Some(Comparison::Equal),
        (ScalarValue::Null, _) => match item.null_placement {
            NullPlacement::First => Some(Comparison::Less),
            NullPlacement::Last => Some(Comparison::Greater),
            NullPlacement::NotApplicable => None,
        },
        (_, ScalarValue::Null) => match item.null_placement {
            NullPlacement::First => Some(Comparison::Greater),
            NullPlacement::Last => Some(Comparison::Less),
            NullPlacement::NotApplicable => None,
        },
        _ => match compare_values(a, b) {
            None => None,
            Some(c) => Some(
                match item.direction {
                    Direction::Ascending => c,
                    Direction::Descending => reverse(c),
                },
            ),
        },
    }
}

/// An ascending item puts smaller INT64 values first and a descending one
/// larger values first; NULLs go first or last as the item places them,
/// whatever its direction; two NULLs tie.
pub proof fn lemma_ordering_values(x: int, y: int, item: OrderingItem)
    ensures
        item.direction == Direction::Ascending ==> order_value_comparison(
            ScalarValue::Int64(x),
            ScalarValue::Int64(y),
            item,
        ) == Some(if x < y { Comparison::Less } else if x == y { Comparison::Equal } else { Comparison::Greater }),
        item.direction == Direction::Descending ==> order_value_comparison(
            ScalarValue::Int64(x),
            ScalarValue::Int64(y),
            item,
        ) == Some(if x > y { Comparison::Less } else if x == y { Comparison::Equal } else { Comparison::Greater }),
        item.null_placement == NullPlacement::First ==> order_value_comparison(
            ScalarValue::Null,
            ScalarValue::Int64(y),
            item,
        ) == Some(Comparison::Less) && order_value_comparison(ScalarValue::Int64(x), ScalarValue::Null, item) == Some(
            Comparison::Greater,
        ),
        item.null_placement == NullPlacement::Last ==> order_value_comparison(
            ScalarValue::Null,
            ScalarValue::Int64(y),
            item,
        ) == Some(Comparison::Greater) && order_value_comparison(ScalarValue::Int64(x), ScalarValue::Null, item)
            == Some(Comparison::Less),
        order_value_comparison(ScalarValue::Null, ScalarValue::Null, item) == Some(Comparison::Equal),
{
}

/// Keys compare by their first item, and by the rest only where it ties.
pub proof fn lemma_ordering_keys(a: Seq<ScalarValue>, b: Seq<ScalarValue>, items: Seq<OrderingItem>)
    requires
        a.len() > 0,
        b.len() > 0,
        items.len() > 0,
    ensures
        order_value_comparison(a[0], b[0], items[0]) != Some(Comparison::Equal) ==> order_key_comparison(a, b, items)
            == order_value_comparison(a[0], b[0], items[0]),
        order_value_comparison(a[0], b[0], items[0]) == Some(Comparison::Equal) ==> order_key_comparison(a, b, items)
            == order_key_comparison(a.drop_first(), b.drop_first(), items.drop_first()),
{
}

/// The lexicographic order of two ordering keys under their items.
pub open spec fn order_key_comparison(a: Seq<ScalarValue>, b: Seq<ScalarValue>, items: Seq<OrderingItem>) -> Option<Comparison>
    decreases items.len(),
{
    if a.len() == 0 || b.len() == 0 || items.len() == 0 {
        Some(Comparison::Equal)
    } else {
        match order_value_comparison(a[0], b[0], items[0]) {
            None => None,
            Some(Comparison::Equal) => order_key_comparison(a.drop_first(), b.drop_first(), items.drop_first()),
            Some(c) => Some(c),
        }
    }
}

proof fn lemma_compare_text_antisymmetric(a: Seq<char>, b: Seq<char>)
    ensures
        compare_text(a, b) == reverse(compare_text(b, a)),
    decreases a.len(),
{
    if a.len() > 0 && b.len() > 0 && a[0] == b[0] {
        lemma_compare_text_antisymmetric(a.drop_first(), b.drop_first());
    }
}

proof fn lemma_order_key_antisymmetric(a: Seq<ScalarValue>, b: Seq<ScalarValue>, items: Seq<OrderingItem>)
    ensures
        order_key_comparison(a, b, items) == Some(Comparison::Greater) ==> order_key_comparison(b, a, items)
            == Some(Comparison::Less),
    decreases items.len(),
{
    if a.len() > 0 && b.len() > 0 && items.len() > 0 {
        if let (ScalarValue::Text(x), ScalarValue::Text(y)) = (a[0], b[0]) {
            lemma_compare_text_antisymmetric(x, y);
        }
        lemma_order_key_antisymmetric(a.drop_first(), b.drop_first(), items.drop_first());
    }
}

fn order_value_compare(left: &Value, right: &Value, item: &OrderingItem) -> (r: Option<Comparison>)
    ensures
        r == order_value_comparison(left@, right@, *item),
{
    match (left, right) {
        (Value::Null, Value::Null) => Some(Comparison::Equal),
        (Value::Null, _) => match item.null_placement {
            NullPlacement::First => Some(Comparison::Less),
            NullPlacement::Last => Some(Comparison::Greater),
            NullPlacement::NotApplicable => None,
        },
        (_, Value::Null) => match item.null_placement {
            NullPlacement::First => Some(Comparison::Greater),
            NullPlacement::Last => Some(Comparison::Less),
            NullPlacement::NotApplicable => None,
        },
        _ => match compare_non_null(left, right) {
            None => None,
            Some(c) => Some(
                match item.direction {
                    Direction::Ascending => c,
                    Direction::Descending => match c {
                        Comparison::Less => Comparison::Greater,
                        Comparison::Equal => Comparison::Equal,
                        Comparison::Greater => Comparison::Less,
                    },
                },
            ),
        },
    }
}

/// Compares two ordering keys lexicographically.
pub fn compare_order_keys(left: &Vec<Value>, right: &Vec<Value>, items: &Vec<OrderingItem>) -> (r: Option<Comparison>)
    ensures
        r == order_key_comparison(value_views(left@), value_views(right@), items@),
{
    let ghost a = value_views(left@);
    let ghost b = value_views(right@);
    assert(a.skip(0) =~= a);
    assert(b.skip(0) =~= b);
    assert(items@.skip(0) =~= items@);
    let mut index: usize = 0;
    while index < left.len() && index < right.len() && index < items.len()
        invariant
            index <= left@.len(),
            index <= right@.len(),
            index <= items@.len(),
            a == value_views(left@),
            b == value_views(right@),
            order_key_comparison(a, b, items@) == order_key_comparison(
                a.skip(index as int),
                b.skip(index as int),
                items@.skip(index as int),
            ),
        decreases items@.len() - index,
    {
        let c = order_value_compare(&left[index], &right[index], &items[index]);
        proof {
            assert(a.skip(index as int)[0] == left@[index as int]@);
            assert(b.skip(index as int)[0] == right@[index as int]@);
            assert(items@.skip(index as int)[0] == items@[index as int]);
            assert(a.skip(index as int).drop_first() =~= a.skip(index + 1));
            assert(b.skip(index as int).drop_first() =~= b.skip(index + 1));
            assert(items@.skip(index as int).drop_first() =~= items@.skip(index + 1));
        }
        match c {
            Some(Comparison::Equal) => {},
            _ => return c,
        }
        index = index + 1;
    }
    Some(Comparison::Equal)
}

/// The positions `order`, a permutation of the positions of `keys`, list
/// the keys in order: no key is followed by a smaller one.
pub open spec fn sorted_positions(order: Seq<usize>, keys: Seq<Seq<ScalarValue>>, items: Seq<OrderingItem>) -> bool {
    &&& order.len() == keys.len()
    &&& forall|i: int| 0 <= i < order.len() ==> (#[trigger] order[i]) < keys.len()
    &&& forall|i: int, j: int| 0 <= i < j < order.len() ==> #[trigger] order[i] != #[trigger] order[j]
    &&& forall|i: int|
        0 <= i < order.len() - 1 ==> order_key_comparison(keys[#[trigger] order[i] as int], keys[order[i + 1] as int], items)
            != Some(Comparison::Greater)
}

pub open spec fn key_views(keys: Seq<Vec<Value>>) -> Seq<Seq<ScalarValue>> {
    keys.map_values(|key: Vec<Value>| value_views(key@))
}

/// Orders row positions by their keys, keeping equal keys in their input
/// order; `None` where two keys cannot be compared.
#[verifier::spinoff_prover]
#[verifier::rlimit(40)]
pub fn sort_positions(keys: &Vec<Vec<Value>>, items: &Vec<OrderingItem>) -> (r: Option<Vec<usize>>)
    ensures
        r matches Some(order) ==> sorted_positions(order@, key_views(keys@), items@),
        (forall|i: int, j: int|
            0 <= i < keys@.len() && 0 <= j < keys@.len() ==> (#[trigger] order_key_comparison(
                key_views(keys@)[i],
                key_views(keys@)[j],
                items@,
            )) is Some) ==> r is Some,
{
    let ghost views = key_views(keys@);
    let mut order: Vec<usize> = Vec::new();
    let mut next: usize = 0;
    while next < keys.len()
        invariant
            next <= keys@.len(),
            views == key_views(keys@),
            order@.len() == next,
            forall|i: int| 0 <= i < order@.len() ==> (#[trigger] order@[i]) < next,
            forall|i: int, j: int| 0 <= i < j < order@.len() ==> #[trigger] order@[i] != #[trigger] order@[j],
            forall|i: int|
                0 <= i < order@.len() - 1 ==> order_key_comparison(
                    views[#[trigger] order@[i] as int],
                    views[order@[i + 1] as int],
                    items@,
                ) != Some(Comparison::Greater),
        decreases keys@.len() - next,
    {
        let mut position = order.len();
        while position > 0
            invariant
                position <= order@.len(),
                order@.len() == next,
                next < keys@.len(),
                views == key_views(keys@),
                forall|i: int| 0 <= i < order@.len() ==> (#[trigger] order@[i]) < next,
                position < order@.len() ==> order_key_comparison(
                    views[order@[position as int] as int],
                    views[next as int],
                    items@,
                ) == Some(Comparison::Greater),
            decreases position,
        {
            let c = compare_order_keys(&keys[order[position - 1]], &keys[next], items);
            proof {
                assert(views[order@[position - 1] as int] == value_views(keys@[order@[position - 1] as int]@));
                assert(views[next as int] == value_views(keys@[next as int]@));
            }
            match c {
                None => return None,
                Some(Comparison::Greater) => {
                    position = position - 1;
                },
                Some(_) => break,
            }
        }
        let ghost before = order@;
        proof {
            if position < before.len() {
                lemma_order_key_antisymmetric(views[before[position as int] as int], views[next as int], items@);
            }
        }
        order.insert(position, next);
        proof {
            assert forall|i: int| 0 <= i < order@.len() - 1 implies order_key_comparison(
                views[#[trigger] order@[i] as int],
                views[order@[i + 1] as int],
                items@,
            ) != Some(Comparison::Greater) by {
                if i + 1 < position {
                    assert(order@[i] == before[i] && order@[i + 1] == before[i + 1]);
                } else if i + 1 == position {
                    assert(order@[i] == before[i] && order@[i + 1] == next);
                } else if i == position {
                    assert(order@[i] == next && order@[i + 1] == before[i]);
                } else {
                    assert(order@[i] == before[i - 1] && order@[i + 1] == before[i]);
                }
            }
        }
        next = next + 1;
    }
    Some(order)
}

// ---------------------------------------------------------------------------
// Joins
// ---------------------------------------------------------------------------

/// `width` nulls.
pub open spec fn nulls(width: nat) -> Seq<ScalarValue> {
    Seq::new(width, |i: int| ScalarValue::Null)
}

/// The matched pairs of left row `i` with the first `j` right rows.
pub open spec fn row_pairs(
    left: Seq<Seq<ScalarValue>>,
    right: Seq<Seq<ScalarValue>>,
    matches: Seq<Seq<bool>>,
    i: int,
    j: int,
) -> Seq<Seq<ScalarValue>>
    decreases j,
{
    if j <= 0 {
        seq![]
    } else {
        let earlier = row_pairs(left, right, matches, i, j - 1);
        if matches[i][j - 1] {
            earlier.push(left[i] + right[j - 1])
        } else {
            earlier
        }
    }
}

/// The matched pairs of the first `i` left rows, left row by left row.
pub open spec fn matched_pairs(
    left: Seq<Seq<ScalarValue>>,
    right: Seq<Seq<ScalarValue>>,
    matches: Seq<Seq<bool>>,
    i: int,
) -> Seq<Seq<ScalarValue>>
    decreases i,
{
    if i <= 0 {
        seq![]
    } else {
        matched_pairs(left, right, matches, i - 1) + row_pairs(left, right, matches, i - 1, right.len() as int)
    }
}

/// The first `i` left rows that match no right row, padded with nulls.
pub open spec fn left_unmatched(
    left: Seq<Seq<ScalarValue>>,
    matches: Seq<Seq<bool>>,
    right_count: nat,
    right_width: nat,
    i: int,
) -> Seq<Seq<ScalarValue>>
    decreases i,
{
    if i <= 0 {
        seq![]
    } else {
        let earlier = left_unmatched(left, matches, right_count, right_width, i - 1);
        if exists|j: int| 0 <= j < right_count && #[trigger] matches[i - 1][j] {
            earlier
        } else {
            earlier.push(left[i - 1] + nulls(right_width))
        }
    }
}

/// The first `j` right rows that match no left row, padded with nulls.
pub open spec fn right_unmatched(
    right: Seq<Seq<ScalarValue>>,
    matches: Seq<Seq<bool>>,
    left_count: nat,
    left_width: nat,
    j: int,
) -> Seq<Seq<ScalarValue>>
    decreases j,
{
    if j <= 0 {
        seq![]
    } else {
        let earlier = right_unmatched(right, matches, left_count, left_width, j - 1);
        if exists|i: int| 0 <= i < left_count && #[trigger] matches[i][j - 1] {
            earlier
        } else {
            earlier.push(nulls(left_width) + right[j - 1])
        }
    }
}

/// The rows of a join: every matching pair of left and right rows, left row
/// by left row; then, for a left or full join, each unmatched left row
/// padded with nulls; then, for a right or full join, each unmatched right
/// row after nulls.
pub open spec fn joined_rows(
    join_type: JoinType,
    left: Seq<Seq<ScalarValue>>,
    right: Seq<Seq<ScalarValue>>,
    matches: Seq<Seq<bool>>,
    left_width: nat,
    right_width: nat,
) -> Seq<Seq<ScalarValue>> {
    let pairs = matched_pairs(left, right, matches, left.len() as int);
    let with_left = if join_type is Left || join_type is Full {
        pairs + left_unmatched(left, matches, right.len(), right_width, left.len() as int)
    } else {
        pairs
    };
    if join_type is Right || join_type is Full {
        with_left + right_unmatched(right, matches, left.len(), left_width, right.len() as int)
    } else {
        with_left
    }
}

pub open spec fn match_views(matches: Seq<Vec<bool>>) -> Seq<Seq<bool>> {
    matches.map_values(|row: Vec<bool>| row@)
}

fn null_values(width: usize) -> (values: Vec<Value>)
    ensures
        value_views(values@) == nulls(width as nat),
{
    let mut values: Vec<Value> = Vec::new();
    let mut index: usize = 0;
    while index < width
        invariant
            index <= width,
            values@.len() == index,
            forall|k: int| 0 <= k < index ==> (#[trigger] values@[k]) is Null,
        decreases width - index,
    {
        values.push(Value::Null);
        index = index + 1;
    }
    assert(value_views(values@) =~= nulls(width as nat));
    values
}

fn concatenate_rows(left: &Row, right: &Row) -> (row: Row)
    ensures
        row_view(row) == row_view(*left) + row_view(*right),
{
    let mut values = clone_values(&left.values);
    let mut more = clone_values(&right.values);
    values.append(&mut more);
    assert(row_view(Row { values }) =~= row_view(*left) + row_view(*right));
    Row::new(values)
}

/// The rows of a join from its inputs and which pairs of rows match.
pub fn join_rows(
    join_type: JoinType,
    left: &Vec<Row>,
    right: &Vec<Row>,
    matches: &Vec<Vec<bool>>,
    left_width: usize,
    right_width: usize,
) -> (rows: Vec<Row>)
    requires
        matches@.len() == left@.len(),
        forall|i: int| 0 <= i < matches@.len() ==> (#[trigger] matches@[i])@.len() == right@.len(),
    ensures
        rows_view(rows@) == joined_rows(
            join_type,
            rows_view(left@),
            rows_view(right@),
            match_views(matches@),
            left_width as nat,
            right_width as nat,
        ),
{
    let ghost l = rows_view(left@);
    let ghost r = rows_view(right@);
    let ghost m = match_views(matches@);
    let mut rows: Vec<Row> = Vec::new();
    let mut i: usize = 0;
    while i < left.len()
        invariant
            i <= left@.len(),
            l == rows_view(left@),
            r == rows_view(right@),
            m == match_views(matches@),
            matches@.len() == left@.len(),
            forall|k: int| 0 <= k < matches@.len() ==> (#[trigger] matches@[k])@.len() == right@.len(),
            rows_view(rows@) == matched_pairs(l, r, m, i as int),
        decreases left@.len() - i,
    {
        let ghost start = rows_view(rows@);
        let mut j: usize = 0;
        while j < right.len()
            invariant
                j <= right@.len(),
                i < left@.len(),
                l == rows_view(left@),
                r == rows_view(right@),
                m == match_views(matches@),
                matches@.len() == left@.len(),
                forall|k: int| 0 <= k < matches@.len() ==> (#[trigger] matches@[k])@.len() == right@.len(),
                rows_view(rows@) == start + row_pairs(l, r, m, i as int, j as int),
            decreases right@.len() - j,
        {
            assert(m[i as int] == matches@[i as int]@);
            if matches[i][j] {
                let ghost prev = rows_view(rows@);
                let pair = concatenate_rows(&left[i], &right[j]);
                assert(row_view(pair) == l[i as int] + r[j as int]);
                rows.push(pair);
                assert(rows_view(rows@) =~= prev.push(row_view(pair)));
                assert(row_pairs(l, r, m, i as int, j + 1) == row_pairs(l, r, m, i as int, j as int).push(
                    l[i as int] + r[j as int],
                ));
                assert(rows_view(rows@) =~= start + row_pairs(l, r, m, i as int, j + 1));
            }
            j = j + 1;
        }
        i = i + 1;
    }
    if join_type == JoinType::Left || join_type == JoinType::Full {
        let ghost start = rows_view(rows@);
        let mut i: usize = 0;
        while i < left.len()
            invariant
                i <= left@.len(),
                l == rows_view(left@),
                m == match_views(matches@),
                matches@.len() == left@.len(),
                forall|k: int| 0 <= k < matches@.len() ==> (#[trigger] matches@[k])@.len() == right@.len(),
                rows_view(rows@) == start + left_unmatched(l, m, right@.len() as nat, right_width as nat, i as int),
            decreases left@.len() - i,
        {
            let mut matched = false;
            let mut j: usize = 0;
            while j < right.len()
                invariant
                    j <= right@.len(),
                    i < left@.len(),
                    m == match_views(matches@),
                    matches@.len() == left@.len(),
                    forall|k: int| 0 <= k < matches@.len() ==> (#[trigger] matches@[k])@.len() == right@.len(),
                    matched == exists|k: int| 0 <= k < j && #[trigger] m[i as int][k],
                decreases right@.len() - j,
            {
                assert(m[i as int] == matches@[i as int]@);
                if matches[i][j] {
                    matched = true;
                }
                j = j + 1;
            }
            if !matched {
                let mut values = clone_values(&left[i].values);
                let mut padding = null_values(right_width);
                values.append(&mut padding);
                let row = Row::new(values);
                assert(row_view(row) =~= l[i as int] + nulls(right_width as nat));
                let ghost prev = rows_view(rows@);
                rows.push(row);
                assert(rows_view(rows@) =~= prev.push(row_view(row)));
                assert(rows_view(rows@) =~= start + left_unmatched(
                    l,
                    m,
                    right@.len() as nat,
                    right_width as nat,
                    i + 1,
                ));
            }
            i = i + 1;
        }
    }
    if join_type == JoinType::Right || join_type == JoinType::Full {
        let ghost start = rows_view(rows@);
        let mut j: usize = 0;
        while j < right.len()
            invariant
                j <= right@.len(),
                r == rows_view(right@),
                m == match_views(matches@),
                matches@.len() == left@.len(),
                forall|k: int| 0 <= k < matches@.len() ==> (#[trigger] matches@[k])@.len() == right@.len(),
                rows_view(rows@) == start + right_unmatched(r, m, left@.len() as nat, left_width as nat, j as int),
            decreases right@.len() - j,
        {
            let mut matched = false;
            let mut i: usize = 0;
            while i < left.len()
                invariant
                    i <= left@.len(),
                    j < right@.len(),
                    m == match_views(matches@),
                    matches@.len() == left@.len(),
                    forall|k: int| 0 <= k < matches@.len() ==> (#[trigger] matches@[k])@.len() == right@.len(),
                    matched == exists|k: int| 0 <= k < i && #[trigger] m[k][j as int],
                decreases left@.len() - i,
            {
                assert(m[i as int] == matches@[i as int]@);
                if matches[i][j] {
                    matched = true;
                }
                i = i + 1;
            }
            if !matched {
                let mut values = null_values(left_width);
                let mut rest = clone_values(&right[j].values);
                values.append(&mut rest);
                let row = Row::new(values);
                assert(row_view(row) =~= nulls(left_width as nat) + r[j as int]);
                let ghost prev = rows_view(rows@);
                rows.push(row);
                assert(rows_view(rows@) =~= prev.push(row_view(row)));
                assert(rows_view(rows@) =~= start + right_unmatched(
                    r,
                    m,
                    left@.len() as nat,
                    left_width as nat,
                    j + 1,
                ));
            }
            j = j + 1;
        }
    }
    rows
}

// ---------------------------------------------------------------------------
// Row widths
// ---------------------------------------------------------------------------

/// Every row holds `width` values.
pub open spec fn uniform_width(rows: Seq<Seq<ScalarValue>>, width: nat) -> bool {
    forall|i: int| 0 <= i < rows.len() ==> (#[trigger] rows[i]).len() == width
}

proof fn lemma_first_occurrences_width(rows: Seq<Seq<ScalarValue>>, width: nat)
    requires
        uniform_width(rows, width),
    ensures
        uniform_width(first_occurrences(rows), width),
    decreases rows.len(),
{
    if rows.len() > 0 {
        lemma_first_occurrences_width(rows.drop_last(), width);
        assert(rows.last() == rows[rows.len() - 1]);
    }
}

proof fn lemma_kept_rows_width(
    left: Seq<Seq<ScalarValue>>,
    keep: spec_fn(Seq<Seq<ScalarValue>>, Seq<ScalarValue>) -> bool,
    width: nat,
)
    requires
        uniform_width(left, width),
    ensures
        uniform_width(kept_rows(left, keep), width),
    decreases left.len(),
{
    if left.len() > 0 {
        lemma_kept_rows_width(left.drop_last(), keep, width);
        assert(left.last() == left[left.len() - 1]);
    }
}

proof fn lemma_set_rows_width(
    operation: SetOperation,
    quantifier: SetQuantifier,
    left: Seq<Seq<ScalarValue>>,
    right: Seq<Seq<ScalarValue>>,
    width: nat,
)
    requires
        uniform_width(left, width),
        uniform_width(right, width),
    ensures
        uniform_width(set_rows(operation, quantifier, left, right), width),
{
    assert(uniform_width(left + right, width)) by {
        assert forall|i: int| 0 <= i < (left + right).len() implies (#[trigger] (left + right)[i]).len()
            == width by {
            if i >= left.len() {
                assert((left + right)[i] == right[i - left.len()]);
            }
        }
    }
    lemma_first_occurrences_width(left + right, width);
    let before = |before: Seq<Seq<ScalarValue>>, row: Seq<ScalarValue>| occurrences(before, row) < occurrences(
        right,
        row,
    );
    let after = |before: Seq<Seq<ScalarValue>>, row: Seq<ScalarValue>| occurrences(before, row) >= occurrences(
        right,
        row,
    );
    let held = |before: Seq<Seq<ScalarValue>>, row: Seq<ScalarValue>| right.contains(row);
    let lacked = |before: Seq<Seq<ScalarValue>>, row: Seq<ScalarValue>| !right.contains(row);
    lemma_kept_rows_width(left, before, width);
    lemma_kept_rows_width(left, after, width);
    lemma_kept_rows_width(left, held, width);
    lemma_kept_rows_width(left, lacked, width);
    lemma_first_occurrences_width(kept_rows(left, held), width);
    lemma_first_occurrences_width(kept_rows(left, lacked), width);
}

proof fn lemma_concatenation_width(rows: Seq<Seq<ScalarValue>>, more: Seq<Seq<ScalarValue>>, width: nat)
    requires
        uniform_width(rows, width),
        uniform_width(more, width),
    ensures
        uniform_width(rows + more, width),
{
    assert forall|i: int| 0 <= i < (rows + more).len() implies (#[trigger] (rows + more)[i]).len() == width by {
        if i >= rows.len() {
            assert((rows + more)[i] == more[i - rows.len()]);
        }
    }
}

proof fn lemma_row_pairs_width(
    left: Seq<Seq<ScalarValue>>,
    right: Seq<Seq<ScalarValue>>,
    matches: Seq<Seq<bool>>,
    i: int,
    j: int,
    left_width: nat,
    right_width: nat,
)
    requires
        uniform_width(left, left_width),
        uniform_width(right, right_width),
        0 <= i < left.len(),
        j <= right.len(),
    ensures
        uniform_width(row_pairs(left, right, matches, i, j), left_width + right_width),
    decreases j,
{
    if j > 0 {
        lemma_row_pairs_width(left, right, matches, i, j - 1, left_width, right_width);
        assert((left[i] + right[j - 1]).len() == left_width + right_width);
    }
}

proof fn lemma_joined_rows_width(
    join_type: JoinType,
    left: Seq<Seq<ScalarValue>>,
    right: Seq<Seq<ScalarValue>>,
    matches: Seq<Seq<bool>>,
    left_width: nat,
    right_width: nat,
)
    requires
        uniform_width(left, left_width),
        uniform_width(right, right_width),
    ensures
        uniform_width(joined_rows(join_type, left, right, matches, left_width, right_width), left_width + right_width),
{
    let width = left_width + right_width;
    assert forall|i: int| 0 <= i <= left.len() implies uniform_width(
        #[trigger] matched_pairs(left, right, matches, i),
        width,
    ) by {
        lemma_matched_pairs_width(left, right, matches, i, left_width, right_width);
    }
    assert forall|i: int| 0 <= i <= left.len() implies uniform_width(
        #[trigger] left_unmatched(left, matches, right.len(), right_width, i),
        width,
    ) by {
        lemma_left_unmatched_width(left, matches, right.len(), i, left_width, right_width);
    }
    assert forall|j: int| 0 <= j <= right.len() implies uniform_width(
        #[trigger] right_unmatched(right, matches, left.len(), left_width, j),
        width,
    ) by {
        lemma_right_unmatched_width(right, matches, left.len(), j, left_width, right_width);
    }
    let pairs = matched_pairs(left, right, matches, left.len() as int);
    let lefts = left_unmatched(left, matches, right.len(), right_width, left.len() as int);
    let rights = right_unmatched(right, matches, left.len(), left_width, right.len() as int);
    lemma_concatenation_width(pairs, lefts, width);
    let with_left = if join_type is Left || join_type is Full {
        pairs + lefts
    } else {
        pairs
    };
    lemma_concatenation_width(with_left, rights, width);
}

proof fn lemma_matched_pairs_width(
    left: Seq<Seq<ScalarValue>>,
    right: Seq<Seq<ScalarValue>>,
    matches: Seq<Seq<bool>>,
    i: int,
    left_width: nat,
    right_width: nat,
)
    requires
        uniform_width(left, left_width),
        uniform_width(right, right_width),
        i <= left.len(),
    ensures
        uniform_width(matched_pairs(left, right, matches, i), left_width + right_width),
    decreases i,
{
    if i > 0 {
        lemma_matched_pairs_width(left, right, matches, i - 1, left_width, right_width);
        lemma_row_pairs_width(left, right, matches, i - 1, right.len() as int, left_width, right_width);
        lemma_concatenation_width(
            matched_pairs(left, right, matches, i - 1),
            row_pairs(left, right, matches, i - 1, right.len() as int),
            left_width + right_width,
        );
    }
}

proof fn lemma_left_unmatched_width(
    left: Seq<Seq<ScalarValue>>,
    matches: Seq<Seq<bool>>,
    right_count: nat,
    i: int,
    left_width: nat,
    right_width: nat,
)
    requires
        uniform_width(left, left_width),
        i <= left.len(),
    ensures
        uniform_width(left_unmatched(left, matches, right_count, right_width, i), left_width + right_width),
    decreases i,
{
    if i > 0 {
        lemma_left_unmatched_width(left, matches, right_count, i - 1, left_width, right_width);
        assert((left[i - 1] + nulls(right_width)).len() == left_width + right_width);
    }
}

proof fn lemma_right_unmatched_width(
    right: Seq<Seq<ScalarValue>>,
    matches: Seq<Seq<bool>>,
    left_count: nat,
    j: int,
    left_width: nat,
    right_width: nat,
)
    requires
        uniform_width(right, right_width),
        j <= right.len(),
    ensures
        uniform_width(right_unmatched(right, matches, left_count, left_width, j), left_width + right_width),
    decreases j,
{
    if j > 0 {
        lemma_right_unmatched_width(right, matches, left_count, j - 1, left_width, right_width);
        assert((nulls(left_width) + right[j - 1]).len() == left_width + right_width);
    }
}

proof fn lemma_push_width(rows: Seq<Row>, row: Row, width: nat)
    requires
        uniform_width(rows_view(rows), width),
        row_view(row).len() == width,
    ensures
        uniform_width(rows_view(rows.push(row)), width),
{
    assert forall|i: int| 0 <= i < rows_view(rows.push(row)).len() implies (#[trigger] rows_view(
        rows.push(row),
    )[i]).len() == width by {
        if i < rows.len() {
            assert(rows_view(rows.push(row))[i] == rows_view(rows)[i]);
        }
    }
}

// ---------------------------------------------------------------------------
// Errors and results
// ---------------------------------------------------------------------------

/// The complete successful result of evaluating one graph.
#[derive(Debug, PartialEq, Eq)]
pub struct EvaluationResult {
    pub schema: Vec<Field>,
    pub collection: CollectionKind,
    pub rows: Vec<Row>,
}

/// A demanded host relation did not conform to its input node.
#[derive(Debug, PartialEq, Eq)]
pub struct InputError {
    pub node: NodeId,
    pub binding: RelationBinding,
    pub kind: InputErrorKind,
}

#[derive(Debug, PartialEq, Eq)]
pub enum InputErrorKind {
    MissingBinding,
    SchemaArity { expected: usize, actual: usize },
    FieldName { index: usize, expected: String, actual: String },
    FieldDescriptor { index: usize, expected: TypeDescriptor, actual: TypeDescriptor },
    RowArity { row: usize, expected: usize, actual: usize },
    InvalidValue { row: usize, field: usize, expected: TypeDescriptor, actual: Option<ScalarType> },
}

/// A runtime failure while evaluating a valid graph over conforming inputs.
#[derive(Debug, PartialEq, Eq)]
pub struct EvaluationError {
    pub node: NodeId,
    pub kind: EvaluationErrorKind,
}

/// A failure at one of the three boundaries that evaluation crosses.
#[derive(Debug, PartialEq, Eq)]
pub enum EvaluateError {
    Validation(ValidationError),
    Input(InputError),
    Evaluation(EvaluationError),
}

/// The `Debug` spelling of an optional scalar type.
pub open spec fn optional_scalar_debug(scalar: Option<ScalarType>) -> Seq<char> {
    match scalar {
        Some(s) => "Some("@ + scalar_debug(s) + ")"@,
        None => "None"@,
    }
}

/// What is wrong with a host relation, as text.
pub open spec fn input_problem_text(kind: InputErrorKind) -> Seq<char> {
    match kind {
        InputErrorKind::MissingBinding => "is missing"@,
        InputErrorKind::SchemaArity { expected, actual } => "has "@ + decimal_digits(actual as nat)
            + " fields but the node requires "@ + decimal_digits(expected as nat),
        InputErrorKind::FieldName { index, expected, actual } => "has field name `"@ + actual@
            + "` at position "@ + decimal_digits(index as nat) + ", expected `"@ + expected@ + "`"@,
        InputErrorKind::FieldDescriptor { index, expected, actual } => "has descriptor "@
            + descriptor_debug(actual) + " at position "@ + decimal_digits(index as nat) + ", expected "@
            + descriptor_debug(expected),
        InputErrorKind::RowArity { row, expected, actual } => "has "@ + decimal_digits(actual as nat)
            + " values in row "@ + decimal_digits(row as nat) + ", expected "@ + decimal_digits(
            expected as nat,
        ),
        InputErrorKind::InvalidValue { row, field, expected, actual } => "has value type "@
            + optional_scalar_debug(actual) + " at row "@ + decimal_digits(row as nat) + ", field "@
            + decimal_digits(field as nat) + ", expected "@ + descriptor_debug(expected),
    }
}

/// The text of an input error: the binding and node, then what is wrong.
pub open spec fn input_error_text(error: InputError) -> Seq<char> {
    "host binding `"@ + error.binding@ + "` for input node `"@ + error.node@ + "` "@ + input_problem_text(
        error.kind,
    )
}

/// The text of a runtime evaluation error.
pub open spec fn evaluation_error_text(error: EvaluationError) -> Seq<char> {
    "evaluation failed at node `"@ + error.node@ + "`: "@ + match error.kind {
        EvaluationErrorKind::IntegerOverflow => "INT64 overflow"@,
        EvaluationErrorKind::DivisionByZero => "division by zero"@,
        EvaluationErrorKind::RemainderByZero => "remainder by zero"@,
        EvaluationErrorKind::InvalidTextCast { target } => "invalid TEXT to "@ + scalar_debug(target)
            + " cast"@,
    }
}

impl SnapshotError {
    /// The error as one line of text.
    pub fn describe(&self) -> (text: String)
        ensures
            text@ == match self {
                SnapshotError::DuplicateBinding(binding) => "duplicate snapshot binding `"@ + binding@
                    + "`"@,
            },
    {
        match self {
            SnapshotError::DuplicateBinding(binding) => enclosed(
                "duplicate snapshot binding `",
                binding.as_str(),
                "`",
            ),
        }
    }
}

/// Appends what is wrong with a host relation.
/// Appends the `Debug` spelling of an optional scalar type.
fn push_optional_scalar_debug(text: &mut String, scalar: Option<ScalarType>)
    ensures
        final(text)@ == old(text)@ + optional_scalar_debug(scalar),
{
    match scalar {
        Some(scalar) => {
            text.append("Some(");
            text.append(scalar_debug_text(scalar));
            text.append(")");
        },
        None => {
            text.append("None");
        },
    }
    assert(text@ =~= old(text)@ + optional_scalar_debug(scalar));
}

/// What is wrong with a host relation.
fn input_problem(kind: &InputErrorKind) -> (text: String)
    ensures
        text@ == input_problem_text(*kind),
{
    match kind {
        InputErrorKind::MissingBinding => String::from_str("is missing"),
        InputErrorKind::SchemaArity { expected, actual } => {
            let mut text = enclosed_number("has ", *actual as u64, " fields but the node requires ");
            push_decimal(&mut text, *expected as u64);
            text
        },
        InputErrorKind::FieldName { index, expected, actual } => {
            let mut text = enclosed("has field name `", actual.as_str(), "` at position ");
            push_decimal(&mut text, *index as u64);
            text.append(", expected `");
            text.append(expected.as_str());
            text.append("`");
            text
        },
        InputErrorKind::FieldDescriptor { index, expected, actual } => {
            let mut text = String::from_str("has descriptor ");
            push_descriptor_debug(&mut text, *actual);
            text.append(" at position ");
            push_decimal(&mut text, *index as u64);
            text.append(", expected ");
            push_descriptor_debug(&mut text, *expected);
            text
        },
        InputErrorKind::RowArity { row, expected, actual } => {
            let mut text = enclosed_number("has ", *actual as u64, " values in row ");
            push_decimal(&mut text, *row as u64);
            text.append(", expected ");
            push_decimal(&mut text, *expected as u64);
            text
        },
        InputErrorKind::InvalidValue { row, field, expected, actual } => {
            let mut text = String::from_str("has value type ");
            push_optional_scalar_debug(&mut text, *actual);
            text.append(" at row ");
            push_decimal(&mut text, *row as u64);
            text.append(", field ");
            push_decimal(&mut text, *field as u64);
            text.append(", expected ");
            push_descriptor_debug(&mut text, *expected);
            text
        },
    }
}

impl InputError {
    /// The error as one line of text.
    pub fn describe(&self) -> (text: String)
        ensures
            text@ == input_error_text(*self),
    {
        let mut text = enclosed("host binding `", self.binding.as_str(), "` for input node `");
        text.append(self.node.as_str());
        text.append("` ");
        let problem = input_problem(&self.kind);
        text.append(problem.as_str());
        text
    }
}

impl EvaluationError {
    /// The error as one line of text.
    pub fn describe(&self) -> (text: String)
        ensures
            text@ == evaluation_error_text(*self),
    {
        let mut text = enclosed("evaluation failed at node `", self.node.as_str(), "`: ");
        let problem = match self.kind {
            EvaluationErrorKind::IntegerOverflow => String::from_str("INT64 overflow"),
            EvaluationErrorKind::DivisionByZero => String::from_str("division by zero"),
            EvaluationErrorKind::RemainderByZero => String::from_str("remainder by zero"),
            EvaluationErrorKind::InvalidTextCast { target } => enclosed(
                "invalid TEXT to ",
                scalar_debug_text(target),
                " cast",
            ),
        };
        text.append(problem.as_str());
        text
    }
}

impl EvaluateError {
    /// The error as one line of text.
    pub fn describe(&self) -> (text: String)
        ensures
            text@ == match self {
                EvaluateError::Validation(error) => validation_error_text(error.kind),
                EvaluateError::Input(error) => input_error_text(*error),
                EvaluateError::Evaluation(error) => evaluation_error_text(*error),
            },
    {
        match self {
            EvaluateError::Validation(error) => error.describe(),
            EvaluateError::Input(error) => error.describe(),
            EvaluateError::Evaluation(error) => error.describe(),
        }
    }
}

/// Whether a value may stand in a field with the descriptor.
pub open spec fn value_fits(value: ScalarValue, descriptor: TypeDescriptor) -> bool {
    match scalar_of(value) {
        Some(scalar) => scalar == descriptor.scalar,
        None => descriptor.nullable,
    }
}

/// Whether a host relation conforms to the schema of its input node: the
/// same field names and descriptors in order, and rows of that width whose
/// values fit their fields.
pub open spec fn input_conforms(expected: Seq<Field>, relation: InputRelation) -> bool {
    &&& relation.schema@.len() == expected.len()
    &&& forall|i: int|
        0 <= i < expected.len() ==> (#[trigger] relation.schema@[i]).name@ == expected[i].name@
            && relation.schema@[i].descriptor == expected[i].descriptor
    &&& forall|r: int|
        0 <= r < relation.rows@.len() ==> (#[trigger] relation.rows@[r]).values@.len() == expected.len()
            && forall|f: int|
            0 <= f < expected.len() ==> value_fits(
                (#[trigger] relation.rows@[r].values@[f])@,
                expected[f].descriptor,
            )
}

/// The first `count` fields of the relation have the expected names and
/// descriptors.
pub open spec fn fields_agree(expected: Seq<Field>, relation: InputRelation, count: int) -> bool {
    forall|i: int|
        0 <= i < count ==> (#[trigger] relation.schema@[i]).name@ == expected[i].name@
            && relation.schema@[i].descriptor == expected[i].descriptor
}

/// The first `count` values of the row fit their fields.
pub open spec fn values_fit(expected: Seq<Field>, row: Row, count: int) -> bool {
    forall|f: int| 0 <= f < count ==> value_fits((#[trigger] row.values@[f])@, expected[f].descriptor)
}

/// The first `count` rows have the expected width and values that fit.
pub open spec fn rows_fit(expected: Seq<Field>, relation: InputRelation, count: int) -> bool {
    forall|r: int|
        0 <= r < count ==> (#[trigger] relation.rows@[r]).values@.len() == expected.len() && values_fit(
            expected,
            relation.rows@[r],
            expected.len() as int,
        )
}

/// The first difference between a host relation and the schema of its
/// input node: the field count, then each field's name and descriptor in
/// order, then each row's width and values in order.
pub open spec fn first_input_difference(expected: Seq<Field>, relation: InputRelation, kind: InputErrorKind) -> bool {
    let width = expected.len() as int;
    match kind {
        InputErrorKind::MissingBinding => false,
        InputErrorKind::SchemaArity { expected: e, actual: a } => relation.schema@.len() != expected.len()
            && e == expected.len() && a == relation.schema@.len(),
        InputErrorKind::FieldName { index, expected: e, actual: a } => {
            &&& relation.schema@.len() == expected.len()
            &&& index < expected.len()
            &&& fields_agree(expected, relation, index as int)
            &&& relation.schema@[index as int].name@ != expected[index as int].name@
            &&& e@ == expected[index as int].name@
            &&& a@ == relation.schema@[index as int].name@
        },
        InputErrorKind::FieldDescriptor { index, expected: e, actual: a } => {
            &&& relation.schema@.len() == expected.len()
            &&& index < expected.len()
            &&& fields_agree(expected, relation, index as int)
            &&& relation.schema@[index as int].name@ == expected[index as int].name@
            &&& relation.schema@[index as int].descriptor != expected[index as int].descriptor
            &&& e == expected[index as int].descriptor
            &&& a == relation.schema@[index as int].descriptor
        },
        InputErrorKind::RowArity { row, expected: e, actual: a } => {
            &&& relation.schema@.len() == expected.len()
            &&& fields_agree(expected, relation, width)
            &&& row < relation.rows@.len()
            &&& rows_fit(expected, relation, row as int)
            &&& relation.rows@[row as int].values@.len() != expected.len()
            &&& e == expected.len()
            &&& a == relation.rows@[row as int].values@.len()
        },
        InputErrorKind::InvalidValue { row, field, expected: e, actual } => {
            &&& relation.schema@.len() == expected.len()
            &&& fields_agree(expected, relation, width)
            &&& row < relation.rows@.len()
            &&& rows_fit(expected, relation, row as int)
            &&& relation.rows@[row as int].values@.len() == expected.len()
            &&& field < expected.len()
            &&& values_fit(expected, relation.rows@[row as int], field as int)
            &&& !value_fits(relation.rows@[row as int].values@[field as int]@, expected[field as int].descriptor)
            &&& e == expected[field as int].descriptor
            &&& actual == scalar_of(relation.rows@[row as int].values@[field as int]@)
        },
    }
}

/// Checks a host relation against the schema of its input node, reporting
/// the first difference.
pub fn check_input(expected: &Vec<Field>, relation: &InputRelation) -> (r: Result<(), InputErrorKind>)
    ensures
        r is Ok <==> input_conforms(expected@, *relation),
        r matches Err(kind) ==> first_input_difference(expected@, *relation, kind),
{
    if relation.schema.len() != expected.len() {
        return Err(InputErrorKind::SchemaArity { expected: expected.len(), actual: relation.schema.len() });
    }
    let mut index: usize = 0;
    while index < expected.len()
        invariant
            index <= expected@.len(),
            relation.schema@.len() == expected@.len(),
            forall|i: int|
                0 <= i < index ==> (#[trigger] relation.schema@[i]).name@ == expected@[i].name@
                    && relation.schema@[i].descriptor == expected@[i].descriptor,
        decreases expected@.len() - index,
    {
        let actual = &relation.schema[index];
        let field = &expected[index];
        if actual.name != field.name {
            return Err(
                InputErrorKind::FieldName {
                    index,
                    expected: field.name.clone(),
                    actual: actual.name.clone(),
                },
            );
        }
        if actual.descriptor != field.descriptor {
            return Err(
                InputErrorKind::FieldDescriptor {
                    index,
                    expected: field.descriptor,
                    actual: actual.descriptor,
                },
            );
        }
        index = index + 1;
    }
    let mut row_index: usize = 0;
    while row_index < relation.rows.len()
        invariant
            row_index <= relation.rows@.len(),
            relation.schema@.len() == expected@.len(),
            forall|i: int|
                0 <= i < expected@.len() ==> (#[trigger] relation.schema@[i]).name@ == expected@[i].name@
                    && relation.schema@[i].descriptor == expected@[i].descriptor,
            forall|r: int|
                0 <= r < row_index ==> (#[trigger] relation.rows@[r]).values@.len() == expected@.len()
                    && forall|f: int|
                    0 <= f < expected@.len() ==> value_fits(
                        (#[trigger] relation.rows@[r].values@[f])@,
                        expected@[f].descriptor,
                    ),
        decreases relation.rows@.len() - row_index,
    {
        let row = &relation.rows[row_index];
        if row.values.len() != expected.len() {
            return Err(
                InputErrorKind::RowArity { row: row_index, expected: expected.len(), actual: row.values.len() },
            );
        }
        let mut field_index: usize = 0;
        while field_index < expected.len()
            invariant
                field_index <= expected@.len(),
                row.values@.len() == expected@.len(),
                row == relation.rows@[row_index as int],
                forall|f: int|
                    0 <= f < field_index ==> value_fits(
                        (#[trigger] row.values@[f])@,
                        expected@[f].descriptor,
                    ),
            decreases expected@.len() - field_index,
        {
            let value = &row.values[field_index];
            let descriptor = expected[field_index].descriptor;
            let valid = match value.scalar_type() {
                Some(actual) => actual == descriptor.scalar,
                None => descriptor.nullable,
            };
            if !valid {
                return Err(
                    InputErrorKind::InvalidValue {
                        row: row_index,
                        field: field_index,
                        expected: descriptor,
                        actual: value.scalar_type(),
                    },
                );
            }
            field_index = field_index + 1;
        }
        row_index = row_index + 1;
    }
    Ok(())
}

// ---------------------------------------------------------------------------
// The evaluator
// ---------------------------------------------------------------------------

enum NodeState {
    Unvisited,
    InProgress,
    Done(Vec<Row>),
}

spec fn count_unvisited(states: Seq<NodeState>) -> nat
    decreases states.len(),
{
    if states.len() == 0 {
        0
    } else {
        count_unvisited(states.drop_last()) + if states.last() is Unvisited {
            1nat
        } else {
            0nat
        }
    }
}

proof fn lemma_unvisited_update(states: Seq<NodeState>, index: int, next: NodeState)
    requires
        0 <= index < states.len(),
        !(next is Unvisited),
    ensures
        count_unvisited(states.update(index, next)) + (if states[index] is Unvisited {
            1nat
        } else {
            0nat
        }) == count_unvisited(states),
    decreases states.len(),
{
    if index == states.len() - 1 {
        assert(states.update(index, next).drop_last() =~= states.drop_last());
    } else {
        lemma_unvisited_update(states.drop_last(), index, next);
        assert(states.update(index, next).drop_last() =~= states.drop_last().update(index, next));
    }
}

fn unvisited_states(count: usize) -> (states: Vec<NodeState>)
    ensures
        states@.len() == count,
        forall|k: int| 0 <= k < count ==> #[trigger] states@[k] is Unvisited,
{
    let mut states: Vec<NodeState> = Vec::new();
    let mut index: usize = 0;
    while index < count
        invariant
            index <= count,
            states@.len() == index,
            forall|k: int| 0 <= k < index ==> #[trigger] states@[k] is Unvisited,
        decreases count - index,
    {
        states.push(NodeState::Unvisited);
        index = index + 1;
    }
    states
}

/// A valid graph never reaches this: an expression or node that disagrees
/// with its checked annotations, or a reference that leads nowhere.
fn inconsistency(node: &NodeId) -> (e: EvaluateError)
    ensures
        e matches EvaluateError::Validation(v) && v.kind is InvalidNode,
{
    EvaluateError::Validation(ValidationError { kind: ValidationErrorKind::InvalidNode, node: Some(node.clone()) })
}

/// The value of a scalar operation, or its failure at `node`.
fn settle(node: &NodeId, outcome: Result<Value, Option<EvaluationErrorKind>>) -> (r: Result<Value, EvaluateError>)
    ensures
        r matches Err(e) ==> !(e is Input),
        r matches Err(EvaluateError::Validation(v)) ==> v.kind is InvalidNode,
        outcome matches Ok(value) ==> r == Ok::<Value, EvaluateError>(value),
        outcome matches Err(Some(kind)) ==> r matches Err(EvaluateError::Evaluation(e)) && e.node@ == node@
            && e.kind == kind,
        outcome matches Err(None) ==> r matches Err(EvaluateError::Validation(v)) && v.kind is InvalidNode,
        settles_as(r, outcome_of(outcome), node@),
{
    match outcome {
        Ok(value) => Ok(value),
        Err(Some(kind)) => Err(EvaluateError::Evaluation(EvaluationError { node: node.clone(), kind })),
        Err(None) => Err(inconsistency(node)),
    }
}

/// The position of a field in a schema.
fn field_position(schema: &Vec<Field>, field: &FieldId) -> (r: Option<usize>)
    ensures
        r matches Some(p) ==> p < schema@.len() && schema@[p as int].id@ == field@ && forall|j: int|
            0 <= j < p ==> (#[trigger] schema@[j]).id@ != field@,
        r is None ==> forall|j: int| 0 <= j < schema@.len() ==> (#[trigger] schema@[j]).id@ != field@,
{
    let mut index: usize = 0;
    while index < schema.len()
        invariant
            index <= schema@.len(),
            forall|j: int| 0 <= j < index ==> (#[trigger] schema@[j]).id@ != field@,
        decreases schema@.len() - index,
    {
        if schema[index].id.same(field) {
            return Some(index);
        }
        index = index + 1;
    }
    None
}

/// The value of `field` in `row`.
fn read_field(node: &NodeId, schema: &Vec<Field>, row: &Row, field: &FieldId) -> (r: Result<Value, EvaluateError>)
    ensures
        r matches Err(e) ==> !(e is Input),
        r matches Err(EvaluateError::Validation(v)) ==> v.kind is InvalidNode,
        r is Ok <==> exists|p: int|
            0 <= p < schema@.len() && (#[trigger] schema@[p]).id@ == field@ && (forall|j: int|
                0 <= j < p ==> (#[trigger] schema@[j]).id@ != field@) && p < row.values@.len(),
        r matches Ok(value) ==> exists|p: int|
            0 <= p < schema@.len() && (#[trigger] schema@[p]).id@ == field@ && (forall|j: int|
                0 <= j < p ==> (#[trigger] schema@[j]).id@ != field@) && p < row.values@.len() && value@
                == row.values@[p]@,
        settles_as(r, field_outcome(schema@, row_view(*row), field@), node@),
{
    let found = field_position(schema, field);
    proof {
        if let Some(position) = found {
            assert forall|p: int| #[trigger] first_field_position(schema@, field@, p) implies p == position by {
                if p < position {
                    assert(schema@[p].id@ != field@);
                } else if p > position {
                    assert(schema@[position as int].id@ != field@);
                }
            }
            assert(first_field_position(schema@, field@, position as int));
        } else {
            assert forall|p: int| !#[trigger] first_field_position(schema@, field@, p) by {
                if 0 <= p < schema@.len() {
                    assert(schema@[p].id@ != field@);
                }
            }
        }
    }
    match found {
        Some(position) => if position < row.values.len() {
            Ok(row.values[position].clone())
        } else {
            Err(inconsistency(node))
        },
        None => Err(inconsistency(node)),
    }
}

/// Whether two ordering keys hold the same values.
fn same_values(left: &Vec<Value>, right: &Vec<Value>) -> (r: bool)
    ensures
        r == (value_views(left@) == value_views(right@)),
{
    if left.len() != right.len() {
        assert(value_views(left@).len() != value_views(right@).len());
        return false;
    }
    let mut index: usize = 0;
    while index < left.len()
        invariant
            index <= left@.len(),
            left@.len() == right@.len(),
            forall|k: int| 0 <= k < index ==> (#[trigger] left@[k])@ == right@[k]@,
        decreases left@.len() - index,
    {
        if !same_value(&left[index], &right[index]) {
            assert(value_views(left@)[index as int] != value_views(right@)[index as int]);
            return false;
        }
        index = index + 1;
    }
    assert(value_views(left@) =~= value_views(right@));
    true
}

/// Some group holds position `p`.
pub open spec fn grouped(groups: Seq<(Vec<Value>, Vec<usize>)>, p: int) -> bool {
    exists|g: int, t: int| 0 <= g < groups.len() && 0 <= t < groups[g].1@.len() && #[trigger] groups[g].1@[t] == p
}

/// Every key position lies in a group whose key it has, each group holds
/// at least one position, and no two groups have equal keys.
pub open spec fn groups_partition(keys: Seq<Seq<ScalarValue>>, groups: Seq<(Vec<Value>, Vec<usize>)>) -> bool {
    &&& forall|g: int| 0 <= g < groups.len() ==> (#[trigger] groups[g]).1@.len() > 0
    &&& forall|g: int, t: int|
        0 <= g < groups.len() && 0 <= t < groups[g].1@.len() ==> (#[trigger] groups[g].1@[t]) < keys.len()
            && keys[groups[g].1@[t] as int] == value_views(groups[g].0@)
    &&& forall|p: int| 0 <= p < keys.len() ==> #[trigger] grouped(groups, p)
    &&& forall|g: int, h: int|
        0 <= g < h < groups.len() ==> value_views((#[trigger] groups[g]).0@) != value_views((#[trigger] groups[h]).0@)
}

fn group_by_keys(keys: Vec<Vec<Value>>, Ghost(width): Ghost<nat>) -> (groups: Vec<(Vec<Value>, Vec<usize>)>)
    ensures
        (forall|k: int| 0 <= k < keys@.len() ==> (#[trigger] keys@[k])@.len() == width) ==> forall|g: int|
            0 <= g < groups@.len() ==> (#[trigger] groups@[g]).0@.len() == width,
        groups_partition(key_views(keys@), groups@),
{
    let ghost uniform = forall|k: int| 0 <= k < keys@.len() ==> (#[trigger] keys@[k])@.len() == width;
    let ghost original = keys@;
    let ghost views = key_views(keys@);
    let mut groups: Vec<(Vec<Value>, Vec<usize>)> = Vec::new();
    let mut keys = keys;
    let count = keys.len();
    let mut index: usize = 0;
    while keys.len() > 0
        invariant
            index + keys@.len() == count,
            count == original.len(),
            views == key_views(original),
            keys@ == original.subrange(index as int, count as int),
            uniform ==> forall|k: int| 0 <= k < original.len() ==> (#[trigger] original[k])@.len() == width,
            uniform ==> forall|g: int| 0 <= g < groups@.len() ==> (#[trigger] groups@[g]).0@.len() == width,
            groups_partition(views.take(index as int), groups@),
        decreases keys@.len(),
    {
        let ghost before = keys@;
        let key = keys.remove(0);
        proof {
            assert(key == original[index as int]);
            assert(keys@ =~= original.subrange(index + 1, count as int));
            assert(views[index as int] == value_views(key@));
        }
        let mut found = false;
        let mut position: usize = 0;
        let ghost start = groups@;
        while position < groups.len()
            invariant
                position <= groups@.len(),
                !found ==> groups@ == start,
                !found ==> forall|g: int| 0 <= g < position ==> value_views((#[trigger] groups@[g]).0@) != value_views(key@),
                found ==> groups_partition(views.take(index + 1), groups@),
                found ==> (uniform ==> forall|g: int| 0 <= g < groups@.len() ==> (#[trigger] groups@[g]).0@.len() == width),
                uniform ==> forall|g: int| 0 <= g < start.len() ==> (#[trigger] start[g]).0@.len() == width,
                groups_partition(views.take(index as int), start),
                views[index as int] == value_views(key@),
                index < count,
            decreases groups@.len() - position,
        {
            if same_values(&groups[position].0, &key) {
                let ghost prior = groups@;
                let (group_key, mut members) = groups.remove(position);
                let ghost old_members = members@;
                members.push(index);
                let ghost removed = groups@;
                groups.insert(position, (group_key, members));
                proof {
                    let pos = position as int;
                    let taken = views.take(index + 1);
                    assert(taken =~= views.take(index as int).push(views[index as int]));
                    assert forall|g: int| 0 <= g < groups@.len() && g != pos implies #[trigger] groups@[g] == prior[g] by {
                        if g < pos {
                            assert(groups@[g] == removed[g]);
                        } else {
                            assert(groups@[g] == removed[g - 1]);
                        }
                    }
                    assert(groups@[pos].0 == prior[pos].0);
                    assert(groups@[pos].1@ == prior[pos].1@.push(index));
                    assert(groups@.len() == prior.len());
                    if uniform {
                        assert forall|g: int| 0 <= g < groups@.len() implies (#[trigger] groups@[g]).0@.len() == width by {
                            if g != pos {
                                assert(groups@[g] == prior[g]);
                            }
                        }
                    }
                    assert forall|g: int| 0 <= g < groups@.len() implies (#[trigger] groups@[g]).1@.len() > 0 by {
                        if g != pos {
                            assert(groups@[g] == prior[g]);
                        }
                    }
                    assert forall|g: int, t: int|
                        0 <= g < groups@.len() && 0 <= t < groups@[g].1@.len() implies (#[trigger] groups@[g].1@[t])
                            < taken.len() && taken[groups@[g].1@[t] as int] == value_views(groups@[g].0@) by {
                        if g != pos {
                            assert(groups@[g] == prior[g]);
                        } else if t < prior[pos].1@.len() {
                            assert(groups@[g].1@[t] == prior[pos].1@[t]);
                        } else {
                            assert(groups@[g].1@[t] == index);
                        }
                    }
                    assert forall|p: int| 0 <= p < taken.len() implies #[trigger] grouped(groups@, p) by {
                        if p == index {
                            assert(groups@[pos].1@[prior[pos].1@.len() as int] == p);
                        } else {
                            assert(grouped(prior, p));
                            let (g, t) = choose|g: int, t: int|
                                0 <= g < prior.len() && 0 <= t < prior[g].1@.len() && #[trigger] prior[g].1@[t] == p;
                            if g != pos {
                                assert(groups@[g] == prior[g]);
                            }
                            assert(groups@[g].1@[t] == p);
                        }
                    }
                    assert forall|g: int, h: int|
                        0 <= g < h < groups@.len() implies value_views((#[trigger] groups@[g]).0@) != value_views(
                            (#[trigger] groups@[h]).0@,
                        ) by {
                        assert(value_views(groups@[g].0@) == value_views(prior[g].0@));
                        assert(value_views(groups@[h].0@) == value_views(prior[h].0@));
                    }
                }
                found = true;
                break;
            }
            position = position + 1;
        }
        if !found {
            let mut members: Vec<usize> = Vec::new();
            members.push(index);
            let ghost prior = groups@;
            groups.push((key, members));
            proof {
                let taken = views.take(index + 1);
                assert(taken =~= views.take(index as int).push(views[index as int]));
                let last = prior.len() as int;
                assert forall|g: int, t: int|
                    0 <= g < groups@.len() && 0 <= t < groups@[g].1@.len() implies (#[trigger] groups@[g].1@[t])
                        < taken.len() && taken[groups@[g].1@[t] as int] == value_views(groups@[g].0@) by {
                    if g < last {
                        assert(groups@[g] == prior[g]);
                    }
                }
                assert forall|p: int| 0 <= p < taken.len() implies #[trigger] grouped(groups@, p) by {
                    if p == index {
                        assert(groups@[last].1@[0] == p);
                    } else {
                        assert(grouped(prior, p));
                        let (g, t) = choose|g: int, t: int|
                            0 <= g < prior.len() && 0 <= t < prior[g].1@.len() && #[trigger] prior[g].1@[t] == p;
                        assert(groups@[g] == prior[g]);
                        assert(groups@[g].1@[t] == p);
                    }
                }
                assert forall|g: int, h: int|
                    0 <= g < h < groups@.len() implies value_views((#[trigger] groups@[g]).0@) != value_views(
                        (#[trigger] groups@[h]).0@,
                    ) by {
                    assert(groups@[g] == prior[g]);
                    if h < last {
                        assert(groups@[h] == prior[h]);
                    }
                }
                if uniform {
                    assert(key@.len() == width);
                }
            }
        }
        index = index + 1;
    }
    proof {
        assert(views.take(index as int) =~= views);
    }
    groups
}

fn value_at(values: &Vec<Value>, index: usize, node: &NodeId) -> (r: Result<Value, EvaluateError>)
    ensures
        r matches Ok(v) ==> index < values@.len() && v@ == values@[index as int]@,
        r matches Err(e) ==> !(e is Input),
        r matches Err(EvaluateError::Validation(v)) ==> v.kind is InvalidNode,
{
    if index < values.len() {
        Ok(values[index].clone())
    } else {
        Err(inconsistency(node))
    }
}

/// An input error names an input node of the graph, by its identity and
/// binding; the snapshot lacks that binding, or the relation under it first
/// differs from the node's schema as the error's kind says.
pub open spec fn input_failure(graph: Graph, snapshot: Snapshot, error: InputError) -> bool {
    exists|k: int|
        0 <= k < graph.nodes@.len() && #[trigger] graph.nodes@[k].id@ == error.node@ && (
        graph.nodes@[k].kind matches NodeKind::Input { binding } && binding@ == error.binding@ && if snapshot.binds(
            binding@,
        ) {
            exists|i: int|
                0 <= i < snapshot.entries().len() && snapshot.entries()[i].0@ == binding@
                    && first_input_difference(
                    graph.nodes@[k].output_schema@,
                    #[trigger] snapshot.entries()[i].1,
                    error.kind,
                )
        } else {
            error.kind is MissingBinding
        })
}

/// What validation establishes of the graph that evaluation relies on:
/// node identities are distinct and every node is checked.
#[verifier::opaque]
spec fn validated_graph(graph: Graph) -> bool {
    &&& node_ids_distinct(graph.nodes@)
    &&& forall|k: int| 0 <= k < graph.nodes@.len() ==> checked_node(graph, #[trigger] graph.nodes@[k])
}

/// Every node evaluated so far holds rows as wide as its output schema.
#[verifier::opaque]
spec fn memo_widths(graph: Graph, states: Seq<NodeState>) -> bool {
    forall|k: int|
        0 <= k < states.len() ==> (#[trigger] states[k] matches NodeState::Done(rows) ==> uniform_width(
            rows_view(rows@),
            graph.nodes@[k].output_schema@.len(),
        ))
}

proof fn lemma_checked(graph: Graph, k: int)
    requires
        validated_graph(graph),
        0 <= k < graph.nodes@.len(),
    ensures
        checked_node(graph, graph.nodes@[k]),
{
    reveal(validated_graph);
}

/// In a validated graph, an identity names at most one width.
proof fn lemma_width_unique(graph: Graph, id: Seq<char>, a: nat, b: nat)
    requires
        validated_graph(graph),
        named_width(graph, id, a),
        named_width(graph, id, b),
    ensures
        a == b,
{
    reveal(validated_graph);
    let i = choose|k: int|
        0 <= k < graph.nodes@.len() && #[trigger] graph.nodes@[k].id@ == id && graph.nodes@[k].output_schema@.len()
            == a;
    let j = choose|k: int|
        0 <= k < graph.nodes@.len() && #[trigger] graph.nodes@[k].id@ == id && graph.nodes@[k].output_schema@.len()
            == b;
    if i < j {
        assert(graph.nodes@[i].id@ != graph.nodes@[j].id@);
    } else if j < i {
        assert(graph.nodes@[j].id@ != graph.nodes@[i].id@);
    }
}

struct Evaluator<'a> {
    graph: &'a Graph,
    snapshot: &'a Snapshot,
    /// What each node, by position, has produced so far.
    states: Vec<NodeState>,
}

impl<'a> Evaluator<'a> {
    spec fn potential(&self) -> nat {
        count_unvisited(self.states@)
    }

    spec fn wf(&self) -> bool {
        &&& self.states@.len() == self.graph.nodes@.len()
        &&& self.snapshot.wf()
        &&& validated_graph(*self.graph)
        &&& memo_widths(*self.graph, self.states@)
    }

    /// `rows` are the rows recorded for the first node named `id`.
    spec fn recorded_rows(&self, id: Seq<char>, rows: Seq<Seq<ScalarValue>>) -> bool {
        exists|p: int|
            0 <= p < self.states@.len() && #[trigger] self.graph.nodes@[p].id@ == id && (forall|j: int|
                0 <= j < p ==> (#[trigger] self.graph.nodes@[j]).id@ != id) && (self.states@[p] matches NodeState::Done(
                memo,
            ) && rows_view(memo@) == rows)
    }

    spec fn progressed(&self, next: &Self) -> bool {
        &&& next.graph == self.graph
        &&& next.snapshot == self.snapshot
        &&& next.potential() <= self.potential()
    }

    /// The position of the first node named `id`.
    fn position(&self, id: &NodeId) -> (r: Option<usize>)
        ensures
            r matches Some(p) ==> p < self.graph.nodes@.len() && self.graph.nodes@[p as int].id@ == id@
                && forall|j: int| 0 <= j < p ==> (#[trigger] self.graph.nodes@[j]).id@ != id@,
            r is None ==> forall|j: int| 0 <= j < self.graph.nodes@.len() ==> (#[trigger] self.graph.nodes@[j]).id@ != id@,
    {
        let mut index: usize = 0;
        while index < self.graph.nodes.len()
            invariant
                index <= self.graph.nodes@.len(),
                forall|j: int| 0 <= j < index ==> (#[trigger] self.graph.nodes@[j]).id@ != id@,
            decreases self.graph.nodes@.len() - index,
        {
            if self.graph.nodes[index].id.same(id) {
                return Some(index);
            }
            index = index + 1;
        }
        None
    }

    fn schema_of(&self, id: &NodeId) -> (r: Result<&'a Vec<Field>, EvaluateError>)
        ensures
            r matches Ok(schema) ==> named_width(*self.graph, id@, schema@.len()),
            r matches Ok(schema) ==> exists|k: int|
                0 <= k < self.graph.nodes@.len() && (#[trigger] self.graph.nodes@[k]).id@ == id@ && *schema
                    == self.graph.nodes@[k].output_schema,
            r matches Err(e) ==> !(e is Input),
            r matches Err(EvaluateError::Validation(v)) ==> v.kind is InvalidNode,
    {
        let graph = self.graph;
        match self.position(id) {
            Some(position) => Ok(&graph.nodes[position].output_schema),
            None => Err(inconsistency(id)),
        }
    }

    /// The rows of the node named `id`, computed once and then reused.
    fn evaluate_node(&mut self, id: &NodeId) -> (r: Result<Vec<Row>, EvaluateError>)
        requires
            old(self).wf(),
        ensures
            r matches Err(EvaluateError::Input(e)) ==> input_failure(*old(self).graph, *old(self).snapshot, e),
            r matches Err(EvaluateError::Validation(v)) ==> v.kind is InvalidNode,
            r is Ok ==> final(self).wf() && old(self).progressed(final(self)),
            r matches Ok(rows) ==> forall|width: nat|
                #[trigger] named_width(*old(self).graph, id@, width) ==> uniform_width(rows_view(rows@), width),
            r matches Ok(rows) ==> final(self).recorded_rows(id@, rows_view(rows@)),
        decreases old(self).potential(), 0int, *id, 0int,
    {
        let position = match self.position(id) {
            Some(position) => position,
            None => return Err(inconsistency(id)),
        };
        proof {
            reveal(memo_widths);
            assert forall|width: nat| #[trigger] named_width(*self.graph, id@, width) implies width
                == self.graph.nodes@[position as int].output_schema@.len() by {
                lemma_width_unique(
                    *self.graph,
                    id@,
                    width,
                    self.graph.nodes@[position as int].output_schema@.len(),
                );
            }
        }
        match &self.states[position] {
            NodeState::Done(rows) => {
                assert(self.states@[position as int] matches NodeState::Done(r) && r == *rows);
                let copy = clone_rows(rows);
                assert(self.graph.nodes@[position as int].id@ == id@);
                return Ok(copy);
            },
            NodeState::InProgress => return Err(inconsistency(id)),
            NodeState::Unvisited => {},
        }
        let ghost before = self.states@;
        self.states.set(position, NodeState::InProgress);
        proof {
            lemma_unvisited_update(before, position as int, NodeState::InProgress);
            reveal(memo_widths);
            assert forall|k: int| 0 <= k < self.states@.len() implies (#[trigger] self.states@[k] matches NodeState::Done(rows) ==> uniform_width(
                rows_view(rows@),
                self.graph.nodes@[k].output_schema@.len(),
            )) by {
                if k != position {
                    assert(self.states@[k] == before[k]);
                }
            }
        }
        let graph = self.graph;
        let node = &graph.nodes[position];
        assert(self.graph.nodes@[position as int] == *node);
        let rows = self.evaluate_kind(node)?;
        let ghost middle = self.states@;
        let state = NodeState::Done(clone_rows(&rows));
        let ghost recorded = state;
        self.states.set(position, state);
        proof {
            lemma_unvisited_update(middle, position as int, recorded);
            reveal(memo_widths);
            assert forall|k: int| 0 <= k < self.states@.len() implies (#[trigger] self.states@[k] matches NodeState::Done(rows) ==> uniform_width(
                rows_view(rows@),
                self.graph.nodes@[k].output_schema@.len(),
            )) by {
                if k != position {
                    assert(self.states@[k] == middle[k]);
                }
            }
            assert(self.graph.nodes@[position as int].id@ == id@);
            assert(self.states@[position as int] == recorded);
        }
        Ok(rows)
    }

    fn evaluate_kind(&mut self, node: &'a Node) -> (r: Result<Vec<Row>, EvaluateError>)
        requires
            old(self).wf(),
            exists|k: int| 0 <= k < old(self).graph.nodes@.len() && #[trigger] old(self).graph.nodes@[k] == *node,
        ensures
            r matches Err(EvaluateError::Input(e)) ==> input_failure(*old(self).graph, *old(self).snapshot, e),
            r matches Err(EvaluateError::Validation(v)) ==> v.kind is InvalidNode,
            r is Ok ==> final(self).wf() && old(self).progressed(final(self)),
            r matches Ok(rows) ==> uniform_width(rows_view(rows@), node.output_schema@.len()),
        decreases old(self).potential(), 5int, *node, 0int,
    {
        proof {
            let k = choose|k: int| 0 <= k < self.graph.nodes@.len() && #[trigger] self.graph.nodes@[k] == *node;
            lemma_checked(*self.graph, k);
        }
        let width = Ghost(node.output_schema@.len());
        match &node.kind {
            NodeKind::Input { binding } => self.evaluate_input(node, binding),
            NodeKind::Empty => {
                let rows: Vec<Row> = Vec::new();
                assert(rows_view(rows@).len() == 0);
                Ok(rows)
            },
            NodeKind::Project { input, entries } => self.evaluate_project(node, input, entries),
            NodeKind::Filter { input, predicate } => self.evaluate_filter(node, input, predicate),
            NodeKind::Join { left, right, join_type, condition } => self.evaluate_join(
                node,
                left,
                right,
                *join_type,
                condition,
            ),
            NodeKind::Aggregate { input, grouping_keys, aggregates } => self.evaluate_aggregate_node(
                node,
                input,
                grouping_keys,
                aggregates,
            ),
            NodeKind::Window { input, definitions } => self.evaluate_window(node, input, definitions),
            NodeKind::Distinct { input } => {
                let rows = self.evaluate_node(input)?;
                assert(named_width(*self.graph, input@, width@));
                proof {
                    lemma_first_occurrences_width(rows_view(rows@), width@);
                }
                Ok(distinct_rows(&rows))
            },
            NodeKind::SetOperation { left, right, operation, quantifier } => {
                let left_rows = self.evaluate_node(left)?;
                let right_rows = self.evaluate_node(right)?;
                assert(named_width(*self.graph, left@, width@));
                assert(named_width(*self.graph, right@, width@));
                proof {
                    lemma_set_rows_width(*operation, *quantifier, rows_view(left_rows@), rows_view(right_rows@), width@);
                }
                Ok(evaluate_set_rows(*operation, *quantifier, &left_rows, &right_rows))
            },
            NodeKind::Order { input, items } => self.evaluate_order(node, input, items),
            NodeKind::Slice { input, offset, limit } => {
                let rows = self.evaluate_node(input)?;
                assert(named_width(*self.graph, input@, width@));
                if *offset < 0 {
                    let none: Vec<Row> = Vec::new();
                    assert(rows_view(none@).len() == 0);
                    return Ok(none);
                }
                let limit = match limit {
                    Some(l) => if *l < 0 {
                        None
                    } else {
                        Some(*l)
                    },
                    None => None,
                };
                let sliced = slice_rows(&rows, *offset, limit);
                assert(uniform_width(rows_view(sliced@), width@)) by {
                    let all = rows_view(rows@);
                    assert forall|i: int| 0 <= i < rows_view(sliced@).len() implies (#[trigger] rows_view(
                        sliced@,
                    )[i]).len() == width@ by {
                        let start = if *offset > all.len() {
                            all.len() as int
                        } else {
                            *offset as int
                        };
                        assert(rows_view(sliced@)[i] == all[start + i]);
                    }
                }
                Ok(sliced)
            },
            NodeKind::ForgetOrder { input } => {
                let rows = self.evaluate_node(input)?;
                assert(named_width(*self.graph, input@, width@));
                Ok(rows)
            },
        }
    }

    fn evaluate_input(&self, node: &'a Node, binding: &RelationBinding) -> (r: Result<Vec<Row>, EvaluateError>)
        requires
            self.wf(),
            exists|k: int| 0 <= k < self.graph.nodes@.len() && #[trigger] self.graph.nodes@[k] == *node,
            node.kind matches NodeKind::Input { binding: b } && b == *binding,
        ensures
            r matches Err(EvaluateError::Input(e)) ==> input_failure(*self.graph, *self.snapshot, e),
            r matches Err(EvaluateError::Validation(v)) ==> v.kind is InvalidNode,
            r matches Ok(rows) ==> uniform_width(rows_view(rows@), node.output_schema@.len()),
            r is Ok <==> exists|i: int|
                0 <= i < self.snapshot.entries().len() && self.snapshot.entries()[i].0@ == binding@
                    && input_conforms(node.output_schema@, #[trigger] self.snapshot.entries()[i].1),
            r matches Ok(rows) ==> exists|i: int|
                0 <= i < self.snapshot.entries().len() && self.snapshot.entries()[i].0@ == binding@
                    && rows_view(rows@) == rows_view((#[trigger] self.snapshot.entries()[i].1).rows@),
            r is Err ==> r matches Err(EvaluateError::Input(_)),
    {
        let relation = match self.snapshot.get(binding) {
            Some(relation) => relation,
            None => {
                return Err(
                    EvaluateError::Input(
                        InputError {
                            node: node.id.clone(),
                            binding: binding.clone(),
                            kind: InputErrorKind::MissingBinding,
                        },
                    ),
                );
            },
        };
        match check_input(&node.output_schema, relation) {
            Ok(()) => {
                assert(uniform_width(rows_view(relation.rows@), node.output_schema@.len())) by {
                    assert forall|i: int| 0 <= i < rows_view(relation.rows@).len() implies (#[trigger] rows_view(
                        relation.rows@,
                    )[i]).len() == node.output_schema@.len() by {
                        assert(relation.rows@[i].values@.len() == node.output_schema@.len());
                    }
                }
                Ok(clone_rows(&relation.rows))
            },
            Err(kind) => Err(EvaluateError::Input(InputError { node: node.id.clone(), binding: binding.clone(), kind })),
        }
    }

    fn evaluate_project(&mut self, node: &'a Node, input: &'a NodeId, entries: &'a Vec<ProjectEntry>) -> (r: Result<
        Vec<Row>,
        EvaluateError,
    >)
        requires
            old(self).wf(),
            checked_node(*old(self).graph, *node),
            node.kind == (NodeKind::Project { input: *input, entries: *entries }),
        ensures
            r matches Err(EvaluateError::Input(e)) ==> input_failure(*old(self).graph, *old(self).snapshot, e),
            r matches Err(EvaluateError::Validation(v)) ==> v.kind is InvalidNode,
            r is Ok ==> final(self).wf() && old(self).progressed(final(self)),
            r matches Ok(rows) ==> uniform_width(rows_view(rows@), node.output_schema@.len()),
        decreases old(self).potential(), 4int, *node, 0int,
    {
        let schema = self.schema_of(input)?;
        let rows = self.evaluate_node(input)?;
        let mut output: Vec<Row> = Vec::new();
        let mut index: usize = 0;
        while index < rows.len()
            invariant
                self.wf(),
                old(self).progressed(self),
                index <= rows@.len(),
                uniform_width(rows_view(output@), entries@.len()),
            decreases rows@.len() - index,
        {
            let row = &rows[index];
            let mut values: Vec<Value> = Vec::new();
            let mut position: usize = 0;
            while position < entries.len()
                invariant
                    self.wf(),
                    old(self).progressed(self),
                    position <= entries@.len(),
                    values@.len() == position,
                decreases entries@.len() - position,
            {
                match &entries[position] {
                    ProjectEntry::Keep(field) => {
                        values.push(read_field(&node.id, schema, row, field)?);
                    },
                    ProjectEntry::Compute { expression, .. } => {
                        values.push(self.evaluate_expression(&node.id, expression, schema, row)?);
                    },
                }
                position = position + 1;
            }
            let projected = Row::new(values);
            proof {
                lemma_push_width(output@, projected, entries@.len());
            }
            output.push(projected);
            index = index + 1;
        }
        Ok(output)
    }

    fn evaluate_filter(&mut self, node: &'a Node, input: &'a NodeId, predicate: &'a Expression) -> (r: Result<
        Vec<Row>,
        EvaluateError,
    >)
        requires
            old(self).wf(),
            checked_node(*old(self).graph, *node),
            node.kind == (NodeKind::Filter { input: *input, predicate: *predicate }),
        ensures
            r matches Err(EvaluateError::Input(e)) ==> input_failure(*old(self).graph, *old(self).snapshot, e),
            r matches Err(EvaluateError::Validation(v)) ==> v.kind is InvalidNode,
            r is Ok ==> final(self).wf() && old(self).progressed(final(self)),
            r matches Ok(rows) ==> uniform_width(rows_view(rows@), node.output_schema@.len()),
            r matches Ok(rows) ==> exists|k: int|
                0 <= k < old(self).graph.nodes@.len() && (#[trigger] old(self).graph.nodes@[k]).id@ == input@
                    && forall|i: int|
                    0 <= i < rows@.len() ==> predicate_holds(
                        *predicate,
                        old(self).graph.nodes@[k].output_schema@,
                        #[trigger] row_view(rows@[i]),
                    ),
        decreases old(self).potential(), 4int, *node, 0int,
    {
        let schema = self.schema_of(input)?;
        let rows = self.evaluate_node(input)?;
        let width = Ghost(node.output_schema@.len());
        assert(named_width(*self.graph, input@, width@));
        let mut output: Vec<Row> = Vec::new();
        let mut index: usize = 0;
        while index < rows.len()
            invariant
                self.wf(),
                old(self).progressed(self),
                index <= rows@.len(),
                uniform_width(rows_view(rows@), width@),
                uniform_width(rows_view(output@), width@),
                forall|i: int| 0 <= i < output@.len() ==> predicate_holds(*predicate, schema@, #[trigger] row_view(output@[i])),
            decreases rows@.len() - index,
        {
            let verdict = self.evaluate_expression(&node.id, predicate, schema, &rows[index])?;
            if let Value::Boolean(true) = verdict {
                let kept = rows[index].clone();
                let ghost before = output@;
                proof {
                    assert(rows_view(rows@)[index as int] == row_view(rows@[index as int]));
                    lemma_push_width(output@, kept, width@);
                }
                output.push(kept);
                assert forall|i: int| 0 <= i < output@.len() implies predicate_holds(
                    *predicate,
                    schema@,
                    #[trigger] row_view(output@[i]),
                ) by {
                    if i < before.len() {
                        assert(output@[i] == before[i]);
                    }
                }
            }
            index = index + 1;
        }
        Ok(output)
    }

    fn evaluate_join(
        &mut self,
        node: &'a Node,
        left: &'a NodeId,
        right: &'a NodeId,
        join_type: JoinType,
        condition: &'a Option<Expression>,
    ) -> (r: Result<Vec<Row>, EvaluateError>)
        requires
            old(self).wf(),
            checked_node(*old(self).graph, *node),
            node.kind == (NodeKind::Join { left: *left, right: *right, join_type, condition: *condition }),
        ensures
            r matches Err(EvaluateError::Input(e)) ==> input_failure(*old(self).graph, *old(self).snapshot, e),
            r matches Err(EvaluateError::Validation(v)) ==> v.kind is InvalidNode,
            r is Ok ==> final(self).wf() && old(self).progressed(final(self)),
            r matches Ok(rows) ==> uniform_width(rows_view(rows@), node.output_schema@.len()),
        decreases old(self).potential(), 4int, *node, 0int,
    {
        let left_schema = self.schema_of(left)?;
        let right_schema = self.schema_of(right)?;
        let mut environment = clone_fields(left_schema.as_slice());
        let mut right_fields = clone_fields(right_schema.as_slice());
        environment.append(&mut right_fields);
        let left_rows = self.evaluate_node(left)?;
        let right_rows = self.evaluate_node(right)?;
        let mut matches: Vec<Vec<bool>> = Vec::new();
        let mut i: usize = 0;
        while i < left_rows.len()
            invariant
                self.wf(),
                old(self).progressed(self),
                i <= left_rows@.len(),
                matches@.len() == i,
                forall|k: int| 0 <= k < i ==> (#[trigger] matches@[k])@.len() == right_rows@.len(),
            decreases left_rows@.len() - i,
        {
            let mut row_matches: Vec<bool> = Vec::new();
            let mut j: usize = 0;
            while j < right_rows.len()
                invariant
                    self.wf(),
                    old(self).progressed(self),
                    j <= right_rows@.len(),
                    row_matches@.len() == j,
                decreases right_rows@.len() - j,
            {
                let matched = match condition {
                    None => true,
                    Some(condition) => {
                        let candidate = concatenate_rows(&left_rows[i], &right_rows[j]);
                        let verdict = self.evaluate_expression(&node.id, condition, &environment, &candidate)?;
                        match verdict {
                            Value::Boolean(b) => b,
                            _ => false,
                        }
                    },
                };
                row_matches.push(matched);
                j = j + 1;
            }
            matches.push(row_matches);
            i = i + 1;
        }
        proof {
            let graph = *self.graph;
            let width = node.output_schema@.len();
            assert(named_width(graph, left@, left_schema@.len()));
            assert(named_width(graph, right@, right_schema@.len()));
            let left_width = choose|left_width: nat|
                left_width <= width && named_width(graph, left@, left_width) && #[trigger] named_width(
                    graph,
                    right@,
                    (width - left_width) as nat,
                );
            lemma_width_unique(graph, left@, left_width, left_schema@.len());
            lemma_width_unique(graph, right@, (width - left_width) as nat, right_schema@.len());
            lemma_joined_rows_width(
                join_type,
                rows_view(left_rows@),
                rows_view(right_rows@),
                match_views(matches@),
                left_schema@.len(),
                right_schema@.len(),
            );
        }
        Ok(join_rows(join_type, &left_rows, &right_rows, &matches, left_schema.len(), right_schema.len()))
    }

    /// The values of expressions for one row.
    fn evaluate_values(
        &mut self,
        node: &NodeId,
        expressions: &'a Vec<Expression>,
        schema: &Vec<Field>,
        row: &Row,
    ) -> (r: Result<Vec<Value>, EvaluateError>)
        requires
            old(self).wf(),
        ensures
            r matches Err(EvaluateError::Input(e)) ==> input_failure(*old(self).graph, *old(self).snapshot, e),
            r matches Err(EvaluateError::Validation(v)) ==> v.kind is InvalidNode,
            r matches Ok(values) ==> final(self).wf() && old(self).progressed(final(self))
                && values@.len() == expressions@.len(),
            list_outcome(expressions@, schema@, row_view(*row)) matches Some(Ok(vs)) ==> r matches Ok(values)
                && value_views(values@) == vs,
            list_outcome(expressions@, schema@, row_view(*row)) matches Some(Err(failure)) ==> r matches Err(e)
                && settles_as(Err(e), failure, node@),
        decreases old(self).potential(), 1int, *expressions, 2int,
    {
        let ghost whole = list_outcome(expressions@, schema@, row_view(*row));
        let mut values: Vec<Value> = Vec::new();
        let mut index: usize = 0;
        proof {
            assert(expressions@.subrange(0, expressions@.len() as int) =~= expressions@);
            assert forall|rest: Seq<ScalarValue>| value_views(values@) + rest =~= rest by {}
        }
        while index < expressions.len()
            invariant
                self.wf(),
                old(self).progressed(self),
                index <= expressions@.len(),
                values@.len() == index,
                whole is Some ==> whole == match list_outcome(
                    expressions@.subrange(index as int, expressions@.len() as int),
                    schema@,
                    row_view(*row),
                ) {
                    Some(Ok(rest)) => Some(Ok(value_views(values@) + rest)),
                    other => other,
                },
            decreases expressions@.len() - index,
        {
            assert(decreases_to!(*expressions => expressions@));
            assert(decreases_to!(expressions@ => expressions@[index as int]));
            let ghost rest = expressions@.subrange(index as int, expressions@.len() as int);
            proof {
                assert(rest[0] == expressions@[index as int]);
                assert(rest.drop_first() =~= expressions@.subrange(index + 1, expressions@.len() as int));
            }
            let value = self.evaluate_expression(node, &expressions[index], schema, row)?;
            let ghost before = values@;
            values.push(value);
            proof {
                assert(value_views(values@) =~= value_views(before).push(value@));
                assert forall|tail: Seq<ScalarValue>|
                    value_views(values@) + tail =~= value_views(before) + (seq![value@] + tail) by {}
            }
            index = index + 1;
        }
        proof {
            assert(expressions@.subrange(index as int, expressions@.len() as int).len() == 0);
            assert(value_views(values@) + Seq::<ScalarValue>::empty() =~= value_views(values@));
        }
        Ok(values)
    }

    /// The partition key of every row.
    fn partition_keys(
        &mut self,
        node: &NodeId,
        expressions: &'a Vec<Expression>,
        schema: &Vec<Field>,
        rows: &Vec<Row>,
    ) -> (r: Result<Vec<Vec<Value>>, EvaluateError>)
        requires
            old(self).wf(),
        ensures
            r matches Err(EvaluateError::Input(e)) ==> input_failure(*old(self).graph, *old(self).snapshot, e),
            r matches Err(EvaluateError::Validation(v)) ==> v.kind is InvalidNode,
            r matches Ok(keys) ==> final(self).wf() && old(self).progressed(final(self)) && keys@.len()
                == rows@.len(),
        decreases old(self).potential(), 2int, *expressions, 0int,
    {
        let mut keys: Vec<Vec<Value>> = Vec::new();
        let mut index: usize = 0;
        while index < rows.len()
            invariant
                self.wf(),
                old(self).progressed(self),
                index <= rows@.len(),
                keys@.len() == index,
            decreases rows@.len() - index,
        {
            keys.push(self.evaluate_values(node, expressions, schema, &rows[index])?);
            index = index + 1;
        }
        Ok(keys)
    }

    /// The ordering key of every row: every item is evaluated for every row
    /// before any comparison.
    fn order_keys(
        &mut self,
        node: &NodeId,
        items: &'a Vec<OrderingItem>,
        schema: &Vec<Field>,
        rows: &Vec<Row>,
    ) -> (r: Result<Vec<Vec<Value>>, EvaluateError>)
        requires
            old(self).wf(),
        ensures
            r matches Err(EvaluateError::Input(e)) ==> input_failure(*old(self).graph, *old(self).snapshot, e),
            r matches Err(EvaluateError::Validation(v)) ==> v.kind is InvalidNode,
            r matches Ok(keys) ==> final(self).wf() && old(self).progressed(final(self)) && keys@.len()
                == rows@.len(),
            r matches Ok(keys) ==> keys_follow(key_views(keys@), items@, schema@, rows@),
        decreases old(self).potential(), 2int, *items, 0int,
    {
        let mut keys: Vec<Vec<Value>> = Vec::new();
        let mut index: usize = 0;
        while index < rows.len()
            invariant
                self.wf(),
                old(self).progressed(self),
                index <= rows@.len(),
                keys@.len() == index,
                forall|i: int| 0 <= i < index ==> (#[trigger] keys@[i])@.len() == items@.len(),
                forall|i: int, j: int|
                    #![trigger keys@[i]@[j]]
                    0 <= i < index && 0 <= j < items@.len() ==> (expression_outcome(
                        items@[j].expression,
                        schema@,
                        row_view(rows@[i]),
                    ) is Some ==> expression_outcome(items@[j].expression, schema@, row_view(rows@[i])) == Some(
                        Outcome::Produced(keys@[i]@[j]@),
                    )),
            decreases rows@.len() - index,
        {
            let mut key: Vec<Value> = Vec::new();
            let mut position: usize = 0;
            while position < items.len()
                invariant
                    self.wf(),
                    old(self).progressed(self),
                    position <= items@.len(),
                    key@.len() == position,
                    forall|j: int|
                        0 <= j < position ==> (expression_outcome(
                            items@[j].expression,
                            schema@,
                            row_view(rows@[index as int]),
                        ) is Some ==> expression_outcome(items@[j].expression, schema@, row_view(rows@[index as int]))
                            == Some(Outcome::Produced((#[trigger] key@[j])@))),
                decreases items@.len() - position,
            {
                let value = self.evaluate_expression(node, &items[position].expression, schema, &rows[index])?;
                key.push(value);
                position = position + 1;
            }
            let ghost before = keys@;
            keys.push(key);
            proof {
                assert forall|i: int, j: int|
                    #![trigger keys@[i]@[j]]
                    0 <= i < index + 1 && 0 <= j < items@.len() implies (expression_outcome(
                        items@[j].expression,
                        schema@,
                        row_view(rows@[i]),
                    ) is Some ==> expression_outcome(items@[j].expression, schema@, row_view(rows@[i])) == Some(
                        Outcome::Produced(keys@[i]@[j]@),
                    )) by {
                    if i < index {
                        assert(keys@[i] == before[i]);
                    }
                }
            }
            index = index + 1;
        }
        proof {
            reveal(keys_follow);
            let views = key_views(keys@);
            assert forall|i: int, j: int|
                #![trigger views[i][j]]
                0 <= i < views.len() && 0 <= j < items@.len() implies (expression_outcome(
                    items@[j].expression,
                    schema@,
                    row_view(rows@[i]),
                ) is Some ==> expression_outcome(items@[j].expression, schema@, row_view(rows@[i])) == Some(
                    Outcome::Produced(views[i][j]),
                )) by {
                assert(views[i] == value_views(keys@[i]@));
                assert(keys@[i]@[j]@ == views[i][j]);
            }
        }
        Ok(keys)
    }

    /// The argument of an aggregate for each row of a group.
    fn argument_values(
        &mut self,
        node: &NodeId,
        argument: &'a Option<Expression>,
        schema: &Vec<Field>,
        rows: &Vec<Row>,
        members: &Vec<usize>,
    ) -> (r: Result<Vec<Value>, EvaluateError>)
        requires
            old(self).wf(),
        ensures
            r matches Err(EvaluateError::Input(e)) ==> input_failure(*old(self).graph, *old(self).snapshot, e),
            r matches Err(EvaluateError::Validation(v)) ==> v.kind is InvalidNode,
            r is Ok ==> final(self).wf() && old(self).progressed(final(self)),
            r matches Ok(values) ==> values@.len() == if argument is Some {
                members@.len()
            } else {
                0
            },
            r is Ok && argument is Some ==> forall|i: int| 0 <= i < members@.len() ==> #[trigger] members@[i] < rows@.len(),
        decreases old(self).potential(), 2int, *argument, 0int,
    {
        let mut values: Vec<Value> = Vec::new();
        if let Some(expression) = argument {
            let mut index: usize = 0;
            while index < members.len()
                invariant
                    self.wf(),
                    old(self).progressed(self),
                    index <= members@.len(),
                    values@.len() == index,
                    forall|i: int| 0 <= i < index ==> #[trigger] members@[i] < rows@.len(),
                decreases members@.len() - index,
            {
                let member = members[index];
                if member >= rows.len() {
                    return Err(inconsistency(node));
                }
                values.push(self.evaluate_expression(node, expression, schema, &rows[member])?);
                index = index + 1;
            }
        }
        Ok(values)
    }

    /// The aggregate of one group.
    fn evaluate_aggregate(
        &mut self,
        node: &NodeId,
        function: AggregateFunction,
        argument: &'a Option<Expression>,
        schema: &Vec<Field>,
        rows: &Vec<Row>,
        members: &Vec<usize>,
    ) -> (r: Result<Value, EvaluateError>)
        requires
            old(self).wf(),
        ensures
            r matches Err(EvaluateError::Input(e)) ==> input_failure(*old(self).graph, *old(self).snapshot, e),
            r matches Err(EvaluateError::Validation(v)) ==> v.kind is InvalidNode,
            r is Ok ==> final(self).wf() && old(self).progressed(final(self)),
            function != AggregateFunction::CountAll && argument is None ==> r is Err,
            r matches Ok(value) ==> exists|values: Seq<ScalarValue>|
                values.len() == (if argument is Some {
                    members@.len()
                } else {
                    0
                }) && #[trigger] aggregate_outcome(function, members@.len(), values) == Outcome::Produced(value@),
        decreases old(self).potential(), 3int, *argument, 1int,
    {
        if function != AggregateFunction::CountAll && argument.is_none() {
            return Err(inconsistency(node));
        }
        let values = self.argument_values(node, argument, schema, rows, members)?;
        let folded = fold_aggregate(function, members.len(), &values);
        proof {
            assert(value_views(values@).len() == values@.len());
        }
        settle(node, folded)
    }

    fn evaluate_aggregate_node(
        &mut self,
        node: &'a Node,
        input: &'a NodeId,
        grouping_keys: &'a Vec<GroupingKey>,
        aggregates: &'a Vec<AggregateDefinition>,
    ) -> (r: Result<Vec<Row>, EvaluateError>)
        requires
            old(self).wf(),
            checked_node(*old(self).graph, *node),
            node.kind == (NodeKind::Aggregate {
                input: *input,
                grouping_keys: *grouping_keys,
                aggregates: *aggregates,
            }),
        ensures
            r matches Err(EvaluateError::Input(e)) ==> input_failure(*old(self).graph, *old(self).snapshot, e),
            r matches Err(EvaluateError::Validation(v)) ==> v.kind is InvalidNode,
            r is Ok ==> final(self).wf() && old(self).progressed(final(self)),
            r matches Ok(rows) ==> uniform_width(rows_view(rows@), node.output_schema@.len()),
        decreases old(self).potential(), 4int, *node, 0int,
    {
        let schema = self.schema_of(input)?;
        let rows = self.evaluate_node(input)?;
        let groups = if grouping_keys.len() == 0 {
            let mut members: Vec<usize> = Vec::new();
            let mut index: usize = 0;
            while index < rows.len()
                invariant
                    index <= rows@.len(),
                decreases rows@.len() - index,
            {
                members.push(index);
                index = index + 1;
            }
            let mut groups: Vec<(Vec<Value>, Vec<usize>)> = Vec::new();
            let no_key: Vec<Value> = Vec::new();
            groups.push((no_key, members));
            assert(groups@[0].0@.len() == grouping_keys@.len());
            groups
        } else {
            let mut keys: Vec<Vec<Value>> = Vec::new();
            let mut index: usize = 0;
            while index < rows.len()
                invariant
                    self.wf(),
                    old(self).progressed(self),
                    index <= rows@.len(),
                    forall|k: int| 0 <= k < keys@.len() ==> (#[trigger] keys@[k])@.len() == grouping_keys@.len(),
                decreases rows@.len() - index,
            {
                let mut key: Vec<Value> = Vec::new();
                let mut position: usize = 0;
                while position < grouping_keys.len()
                    invariant
                        self.wf(),
                        old(self).progressed(self),
                        position <= grouping_keys@.len(),
                        key@.len() == position,
                    decreases grouping_keys@.len() - position,
                {
                    key.push(
                        self.evaluate_expression(&node.id, &grouping_keys[position].expression, schema, &rows[index])?,
                    );
                    position = position + 1;
                }
                keys.push(key);
                index = index + 1;
            }
            group_by_keys(keys, Ghost(grouping_keys@.len()))
        };
        let width = Ghost(grouping_keys@.len() + aggregates@.len());
        let mut output: Vec<Row> = Vec::new();
        let mut index: usize = 0;
        while index < groups.len()
            invariant
                self.wf(),
                old(self).progressed(self),
                index <= groups@.len(),
                forall|g: int| 0 <= g < groups@.len() ==> (#[trigger] groups@[g]).0@.len() == grouping_keys@.len(),
                uniform_width(rows_view(output@), width@),
            decreases groups@.len() - index,
        {
            let (key, members) = &groups[index];
            let mut values = clone_values(key);
            assert(values@.len() == key@.len()) by {
                assert(values@.map_values(|value: Value| value@).len() == key@.map_values(|value: Value| value@).len());
            }
            let mut position: usize = 0;
            while position < aggregates.len()
                invariant
                    self.wf(),
                    old(self).progressed(self),
                    position <= aggregates@.len(),
                    values@.len() == grouping_keys@.len() + position,
                decreases aggregates@.len() - position,
            {
                let aggregate = &aggregates[position];
                values.push(
                    self.evaluate_aggregate(&node.id, aggregate.function, &aggregate.argument, schema, &rows, members)?,
                );
                position = position + 1;
            }
            let grouped = Row::new(values);
            proof {
                lemma_push_width(output@, grouped, width@);
            }
            output.push(grouped);
            index = index + 1;
        }
        Ok(output)
    }

    fn evaluate_window(&mut self, node: &'a Node, input: &'a NodeId, definitions: &'a Vec<WindowDefinition>) -> (r: Result<
        Vec<Row>,
        EvaluateError,
    >)
        requires
            old(self).wf(),
            checked_node(*old(self).graph, *node),
            node.kind == (NodeKind::Window { input: *input, definitions: *definitions }),
        ensures
            r matches Err(EvaluateError::Input(e)) ==> input_failure(*old(self).graph, *old(self).snapshot, e),
            r matches Err(EvaluateError::Validation(v)) ==> v.kind is InvalidNode,
            r is Ok ==> final(self).wf() && old(self).progressed(final(self)),
            r matches Ok(rows) ==> uniform_width(rows_view(rows@), node.output_schema@.len()),
        decreases old(self).potential(), 4int, *node, 0int,
    {
        let schema = self.schema_of(input)?;
        let rows = self.evaluate_node(input)?;
        let input_width = Ghost((node.output_schema@.len() - definitions@.len()) as nat);
        assert(named_width(*self.graph, input@, input_width@));
        let mut columns: Vec<Vec<Value>> = Vec::new();
        let mut index: usize = 0;
        while index < definitions.len()
            invariant
                self.wf(),
                old(self).progressed(self),
                index <= definitions@.len(),
                columns@.len() == index,
                forall|k: int| 0 <= k < columns@.len() ==> (#[trigger] columns@[k])@.len() == rows@.len(),
            decreases definitions@.len() - index,
        {
            let definition = &definitions[index];
            let column = match definition {
                WindowDefinition::PartitionedAggregate { function, argument, partition_by, .. } => {
                    let keys = self.partition_keys(&node.id, partition_by, schema, &rows)?;
                    let groups = group_by_keys(keys, Ghost(0));
                    let mut column: Vec<Value> = Vec::new();
                    let mut position: usize = 0;
                    while position < rows.len()
                        invariant
                            position <= rows@.len(),
                            column@.len() == position,
                        decreases rows@.len() - position,
                    {
                        column.push(Value::Null);
                        position = position + 1;
                    }
                    let mut group_index: usize = 0;
                    while group_index < groups.len()
                        invariant
                            self.wf(),
                            old(self).progressed(self),
                            group_index <= groups@.len(),
                            column@.len() == rows@.len(),
                        decreases groups@.len() - group_index,
                    {
                        let members = &groups[group_index].1;
                        let value = self.evaluate_aggregate(&node.id, *function, argument, schema, &rows, members)?;
                        let mut member_index: usize = 0;
                        while member_index < members.len()
                            invariant
                                member_index <= members@.len(),
                                column@.len() == rows@.len(),
                            decreases members@.len() - member_index,
                        {
                            let member = members[member_index];
                            if member < column.len() {
                                column.set(member, value.clone());
                            }
                            member_index = member_index + 1;
                        }
                        group_index = group_index + 1;
                    }
                    column
                },
                WindowDefinition::Ranking { .. } => self.evaluate_ranking(&node.id, definition, schema, &rows)?,
            };
            if column.len() != rows.len() {
                return Err(inconsistency(&node.id));
            }
            columns.push(column);
            index = index + 1;
        }
        let mut output: Vec<Row> = Vec::new();
        let mut index: usize = 0;
        while index < rows.len()
            invariant
                index <= rows@.len(),
                forall|k: int| 0 <= k < columns@.len() ==> (#[trigger] columns@[k])@.len() == rows@.len(),
                columns@.len() == definitions@.len(),
                uniform_width(rows_view(rows@), input_width@),
                uniform_width(rows_view(output@), node.output_schema@.len()),
            decreases rows@.len() - index,
        {
            let mut values = clone_values(&rows[index].values);
            assert(values@.len() == input_width@) by {
                assert(values@.map_values(|value: Value| value@).len() == rows@[index as int].values@.map_values(
                    |value: Value| value@,
                ).len());
                assert(rows_view(rows@)[index as int] == row_view(rows@[index as int]));
            }
            let mut position: usize = 0;
            while position < columns.len()
                invariant
                    position <= columns@.len(),
                    index < rows@.len(),
                    forall|k: int| 0 <= k < columns@.len() ==> (#[trigger] columns@[k])@.len() == rows@.len(),
                    values@.len() == input_width@ + position,
                decreases columns@.len() - position,
            {
                values.push(columns[position][index].clone());
                position = position + 1;
            }
            let widened = Row::new(values);
            proof {
                lemma_push_width(output@, widened, node.output_schema@.len());
            }
            output.push(widened);
            index = index + 1;
        }
        Ok(output)
    }

    /// ROW_NUMBER, RANK, and DENSE_RANK within each partition, in the order
    /// of the ranking's ordering items; equal keys are peers.
    fn evaluate_ranking(
        &mut self,
        node: &NodeId,
        definition: &'a WindowDefinition,
        schema: &Vec<Field>,
        rows: &Vec<Row>,
    ) -> (r: Result<Vec<Value>, EvaluateError>)
        requires
            old(self).wf(),
        ensures
            r matches Err(EvaluateError::Input(e)) ==> input_failure(*old(self).graph, *old(self).snapshot, e),
            r matches Err(EvaluateError::Validation(v)) ==> v.kind is InvalidNode,
            r is Ok ==> final(self).wf() && old(self).progressed(final(self)),
        decreases old(self).potential(), 3int, *definition, 1int,
    {
        let (function, partition_by, order_by) = match definition {
            WindowDefinition::Ranking { function, partition_by, order_by, .. } => (*function, partition_by, order_by),
            _ => return Err(inconsistency(node)),
        };
        let partition = self.partition_keys(node, partition_by, schema, rows)?;
        let groups = group_by_keys(partition, Ghost(0));
        let keys = self.order_keys(node, order_by, schema, rows)?;
        let mut output: Vec<Value> = Vec::new();
        let mut position: usize = 0;
        while position < rows.len()
            invariant
                position <= rows@.len(),
                output@.len() == position,
            decreases rows@.len() - position,
        {
            output.push(Value::Null);
            position = position + 1;
        }
        let mut group_index: usize = 0;
        while group_index < groups.len()
            invariant
                group_index <= groups@.len(),
                output@.len() == rows@.len(),
                keys@.len() == rows@.len(),
            decreases groups@.len() - group_index,
        {
            let members = &groups[group_index].1;
            let mut member_keys: Vec<Vec<Value>> = Vec::new();
            let mut index: usize = 0;
            while index < members.len()
                invariant
                    index <= members@.len(),
                    member_keys@.len() == index,
                decreases members@.len() - index,
            {
                if members[index] >= keys.len() {
                    return Err(inconsistency(node));
                }
                member_keys.push(clone_values(&keys[members[index]]));
                index = index + 1;
            }
            let order = match sort_positions(&member_keys, order_by) {
                Some(order) => order,
                None => return Err(inconsistency(node)),
            };
            let mut rank: i64 = 0;
            let mut dense_rank: i64 = 0;
            let mut place: usize = 0;
            while place < order.len()
                invariant
                    place <= order@.len(),
                    order@.len() == member_keys@.len(),
                    member_keys@.len() == members@.len(),
                    output@.len() == rows@.len(),
                    forall|i: int| 0 <= i < order@.len() ==> (#[trigger] order@[i]) < member_keys@.len(),
                decreases order@.len() - place,
            {
                let current = order[place];
                let new_peer = place == 0 || !same_values(&member_keys[current], &member_keys[order[place - 1]]);
                if place as u64 >= 0x7fff_ffff_ffff_ffffu64 {
                    return Err(EvaluateError::Evaluation(EvaluationError { node: node.clone(), kind: EvaluationErrorKind::IntegerOverflow }));
                }
                let row_number = (place + 1) as i64;
                if new_peer {
                    rank = row_number;
                    if dense_rank == i64::MAX {
                        return Err(EvaluateError::Evaluation(EvaluationError { node: node.clone(), kind: EvaluationErrorKind::IntegerOverflow }));
                    }
                    dense_rank = dense_rank + 1;
                }
                let value = match function {
                    RankingFunction::RowNumber => row_number,
                    RankingFunction::Rank => rank,
                    RankingFunction::DenseRank => dense_rank,
                };
                let member = members[current];
                if member < output.len() {
                    output.set(member, Value::Int64(value));
                }
                place = place + 1;
            }
            group_index = group_index + 1;
        }
        Ok(output)
    }

    #[verifier::rlimit(80)]
    #[verifier::spinoff_prover]
    #[verifier::loop_isolation(true)]
    fn evaluate_order(&mut self, node: &'a Node, input: &'a NodeId, items: &'a Vec<OrderingItem>) -> (r: Result<
        Vec<Row>,
        EvaluateError,
    >)
        requires
            old(self).wf(),
            checked_node(*old(self).graph, *node),
            node.kind == (NodeKind::Order { input: *input, items: *items }),
        ensures
            r matches Err(EvaluateError::Input(e)) ==> input_failure(*old(self).graph, *old(self).snapshot, e),
            r matches Err(EvaluateError::Validation(v)) ==> v.kind is InvalidNode,
            r is Ok ==> final(self).wf() && old(self).progressed(final(self)),
            r matches Ok(rows) ==> uniform_width(rows_view(rows@), node.output_schema@.len()),
            r matches Ok(rows) ==> ordered_from_input(*old(self).graph, input@, items@, rows_view(rows@)),
        decreases old(self).potential(), 4int, *node, 0int,
    {
        let schema = self.schema_of(input)?;
        let ghost source_node = choose|k: int|
            0 <= k < self.graph.nodes@.len() && (#[trigger] self.graph.nodes@[k]).id@ == input@ && *schema
                == self.graph.nodes@[k].output_schema;
        assert(old(self).graph.nodes@[source_node].id@ == input@);
        let rows = self.evaluate_node(input)?;
        let width = Ghost(node.output_schema@.len());
        assert(named_width(*self.graph, input@, width@));
        let keys = self.order_keys(&node.id, items, schema, &rows)?;
        let order = match sort_positions(&keys, items) {
            Some(order) => order,
            None => return Err(inconsistency(&node.id)),
        };
        let mut output: Vec<Row> = Vec::new();
        let mut index: usize = 0;
        while index < order.len()
            invariant
                index <= order@.len(),
                order@.len() == rows@.len(),
                forall|i: int| 0 <= i < order@.len() ==> (#[trigger] order@[i]) < rows@.len(),
                uniform_width(rows_view(rows@), width@),
                uniform_width(rows_view(output@), width@),
                output@.len() == index,
                forall|i: int| 0 <= i < index ==> row_view(#[trigger] output@[i]) == row_view(rows@[order@[i] as int]),
            decreases order@.len() - index,
        {
            let placed = rows[order[index]].clone();
            let ghost before = output@;
            proof {
                assert(rows_view(rows@)[order@[index as int] as int] == row_view(rows@[order@[index as int] as int]));
                lemma_push_width(output@, placed, width@);
            }
            output.push(placed);
            proof {
                assert forall|i: int| 0 <= i < index + 1 implies row_view(#[trigger] output@[i]) == row_view(
                    rows@[order@[i] as int],
                ) by {
                    if i < index {
                        assert(output@[i] == before[i]);
                    }
                }
            }
            index = index + 1;
        }
        proof {
            lemma_sorted_output(output@, rows@, key_views(keys@), order@, items@, schema@);
            lemma_ordered_from_input(*old(self).graph, input@, items@, rows_view(output@), source_node, rows@);
        }
        Ok(output)
    }

    #[verifier::rlimit(60)]
    #[verifier::spinoff_prover]
    fn evaluate_expression(&mut self, node: &NodeId, expression: &'a Expression, schema: &Vec<Field>, row: &Row) -> (r: Result<
        Value,
        EvaluateError,
    >)
        requires
            old(self).wf(),
        ensures
            r matches Err(EvaluateError::Input(e)) ==> input_failure(*old(self).graph, *old(self).snapshot, e),
            r matches Err(EvaluateError::Validation(v)) ==> v.kind is InvalidNode,
            r is Ok ==> final(self).wf() && old(self).progressed(final(self)),
            expression_outcome(*expression, schema@, row_view(*row)) matches Some(o) ==> settles_as(r, o, node@),
            expression.kind matches ExpressionKind::Exists { query } ==> (r matches Ok(v) ==> exists|rows: Seq<
                Seq<ScalarValue>,
            >|
                #[trigger] final(self).recorded_rows(query@, rows) && v@ == ScalarValue::Boolean(rows.len() > 0)),
            expression.kind matches ExpressionKind::InQuery { value, query, .. } ==> (r matches Ok(v) ==> exists|
                rows: Seq<Seq<ScalarValue>>,
                x: ScalarValue,
            |
                #![trigger final(self).recorded_rows(query@, rows), membership(x, first_values(rows))]
                final(self).recorded_rows(query@, rows) && v@ == membership(x, first_values(rows)) && (
                expression_outcome(*value, schema@, row_view(*row)) matches Some(o) ==> o == Outcome::Produced(x))),
        decreases old(self).potential(), 1int, *expression, 1int,
    {
        match &expression.kind {
            ExpressionKind::Literal(literal) => Ok(
                match literal {
                    LiteralValue::Boolean(b) => Value::Boolean(*b),
                    LiteralValue::Int64(n) => Value::Int64(*n),
                    LiteralValue::Text(t) => Value::Text(t.clone()),
                    LiteralValue::Null => Value::Null,
                },
            ),
            ExpressionKind::Field(field) => read_field(node, schema, row, field),
            ExpressionKind::Unary { operation, operand } => {
                let value = self.evaluate_expression(node, operand, schema, row)?;
                settle(node, apply_unary(*operation, value))
            },
            ExpressionKind::Binary { .. } => self.evaluate_binary(node, expression, schema, row),
            ExpressionKind::IsNull { operand, negated } => {
                let value = self.evaluate_expression(node, operand, schema, row)?;
                let is_null = value.is_null();
                Ok(Value::Boolean(if *negated { !is_null } else { is_null }))
            },
            ExpressionKind::Case { arms, fallback } => {
                let mut index: usize = 0;
                let ghost outcome = expression_outcome(*expression, schema@, row_view(*row));
                proof {
                    assert(arms@.subrange(0, arms@.len() as int) =~= arms@);
                }
                while index < arms.len()
                    invariant
                        self.wf(),
                        old(self).progressed(self),
                        index <= arms@.len(),
                        outcome is Some ==> case_outcome(arms@, schema@, row_view(*row)) == case_outcome(
                            arms@.subrange(index as int, arms@.len() as int),
                            schema@,
                            row_view(*row),
                        ),
                    decreases arms@.len() - index,
                {
                    assert(decreases_to!(*expression => arms@[index as int].when));
                    assert(decreases_to!(*expression => arms@[index as int].result));
                    let ghost rest = arms@.subrange(index as int, arms@.len() as int);
                    proof {
                        assert(rest[0] == arms@[index as int]);
                        assert(rest.drop_first() =~= arms@.subrange(index + 1, arms@.len() as int));
                    }
                    let verdict = self.evaluate_expression(node, &arms[index].when, schema, row)?;
                    if let Value::Boolean(true) = verdict {
                        return self.evaluate_expression(node, &arms[index].result, schema, row);
                    }
                    index = index + 1;
                }
                self.evaluate_expression(node, fallback, schema, row)
            },
            ExpressionKind::Cast { operand, target } => {
                let value = self.evaluate_expression(node, operand, schema, row)?;
                settle(node, apply_cast(value, *target))
            },
            ExpressionKind::InList { value, candidates } => {
                let value = self.evaluate_expression(node, value, schema, row)?;
                let candidates = self.evaluate_values(node, candidates, schema, row)?;
                Ok(member_of(&value, &candidates))
            },
            ExpressionKind::Exists { query } => {
                let rows = self.evaluate_node(query)?;
                proof {
                    assert(rows_view(rows@).len() == rows@.len());
                }
                Ok(Value::Boolean(rows.len() > 0))
            },
            ExpressionKind::InQuery { value: operand, query, .. } => {
                let value = self.evaluate_expression(node, operand, schema, row)?;
                let rows = self.evaluate_node(query)?;
                let mut candidates: Vec<Value> = Vec::new();
                let mut index: usize = 0;
                while index < rows.len()
                    invariant
                        index <= rows@.len(),
                        candidates@.len() == index,
                        forall|i: int| 0 <= i < index ==> (#[trigger] candidates@[i])@ == rows_view(rows@)[i][0],
                    decreases rows@.len() - index,
                {
                    let ghost before = candidates@;
                    candidates.push(value_at(&rows[index].values, 0, node)?);
                    proof {
                        assert(rows_view(rows@)[index as int] == row_view(rows@[index as int]));
                        assert forall|i: int| 0 <= i < index + 1 implies (#[trigger] candidates@[i])@ == rows_view(
                            rows@,
                        )[i][0] by {
                            if i < index {
                                assert(candidates@[i] == before[i]);
                            }
                        }
                    }
                    index = index + 1;
                }
                proof {
                    assert(candidates@.map_values(|c: Value| c@) =~= first_values(rows_view(rows@)));
                }
                Ok(member_of(&value, &candidates))
            },
        }
    }

    /// AND and OR read their right operand only where the left one does not
    /// decide; every other binary operator reads both operands, even where
    /// the first is null.
    fn evaluate_binary(&mut self, node: &NodeId, expression: &'a Expression, schema: &Vec<Field>, row: &Row) -> (r: Result<
        Value,
        EvaluateError,
    >)
        requires
            old(self).wf(),
            expression.kind is Binary,
        ensures
            r matches Err(EvaluateError::Input(e)) ==> input_failure(*old(self).graph, *old(self).snapshot, e),
            r matches Err(EvaluateError::Validation(v)) ==> v.kind is InvalidNode,
            r is Ok ==> final(self).wf() && old(self).progressed(final(self)),
            expression_outcome(*expression, schema@, row_view(*row)) matches Some(o) ==> settles_as(r, o, node@),
        decreases old(self).potential(), 1int, *expression, 0int,
    {
        let (operation, left, right) = match &expression.kind {
            ExpressionKind::Binary { operation, left, right } => (*operation, left, right),
            _ => return Err(inconsistency(node)),
        };
        assert(decreases_to!(*expression => **left));
        assert(decreases_to!(*expression => **right));
        let left_value = self.evaluate_expression(node, left, schema, row)?;
        match operation {
            BinaryOperation::And => match left_value {
                Value::Boolean(false) => Ok(Value::Boolean(false)),
                Value::Boolean(true) => self.evaluate_expression(node, right, schema, row),
                Value::Null => {
                    let right_value = self.evaluate_expression(node, right, schema, row)?;
                    match right_value {
                        Value::Boolean(false) => Ok(Value::Boolean(false)),
                        Value::Boolean(true) => Ok(Value::Null),
                        Value::Null => Ok(Value::Null),
                        _ => Err(inconsistency(node)),
                    }
                },
                _ => Err(inconsistency(node)),
            },
            BinaryOperation::Or => match left_value {
                Value::Boolean(true) => Ok(Value::Boolean(true)),
                Value::Boolean(false) => self.evaluate_expression(node, right, schema, row),
                Value::Null => {
                    let right_value = self.evaluate_expression(node, right, schema, row)?;
                    match right_value {
                        Value::Boolean(true) => Ok(Value::Boolean(true)),
                        Value::Boolean(false) => Ok(Value::Null),
                        Value::Null => Ok(Value::Null),
                        _ => Err(inconsistency(node)),
                    }
                },
                _ => Err(inconsistency(node)),
            },
            _ => {
                let right_value = self.evaluate_expression(node, right, schema, row)?;
                settle(node, apply_strict_binary(operation, &left_value, &right_value))
            },
        }
    }
}

/// Validates a graph and evaluates it over a snapshot.
///
/// An invalid graph is refused with its validation error. Only the host
/// relations of demanded input nodes are read and checked; an input error
/// names an input node of the graph and reports the missing binding or the
/// first difference of its relation. A successful result carries the root's
/// checked schema and collection kind.
pub fn evaluate(graph: &Graph, snapshot: &Snapshot) -> (r: Result<EvaluationResult, EvaluateError>)
    ensures
        r matches Ok(result) ==> validation_outcome(
            graph,
            Ok(ValidationSummary { root_schema: result.schema, root_collection: result.collection }),
        ),
        r matches Ok(result) ==> uniform_width(rows_view(result.rows@), result.schema@.len()),
        r matches Err(EvaluateError::Validation(e)) ==> validation_outcome(graph, Err(e)) || (exists|
            summary: ValidationSummary,
        | validation_outcome(graph, Ok(summary))) && e.kind is InvalidNode,
        r matches Err(EvaluateError::Input(e)) ==> (exists|summary: ValidationSummary|
            validation_outcome(graph, Ok(summary))) && input_failure(*graph, *snapshot, e),
        r matches Err(EvaluateError::Evaluation(_)) ==> exists|summary: ValidationSummary|
            validation_outcome(graph, Ok(summary)),
{
    proof {
        use_type_invariant(snapshot);
    }
    let summary = match graph.validate() {
        Ok(summary) => summary,
        Err(error) => return Err(EvaluateError::Validation(error)),
    };
    assert(validation_outcome(graph, Ok(summary)));
    let states = unvisited_states(graph.nodes.len());
    proof {
        reveal(validated_graph);
        reveal(memo_widths);
        let k = choose|k: int|
            0 <= k < graph.nodes@.len() && #[trigger] graph.nodes@[k].id@ == graph.root@
                && schema_view(summary.root_schema@) == schema_view(graph.nodes@[k].output_schema@)
                && summary.root_collection == graph.nodes@[k].collection;
        assert(schema_view(summary.root_schema@).len() == schema_view(graph.nodes@[k].output_schema@).len());
        assert(named_width(*graph, graph.root@, summary.root_schema@.len()));
    }
    let mut evaluator = Evaluator { graph, snapshot, states };
    let rows = evaluator.evaluate_node(&graph.root)?;
    Ok(EvaluationResult { schema: summary.root_schema, collection: summary.root_collection, rows })
}

} // verus!
