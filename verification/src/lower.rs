#![verifier::loop_isolation(false)]
//! Lowering from typed HIR to Shape IR 0.1 graphs.
//!
//! Nodes are appended in the order in which they are created, so every node
//! refers only to nodes created before it: the graph is acyclic by
//! construction. Node `k` is named `n{k}`, a temporary field `t{k}`, and the
//! Shape IR field for HIR field `k` is `f{k}`.
use crate::ast::{
    AggregateFunction as SourceAggregateFunction, BinaryOperator, JoinKind,
    NullPlacement as SourceNullPlacement, OrderDirection, RankingFunction as SourceRankingFunction,
    SetOperator, UnaryOperator,
};
use crate::frontend::push_char;
use crate::hir::{
    AggregateArgument as HirAggregateArgument, ExpressionKind as H, LiteralValue as HirLiteral, WhenClause,
    OrderItem as HirOrderItem, QueryBody, RowBound, SelectQuery, TablePrimary, TypedExpression,
    TypedField, TypedProgram, TypedQueryExpression, structurally_equal, structurally_equivalent,
};
use crate::identity::{CteId, FieldId as HirFieldId};
use crate::shape_ir::{
    AggregateDefinition, AggregateFunction, BinaryOperation, CaseArm, CollectionKind, Direction,
    Expression, ExpressionKind, Field, FieldId, Graph, GroupingKey, JoinType, LiteralValue, Node,
    NodeId, NodeKind, NullPlacement, OrderingItem, ProjectEntry, RankingFunction, SetOperation,
    SetQuantifier, UnaryOperation, ValidationError, ValidationErrorKind, WindowDefinition,
    ValidationSummary, added, binary_descriptor, clone_fields, extends, lemma_extends_chain, node_ids_distinct, reads_field,
    schema_view, validation_outcome, version_text,
};
use crate::typecheck::{binary_operand, binary_result, int64_value, is_comparison, parse_int64, spells_int64};
use crate::types::TypeDescriptor;
use vstd::prelude::*;
use vstd::utf8::encode_utf8;

verus! {

type TypedSelect = SelectQuery<TypeDescriptor, TypeDescriptor>;

type TypedOrderItem = HirOrderItem<TypeDescriptor, TypeDescriptor>;

type TypedPrimary = TablePrimary<TypeDescriptor, TypeDescriptor>;

type TypedBody = QueryBody<TypeDescriptor, TypeDescriptor>;

type TypedArgument = HirAggregateArgument<TypeDescriptor, TypeDescriptor>;

// ---------------------------------------------------------------------------
// Identities
// ---------------------------------------------------------------------------

/// The character of the decimal digit `digit`.
pub open spec fn digit_char(digit: nat) -> char {
    if digit == 0 {
        '0'
    } else if digit == 1 {
        '1'
    } else if digit == 2 {
        '2'
    } else if digit == 3 {
        '3'
    } else if digit == 4 {
        '4'
    } else if digit == 5 {
        '5'
    } else if digit == 6 {
        '6'
    } else if digit == 7 {
        '7'
    } else if digit == 8 {
        '8'
    } else {
        '9'
    }
}

/// The shortest decimal spelling of `n`.
pub open spec fn decimal_digits(n: nat) -> Seq<char>
    decreases n,
{
    if n < 10 {
        seq![digit_char(n)]
    } else {
        decimal_digits(n / 10).push(digit_char(n % 10))
    }
}

/// The identity of the node at position `index` of a lowered graph.
pub open spec fn node_name(index: nat) -> Seq<char> {
    seq!['n'] + decimal_digits(index)
}

/// The Shape IR identity of a HIR field.
pub open spec fn field_name(field: HirFieldId) -> Seq<char> {
    seq!['f'] + decimal_digits(field.0 as nat)
}


spec fn digit_value(c: char) -> nat {
    if c == '1' {
        1
    } else if c == '2' {
        2
    } else if c == '3' {
        3
    } else if c == '4' {
        4
    } else if c == '5' {
        5
    } else if c == '6' {
        6
    } else if c == '7' {
        7
    } else if c == '8' {
        8
    } else if c == '9' {
        9
    } else {
        0
    }
}

spec fn digits_number(digits: Seq<char>) -> nat
    decreases digits.len(),
{
    if digits.len() == 0 {
        0
    } else {
        digits_number(digits.drop_last()) * 10 + digit_value(digits.last())
    }
}

proof fn lemma_decimal_round_trip(n: nat)
    ensures
        digits_number(decimal_digits(n)) == n,
    decreases n,
{
    let d = n % 10;
    assert(digit_value(digit_char(d)) == d);
    assert(decimal_digits(n).last() == digit_char(d));
    assert(digits_number(decimal_digits(n)) == digits_number(decimal_digits(n).drop_last()) * 10
        + digit_value(decimal_digits(n).last()));
    if n < 10 {
        assert(decimal_digits(n).drop_last() =~= Seq::<char>::empty());
    } else {
        lemma_decimal_round_trip(n / 10);
        assert(decimal_digits(n).drop_last() =~= decimal_digits(n / 10));
        assert(n == (n / 10) * 10 + d);
    }
}

/// Distinct node positions have distinct identities.
pub proof fn lemma_node_names_distinct(i: nat, j: nat)
    requires
        i != j,
    ensures
        node_name(i) != node_name(j),
{
    lemma_decimal_round_trip(i);
    lemma_decimal_round_trip(j);
    if node_name(i) == node_name(j) {
        assert(node_name(i).subrange(1, node_name(i).len() as int) =~= decimal_digits(i));
        assert(node_name(j).subrange(1, node_name(j).len() as int) =~= decimal_digits(j));
    }
}

/// A lowered graph never repeats a node identity.
pub proof fn lemma_lowered_identities_distinct(graph: Graph, query: TypedQueryExpression)
    requires
        lowered_graph(graph, query),
    ensures
        node_ids_distinct(graph.nodes@),
{
    assert forall|i: int, j: int|
        0 <= i < j < graph.nodes@.len() implies #[trigger] graph.nodes@[i].id@ != #[trigger] graph.nodes@[j].id@ by {
        lemma_node_names_distinct(i as nat, j as nat);
    }
}

fn digit(value: u64) -> (c: char)
    requires
        value < 10,
    ensures
        c == digit_char(value as nat),
{
    if value == 0 {
        '0'
    } else if value == 1 {
        '1'
    } else if value == 2 {
        '2'
    } else if value == 3 {
        '3'
    } else if value == 4 {
        '4'
    } else if value == 5 {
        '5'
    } else if value == 6 {
        '6'
    } else if value == 7 {
        '7'
    } else if value == 8 {
        '8'
    } else {
        '9'
    }
}

pub(crate) fn push_decimal(text: &mut String, n: u64)
    ensures
        final(text)@ == old(text)@ + decimal_digits(n as nat),
    decreases n,
{
    let ghost before = text@;
    if n >= 10 {
        push_decimal(text, n / 10);
    }
    push_char(text, digit(n % 10));
    assert(text@ =~= before + decimal_digits(n as nat));
}

fn identity_text(prefix: char, n: u64) -> (text: String)
    ensures
        text@ == seq![prefix] + decimal_digits(n as nat),
{
    let mut text = String::new();
    push_char(&mut text, prefix);
    push_decimal(&mut text, n);
    text
}

fn lower_field_id(field: HirFieldId) -> (id: FieldId)
    ensures
        id@ == field_name(field),
{
    FieldId::from_string(identity_text('f', field.index() as u64))
}

// ---------------------------------------------------------------------------
// Graph shape
// ---------------------------------------------------------------------------

/// Some node before position `count` has identity `id`.
pub open spec fn existing_node(id: Seq<char>, count: nat) -> bool {
    exists|j: nat| j < count && #[trigger] node_name(j) == id
}

/// The expression demands the result of the node named `id`.
pub open spec fn expression_refers(expression: Expression, id: Seq<char>) -> bool
    decreases expression,
{
    match expression.kind {
        ExpressionKind::Literal(_) => false,
        ExpressionKind::Field(_) => false,
        ExpressionKind::Unary { operand, .. } => expression_refers(*operand, id),
        ExpressionKind::Binary { left, right, .. } => expression_refers(*left, id)
            || expression_refers(*right, id),
        ExpressionKind::IsNull { operand, .. } => expression_refers(*operand, id),
        ExpressionKind::Case { arms, fallback } => (exists|i: int|
            0 <= i < arms@.len() && (expression_refers(#[trigger] arms@[i].when, id)
                || expression_refers(arms@[i].result, id))) || expression_refers(*fallback, id),
        ExpressionKind::Cast { operand, .. } => expression_refers(*operand, id),
        ExpressionKind::InList { value, candidates } => expression_refers(*value, id) || exists|
            i: int,
        | 0 <= i < candidates@.len() && expression_refers(#[trigger] candidates@[i], id),
        ExpressionKind::Exists { query } => query@ == id,
        ExpressionKind::InQuery { value, query, .. } => query@ == id || expression_refers(
            *value,
            id,
        ),
    }
}

/// Every node that the expression demands comes before position `count`.
pub open spec fn expression_within(expression: Expression, count: nat) -> bool {
    forall|id: Seq<char>| #[trigger] expression_refers(expression, id) ==> existing_node(id, count)
}

pub open spec fn optional_within(expression: Option<Expression>, count: nat) -> bool {
    expression matches Some(e) ==> expression_within(e, count)
}

pub open spec fn entry_refers(entry: ProjectEntry, id: Seq<char>) -> bool {
    entry matches ProjectEntry::Compute { expression, .. } && expression_refers(expression, id)
}

pub open spec fn definition_refers(definition: WindowDefinition, id: Seq<char>) -> bool {
    match definition {
        WindowDefinition::PartitionedAggregate { argument, partition_by, .. } => (
        argument matches Some(a) && expression_refers(a, id)) || exists|i: int|
            0 <= i < partition_by@.len() && expression_refers(#[trigger] partition_by@[i], id),
        WindowDefinition::Ranking { partition_by, order_by, .. } => (exists|i: int|
            0 <= i < partition_by@.len() && expression_refers(#[trigger] partition_by@[i], id))
            || exists|i: int|
            0 <= i < order_by@.len() && expression_refers(#[trigger] order_by@[i].expression, id),
    }
}

/// The node kind names `id` as an input or demands it from an expression.
pub open spec fn kind_refers(kind: NodeKind, id: Seq<char>) -> bool {
    match kind {
        NodeKind::Input { .. } => false,
        NodeKind::Empty => false,
        NodeKind::Project { input, entries } => input@ == id || exists|i: int|
            0 <= i < entries@.len() && entry_refers(#[trigger] entries@[i], id),
        NodeKind::Filter { input, predicate } => input@ == id || expression_refers(predicate, id),
        NodeKind::Join { left, right, condition, .. } => left@ == id || right@ == id || (
        condition matches Some(c) && expression_refers(c, id)),
        NodeKind::Aggregate { input, grouping_keys, aggregates } => input@ == id || (exists|i: int|
            0 <= i < grouping_keys@.len() && expression_refers(
                #[trigger] grouping_keys@[i].expression,
                id,
            )) || exists|i: int|
            0 <= i < aggregates@.len() && (#[trigger] aggregates@[i]).argument is Some
                && expression_refers(aggregates@[i].argument->0, id),
        NodeKind::Window { input, definitions } => input@ == id || exists|i: int|
            0 <= i < definitions@.len() && definition_refers(#[trigger] definitions@[i], id),
        NodeKind::Distinct { input } => input@ == id,
        NodeKind::SetOperation { left, right, .. } => left@ == id || right@ == id,
        NodeKind::Order { input, items } => input@ == id || exists|i: int|
            0 <= i < items@.len() && expression_refers(#[trigger] items@[i].expression, id),
        NodeKind::Slice { input, .. } => input@ == id,
        NodeKind::ForgetOrder { input } => input@ == id,
    }
}

/// Every node that the node kind refers to comes before position `count`.
pub open spec fn kind_within(kind: NodeKind, count: nat) -> bool {
    forall|id: Seq<char>| #[trigger] kind_refers(kind, id) ==> existing_node(id, count)
}

/// Node `k` is named `n{k}`.
pub open spec fn positional_identities(nodes: Seq<Node>) -> bool {
    forall|k: int| 0 <= k < nodes.len() ==> (#[trigger] nodes[k]).id@ == node_name(k as nat)
}

/// Every node refers only to nodes that come before it.
pub open spec fn refers_backward(nodes: Seq<Node>) -> bool {
    forall|k: int| 0 <= k < nodes.len() ==> kind_within((#[trigger] nodes[k]).kind, k as nat)
}

/// The schema that lowering gives to a list of typed HIR fields.
pub open spec fn lowered_schema(fields: Seq<TypedField>) -> Seq<(Seq<char>, Seq<char>, TypeDescriptor)> {
    fields.map_values(|field: TypedField| (field_name(field.id), field.name@, field.annotation))
}

/// Whether the lowered relation of a query is ordered: it is where the query
/// has an ORDER BY, or where its body is a parenthesized ordered query.
pub open spec fn query_collection(query: TypedQueryExpression) -> CollectionKind
    decreases query,
{
    if query.order_by@.len() > 0 {
        CollectionKind::Ordered
    } else {
        match query.body {
            QueryBody::Parenthesized { query: inner, .. } => query_collection(*inner),
            _ => CollectionKind::Bag,
        }
    }
}

pub open spec fn body_collection(body: TypedBody) -> CollectionKind {
    match body {
        QueryBody::Parenthesized { query, .. } => query_collection(*query),
        _ => CollectionKind::Bag,
    }
}

/// The graph lowered from `query`: the Shape IR version, positional node
/// identities, references only to earlier nodes, and a root node whose
/// schema is the query's result fields and whose collection kind says
/// whether the query is ordered.
pub open spec fn lowered_graph(graph: Graph, query: TypedQueryExpression) -> bool {
    &&& graph.version@ == version_text()
    &&& graph.nodes@.len() > 0
    &&& positional_identities(graph.nodes@)
    &&& refers_backward(graph.nodes@)
    &&& exists|k: nat|
        k < graph.nodes@.len() && #[trigger] node_name(k) == graph.root@ && schema_view(
            graph.nodes@[k as int].output_schema@,
        ) == lowered_schema(query.result_fields@) && graph.nodes@[k as int].collection
            == query_collection(query)
}

proof fn lemma_existing_grows(id: Seq<char>, small: nat, large: nat)
    requires
        existing_node(id, small),
        small <= large,
    ensures
        existing_node(id, large),
{
    let j = choose|j: nat| j < small && #[trigger] node_name(j) == id;
    assert(node_name(j) == id);
}

proof fn lemma_within_grows(expression: Expression, small: nat, large: nat)
    requires
        expression_within(expression, small),
        small <= large,
    ensures
        expression_within(expression, large),
{
    assert forall|id: Seq<char>| #[trigger] expression_refers(expression, id) implies existing_node(
        id,
        large,
    ) by {
        lemma_existing_grows(id, small, large);
    }
}

proof fn lemma_all_within_grow(expressions: Seq<Expression>, small: nat, large: nat)
    requires
        forall|i: int| 0 <= i < expressions.len() ==> expression_within(#[trigger] expressions[i], small),
        small <= large,
    ensures
        forall|i: int| 0 <= i < expressions.len() ==> expression_within(#[trigger] expressions[i], large),
{
    assert forall|i: int| 0 <= i < expressions.len() implies expression_within(
        #[trigger] expressions[i],
        large,
    ) by {
        lemma_within_grows(expressions[i], small, large);
    }
}

fn internal_error(kind: ValidationErrorKind) -> (error: ValidationError)
    ensures
        error.kind == kind,
        error.node is None,
{
    ValidationError { kind, node: None }
}

// ---------------------------------------------------------------------------
// Lowering state
// ---------------------------------------------------------------------------

/// A lowered relation: its node, schema, collection kind, and where each
/// visible HIR field lives in the schema.
struct Plan {
    node: usize,
    schema: Vec<Field>,
    collection: CollectionKind,
    /// Later entries shadow earlier ones.
    environment: Vec<(HirFieldId, FieldId)>,
}

/// The plan describes node `plan.node` of `nodes`.
spec fn plan_valid(plan: Plan, nodes: Seq<Node>) -> bool {
    &&& plan.node < nodes.len()
    &&& nodes[plan.node as int].collection == plan.collection
    &&& schema_view(nodes[plan.node as int].output_schema@) == schema_view(plan.schema@)
}

/// Each HIR field of an environment with the Shape IR field it is read from.
spec fn locations(environment: Seq<(HirFieldId, FieldId)>) -> Seq<(HirFieldId, Seq<char>)> {
    environment.map_values(|entry: (HirFieldId, FieldId)| (entry.0, entry.1@))
}

fn copy_environment(environment: &Vec<(HirFieldId, FieldId)>) -> (copy: Vec<(HirFieldId, FieldId)>)
    ensures
        copy@.len() == environment@.len(),
        locations(copy@) == locations(environment@),
{
    let mut copy: Vec<(HirFieldId, FieldId)> = Vec::new();
    let mut index: usize = 0;
    while index < environment.len()
        invariant
            index <= environment@.len(),
            copy@.len() == index,
            forall|k: int| 0 <= k < index ==> (#[trigger] copy@[k]).0 == environment@[k].0 && copy@[k].1@
                == environment@[k].1@,
        decreases environment@.len() - index,
    {
        let (hir, field) = &environment[index];
        copy.push((*hir, field.clone()));
        index = index + 1;
    }
    assert(locations(copy@) =~= locations(environment@));
    copy
}

fn copy_plan(plan: &Plan) -> (copy: Plan)
    ensures
        copy.node == plan.node,
        copy.collection == plan.collection,
        schema_view(copy.schema@) == schema_view(plan.schema@),
{
    Plan {
        node: plan.node,
        schema: clone_fields(plan.schema.as_slice()),
        collection: plan.collection,
        environment: copy_environment(&plan.environment),
    }
}

/// Where each visible HIR field of a schema lives after lowering.
fn environment_from(fields: &Vec<TypedField>) -> (environment: Vec<(HirFieldId, FieldId)>)
    ensures
        environment@.len() == fields@.len(),
{
    let mut environment: Vec<(HirFieldId, FieldId)> = Vec::new();
    let mut index: usize = 0;
    while index < fields.len()
        invariant
            index <= fields@.len(),
            environment@.len() == index,
        decreases fields@.len() - index,
    {
        environment.push((fields[index].id, lower_field_id(fields[index].id)));
        index = index + 1;
    }
    environment
}

fn append_environment(target: &mut Vec<(HirFieldId, FieldId)>, source: &Vec<(HirFieldId, FieldId)>)
    ensures
        locations(final(target)@) == locations(old(target)@) + locations(source@),
{
    let ghost start = target@;
    let mut index: usize = 0;
    while index < source.len()
        invariant
            index <= source@.len(),
            locations(target@) == locations(start) + locations(source@.take(index as int)),
        decreases source@.len() - index,
    {
        let (hir, field) = &source[index];
        let ghost before = target@;
        target.push((*hir, field.clone()));
        assert(source@.take(index + 1) =~= source@.take(index as int).push(source@[index as int]));
        assert(locations(target@) =~= locations(before).push((source@[index as int].0, source@[index as int].1@)));
        assert(locations(source@.take(index + 1)) =~= locations(source@.take(index as int)).push(
            (source@[index as int].0, source@[index as int].1@),
        ));
        index = index + 1;
    }
    assert(source@.take(index as int) =~= source@);
}

/// The most recent location of a HIR field.
fn find_field<'e>(environment: &'e Vec<(HirFieldId, FieldId)>, field: HirFieldId) -> (r: Option<&'e FieldId>)
    ensures
        r matches Some(found) ==> exists|i: int|
            0 <= i < environment@.len() && (#[trigger] environment@[i]).0 == field && *found
                == environment@[i].1 && forall|j: int| i < j < environment@.len() ==> environment@[j].0 != field,
        r is None ==> forall|i: int| 0 <= i < environment@.len() ==> (#[trigger] environment@[i]).0 != field,
{
    let mut index = environment.len();
    while index > 0
        invariant
            index <= environment@.len(),
            forall|j: int| index <= j < environment@.len() ==> (#[trigger] environment@[j]).0 != field,
        decreases index,
    {
        index = index - 1;
        if environment[index].0 == field {
            return Some(&environment[index].1);
        }
    }
    None
}

/// The span of an invocation: the key under which its output is recorded.
fn invocation_key(expression: &TypedExpression) -> (key: (usize, usize))
    ensures
        key == (expression.span.start, expression.span.end),
{
    (expression.span.start, expression.span.end)
}

/// The most recent output recorded for an invocation key.
fn find_invocation<'e>(outputs: &'e Vec<((usize, usize), FieldId)>, key: (usize, usize)) -> (r: Option<&'e FieldId>)
    ensures
        r matches Some(found) ==> exists|i: int|
            0 <= i < outputs@.len() && (#[trigger] outputs@[i]).0 == key && *found == outputs@[i].1
                && forall|j: int| i < j < outputs@.len() ==> outputs@[j].0 != key,
        r is None ==> forall|i: int| 0 <= i < outputs@.len() ==> (#[trigger] outputs@[i]).0 != key,
{
    let mut index = outputs.len();
    while index > 0
        invariant
            index <= outputs@.len(),
            forall|j: int| index <= j < outputs@.len() ==> (#[trigger] outputs@[j]).0 != key,
        decreases index,
    {
        index = index - 1;
        let (recorded, _) = &outputs[index];
        if recorded.0 == key.0 && recorded.1 == key.1 {
            return Some(&outputs[index].1);
        }
    }
    None
}

/// The output of the first grouping key structurally equal to `expression`.
fn find_group<'e, 'a>(groups: &'e Vec<(&'a TypedExpression, FieldId)>, expression: &TypedExpression) -> (r: Option<
    &'e FieldId,
>)
    ensures
        r matches Some(found) ==> exists|i: int|
            0 <= i < groups@.len() && structurally_equivalent(*(#[trigger] groups@[i]).0, *expression) && *found
                == groups@[i].1 && forall|j: int| 0 <= j < i ==> !structurally_equivalent(*groups@[j].0, *expression),
        r is None ==> forall|i: int| 0 <= i < groups@.len() ==> !structurally_equivalent(*(#[trigger] groups@[i]).0, *expression),
{
    let mut index: usize = 0;
    while index < groups.len()
        invariant
            index <= groups@.len(),
            forall|j: int| 0 <= j < index ==> !structurally_equivalent(*(#[trigger] groups@[j]).0, *expression),
        decreases groups@.len() - index,
    {
        if structurally_equal(groups[index].0, expression) {
            return Some(&groups[index].1);
        }
        index = index + 1;
    }
    None
}

fn contains_field(ids: &Vec<FieldId>, id: &FieldId) -> (r: bool)
    ensures
        r == exists|i: int| 0 <= i < ids@.len() && (#[trigger] ids@[i])@ == id@,
{
    let mut index: usize = 0;
    while index < ids.len()
        invariant
            index <= ids@.len(),
            forall|j: int| 0 <= j < index ==> (#[trigger] ids@[j])@ != id@,
        decreases ids@.len() - index,
    {
        if ids[index].same(id) {
            return true;
        }
        index = index + 1;
    }
    false
}

/// The Shape IR schema for a list of typed HIR fields.
fn lower_schema(fields: &Vec<TypedField>) -> (schema: Vec<Field>)
    ensures
        schema_view(schema@) == lowered_schema(fields@),
{
    let mut schema: Vec<Field> = Vec::new();
    let mut index: usize = 0;
    while index < fields.len()
        invariant
            index <= fields@.len(),
            schema@.len() == index,
            forall|k: int|
                0 <= k < index ==> (#[trigger] schema@[k])@ == (
                    field_name(fields@[k].id),
                    fields@[k].name@,
                    fields@[k].annotation,
                ),
        decreases fields@.len() - index,
    {
        let field = &fields[index];
        schema.push(
            Field {
                id: lower_field_id(field.id),
                name: String::from_str(field.name.as_str()),
                descriptor: field.annotation,
            },
        );
        index = index + 1;
    }
    assert(schema_view(schema@) =~= lowered_schema(fields@));
    schema
}

/// Whether two schemas have the same fields in the same order.
fn same_schema(left: &Vec<Field>, right: &Vec<Field>) -> (r: bool)
    ensures
        r == (schema_view(left@) == schema_view(right@)),
{
    if left.len() != right.len() {
        assert(schema_view(left@).len() != schema_view(right@).len());
        return false;
    }
    let mut index: usize = 0;
    while index < left.len()
        invariant
            index <= left@.len(),
            left@.len() == right@.len(),
            forall|k: int| 0 <= k < index ==> (#[trigger] left@[k])@ == right@[k]@,
        decreases left@.len() - index,
    {
        let a = &left[index];
        let b = &right[index];
        if !(a.id.same(&b.id) && a.name == b.name && a.descriptor == b.descriptor) {
            assert(schema_view(left@)[index as int] != schema_view(right@)[index as int]);
            return false;
        }
        index = index + 1;
    }
    assert(schema_view(left@) =~= schema_view(right@));
    true
}

/// The schema with every field made nullable.
fn nullable_schema(schema: &Vec<Field>) -> (nullable: Vec<Field>)
    ensures
        nullable@.len() == schema@.len(),
{
    let mut nullable: Vec<Field> = Vec::new();
    let mut index: usize = 0;
    while index < schema.len()
        invariant
            index <= schema@.len(),
            nullable@.len() == index,
        decreases schema@.len() - index,
    {
        let field = &schema[index];
        nullable.push(
            Field {
                id: field.id.clone(),
                name: field.name.clone(),
                descriptor: field.descriptor.with_nullable(true),
            },
        );
        index = index + 1;
    }
    nullable
}

fn keep_entries(schema: &Vec<Field>) -> (entries: Vec<ProjectEntry>)
    ensures
        entries@.len() == schema@.len(),
        forall|i: int| 0 <= i < entries@.len() ==> (#[trigger] entries@[i]) is Keep,
        forall|i: int|
            0 <= i < entries@.len() ==> ((#[trigger] entries@[i]) matches ProjectEntry::Keep(id) && id@
                == schema@[i].id@),
{
    let mut entries: Vec<ProjectEntry> = Vec::new();
    let mut index: usize = 0;
    while index < schema.len()
        invariant
            index <= schema@.len(),
            entries@.len() == index,
            forall|i: int| 0 <= i < entries@.len() ==> (#[trigger] entries@[i]) is Keep,
            forall|i: int|
                0 <= i < entries@.len() ==> ((#[trigger] entries@[i]) matches ProjectEntry::Keep(id) && id@
                    == schema@[i].id@),
        decreases schema@.len() - index,
    {
        entries.push(ProjectEntry::Keep(schema[index].id.clone()));
        index = index + 1;
    }
    entries
}

/// The Shape IR operation of a source binary operator.
pub open spec fn binary_operation(operator: BinaryOperator) -> BinaryOperation {
    match operator {
        BinaryOperator::Add => BinaryOperation::Add,
        BinaryOperator::Subtract => BinaryOperation::Subtract,
        BinaryOperator::Multiply => BinaryOperation::Multiply,
        BinaryOperator::Divide => BinaryOperation::Divide,
        BinaryOperator::Remainder => BinaryOperation::Remainder,
        BinaryOperator::Concatenate => BinaryOperation::Concatenate,
        BinaryOperator::Equal => BinaryOperation::Equal,
        BinaryOperator::NotEqual => BinaryOperation::NotEqual,
        BinaryOperator::Less => BinaryOperation::Less,
        BinaryOperator::LessEqual => BinaryOperation::LessOrEqual,
        BinaryOperator::Greater => BinaryOperation::Greater,
        BinaryOperator::GreaterEqual => BinaryOperation::GreaterOrEqual,
        BinaryOperator::And => BinaryOperation::And,
        BinaryOperator::Or => BinaryOperation::Or,
    }
}

/// The Shape IR placement of NULLs for a source ordering item: not
/// applicable where the item names none.
pub open spec fn null_placement_of(placement: Option<SourceNullPlacement>) -> NullPlacement {
    match placement {
        None => NullPlacement::NotApplicable,
        Some(SourceNullPlacement::First) => NullPlacement::First,
        Some(SourceNullPlacement::Last) => NullPlacement::Last,
    }
}

/// The Shape IR aggregate function of a source one: `COUNT(*)` counts all
/// rows.
pub open spec fn aggregate_function_of(function: SourceAggregateFunction, star: bool) -> AggregateFunction {
    match function {
        SourceAggregateFunction::Count => if star {
            AggregateFunction::CountAll
        } else {
            AggregateFunction::Count
        },
        SourceAggregateFunction::Sum => AggregateFunction::Sum,
        SourceAggregateFunction::Min => AggregateFunction::Min,
        SourceAggregateFunction::Max => AggregateFunction::Max,
        SourceAggregateFunction::BoolAnd => AggregateFunction::BoolAnd,
        SourceAggregateFunction::BoolOr => AggregateFunction::BoolOr,
    }
}

/// Lowering keeps an operator's typing: the Shape IR operation accepts
/// exactly the operand types that the type checker gives the source
/// operator, and yields the type checker's result type.
pub proof fn lemma_lowered_operator_typing(operator: BinaryOperator, left: TypeDescriptor, right: TypeDescriptor)
    ensures
        binary_descriptor(binary_operation(operator), left, right) matches Some(d) ==> d.scalar == binary_result(
            operator,
        ) && d.nullable == (left.nullable || right.nullable),
        !is_comparison(operator) ==> (binary_descriptor(binary_operation(operator), left, right) is Some <==> (
        left.scalar == binary_operand(operator) && right.scalar == binary_operand(operator))),
        is_comparison(operator) ==> (binary_descriptor(binary_operation(operator), left, right) is Some <==> left.scalar
            == right.scalar),
{
}

/// Each source operator lowers to the Shape IR operation of the same
/// meaning, and no two operators lower to one operation.
pub proof fn lemma_lowered_operators(operator: BinaryOperator)
    ensures
        binary_operation(operator) == BinaryOperation::Add <==> operator == BinaryOperator::Add,
        binary_operation(operator) == BinaryOperation::Subtract <==> operator == BinaryOperator::Subtract,
        binary_operation(operator) == BinaryOperation::Multiply <==> operator == BinaryOperator::Multiply,
        binary_operation(operator) == BinaryOperation::Divide <==> operator == BinaryOperator::Divide,
        binary_operation(operator) == BinaryOperation::Remainder <==> operator == BinaryOperator::Remainder,
        binary_operation(operator) == BinaryOperation::Concatenate <==> operator == BinaryOperator::Concatenate,
        binary_operation(operator) == BinaryOperation::Equal <==> operator == BinaryOperator::Equal,
        binary_operation(operator) == BinaryOperation::NotEqual <==> operator == BinaryOperator::NotEqual,
        binary_operation(operator) == BinaryOperation::Less <==> operator == BinaryOperator::Less,
        binary_operation(operator) == BinaryOperation::LessOrEqual <==> operator == BinaryOperator::LessEqual,
        binary_operation(operator) == BinaryOperation::Greater <==> operator == BinaryOperator::Greater,
        binary_operation(operator) == BinaryOperation::GreaterOrEqual <==> operator == BinaryOperator::GreaterEqual,
        binary_operation(operator) == BinaryOperation::And <==> operator == BinaryOperator::And,
        binary_operation(operator) == BinaryOperation::Or <==> operator == BinaryOperator::Or,
{
}

fn lower_binary(operator: BinaryOperator) -> (operation: BinaryOperation)
    ensures
        operation == binary_operation(operator),
{
    match operator {
        BinaryOperator::Add => BinaryOperation::Add,
        BinaryOperator::Subtract => BinaryOperation::Subtract,
        BinaryOperator::Multiply => BinaryOperation::Multiply,
        BinaryOperator::Divide => BinaryOperation::Divide,
        BinaryOperator::Remainder => BinaryOperation::Remainder,
        BinaryOperator::Concatenate => BinaryOperation::Concatenate,
        BinaryOperator::Equal => BinaryOperation::Equal,
        BinaryOperator::NotEqual => BinaryOperation::NotEqual,
        BinaryOperator::Less => BinaryOperation::Less,
        BinaryOperator::LessEqual => BinaryOperation::LessOrEqual,
        BinaryOperator::Greater => BinaryOperation::Greater,
        BinaryOperator::GreaterEqual => BinaryOperation::GreaterOrEqual,
        BinaryOperator::And => BinaryOperation::And,
        BinaryOperator::Or => BinaryOperation::Or,
    }
}

fn lower_ranking_function(function: SourceRankingFunction) -> (lowered: RankingFunction)
    ensures
        function == SourceRankingFunction::RowNumber <==> lowered == RankingFunction::RowNumber,
        function == SourceRankingFunction::Rank <==> lowered == RankingFunction::Rank,
        function == SourceRankingFunction::DenseRank <==> lowered == RankingFunction::DenseRank,
{
    match function {
        SourceRankingFunction::RowNumber => RankingFunction::RowNumber,
        SourceRankingFunction::Rank => RankingFunction::Rank,
        SourceRankingFunction::DenseRank => RankingFunction::DenseRank,
    }
}

/// Whether the row bound's offset and limit, where written, spell INT64
/// values.
pub open spec fn bound_spelled(row_bound: Option<&RowBound>) -> bool {
    match row_bound {
        Some(bound) => (bound.offset matches Some(v) ==> spells_int64(encode_utf8(v.spelling@))) && (
        bound.limit matches Some(v) ==> spells_int64(encode_utf8(v.spelling@))),
        None => true,
    }
}

/// The Shape IR direction of a source ordering item: ascending unless the
/// item says descending.
pub open spec fn direction_of(direction: Option<OrderDirection>) -> Direction {
    match direction {
        Some(OrderDirection::Descending) => Direction::Descending,
        _ => Direction::Ascending,
    }
}

/// An ordering item sorts ascending unless it says DESC, and its NULLs
/// have no stated placement unless it names one; the lowering keeps what
/// each item says and nothing else.
pub proof fn lemma_ordering_defaults(direction: Option<OrderDirection>, placement: Option<SourceNullPlacement>)
    ensures
        direction_of(direction) == Direction::Descending <==> direction == Some(OrderDirection::Descending),
        direction_of(direction) == Direction::Ascending <==> (direction is None || direction == Some(
            OrderDirection::Ascending,
        )),
        null_placement_of(placement) == NullPlacement::NotApplicable <==> placement is None,
        null_placement_of(placement) == NullPlacement::First <==> placement == Some(SourceNullPlacement::First),
        null_placement_of(placement) == NullPlacement::Last <==> placement == Some(SourceNullPlacement::Last),
{
}

fn lower_direction(direction: Option<OrderDirection>) -> (lowered: Direction)
    ensures
        lowered == direction_of(direction),
        lowered == Direction::Descending <==> direction == Some(OrderDirection::Descending),
        lowered == Direction::Ascending <==> direction != Some(OrderDirection::Descending),
{
    match direction {
        Some(OrderDirection::Descending) => Direction::Descending,
        _ => Direction::Ascending,
    }
}

fn lower_null_placement(placement: Option<SourceNullPlacement>) -> (lowered: NullPlacement)
    ensures
        lowered == null_placement_of(placement),
        placement is None <==> lowered == NullPlacement::NotApplicable,
        placement == Some(SourceNullPlacement::First) <==> lowered == NullPlacement::First,
        placement == Some(SourceNullPlacement::Last) <==> lowered == NullPlacement::Last,
{
    match placement {
        None => NullPlacement::NotApplicable,
        Some(SourceNullPlacement::First) => NullPlacement::First,
        Some(SourceNullPlacement::Last) => NullPlacement::Last,
    }
}

fn lower_aggregate_function(function: SourceAggregateFunction, star: bool) -> (lowered: AggregateFunction)
    ensures
        lowered == aggregate_function_of(function, star),
        lowered == AggregateFunction::CountAll <==> function == SourceAggregateFunction::Count && star,
        lowered == AggregateFunction::Count <==> function == SourceAggregateFunction::Count && !star,
        lowered == AggregateFunction::Sum <==> function == SourceAggregateFunction::Sum,
        lowered == AggregateFunction::Min <==> function == SourceAggregateFunction::Min,
        lowered == AggregateFunction::Max <==> function == SourceAggregateFunction::Max,
        lowered == AggregateFunction::BoolAnd <==> function == SourceAggregateFunction::BoolAnd,
        lowered == AggregateFunction::BoolOr <==> function == SourceAggregateFunction::BoolOr,
{
    match function {
        SourceAggregateFunction::Count => if star {
            AggregateFunction::CountAll
        } else {
            AggregateFunction::Count
        },
        SourceAggregateFunction::Sum => AggregateFunction::Sum,
        SourceAggregateFunction::Min => AggregateFunction::Min,
        SourceAggregateFunction::Max => AggregateFunction::Max,
        SourceAggregateFunction::BoolAnd => AggregateFunction::BoolAnd,
        SourceAggregateFunction::BoolOr => AggregateFunction::BoolOr,
    }
}

/// Adds every Shape IR field that the expression reads to `output`.
fn collect_ir_fields(expression: &Expression, output: &mut Vec<FieldId>)
    ensures
        final(output)@.len() >= old(output)@.len(),
        forall|k: int| 0 <= k < old(output)@.len() ==> #[trigger] final(output)@[k] == old(output)@[k],
        forall|k: int|
            old(output)@.len() <= k < final(output)@.len() ==> reads_field(*expression, (#[trigger] final(output)@[k])@),
        forall|id: Seq<char>| #[trigger] reads_field(*expression, id) ==> added(old(output)@, final(output)@, id),
    decreases *expression,
{
    let ghost start = output@;
    match &expression.kind {
        ExpressionKind::Field(field) => {
            output.push(field.clone());
            assert(output@[start.len() as int]@ == field@);
            assert(added(start, output@, field@));
        },
        ExpressionKind::Unary { operand, .. } => {
            collect_ir_fields(operand, output);
            assert forall|id: Seq<char>| #[trigger] reads_field(*expression, id) implies added(start, output@, id) by {
                assert(reads_field(**operand, id));
            }
        },
        ExpressionKind::IsNull { operand, .. } => {
            collect_ir_fields(operand, output);
            assert forall|id: Seq<char>| #[trigger] reads_field(*expression, id) implies added(start, output@, id) by {
                assert(reads_field(**operand, id));
            }
        },
        ExpressionKind::Cast { operand, .. } => {
            collect_ir_fields(operand, output);
            assert forall|id: Seq<char>| #[trigger] reads_field(*expression, id) implies added(start, output@, id) by {
                assert(reads_field(**operand, id));
            }
        },
        ExpressionKind::Binary { left, right, .. } => {
            collect_ir_fields(left, output);
            let ghost middle = output@;
            collect_ir_fields(right, output);
            proof {
                lemma_extends_chain(start, middle, output@);
                assert forall|id: Seq<char>| #[trigger] reads_field(*expression, id) implies added(start, output@, id) by {
                    if reads_field(**left, id) {
                        assert(added(start, middle, id));
                    } else {
                        assert(reads_field(**right, id));
                        assert(added(middle, output@, id));
                    }
                }
                assert forall|k: int| start.len() <= k < output@.len() implies reads_field(
                    *expression,
                    (#[trigger] output@[k])@,
                ) by {
                    if k < middle.len() {
                        assert(output@[k] == middle[k]);
                    }
                }
            }
        },
        ExpressionKind::Case { arms, fallback } => {
            let mut index: usize = 0;
            while index < arms.len()
                invariant
                    index <= arms@.len(),
                    extends(start, output@),
                    start == old(output)@,
                    expression.kind == (ExpressionKind::Case { arms: *arms, fallback: *fallback }),
                    forall|k: int|
                        start.len() <= k < output@.len() ==> reads_field(*expression, (#[trigger] output@[k])@),
                    forall|id: Seq<char>|
                        (exists|i: int|
                            0 <= i < index && (reads_field(#[trigger] arms@[i].when, id) || reads_field(
                                arms@[i].result,
                                id,
                            ))) ==> #[trigger] added(start, output@, id),
                decreases arms@.len() - index,
            {
                assert(decreases_to!(*expression => arms@[index as int].when));
                assert(decreases_to!(*expression => arms@[index as int].result));
                let ghost before = output@;
                collect_ir_fields(&arms[index].when, output);
                let ghost middle = output@;
                collect_ir_fields(&arms[index].result, output);
                proof {
                    lemma_extends_chain(before, middle, output@);
                    lemma_extends_chain(start, before, output@);
                    assert forall|k: int| start.len() <= k < output@.len() implies reads_field(
                        *expression,
                        (#[trigger] output@[k])@,
                    ) by {
                        if k < before.len() {
                            assert(output@[k] == before[k]);
                        } else if k < middle.len() {
                            assert(output@[k] == middle[k]);
                            assert(reads_field(arms@[index as int].when, output@[k]@));
                        } else {
                            assert(reads_field(arms@[index as int].result, output@[k]@));
                        }
                    }
                    assert forall|id: Seq<char>|
                        (exists|i: int|
                            0 <= i < index + 1 && (reads_field(#[trigger] arms@[i].when, id) || reads_field(
                                arms@[i].result,
                                id,
                            ))) implies #[trigger] added(start, output@, id) by {
                        let i = choose|i: int|
                            0 <= i < index + 1 && (reads_field(#[trigger] arms@[i].when, id) || reads_field(
                                arms@[i].result,
                                id,
                            ));
                        if i < index {
                            assert(added(start, before, id));
                        } else if reads_field(arms@[i].when, id) {
                            assert(added(before, middle, id));
                        } else {
                            assert(added(middle, output@, id));
                        }
                    }
                }
                index = index + 1;
            }
            let ghost before = output@;
            collect_ir_fields(fallback, output);
            proof {
                lemma_extends_chain(start, before, output@);
                assert forall|k: int| start.len() <= k < output@.len() implies reads_field(
                    *expression,
                    (#[trigger] output@[k])@,
                ) by {
                    if k < before.len() {
                        assert(output@[k] == before[k]);
                    }
                }
                assert forall|id: Seq<char>| #[trigger] reads_field(*expression, id) implies added(start, output@, id) by {
                    if reads_field(**fallback, id) {
                        assert(added(before, output@, id));
                    } else {
                        assert(added(start, before, id));
                    }
                }
            }
        },
        ExpressionKind::InList { value, candidates } => {
            collect_ir_fields(value, output);
            let ghost first = output@;
            let mut index: usize = 0;
            while index < candidates.len()
                invariant
                    index <= candidates@.len(),
                    extends(start, first),
                    extends(first, output@),
                    start == old(output)@,
                    expression.kind == (ExpressionKind::InList { value: *value, candidates: *candidates }),
                    forall|k: int|
                        start.len() <= k < output@.len() ==> reads_field(*expression, (#[trigger] output@[k])@),
                    forall|id: Seq<char>| reads_field(**value, id) ==> #[trigger] added(start, output@, id),
                    forall|id: Seq<char>|
                        (exists|i: int| 0 <= i < index && reads_field(#[trigger] candidates@[i], id)) ==> #[trigger] added(
                            start,
                            output@,
                            id,
                        ),
                decreases candidates@.len() - index,
            {
                assert(decreases_to!(*expression => candidates@[index as int]));
                let ghost before = output@;
                collect_ir_fields(&candidates[index], output);
                proof {
                    lemma_extends_chain(first, before, output@);
                    lemma_extends_chain(start, before, output@);
                    assert forall|k: int| start.len() <= k < output@.len() implies reads_field(
                        *expression,
                        (#[trigger] output@[k])@,
                    ) by {
                        if k < before.len() {
                            assert(output@[k] == before[k]);
                        } else {
                            assert(reads_field(candidates@[index as int], output@[k]@));
                        }
                    }
                    assert forall|id: Seq<char>|
                        (exists|i: int| 0 <= i < index + 1 && reads_field(#[trigger] candidates@[i], id)) implies #[trigger] added(
                            start,
                            output@,
                            id,
                        ) by {
                        let i = choose|i: int| 0 <= i < index + 1 && reads_field(#[trigger] candidates@[i], id);
                        if i < index {
                            assert(added(start, before, id));
                        } else {
                            assert(added(before, output@, id));
                        }
                    }
                }
                index = index + 1;
            }
            proof {
                assert forall|id: Seq<char>| #[trigger] reads_field(*expression, id) implies added(start, output@, id) by {
                    if !reads_field(**value, id) {
                        let i = choose|i: int| 0 <= i < candidates@.len() && reads_field(#[trigger] candidates@[i], id);
                        assert(exists|j: int| 0 <= j < index && reads_field(#[trigger] candidates@[j], id));
                    }
                }
            }
        },
        ExpressionKind::InQuery { value, .. } => {
            collect_ir_fields(value, output);
            assert forall|id: Seq<char>| #[trigger] reads_field(*expression, id) implies added(start, output@, id) by {
                assert(reads_field(**value, id));
            }
        },
        ExpressionKind::Literal(_) | ExpressionKind::Exists { .. } => {},
    }
}

/// The expression itself or one of its subexpressions.
spec fn part_of(whole: TypedExpression, part: TypedExpression) -> bool {
    part == whole || decreases_to!(whole => part)
}

/// The expression is an invocation that collection takes: a windowed one
/// (a windowed aggregate or a ranking function) where `windowed` holds, a
/// grouping aggregate otherwise.
spec fn collected(expression: TypedExpression, windowed: bool) -> bool {
    match expression.kind {
        H::Aggregate { window, .. } => (window is Some) == windowed,
        H::Ranking { .. } => windowed,
        _ => false,
    }
}

/// `invocation` is a collected invocation of the expression that no other
/// collected invocation encloses.
spec fn reaches(expression: TypedExpression, windowed: bool, invocation: TypedExpression) -> bool
    decreases expression,
{
    if collected(expression, windowed) {
        invocation == expression
    } else {
        match expression.kind {
            H::Parenthesized(inner) => reaches(*inner, windowed, invocation),
            H::Unary { expression: inner, .. } => reaches(*inner, windowed, invocation),
            H::IsNull { expression: inner, .. } => reaches(*inner, windowed, invocation),
            H::Cast { expression: inner, .. } => reaches(*inner, windowed, invocation),
            H::InQuery { expression: inner, .. } => reaches(*inner, windowed, invocation),
            H::Binary { left, right, .. } => reaches(*left, windowed, invocation) || reaches(
                *right,
                windowed,
                invocation,
            ),
            H::InList { expression: inner, values, .. } => reaches(*inner, windowed, invocation) || exists|i: int|
                0 <= i < values@.len() && reaches(#[trigger] values@[i], windowed, invocation),
            H::Case { branches, else_expression } => (exists|i: int|
                0 <= i < branches@.len() && (reaches(#[trigger] branches@[i].condition, windowed, invocation)
                    || reaches(branches@[i].result, windowed, invocation))) || (else_expression matches Some(
                fallback,
            ) && reaches(*fallback, windowed, invocation)),
            H::Aggregate { argument, window, .. } => (argument matches HirAggregateArgument::Expression(inner)
                && reaches(*inner, windowed, invocation)) || (window matches Some(w) && exists|i: int|
                0 <= i < w.partition_by@.len() && reaches(#[trigger] w.partition_by@[i], windowed, invocation)),
            H::Ranking { partition_by, order_by, .. } => (exists|i: int|
                0 <= i < partition_by@.len() && reaches(#[trigger] partition_by@[i], windowed, invocation)) || (
            exists|i: int| 0 <= i < order_by@.len() && reaches(#[trigger] order_by@[i].expression, windowed, invocation)),
            _ => false,
        }
    }
}

/// One of the entries that `after` adds to `before` is `invocation`.
spec fn gathers(before: Seq<&TypedExpression>, after: Seq<&TypedExpression>, invocation: TypedExpression) -> bool {
    exists|i: int| before.len() <= i < after.len() && *(#[trigger] after[i]) == invocation
}

proof fn lemma_gathers_chain(a: Seq<&TypedExpression>, b: Seq<&TypedExpression>, c: Seq<&TypedExpression>)
    requires
        a.len() <= b.len() <= c.len(),
        forall|i: int| 0 <= i < b.len() ==> c[i] == b[i],
    ensures
        forall|x: TypedExpression| gathers(a, b, x) ==> #[trigger] gathers(a, c, x),
        forall|x: TypedExpression| gathers(b, c, x) ==> #[trigger] gathers(a, c, x),
{
    assert forall|x: TypedExpression| gathers(a, b, x) implies #[trigger] gathers(a, c, x) by {
        let i = choose|i: int| a.len() <= i < b.len() && *(#[trigger] b[i]) == x;
        assert(c[i] == b[i]);
    }
    assert forall|x: TypedExpression| gathers(b, c, x) implies #[trigger] gathers(a, c, x) by {
        let i = choose|i: int| b.len() <= i < c.len() && *(#[trigger] c[i]) == x;
        assert(*c[i] == x);
    }
}

/// Adds to `output` every cross-row invocation in the expression, without
/// descending into the invocations collected: the windowed ones (windowed
/// aggregates and ranking functions) where `windowed` holds, the grouping
/// aggregates otherwise.
fn collect_invocations<'a>(
    expression: &'a TypedExpression,
    windowed: bool,
    output: &mut Vec<&'a TypedExpression>,
)
    ensures
        final(output)@.len() >= old(output)@.len(),
        forall|i: int| 0 <= i < old(output)@.len() ==> final(output)@[i] == old(output)@[i],
        forall|i: int|
            old(output)@.len() <= i < final(output)@.len() ==> part_of(
                *expression,
                *#[trigger] final(output)@[i],
            ),
        forall|x: TypedExpression| #[trigger] reaches(*expression, windowed, x) ==> gathers(old(output)@, final(output)@, x),
    decreases *expression,
{
    let ghost first = output@;
    let collected = match &expression.kind {
        H::Aggregate { window, .. } => window.is_some() == windowed,
        H::Ranking { .. } => windowed,
        _ => false,
    };
    if collected {
        output.push(expression);
        assert(*output@[first.len() as int] == *expression);
        assert(gathers(first, output@, *expression));
        return;
    }
    let ghost start = output@.len();
    match &expression.kind {
        H::Parenthesized(inner) => {
            collect_invocations(inner, windowed, output);
            assert forall|x: TypedExpression| #[trigger] reaches(*expression, windowed, x) implies gathers(first, output@, x) by {
                assert(reaches(**inner, windowed, x));
            }
        },
        H::Unary { expression: inner, .. } => {
            collect_invocations(inner, windowed, output);
            assert forall|x: TypedExpression| #[trigger] reaches(*expression, windowed, x) implies gathers(first, output@, x) by {
                assert(reaches(**inner, windowed, x));
            }
        },
        H::IsNull { expression: inner, .. } => {
            collect_invocations(inner, windowed, output);
            assert forall|x: TypedExpression| #[trigger] reaches(*expression, windowed, x) implies gathers(first, output@, x) by {
                assert(reaches(**inner, windowed, x));
            }
        },
        H::Cast { expression: inner, .. } => {
            collect_invocations(inner, windowed, output);
            assert forall|x: TypedExpression| #[trigger] reaches(*expression, windowed, x) implies gathers(first, output@, x) by {
                assert(reaches(**inner, windowed, x));
            }
        },
        H::Binary { left, right, .. } => {
            collect_invocations(left, windowed, output);
            let ghost middle = output@;
            collect_invocations(right, windowed, output);
            proof {
                lemma_gathers_chain(first, middle, output@);
                assert forall|x: TypedExpression| #[trigger] reaches(*expression, windowed, x) implies gathers(first, output@, x) by {
                    if reaches(**left, windowed, x) {
                        assert(gathers(first, middle, x));
                    } else {
                        assert(reaches(**right, windowed, x));
                        assert(gathers(middle, output@, x));
                    }
                }
            }
        },
        H::InList { expression: inner, values, .. } => {
            collect_invocations(inner, windowed, output);
            let ghost after_inner = output@;
            let mut index: usize = 0;
            while index < values.len()
                invariant
                    index <= values@.len(),
                    output@.len() >= start,
                    start == first.len(),
                    after_inner.len() >= start,
                    output@.len() >= after_inner.len(),
                    forall|i: int| 0 <= i < old(output)@.len() ==> output@[i] == old(output)@[i],
                    forall|i: int| 0 <= i < after_inner.len() ==> output@[i] == after_inner[i],
                    forall|i: int|
                        start <= i < output@.len() ==> part_of(*expression, *#[trigger] output@[i]),
                    forall|x: TypedExpression| reaches(**inner, windowed, x) ==> #[trigger] gathers(first, output@, x),
                    forall|x: TypedExpression|
                        (exists|i: int| 0 <= i < index && reaches(#[trigger] values@[i], windowed, x)) ==> #[trigger] gathers(
                            first,
                            output@,
                            x,
                        ),
                decreases values@.len() - index,
            {
                assert(decreases_to!(*expression => values@[index as int]));
                let ghost before = output@;
                collect_invocations(&values[index], windowed, output);
                proof {
                    lemma_gathers_chain(first, before, output@);
                    assert forall|x: TypedExpression|
                        (exists|i: int| 0 <= i < index + 1 && reaches(#[trigger] values@[i], windowed, x)) implies #[trigger] gathers(
                            first,
                            output@,
                            x,
                        ) by {
                        let i = choose|i: int| 0 <= i < index + 1 && reaches(#[trigger] values@[i], windowed, x);
                        if i < index {
                            assert(gathers(first, before, x));
                        } else {
                            assert(gathers(before, output@, x));
                        }
                    }
                }
                index = index + 1;
            }
            assert forall|x: TypedExpression| #[trigger] reaches(*expression, windowed, x) implies gathers(first, output@, x) by {
                if !reaches(**inner, windowed, x) {
                    let i = choose|i: int| 0 <= i < values@.len() && reaches(#[trigger] values@[i], windowed, x);
                    assert(exists|j: int| 0 <= j < index && reaches(#[trigger] values@[j], windowed, x));
                }
            }
        },
        H::InQuery { expression: inner, .. } => {
            collect_invocations(inner, windowed, output);
            assert forall|x: TypedExpression| #[trigger] reaches(*expression, windowed, x) implies gathers(first, output@, x) by {
                assert(reaches(**inner, windowed, x));
            }
        },
        H::Case { branches, else_expression } => {
            let mut index: usize = 0;
            while index < branches.len()
                invariant
                    index <= branches@.len(),
                    output@.len() >= start,
                    start == first.len(),
                    forall|i: int| 0 <= i < old(output)@.len() ==> output@[i] == old(output)@[i],
                    forall|i: int|
                        start <= i < output@.len() ==> part_of(*expression, *#[trigger] output@[i]),
                    forall|x: TypedExpression|
                        (exists|i: int|
                            0 <= i < index && (reaches(#[trigger] branches@[i].condition, windowed, x) || reaches(
                                branches@[i].result,
                                windowed,
                                x,
                            ))) ==> #[trigger] gathers(first, output@, x),
                decreases branches@.len() - index,
            {
                assert(decreases_to!(*expression => branches@[index as int].condition));
                assert(decreases_to!(*expression => branches@[index as int].result));
                let ghost before = output@;
                collect_invocations(&branches[index].condition, windowed, output);
                let ghost middle = output@;
                collect_invocations(&branches[index].result, windowed, output);
                proof {
                    lemma_gathers_chain(first, before, middle);
                    lemma_gathers_chain(first, middle, output@);
                    assert forall|x: TypedExpression|
                        (exists|i: int|
                            0 <= i < index + 1 && (reaches(#[trigger] branches@[i].condition, windowed, x) || reaches(
                                branches@[i].result,
                                windowed,
                                x,
                            ))) implies #[trigger] gathers(first, output@, x) by {
                        let i = choose|i: int|
                            0 <= i < index + 1 && (reaches(#[trigger] branches@[i].condition, windowed, x) || reaches(
                                branches@[i].result,
                                windowed,
                                x,
                            ));
                        if i < index {
                            assert(gathers(first, before, x));
                            assert(gathers(first, middle, x));
                        } else if reaches(branches@[i].condition, windowed, x) {
                            assert(gathers(before, middle, x));
                            assert(gathers(first, middle, x));
                        } else {
                            assert(gathers(middle, output@, x));
                        }
                    }
                }
                index = index + 1;
            }
            let ghost before = output@;
            if let Some(fallback) = else_expression {
                collect_invocations(fallback, windowed, output);
            }
            proof {
                lemma_gathers_chain(first, before, output@);
                assert forall|x: TypedExpression| #[trigger] reaches(*expression, windowed, x) implies gathers(first, output@, x) by {
                    if exists|i: int|
                        0 <= i < branches@.len() && (reaches(#[trigger] branches@[i].condition, windowed, x) || reaches(
                            branches@[i].result,
                            windowed,
                            x,
                        )) {
                        assert(gathers(first, before, x));
                    } else {
                        let fallback = else_expression->0;
                        assert(reaches(*fallback, windowed, x));
                        assert(gathers(before, output@, x));
                    }
                }
            }
        },
        H::Aggregate { argument, window, .. } => {
            if let HirAggregateArgument::Expression(inner) = argument {
                collect_invocations(inner, windowed, output);
            }
            let ghost argued = output@;
            if let Some(window) = window {
                let mut index: usize = 0;
                while index < window.partition_by.len()
                    invariant
                        index <= window.partition_by@.len(),
                        output@.len() >= argued.len(),
                        argued.len() >= start,
                        start == first.len(),
                        forall|i: int| 0 <= i < argued.len() ==> output@[i] == argued[i],
                        forall|i: int| 0 <= i < old(output)@.len() ==> output@[i] == old(output)@[i],
                        forall|i: int|
                            start <= i < output@.len() ==> part_of(*expression, *#[trigger] output@[i]),
                        forall|x: TypedExpression|
                            (exists|i: int| 0 <= i < index && reaches(#[trigger] window.partition_by@[i], windowed, x))
                                ==> #[trigger] gathers(argued, output@, x),
                    decreases window.partition_by@.len() - index,
                {
                    assert(decreases_to!(*expression => window.partition_by@[index as int]));
                    let ghost before = output@;
                    collect_invocations(&window.partition_by[index], windowed, output);
                    proof {
                        lemma_gathers_chain(argued, before, output@);
                        assert forall|x: TypedExpression|
                            (exists|i: int| 0 <= i < index + 1 && reaches(#[trigger] window.partition_by@[i], windowed, x))
                                implies #[trigger] gathers(argued, output@, x) by {
                            let i = choose|i: int| 0 <= i < index + 1 && reaches(#[trigger] window.partition_by@[i], windowed, x);
                            if i < index {
                                assert(gathers(argued, before, x));
                            } else {
                                assert(gathers(before, output@, x));
                            }
                        }
                    }
                    index = index + 1;
                }
            }
            proof {
                lemma_gathers_chain(first, argued, output@);
                assert forall|x: TypedExpression| #[trigger] reaches(*expression, windowed, x) implies gathers(first, output@, x) by {
                    if argument matches HirAggregateArgument::Expression(inner) && reaches(**inner, windowed, x) {
                        assert(gathers(first, argued, x));
                    } else {
                        assert(gathers(argued, output@, x));
                    }
                }
            }
        },
        H::Ranking { partition_by, order_by, .. } => {
            let mut index: usize = 0;
            while index < partition_by.len()
                invariant
                    index <= partition_by@.len(),
                    output@.len() >= start,
                    start == first.len(),
                    forall|i: int| 0 <= i < old(output)@.len() ==> output@[i] == old(output)@[i],
                    forall|i: int|
                        start <= i < output@.len() ==> part_of(*expression, *#[trigger] output@[i]),
                    forall|x: TypedExpression|
                        (exists|i: int| 0 <= i < index && reaches(#[trigger] partition_by@[i], windowed, x))
                            ==> #[trigger] gathers(first, output@, x),
                decreases partition_by@.len() - index,
            {
                assert(decreases_to!(*expression => partition_by@[index as int]));
                let ghost before = output@;
                collect_invocations(&partition_by[index], windowed, output);
                proof {
                    lemma_gathers_chain(first, before, output@);
                    assert forall|x: TypedExpression|
                        (exists|i: int| 0 <= i < index + 1 && reaches(#[trigger] partition_by@[i], windowed, x))
                            implies #[trigger] gathers(first, output@, x) by {
                        let i = choose|i: int| 0 <= i < index + 1 && reaches(#[trigger] partition_by@[i], windowed, x);
                        if i < index {
                            assert(gathers(first, before, x));
                        } else {
                            assert(gathers(before, output@, x));
                        }
                    }
                }
                index = index + 1;
            }
            let ghost partitioned = output@;
            let mut index: usize = 0;
            while index < order_by.len()
                invariant
                    index <= order_by@.len(),
                    output@.len() >= partitioned.len(),
                    partitioned.len() >= start,
                    start == first.len(),
                    forall|i: int| 0 <= i < partitioned.len() ==> output@[i] == partitioned[i],
                    forall|i: int| 0 <= i < old(output)@.len() ==> output@[i] == old(output)@[i],
                    forall|i: int|
                        start <= i < output@.len() ==> part_of(*expression, *#[trigger] output@[i]),
                    forall|x: TypedExpression|
                        (exists|i: int| 0 <= i < index && reaches(#[trigger] order_by@[i].expression, windowed, x))
                            ==> #[trigger] gathers(partitioned, output@, x),
                decreases order_by@.len() - index,
            {
                assert(decreases_to!(*expression => order_by@[index as int].expression));
                let ghost before = output@;
                collect_invocations(&order_by[index].expression, windowed, output);
                proof {
                    lemma_gathers_chain(partitioned, before, output@);
                    assert forall|x: TypedExpression|
                        (exists|i: int| 0 <= i < index + 1 && reaches(#[trigger] order_by@[i].expression, windowed, x))
                            implies #[trigger] gathers(partitioned, output@, x) by {
                        let i = choose|i: int| 0 <= i < index + 1 && reaches(#[trigger] order_by@[i].expression, windowed, x);
                        if i < index {
                            assert(gathers(partitioned, before, x));
                        } else {
                            assert(gathers(before, output@, x));
                        }
                    }
                }
                index = index + 1;
            }
            proof {
                lemma_gathers_chain(first, partitioned, output@);
                assert forall|x: TypedExpression| #[trigger] reaches(*expression, windowed, x) implies gathers(first, output@, x) by {
                    if exists|i: int| 0 <= i < partition_by@.len() && reaches(#[trigger] partition_by@[i], windowed, x) {
                        assert(gathers(first, partitioned, x));
                    } else {
                        assert(gathers(partitioned, output@, x));
                    }
                }
            }
        },
        _ => {},
    }
}

// ---------------------------------------------------------------------------
// The lowerer
// ---------------------------------------------------------------------------

enum CteLowering {
    Pending,
    InProgress,
    Done(Plan),
}

/// A common table expression met while lowering, by identity.
struct CteRecord<'a> {
    id: CteId,
    query: &'a TypedQueryExpression,
    state: CteLowering,
}

spec fn count_pending(records: Seq<CteRecord>) -> nat
    decreases records.len(),
{
    if records.len() == 0 {
        0
    } else {
        count_pending(records.drop_last()) + if records.last().state is Pending {
            1nat
        } else {
            0nat
        }
    }
}

proof fn lemma_pending_push(records: Seq<CteRecord>, next: CteRecord)
    ensures
        count_pending(records.push(next)) == count_pending(records) + if next.state is Pending {
            1nat
        } else {
            0nat
        },
{
    assert(records.push(next).drop_last() =~= records);
}

proof fn lemma_pending_update(records: Seq<CteRecord>, index: int, next: CteRecord)
    requires
        0 <= index < records.len(),
    ensures
        count_pending(records.update(index, next)) + (if records[index].state is Pending {
            1nat
        } else {
            0nat
        }) == count_pending(records) + if next.state is Pending {
            1nat
        } else {
            0nat
        },
    decreases records.len(),
{
    if index == records.len() - 1 {
        assert(records.update(index, next).drop_last() =~= records.drop_last());
    } else {
        lemma_pending_update(records.drop_last(), index, next);
        assert(records.update(index, next).drop_last() =~= records.drop_last().update(index, next));
    }
}

struct Lowerer<'a> {
    nodes: Vec<Node>,
    next_temporary: u32,
    records: Vec<CteRecord<'a>>,
    /// How many more common table expressions may still be registered: a
    /// bound far above what any program held in memory declares, which makes
    /// plain that lowering terminates.
    capacity: usize,
}

/// The columns of a lowered relation that scalar lowering may read.
struct ScalarContext<'a> {
    fields: Vec<(HirFieldId, FieldId)>,
    grouping_keys: Vec<(&'a TypedExpression, FieldId)>,
    aggregates: Vec<((usize, usize), FieldId)>,
    windows: Vec<((usize, usize), FieldId)>,
}

fn field_context<'a>(environment: &Vec<(HirFieldId, FieldId)>) -> (context: ScalarContext<'a>)
    ensures
        locations(context.fields@) == locations(environment@),
        context.grouping_keys@.len() == 0,
        context.aggregates@.len() == 0,
        context.windows@.len() == 0,
{
    ScalarContext {
        fields: copy_environment(environment),
        grouping_keys: Vec::new(),
        aggregates: Vec::new(),
        windows: Vec::new(),
    }
}

struct SelectResult {
    plan: Plan,
    lowered_order: Option<Vec<Expression>>,
}

impl<'a> Lowerer<'a> {
    spec fn potential(&self) -> nat {
        count_pending(self.records@) + self.capacity as nat
    }

    spec fn wf(&self) -> bool {
        &&& positional_identities(self.nodes@)
        &&& refers_backward(self.nodes@)
        &&& forall|i: int|
            0 <= i < self.records@.len() ==> ((#[trigger] self.records@[i]).state matches CteLowering::Done(
                plan,
            ) ==> plan.node < self.nodes@.len())
    }

    /// `next` continues this state: nodes are only appended, records only
    /// added, and no more lowering work is left.
    spec fn grew(&self, next: &Self) -> bool {
        &&& self.nodes@.len() <= next.nodes@.len()
        &&& forall|i: int| 0 <= i < self.nodes@.len() ==> #[trigger] next.nodes@[i] == self.nodes@[i]
        &&& self.records@.len() <= next.records@.len()
        &&& next.potential() <= self.potential()
    }

    fn push_node(
        &mut self,
        kind: NodeKind,
        output_schema: Vec<Field>,
        collection: CollectionKind,
    ) -> (r: Result<usize, ValidationError>)
        requires
            old(self).wf(),
            kind_within(kind, old(self).nodes@.len() as nat),
        ensures
            r is Ok <==> old(self).nodes@.len() < 0xffff_ffff,
            r matches Ok(index) ==> {
                &&& index == old(self).nodes@.len()
                &&& final(self).nodes@.len() == index + 1
                &&& final(self).nodes@[index as int].kind == kind
                &&& final(self).nodes@[index as int].output_schema == output_schema
                &&& final(self).nodes@[index as int].collection == collection
                &&& final(self).wf()
                &&& old(self).grew(final(self))
                &&& final(self).records@ == old(self).records@
                &&& final(self).capacity == old(self).capacity
            },
    {
        let index = self.nodes.len();
        if index >= 0xffff_ffff {
            return Err(internal_error(ValidationErrorKind::InvalidNode));
        }
        let id = NodeId::from_string(identity_text('n', index as u64));
        self.nodes.push(Node { id, kind, output_schema, collection });
        assert forall|k: int| 0 <= k < self.nodes@.len() implies kind_within(
            (#[trigger] self.nodes@[k]).kind,
            k as nat,
        ) by {
            if k < index {
                assert(self.nodes@[k] == old(self).nodes@[k]);
            }
        }
        Ok(index)
    }

    fn node_id(&self, index: usize) -> (id: NodeId)
        ensures
            id@ == node_name(index as nat),
    {
        NodeId::from_string(identity_text('n', index as u64))
    }

    fn temporary_field(&mut self) -> (r: Result<FieldId, ValidationError>)
        ensures
            r is Ok <==> old(self).next_temporary != 0xffff_ffff,
            r matches Ok(id) ==> id@ == seq!['t'] + decimal_digits(old(self).next_temporary as nat)
                && final(self).next_temporary == old(self).next_temporary + 1,
            r is Ok ==> final(self).nodes == old(self).nodes && final(self).records == old(
                self,
            ).records && final(self).capacity == old(self).capacity,
    {
        if self.next_temporary == 0xffff_ffff {
            return Err(internal_error(ValidationErrorKind::InvalidNode));
        }
        let id = FieldId::from_string(identity_text('t', self.next_temporary as u64));
        self.next_temporary = self.next_temporary + 1;
        Ok(id)
    }

    fn consume_as_bag(&mut self, plan: Plan) -> (r: Result<Plan, ValidationError>)
        requires
            old(self).wf(),
            plan.node < old(self).nodes@.len(),
        ensures
            r is Ok <==> plan.collection is Bag || old(self).nodes@.len() < 0xffff_ffff,
            r matches Ok(bag) ==> {
                &&& final(self).wf()
                &&& old(self).grew(final(self))
                &&& bag.collection is Bag
                &&& bag.node < final(self).nodes@.len()
                &&& plan_valid(plan, old(self).nodes@) ==> plan_valid(bag, final(self).nodes@)
                &&& schema_view(bag.schema@) == schema_view(plan.schema@)
            },
    {
        if plan.collection == CollectionKind::Bag {
            return Ok(plan);
        }
        let input = self.node_id(plan.node);
        assert(existing_node(input@, self.nodes@.len() as nat)) by {
            assert(node_name(plan.node as nat) == input@);
        }
        let node = self.push_node(
            NodeKind::ForgetOrder { input },
            clone_fields(plan.schema.as_slice()),
            CollectionKind::Bag,
        )?;
        Ok(Plan { node, schema: plan.schema, collection: CollectionKind::Bag, environment: plan.environment })
    }

    /// A fresh copy of a lowered relation under the identities of one of its
    /// occurrences.
    fn instantiate_occurrence(&mut self, source: Plan, fields: &Vec<TypedField>) -> (r: Result<Plan, ValidationError>)
        requires
            old(self).wf(),
            source.node < old(self).nodes@.len(),
        ensures
            r is Ok <==> old(self).nodes@.len() < 0xffff_ffff,
            r matches Ok(plan) ==> final(self).wf() && old(self).grew(final(self)) && plan_valid(
                plan,
                final(self).nodes@,
            ) && plan.collection is Bag,
    {
        let schema = lower_schema(fields);
        let mut entries: Vec<ProjectEntry> = Vec::new();
        let mut index: usize = 0;
        while index < source.schema.len() && index < schema.len()
            invariant
                index <= source.schema@.len(),
                forall|i: int| 0 <= i < entries@.len() ==> ((#[trigger] entries@[i]) matches ProjectEntry::Compute {
                    expression,
                    ..
                } && expression.kind is Field),
            decreases source.schema@.len() - index,
        {
            let field = &source.schema[index];
            entries.push(
                ProjectEntry::Compute {
                    output: schema[index].id.clone(),
                    expression: Expression::new(ExpressionKind::Field(field.id.clone()), field.descriptor),
                },
            );
            index = index + 1;
        }
        let input = self.node_id(source.node);
        assert(existing_node(input@, self.nodes@.len() as nat)) by {
            assert(node_name(source.node as nat) == input@);
        }
        let node = self.push_node(
            NodeKind::Project { input, entries },
            clone_fields(schema.as_slice()),
            CollectionKind::Bag,
        )?;
        Ok(Plan { node, schema, collection: CollectionKind::Bag, environment: environment_from(fields) })
    }

    fn lower_join(
        &mut self,
        left: Plan,
        right: Plan,
        kind: JoinKind,
        condition: Option<Expression>,
    ) -> (r: Result<Plan, ValidationError>)
        requires
            old(self).wf(),
            left.node < old(self).nodes@.len(),
            right.node < old(self).nodes@.len(),
            optional_within(condition, old(self).nodes@.len() as nat),
        ensures
            r is Ok <==> old(self).nodes@.len() < 0xffff_ffff,
            r matches Ok(plan) ==> final(self).wf() && old(self).grew(final(self)) && plan_valid(
                plan,
                final(self).nodes@,
            ) && plan.collection is Bag,
    {
        let mut schema = match kind {
            JoinKind::Right | JoinKind::Full => nullable_schema(&left.schema),
            _ => clone_fields(left.schema.as_slice()),
        };
        let mut right_schema = match kind {
            JoinKind::Left | JoinKind::Full => nullable_schema(&right.schema),
            _ => clone_fields(right.schema.as_slice()),
        };
        schema.append(&mut right_schema);
        let mut environment = left.environment;
        append_environment(&mut environment, &right.environment);
        let join_type = match kind {
            JoinKind::Cross => JoinType::Cross,
            JoinKind::Inner => JoinType::Inner,
            JoinKind::Left => JoinType::Left,
            JoinKind::Right => JoinType::Right,
            JoinKind::Full => JoinType::Full,
        };
        let left_id = self.node_id(left.node);
        let right_id = self.node_id(right.node);
        assert(existing_node(left_id@, self.nodes@.len() as nat)) by {
            assert(node_name(left.node as nat) == left_id@);
        }
        assert(existing_node(right_id@, self.nodes@.len() as nat)) by {
            assert(node_name(right.node as nat) == right_id@);
        }
        let node = self.push_node(
            NodeKind::Join { left: left_id, right: right_id, join_type, condition },
            clone_fields(schema.as_slice()),
            CollectionKind::Bag,
        )?;
        Ok(Plan { node, schema, collection: CollectionKind::Bag, environment })
    }

    /// Adds the Order node for already lowered ordering expressions, with a
    /// projection of hidden keys around it where needed, and the Slice node
    /// for a row bound.
    /// Whether ordering keys follow the source ordering items one for one:
    /// each key is a field reference with the item's direction and NULL
    /// placement.
    spec fn orders_as(keys: Seq<OrderingItem>, items: Seq<TypedOrderItem>) -> bool {
        &&& keys.len() == items.len()
        &&& forall|i: int|
            0 <= i < keys.len() ==> {
                &&& (#[trigger] keys[i]).expression.kind is Field
                &&& keys[i].direction == direction_of(items[i].direction)
                &&& keys[i].null_placement == null_placement_of(items[i].null_placement)
            }
    }

    /// Whether a node orders by keys that follow the source ordering items.
    spec fn orders_node(node: Node, items: Seq<TypedOrderItem>) -> bool {
        node.kind matches NodeKind::Order { items: keys, .. } && Self::orders_as(keys@, items)
    }

    #[verifier::rlimit(60)]
    #[verifier::spinoff_prover]
    fn lower_order_and_bound(
        &mut self,
        input: Plan,
        public_schema: &Vec<Field>,
        source_items: &Vec<TypedOrderItem>,
        expressions: Vec<Expression>,
        row_bound: Option<&RowBound>,
    ) -> (r: Result<Plan, ValidationError>)
        requires
            old(self).wf(),
            plan_valid(input, old(self).nodes@),
            expressions@.len() == source_items@.len(),
            forall|i: int|
                0 <= i < expressions@.len() ==> expression_within(
                    #[trigger] expressions@[i],
                    old(self).nodes@.len() as nat,
                ),
        ensures
            r matches Ok(plan) ==> {
                &&& final(self).wf()
                &&& old(self).grew(final(self))
                &&& plan_valid(plan, final(self).nodes@)
                &&& plan.collection is Ordered
                &&& schema_view(plan.schema@) == schema_view(public_schema@)
                &&& exists|k: int|
                    old(self).nodes@.len() <= k < final(self).nodes@.len() && Self::orders_node(
                        #[trigger] final(self).nodes@[k],
                        source_items@,
                    )
            },
            old(self).nodes@.len() + 4 < 0xffff_ffff && old(self).next_temporary + source_items@.len()
                < 0xffff_ffff && bound_spelled(row_bound) ==> r is Ok,
    {
        let mut input = input;
        let mut public_ids: Vec<FieldId> = Vec::new();
        let mut index: usize = 0;
        while index < public_schema.len()
            invariant
                index <= public_schema@.len(),
            decreases public_schema@.len() - index,
        {
            public_ids.push(public_schema[index].id.clone());
            index = index + 1;
        }
        let mut entries = keep_entries(public_schema);
        let mut order_schema = clone_fields(public_schema.as_slice());
        let mut keys: Vec<OrderingItem> = Vec::new();
        let mut hidden = false;
        let mut expressions = expressions;
        let ghost count = self.nodes@.len() as nat;
        let mut index: usize = 0;
        while index < source_items.len()
            invariant
                self.wf(),
                old(self).grew(self),
                self.nodes == old(self).nodes,
                self.records == old(self).records,
                self.capacity == old(self).capacity,
                count == self.nodes@.len(),
                plan_valid(input, self.nodes@),
                index <= source_items@.len(),
                expressions@.len() == source_items@.len() - index,
                forall|i: int|
                    0 <= i < expressions@.len() ==> expression_within(#[trigger] expressions@[i], count),
                forall|i: int, id: Seq<char>|
                    0 <= i < entries@.len() && #[trigger] entry_refers(entries@[i], id) ==> existing_node(id, count),
                forall|i: int, id: Seq<char>|
                    0 <= i < keys@.len() ==> !#[trigger] expression_refers(keys@[i].expression, id),
                !hidden ==> schema_view(order_schema@) == schema_view(public_schema@),
                Self::orders_as(keys@, source_items@.subrange(0, index as int)),
                self.next_temporary <= old(self).next_temporary + index,
            decreases source_items@.len() - index,
        {
            let expression = expressions.remove(0);
            let source = &source_items[index];
            let descriptor = expression.descriptor;
            let public_key = match &expression.kind {
                ExpressionKind::Field(field) => if contains_field(&public_ids, field) {
                    Some(field.clone())
                } else {
                    None
                },
                _ => None,
            };
            let key = match public_key {
                Some(field) => field,
                None => {
                    hidden = true;
                    let output = self.temporary_field()?;
                    entries.push(ProjectEntry::Compute { output: output.clone(), expression });
                    order_schema.push(Field { id: output.clone(), name: String::new(), descriptor });
                    output
                },
            };
            let ghost before_keys = keys@;
            keys.push(
                OrderingItem {
                    expression: Expression::new(ExpressionKind::Field(key), descriptor),
                    direction: lower_direction(source.direction),
                    null_placement: lower_null_placement(source.null_placement),
                },
            );
            proof {
                let last = keys@.len() - 1;
                assert(keys@[last].expression.kind is Field);
                assert forall|i: int, id: Seq<char>|
                    0 <= i < keys@.len() implies !#[trigger] expression_refers(keys@[i].expression, id) by {
                    if i == last {
                        assert(keys@[i].expression.kind is Field);
                        assert(!expression_refers(keys@[i].expression, id));
                    } else {
                        assert(keys@[i] == before_keys[i]);
                        assert(!expression_refers(before_keys[i].expression, id));
                    }
                }
                assert forall|i: int| 0 <= i < keys@.len() implies {
                    &&& (#[trigger] keys@[i]).expression.kind is Field
                    &&& keys@[i].direction == direction_of(source_items@.subrange(0, index + 1)[i].direction)
                    &&& keys@[i].null_placement == null_placement_of(
                        source_items@.subrange(0, index + 1)[i].null_placement,
                    )
                } by {
                    if i < last {
                        assert(keys@[i] == before_keys[i]);
                        assert(source_items@.subrange(0, index + 1)[i] == source_items@.subrange(0, index as int)[i]);
                    }
                }
            }
            index = index + 1;
        }
        assert(source_items@.subrange(0, source_items@.len() as int) =~= source_items@);
        let needs_key_project = hidden || !same_schema(&input.schema, public_schema);
        if needs_key_project {
            let input_id = self.node_id(input.node);
            assert(existing_node(input_id@, self.nodes@.len() as nat)) by {
                assert(node_name(input.node as nat) == input_id@);
            }
            let node = self.push_node(
                NodeKind::Project { input: input_id, entries },
                clone_fields(order_schema.as_slice()),
                input.collection,
            )?;
            input = Plan {
                node,
                schema: order_schema,
                collection: input.collection,
                environment: input.environment,
            };
        }
        let ordered_id = self.node_id(input.node);
        assert(existing_node(ordered_id@, self.nodes@.len() as nat)) by {
            assert(node_name(input.node as nat) == ordered_id@);
        }
        let ghost ordering = keys;
        let node = self.push_node(
            NodeKind::Order { input: ordered_id, items: keys },
            clone_fields(input.schema.as_slice()),
            CollectionKind::Ordered,
        )?;
        let ghost order_node = node as int;
        let ghost after_order = self.nodes@;
        input.node = node;
        input.collection = CollectionKind::Ordered;
        if hidden {
            let kept_id = self.node_id(input.node);
            assert(existing_node(kept_id@, self.nodes@.len() as nat)) by {
                assert(node_name(input.node as nat) == kept_id@);
            }
            let node = self.push_node(
                NodeKind::Project { input: kept_id, entries: keep_entries(public_schema) },
                clone_fields(public_schema.as_slice()),
                CollectionKind::Ordered,
            )?;
            input = Plan {
                node,
                schema: clone_fields(public_schema.as_slice()),
                collection: CollectionKind::Ordered,
                environment: input.environment,
            };
        }
        if let Some(bound) = row_bound {
            let offset = match &bound.offset {
                Some(value) => match parse_int64(&value.spelling) {
                    Some(offset) => offset,
                    None => return Err(internal_error(ValidationErrorKind::InvalidNode)),
                },
                None => 0,
            };
            let limit = match &bound.limit {
                Some(value) => match parse_int64(&value.spelling) {
                    Some(limit) => Some(limit),
                    None => return Err(internal_error(ValidationErrorKind::InvalidNode)),
                },
                None => None,
            };
            let bounded_id = self.node_id(input.node);
            assert(existing_node(bounded_id@, self.nodes@.len() as nat)) by {
                assert(node_name(input.node as nat) == bounded_id@);
            }
            let node = self.push_node(
                NodeKind::Slice { input: bounded_id, offset, limit },
                clone_fields(public_schema.as_slice()),
                CollectionKind::Ordered,
            )?;
            input.node = node;
        }
        input.schema = clone_fields(public_schema.as_slice());
        assert(self.nodes@[order_node] == after_order[order_node]);
        assert(Self::orders_as(ordering@, source_items@));
        assert(Self::orders_node(self.nodes@[order_node], source_items@));
        Ok(input)
    }
}

/// The first record for a common table expression identity.
fn find_record(records: &Vec<CteRecord>, id: CteId) -> (r: Option<usize>)
    ensures
        r matches Some(i) ==> i < records@.len() && records@[i as int].id == id && forall|j: int|
            0 <= j < i ==> (#[trigger] records@[j]).id != id,
        r is None ==> forall|j: int| 0 <= j < records@.len() ==> (#[trigger] records@[j]).id != id,
{
    let mut index: usize = 0;
    while index < records.len()
        invariant
            index <= records@.len(),
            forall|j: int| 0 <= j < index ==> (#[trigger] records@[j]).id != id,
        decreases records@.len() - index,
    {
        if records[index].id == id {
            return Some(index);
        }
        index = index + 1;
    }
    None
}

/// The expression, under NOT where `negated` holds.
fn negate_if(positive: Expression, negated: bool, descriptor: TypeDescriptor) -> (expression: Expression)
    ensures
        !negated ==> expression == positive,
        negated ==> expression == (Expression {
            kind: ExpressionKind::Unary { operation: UnaryOperation::Not, operand: Box::new(positive) },
            descriptor,
        }),
        forall|n: nat| expression_within(positive, n) ==> #[trigger] expression_within(expression, n),
{
    if negated {
        let negation = Expression::new(
            ExpressionKind::Unary { operation: UnaryOperation::Not, operand: Box::new(positive) },
            descriptor,
        );
        assert forall|n: nat| expression_within(positive, n) implies #[trigger] expression_within(
            negation,
            n,
        ) by {
            assert forall|id: Seq<char>| #[trigger] expression_refers(negation, id) implies existing_node(
                id,
                n,
            ) by {
                assert(expression_refers(negation, id) == expression_refers(positive, id));
            }
        }
        negation
    } else {
        positive
    }
}

/// A read of one field, which demands no node.
fn field_expression(field: FieldId, descriptor: TypeDescriptor) -> (expression: Expression)
    ensures
        expression == (Expression { kind: ExpressionKind::Field(field), descriptor }),
        forall|n: nat| #[trigger] expression_within(expression, n),
{
    let expression = Expression::new(ExpressionKind::Field(field), descriptor);
    assert forall|n: nat| #[trigger] expression_within(expression, n) by {
        assert forall|id: Seq<char>| !#[trigger] expression_refers(expression, id) by {}
    }
    expression
}

/// Whether the expression is the integer literal 9223372036854775808, the
/// magnitude of the least INT64.
fn is_minimum_magnitude(expression: &TypedExpression) -> (r: bool)
    ensures
        r == minimum_magnitude(*expression),
{
    match &expression.kind {
        H::Literal(HirLiteral::Integer(value)) => *value == String::from_str("9223372036854775808"),
        _ => false,
    }
}

/// Whether the expression is the integer literal spelling the magnitude of
/// the least INT64.
spec fn minimum_magnitude(expression: TypedExpression) -> bool {
    expression.kind matches H::Literal(HirLiteral::Integer(spelling)) && spelling@ == "9223372036854775808"@
}

/// The operation a unary operator lowers to.
spec fn unary_operation(operator: UnaryOperator) -> UnaryOperation {
    match operator {
        UnaryOperator::Positive => UnaryOperation::Positive,
        UnaryOperator::Negative => UnaryOperation::Negative,
        UnaryOperator::Not => UnaryOperation::Not,
    }
}

/// Whether a literal lowers to `lowered`: an integer to its INT64 value, the
/// other literals to themselves.
spec fn literal_lowering(literal: HirLiteral, lowered: LiteralValue) -> bool {
    match literal {
        HirLiteral::Integer(spelling) => lowered matches LiteralValue::Int64(v) && v == int64_value(
            encode_utf8(spelling@),
        ),
        HirLiteral::Text(text) => lowered matches LiteralValue::Text(t) && t@ == text@,
        HirLiteral::Boolean(b) => lowered == LiteralValue::Boolean(b),
        HirLiteral::Null => lowered == LiteralValue::Null,
    }
}

/// Whether the most recent entry recorded for `key` carries `field`.
spec fn latest_output(outputs: Seq<((usize, usize), FieldId)>, key: (usize, usize), field: FieldId) -> bool {
    exists|i: int|
        0 <= i < outputs.len() && (#[trigger] outputs[i]).0 == key && field@ == outputs[i].1@ && forall|j: int|
            i < j < outputs.len() ==> outputs[j].0 != key
}

/// Whether an entry is recorded for `key`.
spec fn recorded(outputs: Seq<((usize, usize), FieldId)>, key: (usize, usize)) -> bool {
    exists|i: int| 0 <= i < outputs.len() && (#[trigger] outputs[i]).0 == key
}

/// Whether the first grouping key equivalent to `expression` carries `field`.
spec fn first_group(groups: Seq<(&TypedExpression, FieldId)>, expression: TypedExpression, field: FieldId) -> bool {
    exists|i: int|
        0 <= i < groups.len() && structurally_equivalent(*(#[trigger] groups[i]).0, expression) && field@
            == groups[i].1@ && forall|j: int| 0 <= j < i ==> !structurally_equivalent(*groups[j].0, expression)
}

/// Whether some grouping key is equivalent to `expression`.
spec fn grouped(groups: Seq<(&TypedExpression, FieldId)>, expression: TypedExpression) -> bool {
    exists|i: int| 0 <= i < groups.len() && structurally_equivalent(*(#[trigger] groups[i]).0, expression)
}

/// Whether the most recent binding of a bound field carries `field`.
spec fn latest_binding(environment: Seq<(HirFieldId, FieldId)>, bound: HirFieldId, field: FieldId) -> bool {
    exists|i: int|
        0 <= i < environment.len() && (#[trigger] environment[i]).0 == bound && field@ == environment[i].1@
            && forall|j: int| i < j < environment.len() ==> environment[j].0 != bound
}

/// The top of the lowering of a scalar expression that is neither a
/// recorded invocation nor a grouping key: a field reference to the field's
/// latest binding, a literal to its value, and every other form to the same
/// form with the same operator, keeping the expression's type. A
/// parenthesized expression lowers as its contents; a negated IN wraps the
/// positive test in NOT; the negation of the least INT64's magnitude lowers
/// to that literal.
spec fn form_lowering(expression: TypedExpression, fields: Seq<(HirFieldId, FieldId)>, lowered: Expression) -> bool {
    match expression.kind {
        H::Parenthesized(_) => true,
        _ => {
            &&& lowered.descriptor == expression.annotation
            &&& match expression.kind {
                H::Literal(literal) => lowered.kind matches ExpressionKind::Literal(value) && literal_lowering(
                    literal,
                    value,
                ),
                H::Field(bound) => lowered.kind matches ExpressionKind::Field(field) && latest_binding(
                    fields,
                    bound,
                    field,
                ),
                H::Unary { operator, expression: inner } => if operator == UnaryOperator::Negative
                    && minimum_magnitude(*inner) {
                    lowered.kind == ExpressionKind::Literal(LiteralValue::Int64(i64::MIN))
                } else {
                    lowered.kind matches ExpressionKind::Unary { operation, .. } && operation == unary_operation(
                        operator,
                    )
                },
                H::Binary { operator, .. } => lowered.kind matches ExpressionKind::Binary { operation, .. }
                    && operation == binary_operation(operator),
                H::IsNull { negated, .. } => lowered.kind matches ExpressionKind::IsNull { negated: n, .. } && n
                    == negated,
                H::InList { negated, .. } => if negated {
                    lowered.kind matches ExpressionKind::Unary { operation, operand } && operation
                        == UnaryOperation::Not && operand.kind is InList
                } else {
                    lowered.kind is InList
                },
                H::InQuery { negated, .. } => if negated {
                    lowered.kind matches ExpressionKind::Unary { operation, operand } && operation
                        == UnaryOperation::Not && operand.kind is InQuery
                } else {
                    lowered.kind is InQuery
                },
                H::Case { branches, .. } => lowered.kind matches ExpressionKind::Case { arms, .. } && arms@.len()
                    == branches@.len(),
                H::Cast { scalar_type, .. } => lowered.kind matches ExpressionKind::Cast { target, .. } && target
                    == scalar_type,
                H::Exists { .. } => lowered.kind is Exists,
                _ => false,
            }
        },
    }
}

/// The key under which an invocation's output is recorded.
spec fn invocation_span(expression: TypedExpression) -> (usize, usize) {
    (expression.span.start, expression.span.end)
}

/// Whether a field bound in the environment carries `bound`.
spec fn field_bound(environment: Seq<(HirFieldId, FieldId)>, bound: HirFieldId) -> bool {
    exists|i: int| 0 <= i < environment.len() && (#[trigger] environment[i]).0 == bound
}

/// Whether lowering a scalar expression in `context` needs no subquery
/// and finds what it reads: the expression is a recorded invocation or a
/// grouping key, or every field it references is bound, every integer
/// literal spells an INT64 (or is the magnitude of the least INT64 under a
/// negation), every aggregate or ranking invocation in it is recorded, and
/// its operands are lowerable in turn.
spec fn lowerable(expression: TypedExpression, context: ScalarContext) -> bool
    decreases expression, 1int,
{
    intercepted(expression, context) || lowerable_form(expression, context)
}

/// Whether a scalar expression is a recorded window or aggregate invocation
/// or a grouping key, whose lowering is a reference to its output field.
spec fn intercepted(expression: TypedExpression, context: ScalarContext) -> bool {
    let key = invocation_span(expression);
    recorded(context.windows@, key) || recorded(context.aggregates@, key) || grouped(context.grouping_keys@, expression)
}

/// Whether the form of a scalar expression is lowerable, its operands in
/// turn.
spec fn lowerable_form(expression: TypedExpression, context: ScalarContext) -> bool
    decreases expression, 0int,
{
    match expression.kind {
        H::Literal(HirLiteral::Integer(spelling)) => spells_int64(encode_utf8(spelling@)),
        H::Literal(_) => true,
        H::Field(bound) => field_bound(context.fields@, bound),
        H::Parenthesized(inner) => lowerable(*inner, context),
        H::Unary { operator, expression: inner } => (operator == UnaryOperator::Negative && minimum_magnitude(
            *inner,
        )) || lowerable(*inner, context),
        H::Binary { left, right, .. } => lowerable(*left, context) && lowerable(*right, context),
        H::IsNull { expression: inner, .. } => lowerable(*inner, context),
        H::Cast { expression: inner, .. } => lowerable(*inner, context),
        H::InList { expression: value, values, .. } => lowerable(*value, context) && list_lowerable(
            values@,
            context,
        ),
        H::Case { branches, else_expression } => branches_lowerable(branches@, context) && match else_expression {
            Some(fallback) => lowerable(*fallback, context),
            None => true,
        },
        _ => false,
    }
}

/// Whether every expression of a list is lowerable.
spec fn list_lowerable(expressions: Seq<TypedExpression>, context: ScalarContext) -> bool
    decreases expressions,
{
    expressions.len() == 0 || (lowerable(expressions[0], context) && list_lowerable(expressions.drop_first(), context))
}

/// Whether every branch of a CASE has a lowerable condition and result.
spec fn branches_lowerable(branches: Seq<WhenClause<TypeDescriptor, TypeDescriptor>>, context: ScalarContext) -> bool
    decreases branches,
{
    branches.len() == 0 || (lowerable(branches[0].condition, context) && lowerable(branches[0].result, context)
        && branches_lowerable(branches.drop_first(), context))
}

/// What lowering a scalar expression in `context` gives at its top: the
/// output field of a window invocation, else of an aggregate invocation,
/// else of the first equivalent grouping key, where the expression is one;
/// otherwise the form that `form_lowering` describes.
spec fn scalar_lowering(expression: TypedExpression, context: ScalarContext, lowered: Expression) -> bool {
    let key = (expression.span.start, expression.span.end);
    if recorded(context.windows@, key) {
        &&& lowered.descriptor == expression.annotation
        &&& lowered.kind matches ExpressionKind::Field(field) && latest_output(context.windows@, key, field)
    } else if recorded(context.aggregates@, key) {
        &&& lowered.descriptor == expression.annotation
        &&& lowered.kind matches ExpressionKind::Field(field) && latest_output(context.aggregates@, key, field)
    } else if grouped(context.grouping_keys@, expression) {
        &&& lowered.descriptor == expression.annotation
        &&& lowered.kind matches ExpressionKind::Field(field) && first_group(context.grouping_keys@, expression, field)
    } else {
        form_lowering(expression, context.fields@, lowered)
    }
}

impl<'a> Lowerer<'a> {
    /// Records the common table expressions that a query declares; an
    /// identity met before keeps its first declaration.
    fn register_ctes(&mut self, query: &'a TypedQueryExpression) -> (r: Result<(), ValidationError>)
        requires
            old(self).wf(),
        ensures
            r is Ok ==> final(self).wf() && old(self).grew(final(self)) && final(self).nodes == old(
                self,
            ).nodes,
            old(self).capacity >= query.common_table_expressions@.len() ==> r is Ok,
            r is Ok ==> forall|k: int|
                0 <= k < query.common_table_expressions@.len() ==> exists|i: int|
                    0 <= i < final(self).records@.len() && final(self).records@[i].id
                        == (#[trigger] query.common_table_expressions@[k]).id,
    {
        let mut index: usize = 0;
        while index < query.common_table_expressions.len()
            invariant
                self.wf(),
                old(self).grew(self),
                self.nodes == old(self).nodes,
                index <= query.common_table_expressions@.len(),
                self.capacity + index >= old(self).capacity,
                forall|k: int|
                    0 <= k < index ==> exists|i: int|
                        0 <= i < self.records@.len() && self.records@[i].id
                            == (#[trigger] query.common_table_expressions@[k]).id,
            decreases query.common_table_expressions@.len() - index,
        {
            let declaration = &query.common_table_expressions[index];
            if find_record(&self.records, declaration.id).is_none() {
                if self.capacity == 0 {
                    return Err(internal_error(ValidationErrorKind::InvalidNode));
                }
                let ghost before = self.records@;
                let record = CteRecord {
                    id: declaration.id,
                    query: &*declaration.query,
                    state: CteLowering::Pending,
                };
                self.records.push(record);
                self.capacity = self.capacity - 1;
                proof {
                    lemma_pending_push(before, self.records@.last());
                    assert(self.records@ == before.push(self.records@.last()));
                    assert forall|k: int|
                        0 <= k < index + 1 implies exists|i: int|
                            0 <= i < self.records@.len() && self.records@[i].id
                                == (#[trigger] query.common_table_expressions@[k]).id by {
                        if k < index {
                            let i = choose|i: int|
                                0 <= i < before.len() && before[i].id == query.common_table_expressions@[k].id;
                            assert(self.records@[i] == before[i]);
                        } else {
                            assert(self.records@[before.len() as int].id == declaration.id);
                        }
                    }
                }
            }
            index = index + 1;
        }
        Ok(())
    }

    fn lower_query_expression(&mut self, query: &'a TypedQueryExpression) -> (r: Result<Plan, ValidationError>)
        requires
            old(self).wf(),
        ensures
            r matches Ok(plan) ==> {
                &&& final(self).wf()
                &&& old(self).grew(final(self))
                &&& plan_valid(plan, final(self).nodes@)
                &&& plan.collection == query_collection(*query)
                &&& schema_view(plan.schema@) == lowered_schema(query.result_fields@)
            },
        decreases old(self).potential(), *query, 3int, *query,
    {
        self.register_ctes(query)?;
        let public_schema = lower_schema(&query.result_fields);
        let mut plan;
        let lowered_order;
        match &query.body {
            QueryBody::Select(select) => {
                let coupled = if !select.distinct && query.order_by.len() > 0 {
                    Some(&query.order_by)
                } else {
                    None
                };
                assert(forall|i: int|
                    0 <= i < query.order_by@.len() ==> decreases_to!(*query => #[trigger] query.order_by@[i]));
                let result = self.lower_select(select, coupled, Ghost(*query))?;
                plan = result.plan;
                lowered_order = result.lowered_order;
            },
            _ => {
                plan = self.lower_query_body(&query.body, Ghost(*query))?;
                lowered_order = None;
            },
        }
        if query.order_by.len() > 0 {
            if lowered_order.is_none() && plan.collection == CollectionKind::Ordered {
                plan = self.consume_as_bag(plan)?;
            }
            let expressions = match lowered_order {
                Some(expressions) => expressions,
                None => {
                    let context = field_context(&plan.environment);
                    let mut expressions: Vec<Expression> = Vec::new();
                    let mut index: usize = 0;
                    while index < query.order_by.len()
                        invariant
                            self.wf(),
                            old(self).grew(self),
                            plan_valid(plan, self.nodes@),
                            index <= query.order_by@.len(),
                            expressions@.len() == index,
                            forall|i: int|
                                0 <= i < expressions@.len() ==> expression_within(
                                    #[trigger] expressions@[i],
                                    self.nodes@.len() as nat,
                                ),
                        decreases query.order_by@.len() - index,
                    {
                        assert(decreases_to!(*query => query.order_by@[index as int].expression));
                        let ghost before = self.nodes@.len() as nat;
                        let lowered = self.lower_scalar(&query.order_by[index].expression, &context)?;
                        proof {
                            lemma_all_within_grow(expressions@, before, self.nodes@.len() as nat);
                        }
                        expressions.push(lowered);
                        index = index + 1;
                    }
                    expressions
                },
            };
            plan = self.lower_order_and_bound(
                plan,
                &public_schema,
                &query.order_by,
                expressions,
                query.row_bound.as_ref(),
            )?;
        }
        plan.environment = environment_from(&query.result_fields);
        if !same_schema(&plan.schema, &public_schema) {
            return Err(internal_error(ValidationErrorKind::IncorrectOutputSchema));
        }
        Ok(plan)
    }

    fn lower_query_body(
        &mut self,
        body: &'a TypedBody,
        Ghost(owner): Ghost<TypedQueryExpression>,
    ) -> (r: Result<Plan, ValidationError>)
        requires
            old(self).wf(),
            decreases_to!(owner => *body),
        ensures
            r matches Ok(plan) ==> {
                &&& final(self).wf()
                &&& old(self).grew(final(self))
                &&& plan_valid(plan, final(self).nodes@)
                &&& plan.collection == body_collection(*body)
            },
        decreases old(self).potential(), owner, 2int, *body,
    {
        match body {
            QueryBody::Select(select) => {
                let result = self.lower_select(select, None, Ghost(owner))?;
                Ok(result.plan)
            },
            QueryBody::Parenthesized { query, .. } => self.lower_query_expression(query),
            QueryBody::SetOperation { left, operator, all, right, result_fields, .. } => {
                let left_plan = self.lower_query_body(left, Ghost(owner))?;
                let left_plan = self.consume_as_bag(left_plan)?;
                let right_plan = self.lower_query_body(right, Ghost(owner))?;
                let right_plan = self.consume_as_bag(right_plan)?;
                let schema = lower_schema(result_fields);
                let operation = match operator {
                    SetOperator::Union => SetOperation::Union,
                    SetOperator::Intersect => SetOperation::Intersect,
                    SetOperator::Except => SetOperation::Except,
                };
                let quantifier = if *all {
                    SetQuantifier::All
                } else {
                    SetQuantifier::Distinct
                };
                let left_id = self.node_id(left_plan.node);
                let right_id = self.node_id(right_plan.node);
                assert(existing_node(left_id@, self.nodes@.len() as nat)) by {
                    assert(node_name(left_plan.node as nat) == left_id@);
                }
                assert(existing_node(right_id@, self.nodes@.len() as nat)) by {
                    assert(node_name(right_plan.node as nat) == right_id@);
                }
                let node = self.push_node(
                    NodeKind::SetOperation { left: left_id, right: right_id, operation, quantifier },
                    clone_fields(schema.as_slice()),
                    CollectionKind::Bag,
                )?;
                Ok(
                    Plan {
                        node,
                        schema,
                        collection: CollectionKind::Bag,
                        environment: environment_from(result_fields),
                    },
                )
            },
        }
    }

    fn lower_select(
        &mut self,
        select: &'a TypedSelect,
        outer_order: Option<&'a Vec<TypedOrderItem>>,
        Ghost(owner): Ghost<TypedQueryExpression>,
    ) -> (r: Result<SelectResult, ValidationError>)
        requires
            old(self).wf(),
            decreases_to!(owner => *select),
            outer_order matches Some(items) ==> forall|i: int|
                0 <= i < items@.len() ==> decreases_to!(owner => #[trigger] items@[i]),
        ensures
            r matches Ok(result) ==> {
                &&& final(self).wf()
                &&& old(self).grew(final(self))
                &&& plan_valid(result.plan, final(self).nodes@)
                &&& result.plan.collection is Bag
                &&& outer_order is None ==> result.lowered_order is None
                &&& result.lowered_order matches Some(expressions) ==> {
                    &&& outer_order matches Some(items) && expressions@.len() == items@.len()
                    &&& forall|i: int|
                        0 <= i < expressions@.len() ==> expression_within(
                            #[trigger] expressions@[i],
                            final(self).nodes@.len() as nat,
                        )
                }
            },
        decreases old(self).potential(), owner, 1int, *select,
    {
        let mut plan = self.lower_from(select, Ghost(owner))?;
        let mut context = field_context(&plan.environment);
        if let Some(predicate) = &select.where_clause {
            assert(decreases_to!(*select => select.where_clause->0));
            let predicate = self.lower_scalar(predicate, &context)?;
            let input = self.node_id(plan.node);
            assert(existing_node(input@, self.nodes@.len() as nat)) by {
                assert(node_name(plan.node as nat) == input@);
            }
            let node = self.push_node(
                NodeKind::Filter { input, predicate },
                clone_fields(plan.schema.as_slice()),
                plan.collection,
            )?;
            plan.node = node;
        }
        if select.is_aggregate {
            let (aggregate_plan, aggregate_context) = self.lower_grouping_stage(
                plan,
                select,
                &context,
                Ghost(owner),
            )?;
            plan = aggregate_plan;
            context = aggregate_context;
        }
        if let Some(having) = &select.having {
            assert(decreases_to!(*select => select.having->0));
            let predicate = self.lower_scalar(having, &context)?;
            let input = self.node_id(plan.node);
            assert(existing_node(input@, self.nodes@.len() as nat)) by {
                assert(node_name(plan.node as nat) == input@);
            }
            let node = self.push_node(
                NodeKind::Filter { input, predicate },
                clone_fields(plan.schema.as_slice()),
                plan.collection,
            )?;
            plan.node = node;
        }
        let (window_plan, window_context) = self.lower_window_stage(
            plan,
            select,
            outer_order,
            context,
            Ghost(owner),
        )?;
        plan = window_plan;
        context = window_context;
        let public_schema = lower_schema(&select.result_fields);
        let mut public_ids: Vec<FieldId> = Vec::new();
        let mut index: usize = 0;
        while index < public_schema.len()
            invariant
                index <= public_schema@.len(),
            decreases public_schema@.len() - index,
        {
            public_ids.push(public_schema[index].id.clone());
            index = index + 1;
        }
        let mut lowered_order: Option<Vec<Expression>> = None;
        let mut referenced: Vec<FieldId> = Vec::new();
        if let Some(items) = outer_order {
            let base = context.fields.len();
            let result_environment = environment_from(&select.result_fields);
            append_environment(&mut context.fields, &result_environment);
            let mut expressions: Vec<Expression> = Vec::new();
            let mut index: usize = 0;
            while index < items.len()
                invariant
                    self.wf(),
                    old(self).grew(self),
                    plan_valid(plan, self.nodes@),
                    plan.collection is Bag,
                    index <= items@.len(),
                    expressions@.len() == index,
                    forall|i: int|
                        0 <= i < expressions@.len() ==> expression_within(
                            #[trigger] expressions@[i],
                            self.nodes@.len() as nat,
                        ),
                decreases items@.len() - index,
            {
                assert(decreases_to!(owner => items@[index as int]));
                assert(decreases_to!(items@[index as int] => items@[index as int].expression));
                let ghost before = self.nodes@.len() as nat;
                let lowered = self.lower_scalar(&items[index].expression, &context)?;
                proof {
                    lemma_all_within_grow(expressions@, before, self.nodes@.len() as nat);
                }
                collect_ir_fields(&lowered, &mut referenced);
                expressions.push(lowered);
                index = index + 1;
            }
            context.fields.truncate(base);
            lowered_order = Some(expressions);
        }
        let ghost order_count = self.nodes@.len() as nat;
        let mut entries: Vec<ProjectEntry> = Vec::new();
        let mut index: usize = 0;
        while index < select.select_list.len()
            invariant
                self.wf(),
                old(self).grew(self),
                plan_valid(plan, self.nodes@),
                plan.collection is Bag,
                order_count <= self.nodes@.len(),
                index <= select.select_list@.len(),
                forall|i: int, id: Seq<char>|
                    0 <= i < entries@.len() && #[trigger] entry_refers(entries@[i], id) ==> existing_node(
                        id,
                        self.nodes@.len() as nat,
                    ),
            decreases select.select_list@.len() - index,
        {
            let item = &select.select_list[index];
            assert(decreases_to!(*select => select.select_list@[index as int].expression));
            let ghost before = self.nodes@.len() as nat;
            let expression = self.lower_scalar(&item.expression, &context)?;
            assert forall|i: int, id: Seq<char>|
                0 <= i < entries@.len() && #[trigger] entry_refers(entries@[i], id) implies existing_node(
                id,
                self.nodes@.len() as nat,
            ) by {
                lemma_existing_grows(id, before, self.nodes@.len() as nat);
            }
            entries.push(ProjectEntry::Compute { output: lower_field_id(item.output.id), expression });
            index = index + 1;
        }
        let mut projection_schema = clone_fields(public_schema.as_slice());
        let mut index: usize = 0;
        while index < plan.schema.len()
            invariant
                index <= plan.schema@.len(),
                forall|i: int, id: Seq<char>|
                    0 <= i < entries@.len() && #[trigger] entry_refers(entries@[i], id) ==> existing_node(
                        id,
                        self.nodes@.len() as nat,
                    ),
            decreases plan.schema@.len() - index,
        {
            let field = &plan.schema[index];
            if contains_field(&referenced, &field.id) && !contains_field(&public_ids, &field.id) {
                entries.push(ProjectEntry::Keep(field.id.clone()));
                projection_schema.push(field.clone());
            }
            index = index + 1;
        }
        let input = self.node_id(plan.node);
        assert(existing_node(input@, self.nodes@.len() as nat)) by {
            assert(node_name(plan.node as nat) == input@);
        }
        let node = self.push_node(
            NodeKind::Project { input, entries },
            clone_fields(projection_schema.as_slice()),
            plan.collection,
        )?;
        plan = Plan {
            node,
            schema: projection_schema,
            collection: plan.collection,
            environment: environment_from(&select.result_fields),
        };
        if select.distinct {
            let input = self.node_id(plan.node);
            assert(existing_node(input@, self.nodes@.len() as nat)) by {
                assert(node_name(plan.node as nat) == input@);
            }
            let node = self.push_node(
                NodeKind::Distinct { input },
                clone_fields(public_schema.as_slice()),
                CollectionKind::Bag,
            )?;
            plan = Plan {
                node,
                schema: public_schema,
                collection: CollectionKind::Bag,
                environment: environment_from(&select.result_fields),
            };
            lowered_order = None;
        }
        proof {
            if lowered_order is Some {
                lemma_all_within_grow(lowered_order->0@, order_count, self.nodes@.len() as nat);
            }
        }
        Ok(SelectResult { plan, lowered_order })
    }

    fn lower_from(&mut self, select: &'a TypedSelect, Ghost(owner): Ghost<TypedQueryExpression>) -> (r: Result<Plan, ValidationError>)
        requires
            old(self).wf(),
            decreases_to!(owner => *select),
        ensures
            r matches Ok(plan) ==> {
                &&& final(self).wf()
                &&& old(self).grew(final(self))
                &&& plan_valid(plan, final(self).nodes@)
                &&& plan.collection is Bag
            },
        decreases old(self).potential(), owner, 0int, *select,
    {
        let mut complete: Option<Plan> = None;
        let mut index: usize = 0;
        while index < select.from.len()
            invariant
                self.wf(),
                old(self).grew(self),
                index <= select.from@.len(),
                complete matches Some(plan) ==> plan_valid(plan, self.nodes@) && plan.collection is Bag,
            decreases select.from@.len() - index,
        {
            let joined = &select.from[index];
            assert(decreases_to!(*select => select.from@[index as int].left));
            let mut current = self.lower_table_primary(&joined.left)?;
            let mut position: usize = 0;
            while position < joined.joins.len()
                invariant
                    self.wf(),
                    old(self).grew(self),
                    position <= joined.joins@.len(),
                    plan_valid(current, self.nodes@),
                    current.collection is Bag,
                    complete matches Some(plan) ==> plan_valid(plan, self.nodes@) && plan.collection is Bag,
                decreases joined.joins@.len() - position,
            {
                let join = &joined.joins[position];
                assert(decreases_to!(*select => select.from@[index as int].joins@[position as int].right));
                let right = self.lower_table_primary(&join.right)?;
                let condition = match &join.condition {
                    Some(condition) => {
                        assert(decreases_to!(*select => select.from@[index as int].joins@[position as int].condition->0));
                        let mut context = field_context(&current.environment);
                        append_environment(&mut context.fields, &right.environment);
                        Some(self.lower_scalar(condition, &context)?)
                    },
                    None => None,
                };
                current = self.lower_join(current, right, join.kind, condition)?;
                position = position + 1;
            }
            complete = match complete {
                Some(left) => Some(self.lower_join(left, current, JoinKind::Cross, None)?),
                None => Some(current),
            };
            index = index + 1;
        }
        match complete {
            Some(plan) => Ok(plan),
            None => Err(internal_error(ValidationErrorKind::InvalidNode)),
        }
    }

    fn lower_table_primary(&mut self, primary: &'a TypedPrimary) -> (r: Result<Plan, ValidationError>)
        requires
            old(self).wf(),
        ensures
            r matches Ok(plan) ==> {
                &&& final(self).wf()
                &&& old(self).grew(final(self))
                &&& plan_valid(plan, final(self).nodes@)
                &&& plan.collection is Bag
            },
        decreases old(self).potential(), *primary, 1int, *primary,
    {
        match primary {
            TablePrimary::Catalog { binding, occurrence, .. } => {
                let schema = lower_schema(&occurrence.fields);
                let node = self.push_node(
                    NodeKind::Input { binding: binding.clone() },
                    clone_fields(schema.as_slice()),
                    CollectionKind::Bag,
                )?;
                Ok(
                    Plan {
                        node,
                        schema,
                        collection: CollectionKind::Bag,
                        environment: environment_from(&occurrence.fields),
                    },
                )
            },
            TablePrimary::CommonTableExpression { declaration, occurrence, .. } => {
                let source = self.lower_cte(primary, *declaration)?;
                self.instantiate_occurrence(source, &occurrence.fields)
            },
            TablePrimary::Derived { query, occurrence, .. } => {
                let source = self.lower_query_expression(query)?;
                let source = self.consume_as_bag(source)?;
                self.instantiate_occurrence(source, &occurrence.fields)
            },
        }
    }

    /// The shared lowering of a common table expression, made on its first
    /// reference.
    fn lower_cte(&mut self, primary: &'a TypedPrimary, id: CteId) -> (r: Result<Plan, ValidationError>)
        requires
            old(self).wf(),
        ensures
            r matches Ok(plan) ==> final(self).wf() && old(self).grew(final(self)) && plan.node
                < final(self).nodes@.len(),
        decreases old(self).potential(), *primary, 0int, *primary,
    {
        let index = match find_record(&self.records, id) {
            Some(index) => index,
            None => return Err(internal_error(ValidationErrorKind::InvalidNode)),
        };
        match &self.records[index].state {
            CteLowering::Done(plan) => return Ok(copy_plan(plan)),
            CteLowering::InProgress => return Err(internal_error(ValidationErrorKind::InvalidNode)),
            CteLowering::Pending => {},
        }
        let query = self.records[index].query;
        let ghost before = self.records@;
        self.records.set(index, CteRecord { id, query, state: CteLowering::InProgress });
        proof {
            lemma_pending_update(before, index as int, self.records@[index as int]);
        }
        let plan = self.lower_query_expression(query)?;
        let plan = self.consume_as_bag(plan)?;
        let ghost middle = self.records@;
        self.records.set(index, CteRecord { id, query, state: CteLowering::Done(copy_plan(&plan)) });
        proof {
            lemma_pending_update(middle, index as int, self.records@[index as int]);
        }
        Ok(plan)
    }

    fn lower_grouping_stage(
        &mut self,
        input: Plan,
        select: &'a TypedSelect,
        source_context: &ScalarContext<'a>,
        Ghost(owner): Ghost<TypedQueryExpression>,
    ) -> (r: Result<(Plan, ScalarContext<'a>), ValidationError>)
        requires
            old(self).wf(),
            input.node < old(self).nodes@.len(),
            decreases_to!(owner => *select),
        ensures
            r matches Ok((plan, _)) ==> {
                &&& final(self).wf()
                &&& old(self).grew(final(self))
                &&& plan_valid(plan, final(self).nodes@)
                &&& plan.collection is Bag
            },
        decreases old(self).potential(), owner, 0int, *select,
    {
        let mut canonical: Vec<(&'a TypedExpression, FieldId)> = Vec::new();
        let mut grouping_keys: Vec<GroupingKey> = Vec::new();
        let mut schema: Vec<Field> = Vec::new();
        let mut index: usize = 0;
        while index < select.group_by.len()
            invariant
                self.wf(),
                old(self).grew(self),
                input.node < self.nodes@.len(),
                index <= select.group_by@.len(),
                forall|i: int|
                    0 <= i < grouping_keys@.len() ==> expression_within(
                        (#[trigger] grouping_keys@[i]).expression,
                        self.nodes@.len() as nat,
                    ),
            decreases select.group_by@.len() - index,
        {
            let expression = &select.group_by[index];
            if find_group(&canonical, expression).is_none() {
                assert(decreases_to!(*select => select.group_by@[index as int]));
                let output = self.temporary_field()?;
                let ghost before = self.nodes@.len() as nat;
                let lowered = self.lower_scalar(expression, source_context)?;
                assert forall|i: int| 0 <= i < grouping_keys@.len() implies expression_within(
                    (#[trigger] grouping_keys@[i]).expression,
                    self.nodes@.len() as nat,
                ) by {
                    lemma_within_grows(grouping_keys@[i].expression, before, self.nodes@.len() as nat);
                }
                grouping_keys.push(GroupingKey { output: output.clone(), expression: lowered });
                schema.push(Field { id: output.clone(), name: String::new(), descriptor: expression.annotation });
                canonical.push((expression, output));
            }
            index = index + 1;
        }
        let mut collected: Vec<&'a TypedExpression> = Vec::new();
        let mut index: usize = 0;
        while index < select.select_list.len()
            invariant
                index <= select.select_list@.len(),
                forall|i: int| 0 <= i < collected@.len() ==> decreases_to!(owner => *#[trigger] collected@[i]),
            decreases select.select_list@.len() - index,
        {
            assert(decreases_to!(*select => select.select_list@[index as int].expression));
            collect_invocations(&select.select_list[index].expression, false, &mut collected);
            index = index + 1;
        }
        if let Some(having) = &select.having {
            assert(decreases_to!(*select => select.having->0));
            collect_invocations(having, false, &mut collected);
        }
        let mut aggregates: Vec<AggregateDefinition> = Vec::new();
        let mut outputs: Vec<((usize, usize), FieldId)> = Vec::new();
        let mut index: usize = 0;
        while index < collected.len()
            invariant
                self.wf(),
                old(self).grew(self),
                input.node < self.nodes@.len(),
                index <= collected@.len(),
                forall|i: int| 0 <= i < collected@.len() ==> decreases_to!(owner => *#[trigger] collected@[i]),
                forall|i: int|
                    0 <= i < grouping_keys@.len() ==> expression_within(
                        (#[trigger] grouping_keys@[i]).expression,
                        self.nodes@.len() as nat,
                    ),
                forall|i: int|
                    0 <= i < aggregates@.len() ==> optional_within(
                        (#[trigger] aggregates@[i]).argument,
                        self.nodes@.len() as nat,
                    ),
            decreases collected@.len() - index,
        {
            let expression = collected[index];
            match &expression.kind {
                H::Aggregate { function, argument, window: None } => {
                    assert(decreases_to!(*expression => expression.kind->argument));
                    let output = self.temporary_field()?;
                    let ghost before = self.nodes@.len() as nat;
                    let (function, argument) = self.lower_aggregate_invocation(
                        *function,
                        argument,
                        source_context,
                    )?;
                    assert forall|i: int| 0 <= i < grouping_keys@.len() implies expression_within(
                        (#[trigger] grouping_keys@[i]).expression,
                        self.nodes@.len() as nat,
                    ) by {
                        lemma_within_grows(grouping_keys@[i].expression, before, self.nodes@.len() as nat);
                    }
                    assert forall|i: int| 0 <= i < aggregates@.len() implies optional_within(
                        (#[trigger] aggregates@[i]).argument,
                        self.nodes@.len() as nat,
                    ) by {
                        if let Some(a) = aggregates@[i].argument {
                            lemma_within_grows(a, before, self.nodes@.len() as nat);
                        }
                    }
                    aggregates.push(AggregateDefinition { output: output.clone(), function, argument });
                    schema.push(
                        Field { id: output.clone(), name: String::new(), descriptor: expression.annotation },
                    );
                    outputs.push((invocation_key(expression), output));
                },
                _ => return Err(internal_error(ValidationErrorKind::InvalidExpression)),
            }
            index = index + 1;
        }
        let input_id = self.node_id(input.node);
        assert(existing_node(input_id@, self.nodes@.len() as nat)) by {
            assert(node_name(input.node as nat) == input_id@);
        }
        let node = self.push_node(
            NodeKind::Aggregate { input: input_id, grouping_keys, aggregates },
            clone_fields(schema.as_slice()),
            CollectionKind::Bag,
        )?;
        let context = ScalarContext {
            fields: Vec::new(),
            grouping_keys: canonical,
            aggregates: outputs,
            windows: Vec::new(),
        };
        Ok((Plan { node, schema, collection: CollectionKind::Bag, environment: Vec::new() }, context))
    }

    fn lower_window_stage(
        &mut self,
        input: Plan,
        select: &'a TypedSelect,
        outer_order: Option<&'a Vec<TypedOrderItem>>,
        context: ScalarContext<'a>,
        Ghost(owner): Ghost<TypedQueryExpression>,
    ) -> (r: Result<(Plan, ScalarContext<'a>), ValidationError>)
        requires
            old(self).wf(),
            plan_valid(input, old(self).nodes@),
            decreases_to!(owner => *select),
            outer_order matches Some(items) ==> forall|i: int|
                0 <= i < items@.len() ==> decreases_to!(owner => #[trigger] items@[i]),
        ensures
            r matches Ok((plan, _)) ==> {
                &&& final(self).wf()
                &&& old(self).grew(final(self))
                &&& plan_valid(plan, final(self).nodes@)
                &&& input.collection is Bag ==> plan.collection is Bag
            },
        decreases old(self).potential(), owner, 0int, *select,
    {
        let mut collected: Vec<&'a TypedExpression> = Vec::new();
        let mut index: usize = 0;
        while index < select.select_list.len()
            invariant
                index <= select.select_list@.len(),
                forall|i: int| 0 <= i < collected@.len() ==> decreases_to!(owner => *#[trigger] collected@[i]),
            decreases select.select_list@.len() - index,
        {
            assert(decreases_to!(*select => select.select_list@[index as int].expression));
            collect_invocations(&select.select_list[index].expression, true, &mut collected);
            index = index + 1;
        }
        if let Some(items) = outer_order {
            let mut index: usize = 0;
            while index < items.len()
                invariant
                    index <= items@.len(),
                    forall|i: int| 0 <= i < collected@.len() ==> decreases_to!(owner => *#[trigger] collected@[i]),
                decreases items@.len() - index,
            {
                assert(decreases_to!(owner => items@[index as int]));
                assert(decreases_to!(items@[index as int] => items@[index as int].expression));
                collect_invocations(&items[index].expression, true, &mut collected);
                index = index + 1;
            }
        }
        if collected.len() == 0 {
            return Ok((input, context));
        }
        let mut context = context;
        let mut definitions: Vec<WindowDefinition> = Vec::new();
        let mut schema = clone_fields(input.schema.as_slice());
        let mut outputs: Vec<((usize, usize), FieldId)> = Vec::new();
        let mut index: usize = 0;
        while index < collected.len()
            invariant
                self.wf(),
                old(self).grew(self),
                plan_valid(input, self.nodes@),
                index <= collected@.len(),
                forall|i: int| 0 <= i < collected@.len() ==> decreases_to!(owner => *#[trigger] collected@[i]),
                forall|i: int, id: Seq<char>|
                    0 <= i < definitions@.len() && #[trigger] definition_refers(definitions@[i], id)
                        ==> existing_node(id, self.nodes@.len() as nat),
            decreases collected@.len() - index,
        {
            let expression = collected[index];
            let output = self.temporary_field()?;
            let ghost before = self.nodes@.len() as nat;
            let definition = match &expression.kind {
                H::Aggregate { function, argument, window: Some(window) } => {
                    assert(decreases_to!(*expression => expression.kind->argument));
                    let (function, argument) = self.lower_aggregate_invocation(*function, argument, &context)?;
                    let ghost middle = self.nodes@.len() as nat;
                    assert(decreases_to!(*expression => expression.kind->window->0.partition_by));
                    let partition_by = self.lower_expression_list(&window.partition_by, &context)?;
                    proof {
                        if argument is Some {
                            lemma_within_grows(argument->0, middle, self.nodes@.len() as nat);
                        }
                    }
                    WindowDefinition::PartitionedAggregate {
                        output: output.clone(),
                        function,
                        argument,
                        partition_by,
                    }
                },
                H::Ranking { function, partition_by, order_by } => {
                    assert(decreases_to!(*expression => expression.kind->partition_by));
                    assert(decreases_to!(*expression => expression.kind->order_by));
                    let partition_by = self.lower_expression_list(partition_by, &context)?;
                    let ghost middle = self.nodes@.len() as nat;
                    let order_by = self.lower_ordering_items(order_by, &context)?;
                    proof {
                        lemma_all_within_grow(partition_by@, middle, self.nodes@.len() as nat);
                    }
                    WindowDefinition::Ranking {
                        output: output.clone(),
                        function: lower_ranking_function(*function),
                        partition_by,
                        order_by,
                    }
                },
                _ => return Err(internal_error(ValidationErrorKind::InvalidExpression)),
            };
            assert forall|i: int, id: Seq<char>|
                0 <= i < definitions@.len() && #[trigger] definition_refers(definitions@[i], id)
                    implies existing_node(id, self.nodes@.len() as nat) by {
                lemma_existing_grows(id, before, self.nodes@.len() as nat);
            }
            definitions.push(definition);
            schema.push(Field { id: output.clone(), name: String::new(), descriptor: expression.annotation });
            outputs.push((invocation_key(expression), output));
            index = index + 1;
        }
        let input_id = self.node_id(input.node);
        assert(existing_node(input_id@, self.nodes@.len() as nat)) by {
            assert(node_name(input.node as nat) == input_id@);
        }
        let node = self.push_node(
            NodeKind::Window { input: input_id, definitions },
            clone_fields(schema.as_slice()),
            CollectionKind::Bag,
        )?;
        context.windows = outputs;
        Ok((Plan { node, schema, collection: CollectionKind::Bag, environment: input.environment }, context))
    }

    fn lower_aggregate_invocation(
        &mut self,
        function: SourceAggregateFunction,
        argument: &'a TypedArgument,
        context: &ScalarContext<'a>,
    ) -> (r: Result<(AggregateFunction, Option<Expression>), ValidationError>)
        requires
            old(self).wf(),
        ensures
            r matches Ok((_, lowered)) ==> final(self).wf() && old(self).grew(final(self))
                && optional_within(lowered, final(self).nodes@.len() as nat),
            r matches Ok((lowered_function, lowered)) ==> lowered_function == aggregate_function_of(
                function,
                argument is Star,
            ) && (lowered is None <==> argument is Star),
            argument is Star ==> r is Ok,
        decreases old(self).potential(), *argument, 1int, *argument,
    {
        let lowered = match argument {
            HirAggregateArgument::Star(_) => None,
            HirAggregateArgument::Expression(expression) => Some(self.lower_scalar(expression, context)?),
        };
        let function = lower_aggregate_function(function, lowered.is_none());
        Ok((function, lowered))
    }

    fn lower_expression_list(
        &mut self,
        expressions: &'a Vec<TypedExpression>,
        context: &ScalarContext<'a>,
    ) -> (r: Result<Vec<Expression>, ValidationError>)
        requires
            old(self).wf(),
        ensures
            r matches Ok(lowered) ==> {
                &&& final(self).wf()
                &&& old(self).grew(final(self))
                &&& forall|i: int|
                    0 <= i < lowered@.len() ==> expression_within(
                        #[trigger] lowered@[i],
                        final(self).nodes@.len() as nat,
                    )
            },
            list_lowerable(expressions@, *context) ==> r is Ok,
        decreases old(self).potential(), *expressions, 1int, *expressions,
    {
        let mut lowered: Vec<Expression> = Vec::new();
        let mut index: usize = 0;
        assert(expressions@.subrange(0, expressions@.len() as int) =~= expressions@);
        while index < expressions.len()
            invariant
                self.wf(),
                old(self).grew(self),
                index <= expressions@.len(),
                list_lowerable(expressions@, *context) ==> list_lowerable(
                    expressions@.subrange(index as int, expressions@.len() as int),
                    *context,
                ),
                forall|i: int|
                    0 <= i < lowered@.len() ==> expression_within(
                        #[trigger] lowered@[i],
                        self.nodes@.len() as nat,
                    ),
            decreases expressions@.len() - index,
        {
            assert(decreases_to!(*expressions => expressions@));
            assert(decreases_to!(expressions@ => expressions@[index as int]));
            let ghost before = self.nodes@.len() as nat;
            proof {
                let rest = expressions@.subrange(index as int, expressions@.len() as int);
                assert(rest[0] == expressions@[index as int]);
                assert(rest.drop_first() =~= expressions@.subrange(index + 1, expressions@.len() as int));
            }
            let expression = self.lower_scalar(&expressions[index], context)?;
            proof {
                lemma_all_within_grow(lowered@, before, self.nodes@.len() as nat);
            }
            lowered.push(expression);
            index = index + 1;
        }
        Ok(lowered)
    }

    fn lower_ordering_items(
        &mut self,
        items: &'a Vec<TypedOrderItem>,
        context: &ScalarContext<'a>,
    ) -> (r: Result<Vec<OrderingItem>, ValidationError>)
        requires
            old(self).wf(),
        ensures
            r matches Ok(lowered) ==> {
                &&& final(self).wf()
                &&& old(self).grew(final(self))
                &&& forall|i: int|
                    0 <= i < lowered@.len() ==> expression_within(
                        (#[trigger] lowered@[i]).expression,
                        final(self).nodes@.len() as nat,
                    )
            },
        decreases old(self).potential(), *items, 1int, *items,
    {
        let mut lowered: Vec<OrderingItem> = Vec::new();
        let mut index: usize = 0;
        while index < items.len()
            invariant
                self.wf(),
                old(self).grew(self),
                index <= items@.len(),
                forall|i: int|
                    0 <= i < lowered@.len() ==> expression_within(
                        (#[trigger] lowered@[i]).expression,
                        self.nodes@.len() as nat,
                    ),
            decreases items@.len() - index,
        {
            assert(decreases_to!(*items => items@));
            assert(decreases_to!(items@ => items@[index as int].expression));
            let item = &items[index];
            let ghost before = self.nodes@.len() as nat;
            let expression = self.lower_scalar(&item.expression, context)?;
            assert forall|i: int| 0 <= i < lowered@.len() implies expression_within(
                (#[trigger] lowered@[i]).expression,
                self.nodes@.len() as nat,
            ) by {
                lemma_within_grows(lowered@[i].expression, before, self.nodes@.len() as nat);
            }
            lowered.push(
                OrderingItem {
                    expression,
                    direction: lower_direction(item.direction),
                    null_placement: lower_null_placement(item.null_placement),
                },
            );
            index = index + 1;
        }
        Ok(lowered)
    }

    #[verifier::rlimit(100)]
    #[verifier::spinoff_prover]
    fn lower_scalar(&mut self, expression: &'a TypedExpression, context: &ScalarContext<'a>) -> (r: Result<
        Expression,
        ValidationError,
    >)
        requires
            old(self).wf(),
        ensures
            r matches Ok(lowered) ==> {
                &&& final(self).wf()
                &&& old(self).grew(final(self))
                &&& expression_within(lowered, final(self).nodes@.len() as nat)
                &&& scalar_lowering(*expression, *context, lowered)
            },
            lowerable(*expression, *context) ==> r is Ok,
        decreases old(self).potential(), *expression, 0int, *expression,
    {
        let descriptor = expression.annotation;
        if let Some(field) = find_invocation(&context.windows, invocation_key(expression)) {
            return Ok(field_expression(field.clone(), descriptor));
        }
        if let Some(field) = find_invocation(&context.aggregates, invocation_key(expression)) {
            return Ok(field_expression(field.clone(), descriptor));
        }
        if let Some(field) = find_group(&context.grouping_keys, expression) {
            return Ok(field_expression(field.clone(), descriptor));
        }
        assert(!intercepted(*expression, *context));
        match &expression.kind {
            H::Literal(value) => {
                let literal = match value {
                    HirLiteral::Integer(spelling) => match parse_int64(spelling) {
                        Some(value) => LiteralValue::Int64(value),
                        None => return Err(internal_error(ValidationErrorKind::InvalidExpression)),
                    },
                    HirLiteral::Text(text) => LiteralValue::Text(text.clone()),
                    HirLiteral::Boolean(value) => LiteralValue::Boolean(*value),
                    HirLiteral::Null => LiteralValue::Null,
                };
                let lowered = Expression::new(ExpressionKind::Literal(literal), descriptor);
                assert(expression_within(lowered, self.nodes@.len() as nat));
                Ok(lowered)
            },
            H::Field(field) => match find_field(&context.fields, *field) {
                Some(id) => Ok(field_expression(id.clone(), descriptor)),
                None => Err(
                    internal_error(ValidationErrorKind::InvalidFieldReference(lower_field_id(*field))),
                ),
            },
            H::Parenthesized(inner) => {
                let lowered = self.lower_scalar(inner, context)?;
                assert(expression_within(lowered, self.nodes@.len() as nat));
                Ok(lowered)
            },
            H::Unary { operator, expression: inner } => {
                if *operator == UnaryOperator::Negative && is_minimum_magnitude(inner) {
                    let minimum = Expression::new(
                        ExpressionKind::Literal(LiteralValue::Int64(i64::MIN)),
                        descriptor,
                    );
                    assert(expression_within(minimum, self.nodes@.len() as nat));
                    return Ok(minimum);
                }
                let operation = match operator {
                    UnaryOperator::Positive => UnaryOperation::Positive,
                    UnaryOperator::Negative => UnaryOperation::Negative,
                    UnaryOperator::Not => UnaryOperation::Not,
                };
                let operand = self.lower_scalar(inner, context)?;
                let lowered = Expression::new(
                    ExpressionKind::Unary { operation, operand: Box::new(operand) },
                    descriptor,
                );
                assert forall|id: Seq<char>| #[trigger] expression_refers(lowered, id) implies existing_node(
                    id,
                    self.nodes@.len() as nat,
                ) by {
                    assert(expression_refers(lowered, id) == expression_refers(operand, id));
                }
                Ok(lowered)
            },
            H::Binary { left, operator, right } => {
                let left = self.lower_scalar(left, context)?;
                let ghost middle = self.nodes@.len() as nat;
                let right = self.lower_scalar(right, context)?;
                proof {
                    lemma_within_grows(left, middle, self.nodes@.len() as nat);
                }
                let lowered = Expression::new(
                    ExpressionKind::Binary {
                        operation: lower_binary(*operator),
                        left: Box::new(left),
                        right: Box::new(right),
                    },
                    descriptor,
                );
                assert forall|id: Seq<char>| #[trigger] expression_refers(lowered, id) implies existing_node(
                    id,
                    self.nodes@.len() as nat,
                ) by {
                    assert(expression_refers(lowered, id) == (expression_refers(left, id)
                        || expression_refers(right, id)));
                }
                Ok(lowered)
            },
            H::IsNull { expression: inner, negated } => {
                let operand = self.lower_scalar(inner, context)?;
                let lowered = Expression::new(
                    ExpressionKind::IsNull { operand: Box::new(operand), negated: *negated },
                    descriptor,
                );
                assert forall|id: Seq<char>| #[trigger] expression_refers(lowered, id) implies existing_node(
                    id,
                    self.nodes@.len() as nat,
                ) by {
                    assert(expression_refers(lowered, id) == expression_refers(operand, id));
                }
                Ok(lowered)
            },
            H::InList { expression: value, negated, values } => {
                let value = self.lower_scalar(value, context)?;
                let ghost middle = self.nodes@.len() as nat;
                let candidates = self.lower_expression_list(values, context)?;
                proof {
                    lemma_within_grows(value, middle, self.nodes@.len() as nat);
                }
                let positive = Expression::new(
                    ExpressionKind::InList { value: Box::new(value), candidates },
                    descriptor,
                );
                assert forall|id: Seq<char>| #[trigger] expression_refers(positive, id) implies existing_node(
                    id,
                    self.nodes@.len() as nat,
                ) by {
                    if !expression_refers(*positive.kind->InList_value, id) {
                        let i = choose|i: int|
                            0 <= i < candidates@.len() && expression_refers(#[trigger] candidates@[i], id);
                        assert(expression_within(candidates@[i], self.nodes@.len() as nat));
                    }
                }
                let lowered = negate_if(positive, *negated, descriptor);
                assert(expression_within(lowered, self.nodes@.len() as nat));
                Ok(lowered)
            },
            H::InQuery { expression: value, negated, query } => {
                let plan = self.lower_query_expression(query)?;
                let plan = self.consume_as_bag(plan)?;
                if plan.schema.len() == 0 {
                    return Err(internal_error(ValidationErrorKind::InvalidExpression));
                }
                let field = plan.schema[0].id.clone();
                let ghost middle = self.nodes@.len() as nat;
                let value = self.lower_scalar(value, context)?;
                let query_id = self.node_id(plan.node);
                assert(existing_node(query_id@, self.nodes@.len() as nat)) by {
                    assert(node_name(plan.node as nat) == query_id@);
                }
                let positive = Expression::new(
                    ExpressionKind::InQuery { value: Box::new(value), query: query_id, field },
                    descriptor,
                );
                assert forall|id: Seq<char>| #[trigger] expression_refers(positive, id) implies existing_node(
                    id,
                    self.nodes@.len() as nat,
                ) by {
                    if id != query_id@ {
                        assert(expression_refers(value, id));
                    }
                }
                let lowered = negate_if(positive, *negated, descriptor);
                assert(expression_within(lowered, self.nodes@.len() as nat));
                Ok(lowered)
            },
            H::Case { branches, else_expression } => {
                assert(branches@.subrange(0, branches@.len() as int) =~= branches@);
                let mut arms: Vec<CaseArm> = Vec::new();
                let mut index: usize = 0;
                while index < branches.len()
                    invariant
                        self.wf(),
                        old(self).grew(self),
                        index <= branches@.len(),
                        arms@.len() == index,
                        forall|i: int|
                            0 <= i < arms@.len() ==> expression_within(
                                (#[trigger] arms@[i]).when,
                                self.nodes@.len() as nat,
                            ) && expression_within(arms@[i].result, self.nodes@.len() as nat),
                        lowerable_form(*expression, *context) ==> branches_lowerable(
                            branches@.subrange(index as int, branches@.len() as int),
                            *context,
                        ),
                    decreases branches@.len() - index,
                {
                    proof {
                        let rest = branches@.subrange(index as int, branches@.len() as int);
                        assert(rest[0] == branches@[index as int]);
                        assert(rest.drop_first() =~= branches@.subrange(index + 1, branches@.len() as int));
                    }
                    assert(decreases_to!(*expression => branches@[index as int].condition));
                    assert(decreases_to!(*expression => branches@[index as int].result));
                    let ghost before = self.nodes@.len() as nat;
                    let when = self.lower_scalar(&branches[index].condition, context)?;
                    let ghost middle = self.nodes@.len() as nat;
                    let result = self.lower_scalar(&branches[index].result, context)?;
                    assert forall|i: int| 0 <= i < arms@.len() implies expression_within(
                        (#[trigger] arms@[i]).when,
                        self.nodes@.len() as nat,
                    ) && expression_within(arms@[i].result, self.nodes@.len() as nat) by {
                        lemma_within_grows(arms@[i].when, before, self.nodes@.len() as nat);
                        lemma_within_grows(arms@[i].result, before, self.nodes@.len() as nat);
                    }
                    proof {
                        lemma_within_grows(when, middle, self.nodes@.len() as nat);
                    }
                    arms.push(CaseArm { when, result });
                    index = index + 1;
                }
                let ghost before = self.nodes@.len() as nat;
                let fallback = match else_expression {
                    Some(fallback) => self.lower_scalar(fallback, context)?,
                    None => Expression::new(
                        ExpressionKind::Literal(LiteralValue::Null),
                        TypeDescriptor::nullable(descriptor.scalar),
                    ),
                };
                assert forall|i: int| 0 <= i < arms@.len() implies expression_within(
                    (#[trigger] arms@[i]).when,
                    self.nodes@.len() as nat,
                ) && expression_within(arms@[i].result, self.nodes@.len() as nat) by {
                    lemma_within_grows(arms@[i].when, before, self.nodes@.len() as nat);
                    lemma_within_grows(arms@[i].result, before, self.nodes@.len() as nat);
                }
                let lowered = Expression::new(
                    ExpressionKind::Case { arms, fallback: Box::new(fallback) },
                    descriptor,
                );
                assert forall|id: Seq<char>| #[trigger] expression_refers(lowered, id) implies existing_node(
                    id,
                    self.nodes@.len() as nat,
                ) by {
                    if !expression_refers(*lowered.kind->fallback, id) {
                        let i = choose|i: int|
                            0 <= i < arms@.len() && (expression_refers(#[trigger] arms@[i].when, id)
                                || expression_refers(arms@[i].result, id));
                        assert(expression_within(arms@[i].when, self.nodes@.len() as nat));
                        assert(expression_within(arms@[i].result, self.nodes@.len() as nat));
                    }
                }
                assert(expression_within(lowered, self.nodes@.len() as nat));
                Ok(lowered)
            },
            H::Cast { expression: inner, scalar_type } => {
                let operand = self.lower_scalar(inner, context)?;
                let lowered = Expression::new(
                    ExpressionKind::Cast { operand: Box::new(operand), target: *scalar_type },
                    descriptor,
                );
                assert forall|id: Seq<char>| #[trigger] expression_refers(lowered, id) implies existing_node(
                    id,
                    self.nodes@.len() as nat,
                ) by {
                    assert(expression_refers(lowered, id) == expression_refers(operand, id));
                }
                Ok(lowered)
            },
            H::Exists { query } => {
                let plan = self.lower_query_expression(query)?;
                let plan = self.consume_as_bag(plan)?;
                let query_id = self.node_id(plan.node);
                assert(existing_node(query_id@, self.nodes@.len() as nat)) by {
                    assert(node_name(plan.node as nat) == query_id@);
                }
                let lowered = Expression::new(ExpressionKind::Exists { query: query_id }, descriptor);
                assert(expression_within(lowered, self.nodes@.len() as nat));
                Ok(lowered)
            },
            H::Aggregate { .. } => Err(internal_error(ValidationErrorKind::InvalidExpression)),
            H::Ranking { .. } => Err(internal_error(ValidationErrorKind::InvalidExpression)),
        }
    }
}

/// Lowers a typed program to a Shape IR 0.1 graph and validates it.
///
/// Lowering appends nodes in creation order, so every node refers only to
/// nodes before it; the root node has the query's result fields as its
/// schema, and is ordered exactly where the query is. Validation errors,
/// and the internal inconsistencies that a well-typed program cannot reach,
/// are returned as errors.
pub fn lower(program: TypedProgram) -> (r: Result<Graph, ValidationError>)
    ensures
        r matches Ok(graph) ==> lowered_graph(graph, program.query) && exists|summary: ValidationSummary|
            validation_outcome(&graph, Ok(summary)),
{
    let mut lowerer = Lowerer {
        nodes: Vec::new(),
        next_temporary: 0,
        records: Vec::new(),
        capacity: usize::MAX,
    };
    let root = lowerer.lower_query_expression(&program.query)?;
    let root_id = lowerer.node_id(root.node);
    let nodes = lowerer.nodes;
    let graph = Graph::new(root_id.as_str(), nodes);
    assert(node_name(root.node as nat) == graph.root@);
    match graph.validate() {
        Ok(summary) => {
            assert(validation_outcome(&graph, Ok(summary)));
            Ok(graph)
        },
        Err(error) => Err(error),
    }
}

} // verus!
