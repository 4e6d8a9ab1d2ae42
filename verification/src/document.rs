//! The interchange document of a graph, member by member, as JSON values.
//!
//! Each `*_json` predicate says that a JSON value is exactly what the writer
//! produces for a part of a graph: the members of every object in their
//! order and with their values. Each `readable_*` predicate collects what
//! the reader asks of that part beyond its form: identifiers where
//! identities stand, nonempty lists where the format asks for them, and
//! members whose presence follows from another member.
use crate::interchange::{
    encodable_identities, int64_spelling, is_identifier_text, lemma_int64_spelling_reads, JsonValue,
};
use crate::shape_ir::{
    AggregateDefinition, AggregateFunction, BinaryOperation, CaseArm, CollectionKind, Direction,
    Expression, ExpressionKind, Field, Graph, GroupingKey, JoinType, LiteralValue, Node, NodeKind,
    NullPlacement, OrderingItem, ProjectEntry, RankingFunction, SetOperation, SetQuantifier,
    UnaryOperation, ValidationSummary, WindowDefinition, checked_expression, checked_expressions,
    checked_node, checked_ordering, literal_fits, validation_outcome, version_text,
};
use crate::types::{ScalarType, TypeDescriptor};
use vstd::prelude::*;

verus! {

// ---------------------------------------------------------------------------
// JSON building blocks
// ---------------------------------------------------------------------------

/// `value` is the JSON string `text`.
pub open spec fn text_json(value: JsonValue, text: Seq<char>) -> bool {
    value matches JsonValue::String(s) && s@ == text
}

/// The members carry exactly `names`, in this order.
pub open spec fn members_named(members: Seq<(String, JsonValue)>, names: Seq<Seq<char>>) -> bool {
    &&& members.len() == names.len()
    &&& forall|i: int| 0 <= i < names.len() ==> #[trigger] members[i].0@ == names[i]
}

/// `value` is an object whose members carry exactly `names`, in this order.
pub open spec fn object_named(value: JsonValue, names: Seq<Seq<char>>) -> bool {
    value matches JsonValue::Object(members) && members_named(members@, names)
}

/// The value of the member at `index` of an object.
pub open spec fn member_at(value: JsonValue, index: int) -> JsonValue {
    value->Object_0@[index].1
}

/// The items of an array.
pub open spec fn items_of(value: JsonValue) -> Seq<JsonValue> {
    value->Array_0@
}

/// The member name `argument` where an argument is present.
pub open spec fn argument_names(argument: Option<Expression>) -> Seq<Seq<char>> {
    match argument {
        Some(_) => seq!["argument"@],
        None => Seq::empty(),
    }
}

// ---------------------------------------------------------------------------
// Names of enumerated values
// ---------------------------------------------------------------------------

pub open spec fn scalar_text(scalar: ScalarType) -> Seq<char> {
    match scalar {
        ScalarType::Boolean => "boolean"@,
        ScalarType::Int64 => "int64"@,
        ScalarType::Text => "text"@,
    }
}

pub open spec fn collection_text(kind: CollectionKind) -> Seq<char> {
    match kind {
        CollectionKind::Bag => "bag"@,
        CollectionKind::Ordered => "ordered"@,
    }
}

pub open spec fn join_type_text(join_type: JoinType) -> Seq<char> {
    match join_type {
        JoinType::Cross => "cross"@,
        JoinType::Inner => "inner"@,
        JoinType::Left => "left"@,
        JoinType::Right => "right"@,
        JoinType::Full => "full"@,
    }
}

pub open spec fn set_operation_text(operation: SetOperation) -> Seq<char> {
    match operation {
        SetOperation::Union => "union"@,
        SetOperation::Intersect => "intersect"@,
        SetOperation::Except => "except"@,
    }
}

pub open spec fn set_quantifier_text(quantifier: SetQuantifier) -> Seq<char> {
    match quantifier {
        SetQuantifier::All => "all"@,
        SetQuantifier::Distinct => "distinct"@,
    }
}

pub open spec fn aggregate_function_text(function: AggregateFunction) -> Seq<char> {
    match function {
        AggregateFunction::CountAll => "count_all"@,
        AggregateFunction::Count => "count"@,
        AggregateFunction::Sum => "sum"@,
        AggregateFunction::Min => "min"@,
        AggregateFunction::Max => "max"@,
        AggregateFunction::BoolAnd => "bool_and"@,
        AggregateFunction::BoolOr => "bool_or"@,
    }
}

pub open spec fn ranking_function_text(function: RankingFunction) -> Seq<char> {
    match function {
        RankingFunction::RowNumber => "row_number"@,
        RankingFunction::Rank => "rank"@,
        RankingFunction::DenseRank => "dense_rank"@,
    }
}

pub open spec fn unary_text(operation: UnaryOperation) -> Seq<char> {
    match operation {
        UnaryOperation::Positive => "positive"@,
        UnaryOperation::Negative => "negative"@,
        UnaryOperation::Not => "not"@,
    }
}

pub open spec fn binary_text(operation: BinaryOperation) -> Seq<char> {
    match operation {
        BinaryOperation::Add => "add"@,
        BinaryOperation::Subtract => "subtract"@,
        BinaryOperation::Multiply => "multiply"@,
        BinaryOperation::Divide => "divide"@,
        BinaryOperation::Remainder => "remainder"@,
        BinaryOperation::Concatenate => "concatenate"@,
        BinaryOperation::Equal => "equal"@,
        BinaryOperation::NotEqual => "not_equal"@,
        BinaryOperation::Less => "less"@,
        BinaryOperation::LessOrEqual => "less_or_equal"@,
        BinaryOperation::Greater => "greater"@,
        BinaryOperation::GreaterOrEqual => "greater_or_equal"@,
        BinaryOperation::And => "and"@,
        BinaryOperation::Or => "or"@,
    }
}

pub open spec fn direction_text(direction: Direction) -> Seq<char> {
    match direction {
        Direction::Ascending => "ascending"@,
        Direction::Descending => "descending"@,
    }
}

pub open spec fn null_placement_text(placement: NullPlacement) -> Seq<char> {
    match placement {
        NullPlacement::First => "first"@,
        NullPlacement::Last => "last"@,
        NullPlacement::NotApplicable => "not_applicable"@,
    }
}

pub open spec fn expression_kind_text(kind: ExpressionKind) -> Seq<char> {
    match kind {
        ExpressionKind::Literal(_) => "literal"@,
        ExpressionKind::Field(_) => "field"@,
        ExpressionKind::Unary { .. } => "unary"@,
        ExpressionKind::Binary { .. } => "binary"@,
        ExpressionKind::IsNull { .. } => "is_null"@,
        ExpressionKind::Case { .. } => "case"@,
        ExpressionKind::Cast { .. } => "cast"@,
        ExpressionKind::InList { .. } => "in_list"@,
        ExpressionKind::Exists { .. } => "exists"@,
        ExpressionKind::InQuery { .. } => "in_query"@,
    }
}

/// The members that follow `kind` and `type` in an expression object.
pub open spec fn expression_member_names(kind: ExpressionKind) -> Seq<Seq<char>> {
    match kind {
        ExpressionKind::Literal(_) => seq!["value"@],
        ExpressionKind::Field(_) => seq!["field"@],
        ExpressionKind::Unary { .. } => seq!["operation"@, "operand"@],
        ExpressionKind::Binary { .. } => seq!["operation"@, "left"@, "right"@],
        ExpressionKind::IsNull { .. } => seq!["operand"@, "negated"@],
        ExpressionKind::Case { .. } => seq!["arms"@, "fallback"@],
        ExpressionKind::Cast { .. } => seq!["operand"@, "target"@],
        ExpressionKind::InList { .. } => seq!["value"@, "candidates"@],
        ExpressionKind::Exists { .. } => seq!["query"@],
        ExpressionKind::InQuery { .. } => seq!["value"@, "query"@, "field"@],
    }
}

/// The name under which a node kind is written.
pub open spec fn node_kind_name(kind: NodeKind) -> Seq<char> {
    match kind {
        NodeKind::Input { .. } => "input"@,
        NodeKind::Empty => "empty"@,
        NodeKind::Project { .. } => "project"@,
        NodeKind::Filter { .. } => "filter"@,
        NodeKind::Join { .. } => "join"@,
        NodeKind::Aggregate { .. } => "aggregate"@,
        NodeKind::Window { .. } => "window"@,
        NodeKind::Distinct { .. } => "distinct"@,
        NodeKind::SetOperation { .. } => "set"@,
        NodeKind::Order { .. } => "order"@,
        NodeKind::Slice { .. } => "slice"@,
        NodeKind::ForgetOrder { .. } => "forget_order"@,
    }
}

/// The members that follow `id` and `kind` in a node object.
pub open spec fn node_kind_member_names(kind: NodeKind) -> Seq<Seq<char>> {
    match kind {
        NodeKind::Input { .. } => seq!["binding"@],
        NodeKind::Empty => Seq::empty(),
        NodeKind::Project { .. } => seq!["input"@, "entries"@],
        NodeKind::Filter { .. } => seq!["input"@, "predicate"@],
        NodeKind::Join { condition, .. } => seq!["left"@, "right"@, "join_type"@] + (match condition {
            Some(_) => seq!["condition"@],
            None => Seq::empty(),
        }),
        NodeKind::Aggregate { .. } => seq!["input"@, "grouping_keys"@, "aggregates"@],
        NodeKind::Window { .. } => seq!["input"@, "definitions"@],
        NodeKind::Distinct { .. } => seq!["input"@],
        NodeKind::SetOperation { .. } => seq!["left"@, "right"@, "operation"@, "quantifier"@],
        NodeKind::Order { .. } => seq!["input"@, "items"@],
        NodeKind::Slice { .. } => seq!["input"@, "offset"@, "limit"@],
        NodeKind::ForgetOrder { .. } => seq!["input"@],
    }
}

// ---------------------------------------------------------------------------
// The document, part by part
// ---------------------------------------------------------------------------

pub open spec fn type_json(value: JsonValue, descriptor: TypeDescriptor) -> bool {
    &&& object_named(value, seq!["scalar"@, "nullable"@])
    &&& text_json(member_at(value, 0), scalar_text(descriptor.scalar))
    &&& member_at(value, 1) == JsonValue::Bool(descriptor.nullable)
}

pub open spec fn field_json(value: JsonValue, field: Field) -> bool {
    &&& object_named(value, seq!["id"@, "name"@, "type"@])
    &&& text_json(member_at(value, 0), field.id@)
    &&& text_json(member_at(value, 1), field.name@)
    &&& type_json(member_at(value, 2), field.descriptor)
}

pub open spec fn schema_json(value: JsonValue, schema: Seq<Field>) -> bool {
    &&& value is Array
    &&& items_of(value).len() == schema.len()
    &&& forall|i: int| 0 <= i < schema.len() ==> field_json(#[trigger] items_of(value)[i], schema[i])
}

/// A literal's value: a Boolean, an INT64 as its canonical decimal string, a
/// text string, or `null`.
pub open spec fn literal_json(value: JsonValue, literal: LiteralValue) -> bool {
    match literal {
        LiteralValue::Boolean(b) => value == JsonValue::Bool(b),
        LiteralValue::Int64(n) => text_json(value, int64_spelling(n as int)),
        LiteralValue::Text(text) => text_json(value, text@),
        LiteralValue::Null => value is Null,
    }
}

pub open spec fn expression_json(value: JsonValue, expression: Expression) -> bool
    decreases expression,
{
    &&& object_named(value, seq!["kind"@, "type"@] + expression_member_names(expression.kind))
    &&& text_json(member_at(value, 0), expression_kind_text(expression.kind))
    &&& type_json(member_at(value, 1), expression.descriptor)
    &&& match expression.kind {
        ExpressionKind::Literal(literal) => literal_json(member_at(value, 2), literal),
        ExpressionKind::Field(field) => text_json(member_at(value, 2), field@),
        ExpressionKind::Unary { operation, operand } => text_json(
            member_at(value, 2),
            unary_text(operation),
        ) && expression_json(member_at(value, 3), *operand),
        ExpressionKind::Binary { operation, left, right } => text_json(
            member_at(value, 2),
            binary_text(operation),
        ) && expression_json(member_at(value, 3), *left) && expression_json(
            member_at(value, 4),
            *right,
        ),
        ExpressionKind::IsNull { operand, negated } => expression_json(member_at(value, 2), *operand)
            && member_at(value, 3) == JsonValue::Bool(negated),
        ExpressionKind::Case { arms, fallback } => {
            &&& member_at(value, 2) is Array
            &&& items_of(member_at(value, 2)).len() == arms@.len()
            &&& forall|i: int|
                0 <= i < arms@.len() ==> object_named(
                    #[trigger] items_of(member_at(value, 2))[i],
                    seq!["when"@, "then"@],
                ) && expression_json(member_at(items_of(member_at(value, 2))[i], 0), arms@[i].when)
                    && expression_json(
                    member_at(items_of(member_at(value, 2))[i], 1),
                    arms@[i].result,
                )
            &&& expression_json(member_at(value, 3), *fallback)
        },
        ExpressionKind::Cast { operand, target } => expression_json(member_at(value, 2), *operand)
            && text_json(member_at(value, 3), scalar_text(target)),
        ExpressionKind::InList { value: tested, candidates } => {
            &&& expression_json(member_at(value, 2), *tested)
            &&& member_at(value, 3) is Array
            &&& items_of(member_at(value, 3)).len() == candidates@.len()
            &&& forall|i: int|
                0 <= i < candidates@.len() ==> expression_json(
                    #[trigger] items_of(member_at(value, 3))[i],
                    candidates@[i],
                )
        },
        ExpressionKind::Exists { query } => text_json(member_at(value, 2), query@),
        ExpressionKind::InQuery { value: tested, query, field } => expression_json(
            member_at(value, 2),
            *tested,
        ) && text_json(member_at(value, 3), query@) && text_json(member_at(value, 4), field@),
    }
}

/// One arm of a `case` expression: `when`, then `then`.
pub open spec fn case_arm_json(value: JsonValue, arm: CaseArm) -> bool {
    &&& object_named(value, seq!["when"@, "then"@])
    &&& expression_json(member_at(value, 0), arm.when)
    &&& expression_json(member_at(value, 1), arm.result)
}

pub open spec fn case_arms_json(value: JsonValue, arms: Seq<CaseArm>) -> bool {
    &&& value is Array
    &&& items_of(value).len() == arms.len()
    &&& forall|i: int| 0 <= i < arms.len() ==> case_arm_json(#[trigger] items_of(value)[i], arms[i])
}

pub open spec fn expressions_json(value: JsonValue, expressions: Seq<Expression>) -> bool {
    &&& value is Array
    &&& items_of(value).len() == expressions.len()
    &&& forall|i: int|
        0 <= i < expressions.len() ==> expression_json(#[trigger] items_of(value)[i], expressions[i])
}

pub open spec fn ordering_item_json(value: JsonValue, item: OrderingItem) -> bool {
    &&& object_named(value, seq!["expression"@, "direction"@, "null_placement"@])
    &&& expression_json(member_at(value, 0), item.expression)
    &&& text_json(member_at(value, 1), direction_text(item.direction))
    &&& text_json(member_at(value, 2), null_placement_text(item.null_placement))
}

pub open spec fn ordering_items_json(value: JsonValue, items: Seq<OrderingItem>) -> bool {
    &&& value is Array
    &&& items_of(value).len() == items.len()
    &&& forall|i: int| 0 <= i < items.len() ==> ordering_item_json(#[trigger] items_of(value)[i], items[i])
}

pub open spec fn project_entry_json(value: JsonValue, entry: ProjectEntry) -> bool {
    match entry {
        ProjectEntry::Keep(field) => {
            &&& object_named(value, seq!["kind"@, "field"@])
            &&& text_json(member_at(value, 0), "keep"@)
            &&& text_json(member_at(value, 1), field@)
        },
        ProjectEntry::Compute { output, expression } => {
            &&& object_named(value, seq!["kind"@, "output"@, "expression"@])
            &&& text_json(member_at(value, 0), "compute"@)
            &&& text_json(member_at(value, 1), output@)
            &&& expression_json(member_at(value, 2), expression)
        },
    }
}

pub open spec fn project_entries_json(value: JsonValue, entries: Seq<ProjectEntry>) -> bool {
    &&& value is Array
    &&& items_of(value).len() == entries.len()
    &&& forall|i: int| 0 <= i < entries.len() ==> project_entry_json(#[trigger] items_of(value)[i], entries[i])
}

pub open spec fn grouping_key_json(value: JsonValue, key: GroupingKey) -> bool {
    &&& object_named(value, seq!["output"@, "expression"@])
    &&& text_json(member_at(value, 0), key.output@)
    &&& expression_json(member_at(value, 1), key.expression)
}

pub open spec fn grouping_keys_json(value: JsonValue, keys: Seq<GroupingKey>) -> bool {
    &&& value is Array
    &&& items_of(value).len() == keys.len()
    &&& forall|i: int| 0 <= i < keys.len() ==> grouping_key_json(#[trigger] items_of(value)[i], keys[i])
}

/// The object's member `name` is the first so named, at `index`, and holds
/// the expression where there is one; where there is none, no member is so
/// named.
pub open spec fn optional_member(
    members: Seq<(String, JsonValue)>,
    name: Seq<char>,
    index: int,
    expression: Option<Expression>,
) -> bool {
    match expression {
        Some(e) => first_named(members, name, index) && expression_json(members[index].1, e),
        None => forall|i: int| 0 <= i < members.len() ==> (#[trigger] members[i]).0@ != name,
    }
}

/// An optional expression member at `index`, where it is present.
pub open spec fn argument_json(value: JsonValue, index: int, argument: Option<Expression>) -> bool {
    argument matches Some(e) ==> expression_json(member_at(value, index), e)
}

pub open spec fn aggregate_json(value: JsonValue, aggregate: AggregateDefinition) -> bool {
    &&& object_named(value, seq!["output"@, "function"@] + argument_names(aggregate.argument))
    &&& text_json(member_at(value, 0), aggregate.output@)
    &&& text_json(member_at(value, 1), aggregate_function_text(aggregate.function))
    &&& argument_json(value, 2, aggregate.argument)
}

pub open spec fn aggregates_json(value: JsonValue, aggregates: Seq<AggregateDefinition>) -> bool {
    &&& value is Array
    &&& items_of(value).len() == aggregates.len()
    &&& forall|i: int| 0 <= i < aggregates.len() ==> aggregate_json(#[trigger] items_of(value)[i], aggregates[i])
}

pub open spec fn window_json(value: JsonValue, definition: WindowDefinition) -> bool {
    match definition {
        WindowDefinition::PartitionedAggregate { output, function, argument, partition_by } => {
            let names = seq!["kind"@, "output"@, "function"@] + argument_names(argument) + seq![
                "partition_by"@,
            ];
            &&& object_named(value, names)
            &&& text_json(member_at(value, 0), "partitioned_aggregate"@)
            &&& text_json(member_at(value, 1), output@)
            &&& text_json(member_at(value, 2), aggregate_function_text(function))
            &&& argument_json(value, 3, argument)
            &&& expressions_json(member_at(value, names.len() - 1), partition_by@)
        },
        WindowDefinition::Ranking { output, function, partition_by, order_by } => {
            &&& object_named(
                value,
                seq!["kind"@, "output"@, "function"@, "partition_by"@, "order_by"@],
            )
            &&& text_json(member_at(value, 0), "ranking"@)
            &&& text_json(member_at(value, 1), output@)
            &&& text_json(member_at(value, 2), ranking_function_text(function))
            &&& expressions_json(member_at(value, 3), partition_by@)
            &&& ordering_items_json(member_at(value, 4), order_by@)
        },
    }
}

pub open spec fn windows_json(value: JsonValue, definitions: Seq<WindowDefinition>) -> bool {
    &&& value is Array
    &&& items_of(value).len() == definitions.len()
    &&& forall|i: int| 0 <= i < definitions.len() ==> window_json(#[trigger] items_of(value)[i], definitions[i])
}

/// The members of a node object that its kind contributes, from index 2.
pub open spec fn node_kind_json(value: JsonValue, kind: NodeKind) -> bool {
    match kind {
        NodeKind::Input { binding } => text_json(member_at(value, 2), binding@),
        NodeKind::Empty => true,
        NodeKind::Project { input, entries } => text_json(member_at(value, 2), input@)
            && project_entries_json(member_at(value, 3), entries@),
        NodeKind::Filter { input, predicate } => text_json(member_at(value, 2), input@)
            && expression_json(member_at(value, 3), predicate),
        NodeKind::Join { left, right, join_type, condition } => {
            &&& text_json(member_at(value, 2), left@)
            &&& text_json(member_at(value, 3), right@)
            &&& text_json(member_at(value, 4), join_type_text(join_type))
            &&& argument_json(value, 5, condition)
        },
        NodeKind::Aggregate { input, grouping_keys, aggregates } => {
            &&& text_json(member_at(value, 2), input@)
            &&& grouping_keys_json(member_at(value, 3), grouping_keys@)
            &&& aggregates_json(member_at(value, 4), aggregates@)
        },
        NodeKind::Window { input, definitions } => text_json(member_at(value, 2), input@)
            && windows_json(member_at(value, 3), definitions@),
        NodeKind::Distinct { input } => text_json(member_at(value, 2), input@),
        NodeKind::SetOperation { left, right, operation, quantifier } => {
            &&& text_json(member_at(value, 2), left@)
            &&& text_json(member_at(value, 3), right@)
            &&& text_json(member_at(value, 4), set_operation_text(operation))
            &&& text_json(member_at(value, 5), set_quantifier_text(quantifier))
        },
        NodeKind::Order { input, items } => text_json(member_at(value, 2), input@)
            && ordering_items_json(member_at(value, 3), items@),
        NodeKind::Slice { input, offset, limit } => {
            &&& text_json(member_at(value, 2), input@)
            &&& text_json(member_at(value, 3), int64_spelling(offset as int))
            &&& match limit {
                Some(bound) => text_json(member_at(value, 4), int64_spelling(bound as int)),
                None => member_at(value, 4) is Null,
            }
        },
        NodeKind::ForgetOrder { input } => text_json(member_at(value, 2), input@),
    }
}

/// The members of a node object: `id` and `kind`, the members of its kind,
/// then `output_schema` and `collection`.
pub open spec fn node_member_names(kind: NodeKind) -> Seq<Seq<char>> {
    seq!["id"@, "kind"@] + node_kind_member_names(kind) + seq!["output_schema"@, "collection"@]
}

/// A node object, with the members of `node_member_names`.
pub open spec fn node_json(value: JsonValue, node: Node) -> bool {
    let names = node_member_names(node.kind);
    &&& object_named(value, names)
    &&& text_json(member_at(value, 0), node.id@)
    &&& text_json(member_at(value, 1), node_kind_name(node.kind))
    &&& node_kind_json(value, node.kind)
    &&& schema_json(member_at(value, names.len() - 2), node.output_schema@)
    &&& text_json(member_at(value, names.len() - 1), collection_text(node.collection))
}

/// The interchange document of a graph: both versions, the root, and one
/// node object per node, in graph order.
pub open spec fn document_json(value: JsonValue, graph: Graph) -> bool {
    &&& object_named(
        value,
        seq!["interchange_version"@, "shape_ir_version"@, "root"@, "nodes"@],
    )
    &&& text_json(member_at(value, 0), "0.1"@)
    &&& text_json(member_at(value, 1), graph.version@)
    &&& text_json(member_at(value, 2), graph.root@)
    &&& member_at(value, 3) is Array
    &&& items_of(member_at(value, 3)).len() == graph.nodes@.len()
    &&& forall|k: int|
        0 <= k < graph.nodes@.len() ==> node_json(
            #[trigger] items_of(member_at(value, 3))[k],
            graph.nodes@[k],
        )
}

// ---------------------------------------------------------------------------
// What the reader asks beyond the form
// ---------------------------------------------------------------------------

pub open spec fn readable_expression(expression: Expression) -> bool
    decreases expression,
{
    match expression.kind {
        ExpressionKind::Literal(literal) => literal_fits(literal, expression.descriptor.scalar),
        ExpressionKind::Field(field) => is_identifier_text(field@),
        ExpressionKind::Unary { operand, .. } => readable_expression(*operand),
        ExpressionKind::Binary { left, right, .. } => readable_expression(*left)
            && readable_expression(*right),
        ExpressionKind::IsNull { operand, .. } => readable_expression(*operand),
        ExpressionKind::Case { arms, fallback } => {
            &&& arms@.len() > 0
            &&& forall|i: int|
                0 <= i < arms@.len() ==> readable_expression(#[trigger] arms@[i].when)
                    && readable_expression(arms@[i].result)
            &&& readable_expression(*fallback)
        },
        ExpressionKind::Cast { operand, .. } => readable_expression(*operand),
        ExpressionKind::InList { value, candidates } => {
            &&& candidates@.len() > 0
            &&& readable_expression(*value)
            &&& forall|i: int| 0 <= i < candidates@.len() ==> readable_expression(#[trigger] candidates@[i])
        },
        ExpressionKind::Exists { query } => is_identifier_text(query@),
        ExpressionKind::InQuery { value, query, field } => readable_expression(*value)
            && is_identifier_text(query@) && is_identifier_text(field@),
    }
}

pub open spec fn readable_case_arms(arms: Seq<CaseArm>) -> bool {
    forall|i: int|
        0 <= i < arms.len() ==> readable_expression(#[trigger] arms[i].when) && readable_expression(
            arms[i].result,
        )
}

pub open spec fn readable_expressions(expressions: Seq<Expression>) -> bool {
    forall|i: int| 0 <= i < expressions.len() ==> readable_expression(#[trigger] expressions[i])
}

pub open spec fn readable_ordering_items(items: Seq<OrderingItem>) -> bool {
    forall|i: int| 0 <= i < items.len() ==> readable_expression(#[trigger] items[i].expression)
}

/// `count_all` takes no argument and every other function takes one.
pub open spec fn readable_aggregate_call(function: AggregateFunction, argument: Option<Expression>) -> bool {
    &&& (function == AggregateFunction::CountAll) == (argument is None)
    &&& argument matches Some(e) ==> readable_expression(e)
}

pub open spec fn readable_grouping_keys(keys: Seq<GroupingKey>) -> bool {
    forall|i: int|
        0 <= i < keys.len() ==> is_identifier_text((#[trigger] keys[i]).output@) && readable_expression(
            keys[i].expression,
        )
}

pub open spec fn readable_aggregates(aggregates: Seq<AggregateDefinition>) -> bool {
    forall|i: int|
        0 <= i < aggregates.len() ==> is_identifier_text((#[trigger] aggregates[i]).output@)
            && readable_aggregate_call(aggregates[i].function, aggregates[i].argument)
}

pub open spec fn readable_project_entry(entry: ProjectEntry) -> bool {
    match entry {
        ProjectEntry::Keep(field) => is_identifier_text(field@),
        ProjectEntry::Compute { output, expression } => is_identifier_text(output@)
            && readable_expression(expression),
    }
}

pub open spec fn readable_window(definition: WindowDefinition) -> bool {
    match definition {
        WindowDefinition::PartitionedAggregate { output, function, argument, partition_by } => {
            &&& is_identifier_text(output@)
            &&& readable_aggregate_call(function, argument)
            &&& readable_expressions(partition_by@)
        },
        WindowDefinition::Ranking { output, partition_by, order_by, .. } => {
            &&& is_identifier_text(output@)
            &&& readable_expressions(partition_by@)
            &&& order_by@.len() > 0
            &&& readable_ordering_items(order_by@)
        },
    }
}

pub open spec fn readable_project_entries(entries: Seq<ProjectEntry>) -> bool {
    forall|i: int| 0 <= i < entries.len() ==> readable_project_entry(#[trigger] entries[i])
}

pub open spec fn readable_windows(definitions: Seq<WindowDefinition>) -> bool {
    forall|i: int| 0 <= i < definitions.len() ==> readable_window(#[trigger] definitions[i])
}

pub open spec fn readable_node_kind(kind: NodeKind) -> bool {
    match kind {
        NodeKind::Input { binding } => binding@.len() > 0,
        NodeKind::Empty => true,
        NodeKind::Project { input, entries } => is_identifier_text(input@) && readable_project_entries(
            entries@,
        ),
        NodeKind::Filter { input, predicate } => is_identifier_text(input@) && readable_expression(
            predicate,
        ),
        NodeKind::Join { left, right, join_type, condition } => {
            &&& is_identifier_text(left@)
            &&& is_identifier_text(right@)
            &&& (join_type == JoinType::Cross) == (condition is None)
            &&& condition matches Some(e) ==> readable_expression(e)
        },
        NodeKind::Aggregate { input, grouping_keys, aggregates } => {
            &&& is_identifier_text(input@)
            &&& readable_grouping_keys(grouping_keys@)
            &&& readable_aggregates(aggregates@)
        },
        NodeKind::Window { input, definitions } => {
            &&& is_identifier_text(input@)
            &&& definitions@.len() > 0
            &&& readable_windows(definitions@)
        },
        NodeKind::Distinct { input } => is_identifier_text(input@),
        NodeKind::SetOperation { left, right, .. } => is_identifier_text(left@) && is_identifier_text(
            right@,
        ),
        NodeKind::Order { input, items } => {
            &&& is_identifier_text(input@)
            &&& items@.len() > 0
            &&& readable_ordering_items(items@)
        },
        NodeKind::Slice { input, .. } => is_identifier_text(input@),
        NodeKind::ForgetOrder { input } => is_identifier_text(input@),
    }
}

pub open spec fn readable_node(node: Node) -> bool {
    &&& is_identifier_text(node.id@)
    &&& forall|f: int|
        0 <= f < node.output_schema@.len() ==> is_identifier_text((#[trigger] node.output_schema@[f]).id@)
    &&& readable_node_kind(node.kind)
}

/// A graph whose document the reader maps back: the supported version, at
/// least one node, and every part readable.
pub open spec fn readable_graph(graph: Graph) -> bool {
    &&& graph.version@ == "0.1"@
    &&& is_identifier_text(graph.root@)
    &&& graph.nodes@.len() > 0
    &&& forall|k: int| 0 <= k < graph.nodes@.len() ==> readable_node(#[trigger] graph.nodes@[k])
}


// ---------------------------------------------------------------------------
// The same graph
// ---------------------------------------------------------------------------

pub open spec fn same_schema(first: Seq<Field>, second: Seq<Field>) -> bool {
    &&& first.len() == second.len()
    &&& forall|i: int| 0 <= i < first.len() ==> (#[trigger] first[i])@ == second[i]@
}

pub open spec fn same_literal(first: LiteralValue, second: LiteralValue) -> bool {
    match first {
        LiteralValue::Boolean(b) => second == LiteralValue::Boolean(b),
        LiteralValue::Int64(n) => second == LiteralValue::Int64(n),
        LiteralValue::Text(text) => second matches LiteralValue::Text(other) && other@ == text@,
        LiteralValue::Null => second is Null,
    }
}

/// Two expressions with the same kinds, descriptors, names, and parts.
pub open spec fn same_expression(first: Expression, second: Expression) -> bool
    decreases first,
{
    &&& first.descriptor == second.descriptor
    &&& match first.kind {
        ExpressionKind::Literal(literal) => second.kind matches ExpressionKind::Literal(other)
            && same_literal(literal, other),
        ExpressionKind::Field(field) => second.kind matches ExpressionKind::Field(other) && other@
            == field@,
        ExpressionKind::Unary { operation, operand } => second.kind matches ExpressionKind::Unary {
            operation: other_operation,
            operand: other_operand,
        } && other_operation == operation && same_expression(*operand, *other_operand),
        ExpressionKind::Binary { operation, left, right } => second.kind matches ExpressionKind::Binary {
            operation: other_operation,
            left: other_left,
            right: other_right,
        } && other_operation == operation && same_expression(*left, *other_left) && same_expression(
            *right,
            *other_right,
        ),
        ExpressionKind::IsNull { operand, negated } => second.kind matches ExpressionKind::IsNull {
            operand: other_operand,
            negated: other_negated,
        } && other_negated == negated && same_expression(*operand, *other_operand),
        ExpressionKind::Case { arms, fallback } => second.kind matches ExpressionKind::Case {
            arms: other_arms,
            fallback: other_fallback,
        } && other_arms@.len() == arms@.len() && (forall|i: int|
            0 <= i < arms@.len() ==> same_expression(#[trigger] arms@[i].when, other_arms@[i].when)
                && same_expression(arms@[i].result, other_arms@[i].result)) && same_expression(
            *fallback,
            *other_fallback,
        ),
        ExpressionKind::Cast { operand, target } => second.kind matches ExpressionKind::Cast {
            operand: other_operand,
            target: other_target,
        } && other_target == target && same_expression(*operand, *other_operand),
        ExpressionKind::InList { value, candidates } => second.kind matches ExpressionKind::InList {
            value: other_value,
            candidates: other_candidates,
        } && same_expression(*value, *other_value) && other_candidates@.len() == candidates@.len()
            && forall|i: int|
            0 <= i < candidates@.len() ==> same_expression(
                #[trigger] candidates@[i],
                other_candidates@[i],
            ),
        ExpressionKind::Exists { query } => second.kind matches ExpressionKind::Exists {
            query: other_query,
        } && other_query@ == query@,
        ExpressionKind::InQuery { value, query, field } => second.kind matches ExpressionKind::InQuery {
            value: other_value,
            query: other_query,
            field: other_field,
        } && same_expression(*value, *other_value) && other_query@ == query@ && other_field@ == field@,
    }
}

pub open spec fn same_expressions(first: Seq<Expression>, second: Seq<Expression>) -> bool {
    &&& first.len() == second.len()
    &&& forall|i: int| 0 <= i < first.len() ==> same_expression(#[trigger] first[i], second[i])
}

pub open spec fn same_optional(first: Option<Expression>, second: Option<Expression>) -> bool {
    match first {
        Some(e) => second matches Some(other) && same_expression(e, other),
        None => second is None,
    }
}

pub open spec fn same_ordering_items(first: Seq<OrderingItem>, second: Seq<OrderingItem>) -> bool {
    &&& first.len() == second.len()
    &&& forall|i: int|
        0 <= i < first.len() ==> same_expression((#[trigger] first[i]).expression, second[i].expression)
            && first[i].direction == second[i].direction && first[i].null_placement
            == second[i].null_placement
}

pub open spec fn same_project_entry(first: ProjectEntry, second: ProjectEntry) -> bool {
    match first {
        ProjectEntry::Keep(field) => second matches ProjectEntry::Keep(other) && other@ == field@,
        ProjectEntry::Compute { output, expression } => second matches ProjectEntry::Compute {
            output: other_output,
            expression: other_expression,
        } && other_output@ == output@ && same_expression(expression, other_expression),
    }
}

pub open spec fn same_window(first: WindowDefinition, second: WindowDefinition) -> bool {
    match first {
        WindowDefinition::PartitionedAggregate { output, function, argument, partition_by } => {
            &&& second matches WindowDefinition::PartitionedAggregate {
                output: other_output,
                function: other_function,
                argument: other_argument,
                partition_by: other_partition,
            }
            &&& other_output@ == output@
            &&& other_function == function
            &&& same_optional(argument, other_argument)
            &&& same_expressions(partition_by@, other_partition@)
        },
        WindowDefinition::Ranking { output, function, partition_by, order_by } => {
            &&& second matches WindowDefinition::Ranking {
                output: other_output,
                function: other_function,
                partition_by: other_partition,
                order_by: other_order,
            }
            &&& other_output@ == output@
            &&& other_function == function
            &&& same_expressions(partition_by@, other_partition@)
            &&& same_ordering_items(order_by@, other_order@)
        },
    }
}

pub open spec fn same_node_kind(first: NodeKind, second: NodeKind) -> bool {
    match first {
        NodeKind::Input { binding } => second matches NodeKind::Input { binding: other } && other@
            == binding@,
        NodeKind::Empty => second is Empty,
        NodeKind::Project { input, entries } => {
            &&& second matches NodeKind::Project { input: other_input, entries: other_entries }
            &&& other_input@ == input@
            &&& other_entries@.len() == entries@.len()
            &&& forall|i: int|
                0 <= i < entries@.len() ==> same_project_entry(#[trigger] entries@[i], other_entries@[i])
        },
        NodeKind::Filter { input, predicate } => second matches NodeKind::Filter {
            input: other_input,
            predicate: other_predicate,
        } && other_input@ == input@ && same_expression(predicate, other_predicate),
        NodeKind::Join { left, right, join_type, condition } => {
            &&& second matches NodeKind::Join {
                left: other_left,
                right: other_right,
                join_type: other_type,
                condition: other_condition,
            }
            &&& other_left@ == left@
            &&& other_right@ == right@
            &&& other_type == join_type
            &&& same_optional(condition, other_condition)
        },
        NodeKind::Aggregate { input, grouping_keys, aggregates } => {
            &&& second matches NodeKind::Aggregate {
                input: other_input,
                grouping_keys: other_keys,
                aggregates: other_aggregates,
            }
            &&& other_input@ == input@
            &&& other_keys@.len() == grouping_keys@.len()
            &&& forall|i: int|
                0 <= i < grouping_keys@.len() ==> (#[trigger] grouping_keys@[i]).output@
                    == other_keys@[i].output@ && same_expression(
                    grouping_keys@[i].expression,
                    other_keys@[i].expression,
                )
            &&& other_aggregates@.len() == aggregates@.len()
            &&& forall|i: int|
                0 <= i < aggregates@.len() ==> (#[trigger] aggregates@[i]).output@
                    == other_aggregates@[i].output@ && aggregates@[i].function
                    == other_aggregates@[i].function && same_optional(
                    aggregates@[i].argument,
                    other_aggregates@[i].argument,
                )
        },
        NodeKind::Window { input, definitions } => {
            &&& second matches NodeKind::Window { input: other_input, definitions: other_definitions }
            &&& other_input@ == input@
            &&& other_definitions@.len() == definitions@.len()
            &&& forall|i: int|
                0 <= i < definitions@.len() ==> same_window(#[trigger] definitions@[i], other_definitions@[i])
        },
        NodeKind::Distinct { input } => second matches NodeKind::Distinct { input: other } && other@
            == input@,
        NodeKind::SetOperation { left, right, operation, quantifier } => {
            &&& second matches NodeKind::SetOperation {
                left: other_left,
                right: other_right,
                operation: other_operation,
                quantifier: other_quantifier,
            }
            &&& other_left@ == left@
            &&& other_right@ == right@
            &&& other_operation == operation
            &&& other_quantifier == quantifier
        },
        NodeKind::Order { input, items } => second matches NodeKind::Order {
            input: other_input,
            items: other_items,
        } && other_input@ == input@ && same_ordering_items(items@, other_items@),
        NodeKind::Slice { input, offset, limit } => second matches NodeKind::Slice {
            input: other_input,
            offset: other_offset,
            limit: other_limit,
        } && other_input@ == input@ && other_offset == offset && other_limit == limit,
        NodeKind::ForgetOrder { input } => second matches NodeKind::ForgetOrder { input: other }
            && other@ == input@,
    }
}

pub open spec fn same_node(first: Node, second: Node) -> bool {
    &&& first.id@ == second.id@
    &&& same_node_kind(first.kind, second.kind)
    &&& same_schema(first.output_schema@, second.output_schema@)
    &&& first.collection == second.collection
}

/// Two graphs with the same version, root, and nodes, part by part.
pub open spec fn same_graph(first: Graph, second: Graph) -> bool {
    &&& first.version@ == second.version@
    &&& first.root@ == second.root@
    &&& first.nodes@.len() == second.nodes@.len()
    &&& forall|k: int| 0 <= k < first.nodes@.len() ==> same_node(#[trigger] first.nodes@[k], second.nodes@[k])
}

// ---------------------------------------------------------------------------
// A document determines its readable graph
// ---------------------------------------------------------------------------

proof fn lemma_names_determined(value: JsonValue, first: Seq<Seq<char>>, second: Seq<Seq<char>>)
    requires
        object_named(value, first),
        object_named(value, second),
    ensures
        first == second,
{
    let members = value->Object_0@;
    assert forall|i: int| 0 <= i < first.len() implies first[i] == second[i] by {
        assert(members[i].0@ == first[i]);
        assert(members[i].0@ == second[i]);
    }
    assert(first =~= second);
}

proof fn lemma_type_determined(value: JsonValue, first: TypeDescriptor, second: TypeDescriptor)
    requires
        type_json(value, first),
        type_json(value, second),
    ensures
        first == second,
{
    lemma_name_signatures();
}

proof fn lemma_literal_determined(
    value: JsonValue,
    first: LiteralValue,
    second: LiteralValue,
    scalar: ScalarType,
)
    requires
        literal_json(value, first),
        literal_json(value, second),
        literal_fits(first, scalar),
        literal_fits(second, scalar),
    ensures
        same_literal(first, second),
{
    if first is Int64 && second is Int64 {
        lemma_int64_spelling_reads(first->Int64_0 as int);
        lemma_int64_spelling_reads(second->Int64_0 as int);
    }
}

proof fn lemma_expression_determined(value: JsonValue, first: Expression, second: Expression)
    requires
        expression_json(value, first),
        expression_json(value, second),
        readable_expression(first),
        readable_expression(second),
    ensures
        same_expression(first, second),
    decreases first,
{
    lemma_name_signatures();
    lemma_type_determined(member_at(value, 1), first.descriptor, second.descriptor);
    match first.kind {
        ExpressionKind::Literal(literal) => {
            lemma_literal_determined(
                member_at(value, 2),
                literal,
                second.kind->Literal_0,
                first.descriptor.scalar,
            );
        },
        ExpressionKind::Field(_) => {},
        ExpressionKind::Unary { operand, .. } => {
            lemma_expression_determined(member_at(value, 3), *operand, *second.kind->Unary_operand);
        },
        ExpressionKind::Binary { left, right, .. } => {
            lemma_expression_determined(member_at(value, 3), *left, *second.kind->Binary_left);
            lemma_expression_determined(member_at(value, 4), *right, *second.kind->Binary_right);
        },
        ExpressionKind::IsNull { operand, .. } => {
            lemma_expression_determined(member_at(value, 2), *operand, *second.kind->IsNull_operand);
        },
        ExpressionKind::Case { arms, fallback } => {
            let other = second.kind->arms;
            assert forall|i: int| 0 <= i < arms@.len() implies same_expression(
                #[trigger] arms@[i].when,
                other@[i].when,
            ) && same_expression(arms@[i].result, other@[i].result) by {
                let arm = items_of(member_at(value, 2))[i];
                lemma_expression_determined(member_at(arm, 0), arms@[i].when, other@[i].when);
                lemma_expression_determined(member_at(arm, 1), arms@[i].result, other@[i].result);
            }
            lemma_expression_determined(member_at(value, 3), *fallback, *second.kind->fallback);
        },
        ExpressionKind::Cast { operand, .. } => {
            lemma_expression_determined(member_at(value, 2), *operand, *second.kind->Cast_operand);
        },
        ExpressionKind::InList { value: tested, candidates } => {
            lemma_expression_determined(member_at(value, 2), *tested, *second.kind->InList_value);
            let other = second.kind->candidates;
            assert forall|i: int| 0 <= i < candidates@.len() implies same_expression(
                #[trigger] candidates@[i],
                other@[i],
            ) by {
                lemma_expression_determined(
                    items_of(member_at(value, 3))[i],
                    candidates@[i],
                    other@[i],
                );
            }
        },
        ExpressionKind::Exists { .. } => {},
        ExpressionKind::InQuery { value: tested, .. } => {
            lemma_expression_determined(member_at(value, 2), *tested, *second.kind->InQuery_value);
        },
    }
}

proof fn lemma_expressions_determined(value: JsonValue, first: Seq<Expression>, second: Seq<Expression>)
    requires
        expressions_json(value, first),
        expressions_json(value, second),
        readable_expressions(first),
        readable_expressions(second),
    ensures
        same_expressions(first, second),
{
    assert forall|i: int| 0 <= i < first.len() implies same_expression(#[trigger] first[i], second[i]) by {
        lemma_expression_determined(items_of(value)[i], first[i], second[i]);
    }
}

proof fn lemma_ordering_items_determined(
    value: JsonValue,
    first: Seq<OrderingItem>,
    second: Seq<OrderingItem>,
)
    requires
        ordering_items_json(value, first),
        ordering_items_json(value, second),
        readable_ordering_items(first),
        readable_ordering_items(second),
    ensures
        same_ordering_items(first, second),
{
    lemma_name_signatures();
    assert forall|i: int| 0 <= i < first.len() implies same_expression(
        (#[trigger] first[i]).expression,
        second[i].expression,
    ) && first[i].direction == second[i].direction && first[i].null_placement
        == second[i].null_placement by {
        lemma_expression_determined(
            member_at(items_of(value)[i], 0),
            first[i].expression,
            second[i].expression,
        );
    }
}

/// The argument at `index`, present in both or in neither.
proof fn lemma_optional_determined(
    value: JsonValue,
    index: int,
    first: Option<Expression>,
    second: Option<Expression>,
)
    requires
        argument_json(value, index, first),
        argument_json(value, index, second),
        first is Some == second is Some,
        first matches Some(e) ==> readable_expression(e),
        second matches Some(e) ==> readable_expression(e),
    ensures
        same_optional(first, second),
{
    if first is Some {
        lemma_expression_determined(member_at(value, index), first->0, second->0);
    }
}

proof fn lemma_window_determined(value: JsonValue, first: WindowDefinition, second: WindowDefinition)
    requires
        window_json(value, first),
        window_json(value, second),
        readable_window(first),
        readable_window(second),
    ensures
        same_window(first, second),
{
    lemma_name_signatures();
    match first {
        WindowDefinition::PartitionedAggregate { argument, partition_by, .. } => {
            let other = second->argument;
            let names = seq!["kind"@, "output"@, "function"@] + argument_names(argument) + seq![
                "partition_by"@,
            ];
            let other_names = seq!["kind"@, "output"@, "function"@] + argument_names(other) + seq![
                "partition_by"@,
            ];
            lemma_names_determined(value, names, other_names);
            lemma_optional_determined(value, 3, argument, other);
            lemma_expressions_determined(
                member_at(value, names.len() - 1),
                partition_by@,
                second->PartitionedAggregate_partition_by@,
            );
        },
        WindowDefinition::Ranking { partition_by, order_by, .. } => {
            lemma_expressions_determined(
                member_at(value, 3),
                partition_by@,
                second->Ranking_partition_by@,
            );
            lemma_ordering_items_determined(member_at(value, 4), order_by@, second->order_by@);
        },
    }
}

proof fn lemma_node_kind_determined(value: JsonValue, first: NodeKind, second: NodeKind)
    requires
        object_named(value, node_member_names(first)),
        object_named(value, node_member_names(second)),
        node_kind_name(first) == node_kind_name(second),
        node_kind_json(value, first),
        node_kind_json(value, second),
        readable_node_kind(first),
        readable_node_kind(second),
    ensures
        same_node_kind(first, second),
{
    lemma_name_signatures();
    lemma_names_determined(value, node_member_names(first), node_member_names(second));
    match first {
        NodeKind::Project { entries, .. } => {
            let other = second->entries;
            assert forall|i: int| 0 <= i < entries@.len() implies same_project_entry(
                #[trigger] entries@[i],
                other@[i],
            ) by {
                let item = items_of(member_at(value, 3))[i];
                if entries@[i] is Compute {
                    lemma_expression_determined(
                        member_at(item, 2),
                        entries@[i]->Compute_expression,
                        other@[i]->Compute_expression,
                    );
                }
            }
        },
        NodeKind::Filter { predicate, .. } => {
            lemma_expression_determined(member_at(value, 3), predicate, second->predicate);
        },
        NodeKind::Join { condition, .. } => {
            assert(node_member_names(first).len() == node_member_names(second).len());
            lemma_optional_determined(value, 5, condition, second->condition);
        },
        NodeKind::Aggregate { grouping_keys, aggregates, .. } => {
            let other_keys = second->grouping_keys;
            assert forall|i: int| 0 <= i < grouping_keys@.len() implies (
            #[trigger] grouping_keys@[i]).output@ == other_keys@[i].output@ && same_expression(
                grouping_keys@[i].expression,
                other_keys@[i].expression,
            ) by {
                let item = items_of(member_at(value, 3))[i];
                lemma_expression_determined(
                    member_at(item, 1),
                    grouping_keys@[i].expression,
                    other_keys@[i].expression,
                );
            }
            let other_aggregates = second->aggregates;
            assert forall|i: int| 0 <= i < aggregates@.len() implies (#[trigger] aggregates@[i]).output@
                == other_aggregates@[i].output@ && aggregates@[i].function
                == other_aggregates@[i].function && same_optional(
                aggregates@[i].argument,
                other_aggregates@[i].argument,
            ) by {
                let item = items_of(member_at(value, 4))[i];
                lemma_names_determined(
                    item,
                    seq!["output"@, "function"@] + argument_names(aggregates@[i].argument),
                    seq!["output"@, "function"@] + argument_names(other_aggregates@[i].argument),
                );
                lemma_optional_determined(
                    item,
                    2,
                    aggregates@[i].argument,
                    other_aggregates@[i].argument,
                );
            }
        },
        NodeKind::Window { definitions, .. } => {
            let other = second->definitions;
            assert forall|i: int| 0 <= i < definitions@.len() implies same_window(
                #[trigger] definitions@[i],
                other@[i],
            ) by {
                lemma_window_determined(items_of(member_at(value, 3))[i], definitions@[i], other@[i]);
            }
        },
        NodeKind::Order { items, .. } => {
            lemma_ordering_items_determined(member_at(value, 3), items@, second->items@);
        },
        NodeKind::Slice { offset, limit, .. } => {
            lemma_int64_spelling_reads(offset as int);
            lemma_int64_spelling_reads(second->offset as int);
            if limit is Some && second->limit is Some {
                lemma_int64_spelling_reads(limit->0 as int);
                lemma_int64_spelling_reads(second->limit->0 as int);
            }
        },
        _ => {},
    }
}

proof fn lemma_node_determined(value: JsonValue, first: Node, second: Node)
    requires
        node_json(value, first),
        node_json(value, second),
        readable_node(first),
        readable_node(second),
    ensures
        same_node(first, second),
{
    lemma_name_signatures();
    lemma_names_determined(value, node_member_names(first.kind), node_member_names(second.kind));
    lemma_node_kind_determined(value, first.kind, second.kind);
    let schema = member_at(value, node_member_names(first.kind).len() - 2);
    assert forall|i: int| 0 <= i < first.output_schema@.len() implies (
    #[trigger] first.output_schema@[i])@ == second.output_schema@[i]@ by {
        lemma_type_determined(
            member_at(items_of(schema)[i], 2),
            first.output_schema@[i].descriptor,
            second.output_schema@[i].descriptor,
        );
    }
}

/// Reading back what was written gives the same graph: two readable graphs
/// with the same interchange document are the same graph, node by node and
/// part by part.
pub proof fn lemma_document_determines_graph(document: JsonValue, first: Graph, second: Graph)
    requires
        document_json(document, first),
        document_json(document, second),
        readable_graph(first),
        readable_graph(second),
    ensures
        same_graph(first, second),
{
    assert forall|k: int| 0 <= k < first.nodes@.len() implies same_node(
        #[trigger] first.nodes@[k],
        second.nodes@[k],
    ) by {
        lemma_node_determined(items_of(member_at(document, 3))[k], first.nodes@[k], second.nodes@[k]);
    }
}

// ---------------------------------------------------------------------------
// Valid graphs are readable
// ---------------------------------------------------------------------------

proof fn lemma_checked_expression_readable(graph: Graph, expression: Expression)
    requires
        checked_expression(graph, expression),
        encodable_identities(graph),
    ensures
        readable_expression(expression),
    decreases expression,
{
    match expression.kind {
        ExpressionKind::Unary { operand, .. } => {
            lemma_checked_expression_readable(graph, *operand);
        },
        ExpressionKind::Binary { left, right, .. } => {
            lemma_checked_expression_readable(graph, *left);
            lemma_checked_expression_readable(graph, *right);
        },
        ExpressionKind::IsNull { operand, .. } => {
            lemma_checked_expression_readable(graph, *operand);
        },
        ExpressionKind::Case { arms, fallback } => {
            assert forall|i: int| 0 <= i < arms@.len() implies readable_expression(#[trigger] arms@[i].when)
                && readable_expression(arms@[i].result) by {
                lemma_checked_expression_readable(graph, arms@[i].when);
                lemma_checked_expression_readable(graph, arms@[i].result);
            }
            lemma_checked_expression_readable(graph, *fallback);
        },
        ExpressionKind::Cast { operand, .. } => {
            lemma_checked_expression_readable(graph, *operand);
        },
        ExpressionKind::InList { value, candidates } => {
            lemma_checked_expression_readable(graph, *value);
            assert forall|i: int| 0 <= i < candidates@.len() implies readable_expression(
                #[trigger] candidates@[i],
            ) by {
                lemma_checked_expression_readable(graph, candidates@[i]);
            }
        },
        ExpressionKind::InQuery { value, .. } => {
            lemma_checked_expression_readable(graph, *value);
        },
        _ => {},
    }
}

proof fn lemma_checked_expressions_readable(graph: Graph, expressions: Seq<Expression>)
    requires
        checked_expressions(graph, expressions),
        encodable_identities(graph),
    ensures
        readable_expressions(expressions),
{
    assert forall|i: int| 0 <= i < expressions.len() implies readable_expression(#[trigger] expressions[i]) by {
        lemma_checked_expression_readable(graph, expressions[i]);
    }
}

proof fn lemma_checked_ordering_readable(graph: Graph, items: Seq<OrderingItem>)
    requires
        checked_ordering(graph, items),
        encodable_identities(graph),
    ensures
        readable_ordering_items(items),
{
    assert forall|i: int| 0 <= i < items.len() implies readable_expression(#[trigger] items[i].expression) by {
        lemma_checked_expression_readable(graph, items[i].expression);
    }
}

proof fn lemma_checked_node_readable(graph: Graph, k: int)
    requires
        0 <= k < graph.nodes@.len(),
        checked_node(graph, graph.nodes@[k]),
        encodable_identities(graph),
    ensures
        readable_node(graph.nodes@[k]),
{
    let node = graph.nodes@[k];
    match node.kind {
        NodeKind::Project { entries, .. } => {
            assert forall|i: int| 0 <= i < entries@.len() implies readable_project_entry(
                #[trigger] entries@[i],
            ) by {
                if let ProjectEntry::Compute { expression, .. } = entries@[i] {
                    lemma_checked_expression_readable(graph, expression);
                }
            }
        },
        NodeKind::Filter { predicate, .. } => {
            lemma_checked_expression_readable(graph, predicate);
        },
        NodeKind::Join { condition, .. } => {
            if let Some(e) = condition {
                lemma_checked_expression_readable(graph, e);
            }
        },
        NodeKind::Aggregate { grouping_keys, aggregates, .. } => {
            assert forall|i: int| 0 <= i < grouping_keys@.len() implies is_identifier_text(
                (#[trigger] grouping_keys@[i]).output@,
            ) && readable_expression(grouping_keys@[i].expression) by {
                lemma_checked_expression_readable(graph, grouping_keys@[i].expression);
            }
            assert forall|i: int| 0 <= i < aggregates@.len() implies is_identifier_text(
                (#[trigger] aggregates@[i]).output@,
            ) && readable_aggregate_call(aggregates@[i].function, aggregates@[i].argument) by {
                if let Some(e) = aggregates@[i].argument {
                    lemma_checked_expression_readable(graph, e);
                }
            }
        },
        NodeKind::Window { definitions, .. } => {
            assert forall|i: int| 0 <= i < definitions@.len() implies readable_window(
                #[trigger] definitions@[i],
            ) by {
                match definitions@[i] {
                    WindowDefinition::PartitionedAggregate { argument, partition_by, .. } => {
                        if let Some(e) = argument {
                            lemma_checked_expression_readable(graph, e);
                        }
                        lemma_checked_expressions_readable(graph, partition_by@);
                    },
                    WindowDefinition::Ranking { partition_by, order_by, .. } => {
                        lemma_checked_expressions_readable(graph, partition_by@);
                        lemma_checked_ordering_readable(graph, order_by@);
                    },
                }
            }
        },
        NodeKind::Order { items, .. } => {
            lemma_checked_ordering_readable(graph, items@);
        },
        _ => {},
    }
}

/// A graph that validates and whose identities are interchange identifiers
/// is readable: the reader maps its document back.
pub proof fn lemma_valid_graph_readable(graph: Graph, summary: ValidationSummary)
    requires
        validation_outcome(&graph, Ok(summary)),
        encodable_identities(graph),
    ensures
        readable_graph(graph),
{
    reveal_strlit("0.1");
    assert(version_text() =~= "0.1"@);
    assert forall|k: int| 0 <= k < graph.nodes@.len() implies readable_node(#[trigger] graph.nodes@[k]) by {
        lemma_checked_node_readable(graph, k);
    }
}

// ---------------------------------------------------------------------------
// Reading objects back
// ---------------------------------------------------------------------------

/// The member at `index` is the first one named `name`.
pub open spec fn first_named(members: Seq<(String, JsonValue)>, name: Seq<char>, index: int) -> bool {
    &&& 0 <= index < members.len()
    &&& members[index].0@ == name
    &&& forall|j: int| 0 <= j < index ==> (#[trigger] members[j]).0@ != name
}

/// `name` is one of the first `count` allowed names.
pub open spec fn allowed_within(name: Seq<char>, allowed: Seq<&str>, count: int) -> bool
    decreases count,
{
    if count <= 0 {
        false
    } else {
        allowed[count - 1]@ == name || allowed_within(name, allowed, count - 1)
    }
}

/// Each member is allowed, and none is `metadata`.
pub open spec fn known_members(members: Seq<(String, JsonValue)>, allowed: Seq<&str>) -> bool {
    forall|i: int|
        0 <= i < members.len() ==> (#[trigger] members[i]).0@ != "metadata"@ && allowed_within(
            members[i].0@,
            allowed,
            allowed.len() as int,
        )
}

/// Each of the first `count` names is allowed and is not `metadata`.
pub open spec fn names_known_within(names: Seq<Seq<char>>, allowed: Seq<&str>, count: int) -> bool
    decreases count,
{
    if count <= 0 {
        true
    } else {
        &&& names[count - 1] != "metadata"@
        &&& allowed_within(names[count - 1], allowed, allowed.len() as int)
        &&& names_known_within(names, allowed, count - 1)
    }
}

/// `name` differs from each of the first `count` names.
pub open spec fn differs_within(name: Seq<char>, names: Seq<Seq<char>>, count: int) -> bool
    decreases count,
{
    if count <= 0 {
        true
    } else {
        names[count - 1] != name && differs_within(name, names, count - 1)
    }
}

/// The first `count` names differ pairwise.
pub open spec fn distinct_within(names: Seq<Seq<char>>, count: int) -> bool
    decreases count,
{
    if count <= 0 {
        true
    } else {
        differs_within(names[count - 1], names, count - 1) && distinct_within(names, count - 1)
    }
}

proof fn lemma_names_known(names: Seq<Seq<char>>, allowed: Seq<&str>, count: int)
    requires
        0 <= count <= names.len(),
        names_known_within(names, allowed, count),
    ensures
        forall|i: int|
            0 <= i < count ==> (#[trigger] names[i]) != "metadata"@ && allowed_within(
                names[i],
                allowed,
                allowed.len() as int,
            ),
    decreases count,
{
    if count > 0 {
        lemma_names_known(names, allowed, count - 1);
    }
}

pub(crate) proof fn lemma_differs(name: Seq<char>, names: Seq<Seq<char>>, count: int)
    requires
        0 <= count <= names.len(),
        differs_within(name, names, count),
    ensures
        forall|j: int| 0 <= j < count ==> #[trigger] names[j] != name,
    decreases count,
{
    if count > 0 {
        lemma_differs(name, names, count - 1);
    }
}

proof fn lemma_distinct(names: Seq<Seq<char>>, count: int)
    requires
        0 <= count <= names.len(),
        distinct_within(names, count),
    ensures
        forall|j: int, k: int| 0 <= j < k < count ==> #[trigger] names[j] != #[trigger] names[k],
    decreases count,
{
    if count > 0 {
        lemma_distinct(names, count - 1);
        lemma_differs(names[count - 1], names, count - 1);
    }
}

/// An object written with the names `names`, which differ pairwise and are
/// all allowed, is read with `allowed`, and each member is found by its name.
pub(crate) proof fn lemma_object_readable(value: JsonValue, names: Seq<Seq<char>>, allowed: Seq<&str>)
    requires
        object_named(value, names),
        names_known_within(names, allowed, names.len() as int),
        distinct_within(names, names.len() as int),
    ensures
        known_members(value->Object_0@, allowed),
        forall|k: int| 0 <= k < names.len() ==> first_named(value->Object_0@, #[trigger] names[k], k),
{
    let members = value->Object_0@;
    lemma_names_known(names, allowed, names.len() as int);
    lemma_distinct(names, names.len() as int);
    assert forall|i: int| 0 <= i < members.len() implies (#[trigger] members[i]).0@ != "metadata"@
        && allowed_within(members[i].0@, allowed, allowed.len() as int) by {
        assert(members[i].0@ == names[i]);
    }
    assert forall|k: int| 0 <= k < names.len() implies first_named(members, #[trigger] names[k], k) by {
        assert forall|j: int| 0 <= j < k implies (#[trigger] members[j]).0@ != names[k] by {
            assert(members[j].0@ == names[j]);
        }
    }
}

/// Length, first two letters and last letter: enough to tell apart the names
/// that documents use.
pub open spec fn name_signature(name: Seq<char>) -> (nat, char, char, char) {
    (name.len(), name[0], name[1], name[name.len() - 1])
}

/// The signatures of the names that documents use, which differ pairwise.
pub(crate) proof fn lemma_name_signatures()
    ensures
        name_signature("0.1"@) == (3nat, '0', '.', '1'),
        name_signature("add"@) == (3nat, 'a', 'd', 'd'),
        name_signature("aggregate"@) == (9nat, 'a', 'g', 'e'),
        name_signature("aggregates"@) == (10nat, 'a', 'g', 's'),
        name_signature("all"@) == (3nat, 'a', 'l', 'l'),
        name_signature("and"@) == (3nat, 'a', 'n', 'd'),
        name_signature("argument"@) == (8nat, 'a', 'r', 't'),
        name_signature("arms"@) == (4nat, 'a', 'r', 's'),
        name_signature("ascending"@) == (9nat, 'a', 's', 'g'),
        name_signature("bag"@) == (3nat, 'b', 'a', 'g'),
        name_signature("binary"@) == (6nat, 'b', 'i', 'y'),
        name_signature("binding"@) == (7nat, 'b', 'i', 'g'),
        name_signature("bool_and"@) == (8nat, 'b', 'o', 'd'),
        name_signature("bool_or"@) == (7nat, 'b', 'o', 'r'),
        name_signature("boolean"@) == (7nat, 'b', 'o', 'n'),
        name_signature("candidates"@) == (10nat, 'c', 'a', 's'),
        name_signature("case"@) == (4nat, 'c', 'a', 'e'),
        name_signature("cast"@) == (4nat, 'c', 'a', 't'),
        name_signature("collection"@) == (10nat, 'c', 'o', 'n'),
        name_signature("compute"@) == (7nat, 'c', 'o', 'e'),
        name_signature("concatenate"@) == (11nat, 'c', 'o', 'e'),
        name_signature("condition"@) == (9nat, 'c', 'o', 'n'),
        name_signature("count"@) == (5nat, 'c', 'o', 't'),
        name_signature("count_all"@) == (9nat, 'c', 'o', 'l'),
        name_signature("cross"@) == (5nat, 'c', 'r', 's'),
        name_signature("definitions"@) == (11nat, 'd', 'e', 's'),
        name_signature("dense_rank"@) == (10nat, 'd', 'e', 'k'),
        name_signature("descending"@) == (10nat, 'd', 'e', 'g'),
        name_signature("direction"@) == (9nat, 'd', 'i', 'n'),
        name_signature("distinct"@) == (8nat, 'd', 'i', 't'),
        name_signature("divide"@) == (6nat, 'd', 'i', 'e'),
        name_signature("empty"@) == (5nat, 'e', 'm', 'y'),
        name_signature("entries"@) == (7nat, 'e', 'n', 's'),
        name_signature("equal"@) == (5nat, 'e', 'q', 'l'),
        name_signature("except"@) == (6nat, 'e', 'x', 't'),
        name_signature("exists"@) == (6nat, 'e', 'x', 's'),
        name_signature("expression"@) == (10nat, 'e', 'x', 'n'),
        name_signature("fallback"@) == (8nat, 'f', 'a', 'k'),
        name_signature("field"@) == (5nat, 'f', 'i', 'd'),
        name_signature("filter"@) == (6nat, 'f', 'i', 'r'),
        name_signature("first"@) == (5nat, 'f', 'i', 't'),
        name_signature("forget_order"@) == (12nat, 'f', 'o', 'r'),
        name_signature("full"@) == (4nat, 'f', 'u', 'l'),
        name_signature("function"@) == (8nat, 'f', 'u', 'n'),
        name_signature("greater"@) == (7nat, 'g', 'r', 'r'),
        name_signature("greater_or_equal"@) == (16nat, 'g', 'r', 'l'),
        name_signature("grouping_keys"@) == (13nat, 'g', 'r', 's'),
        name_signature("id"@) == (2nat, 'i', 'd', 'd'),
        name_signature("in_list"@) == (7nat, 'i', 'n', 't'),
        name_signature("in_query"@) == (8nat, 'i', 'n', 'y'),
        name_signature("inner"@) == (5nat, 'i', 'n', 'r'),
        name_signature("input"@) == (5nat, 'i', 'n', 't'),
        name_signature("int64"@) == (5nat, 'i', 'n', '4'),
        name_signature("interchange_version"@) == (19nat, 'i', 'n', 'n'),
        name_signature("intersect"@) == (9nat, 'i', 'n', 't'),
        name_signature("is_null"@) == (7nat, 'i', 's', 'l'),
        name_signature("items"@) == (5nat, 'i', 't', 's'),
        name_signature("join"@) == (4nat, 'j', 'o', 'n'),
        name_signature("join_type"@) == (9nat, 'j', 'o', 'e'),
        name_signature("keep"@) == (4nat, 'k', 'e', 'p'),
        name_signature("kind"@) == (4nat, 'k', 'i', 'd'),
        name_signature("last"@) == (4nat, 'l', 'a', 't'),
        name_signature("left"@) == (4nat, 'l', 'e', 't'),
        name_signature("less"@) == (4nat, 'l', 'e', 's'),
        name_signature("less_or_equal"@) == (13nat, 'l', 'e', 'l'),
        name_signature("limit"@) == (5nat, 'l', 'i', 't'),
        name_signature("literal"@) == (7nat, 'l', 'i', 'l'),
        name_signature("max"@) == (3nat, 'm', 'a', 'x'),
        name_signature("metadata"@) == (8nat, 'm', 'e', 'a'),
        name_signature("min"@) == (3nat, 'm', 'i', 'n'),
        name_signature("multiply"@) == (8nat, 'm', 'u', 'y'),
        name_signature("name"@) == (4nat, 'n', 'a', 'e'),
        name_signature("negated"@) == (7nat, 'n', 'e', 'd'),
        name_signature("negative"@) == (8nat, 'n', 'e', 'e'),
        name_signature("nodes"@) == (5nat, 'n', 'o', 's'),
        name_signature("not"@) == (3nat, 'n', 'o', 't'),
        name_signature("not_applicable"@) == (14nat, 'n', 'o', 'e'),
        name_signature("not_equal"@) == (9nat, 'n', 'o', 'l'),
        name_signature("null_placement"@) == (14nat, 'n', 'u', 't'),
        name_signature("nullable"@) == (8nat, 'n', 'u', 'e'),
        name_signature("offset"@) == (6nat, 'o', 'f', 't'),
        name_signature("operand"@) == (7nat, 'o', 'p', 'd'),
        name_signature("operation"@) == (9nat, 'o', 'p', 'n'),
        name_signature("or"@) == (2nat, 'o', 'r', 'r'),
        name_signature("order"@) == (5nat, 'o', 'r', 'r'),
        name_signature("order_by"@) == (8nat, 'o', 'r', 'y'),
        name_signature("ordered"@) == (7nat, 'o', 'r', 'd'),
        name_signature("output"@) == (6nat, 'o', 'u', 't'),
        name_signature("output_schema"@) == (13nat, 'o', 'u', 'a'),
        name_signature("partition_by"@) == (12nat, 'p', 'a', 'y'),
        name_signature("partitioned_aggregate"@) == (21nat, 'p', 'a', 'e'),
        name_signature("positive"@) == (8nat, 'p', 'o', 'e'),
        name_signature("predicate"@) == (9nat, 'p', 'r', 'e'),
        name_signature("project"@) == (7nat, 'p', 'r', 't'),
        name_signature("quantifier"@) == (10nat, 'q', 'u', 'r'),
        name_signature("query"@) == (5nat, 'q', 'u', 'y'),
        name_signature("rank"@) == (4nat, 'r', 'a', 'k'),
        name_signature("ranking"@) == (7nat, 'r', 'a', 'g'),
        name_signature("remainder"@) == (9nat, 'r', 'e', 'r'),
        name_signature("right"@) == (5nat, 'r', 'i', 't'),
        name_signature("root"@) == (4nat, 'r', 'o', 't'),
        name_signature("row_number"@) == (10nat, 'r', 'o', 'r'),
        name_signature("scalar"@) == (6nat, 's', 'c', 'r'),
        name_signature("set"@) == (3nat, 's', 'e', 't'),
        name_signature("shape_ir_version"@) == (16nat, 's', 'h', 'n'),
        name_signature("slice"@) == (5nat, 's', 'l', 'e'),
        name_signature("subtract"@) == (8nat, 's', 'u', 't'),
        name_signature("sum"@) == (3nat, 's', 'u', 'm'),
        name_signature("target"@) == (6nat, 't', 'a', 't'),
        name_signature("text"@) == (4nat, 't', 'e', 't'),
        name_signature("then"@) == (4nat, 't', 'h', 'n'),
        name_signature("type"@) == (4nat, 't', 'y', 'e'),
        name_signature("unary"@) == (5nat, 'u', 'n', 'y'),
        name_signature("union"@) == (5nat, 'u', 'n', 'n'),
        name_signature("value"@) == (5nat, 'v', 'a', 'e'),
        name_signature("when"@) == (4nat, 'w', 'h', 'n'),
        name_signature("window"@) == (6nat, 'w', 'i', 'w'),
{
    reveal_strlit("0.1");
    reveal_strlit("add");
    reveal_strlit("aggregate");
    reveal_strlit("aggregates");
    reveal_strlit("all");
    reveal_strlit("and");
    reveal_strlit("argument");
    reveal_strlit("arms");
    reveal_strlit("ascending");
    reveal_strlit("bag");
    reveal_strlit("binary");
    reveal_strlit("binding");
    reveal_strlit("bool_and");
    reveal_strlit("bool_or");
    reveal_strlit("boolean");
    reveal_strlit("candidates");
    reveal_strlit("case");
    reveal_strlit("cast");
    reveal_strlit("collection");
    reveal_strlit("compute");
    reveal_strlit("concatenate");
    reveal_strlit("condition");
    reveal_strlit("count");
    reveal_strlit("count_all");
    reveal_strlit("cross");
    reveal_strlit("definitions");
    reveal_strlit("dense_rank");
    reveal_strlit("descending");
    reveal_strlit("direction");
    reveal_strlit("distinct");
    reveal_strlit("divide");
    reveal_strlit("empty");
    reveal_strlit("entries");
    reveal_strlit("equal");
    reveal_strlit("except");
    reveal_strlit("exists");
    reveal_strlit("expression");
    reveal_strlit("fallback");
    reveal_strlit("field");
    reveal_strlit("filter");
    reveal_strlit("first");
    reveal_strlit("forget_order");
    reveal_strlit("full");
    reveal_strlit("function");
    reveal_strlit("greater");
    reveal_strlit("greater_or_equal");
    reveal_strlit("grouping_keys");
    reveal_strlit("id");
    reveal_strlit("in_list");
    reveal_strlit("in_query");
    reveal_strlit("inner");
    reveal_strlit("input");
    reveal_strlit("int64");
    reveal_strlit("interchange_version");
    reveal_strlit("intersect");
    reveal_strlit("is_null");
    reveal_strlit("items");
    reveal_strlit("join");
    reveal_strlit("join_type");
    reveal_strlit("keep");
    reveal_strlit("kind");
    reveal_strlit("last");
    reveal_strlit("left");
    reveal_strlit("less");
    reveal_strlit("less_or_equal");
    reveal_strlit("limit");
    reveal_strlit("literal");
    reveal_strlit("max");
    reveal_strlit("metadata");
    reveal_strlit("min");
    reveal_strlit("multiply");
    reveal_strlit("name");
    reveal_strlit("negated");
    reveal_strlit("negative");
    reveal_strlit("nodes");
    reveal_strlit("not");
    reveal_strlit("not_applicable");
    reveal_strlit("not_equal");
    reveal_strlit("null_placement");
    reveal_strlit("nullable");
    reveal_strlit("offset");
    reveal_strlit("operand");
    reveal_strlit("operation");
    reveal_strlit("or");
    reveal_strlit("order");
    reveal_strlit("order_by");
    reveal_strlit("ordered");
    reveal_strlit("output");
    reveal_strlit("output_schema");
    reveal_strlit("partition_by");
    reveal_strlit("partitioned_aggregate");
    reveal_strlit("positive");
    reveal_strlit("predicate");
    reveal_strlit("project");
    reveal_strlit("quantifier");
    reveal_strlit("query");
    reveal_strlit("rank");
    reveal_strlit("ranking");
    reveal_strlit("remainder");
    reveal_strlit("right");
    reveal_strlit("root");
    reveal_strlit("row_number");
    reveal_strlit("scalar");
    reveal_strlit("set");
    reveal_strlit("shape_ir_version");
    reveal_strlit("slice");
    reveal_strlit("subtract");
    reveal_strlit("sum");
    reveal_strlit("target");
    reveal_strlit("text");
    reveal_strlit("then");
    reveal_strlit("type");
    reveal_strlit("unary");
    reveal_strlit("union");
    reveal_strlit("value");
    reveal_strlit("when");
    reveal_strlit("window");
}

} // verus!
