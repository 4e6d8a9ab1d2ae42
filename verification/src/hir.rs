//! Bound and typed high-level semantic representations.
//!
//! The syntax tree preserves source spelling and unresolved names. The HIR
//! instead contains resolved field and relation identities, expanded select
//! lists, owned literal values, and explicit result schemas. Its generic
//! annotations let type checking consume a wholly untyped expression tree and
//! construct a wholly typed tree without partially initialized descriptors.

use crate::ast::{
    AggregateFunction, BinaryOperator, JoinKind, NullPlacement, OrderDirection, RankingFunction,
    SetOperator, UnaryOperator,
};
use crate::catalog::RelationBinding;
use crate::identity::{CteId, FieldId, RelationOccurrenceId};
use crate::lexer::Span;
use crate::name::Name;
use crate::types::TypeDescriptor;
use vstd::prelude::*;

verus! {

/// Field annotation used before type checking.
///
/// Catalog occurrence fields carry their declared descriptor. Fields produced
/// by source queries remain unresolved until the type checker constructs typed
/// HIR.
pub type BoundFieldAnnotation = Option<TypeDescriptor>;

pub type BoundProgram = Program<(), BoundFieldAnnotation>;
pub type TypedProgram = Program<TypeDescriptor, TypeDescriptor>;
pub type BoundQueryExpression = QueryExpression<(), BoundFieldAnnotation>;
pub type TypedQueryExpression = QueryExpression<TypeDescriptor, TypeDescriptor>;
pub type BoundExpression = Expression<(), BoundFieldAnnotation>;
pub type TypedExpression = Expression<TypeDescriptor, TypeDescriptor>;
pub type BoundField = Field<BoundFieldAnnotation>;
pub type TypedField = Field<TypeDescriptor>;

/// One complete semantic program.
#[derive(Debug, PartialEq, Eq)]
pub struct Program<E, F> {
    pub query: QueryExpression<E, F>,
    pub span: Span,
}

/// A resolved schema field.
#[derive(Debug, PartialEq, Eq)]
pub struct Field<F> {
    pub id: FieldId,
    pub name: Name,
    pub annotation: F,
}

impl<F: Clone> Clone for Field<F> {
    fn clone(&self) -> (field: Self)
        ensures
            field.id == self.id,
            field.name@ == self.name@,
            cloned::<F>(self.annotation, field.annotation),
    {
        Field { id: self.id, name: self.name.clone(), annotation: self.annotation.clone() }
    }
}

impl<F> Field<F> {
    pub fn map_annotation<G>(self, map: impl FnOnce(F) -> G) -> (field: Field<G>)
        requires
            call_requires(map, (self.annotation,)),
        ensures
            field.id == self.id,
            field.name@ == self.name@,
            call_ensures(map, (self.annotation,), field.annotation),
    {
        Field { id: self.id, name: self.name, annotation: map(self.annotation) }
    }
}

/// A query together with its local CTE declarations, ordering, and row bound.
#[derive(Debug, PartialEq, Eq)]
pub struct QueryExpression<E, F> {
    pub common_table_expressions: Vec<CommonTableExpression<E, F>>,
    pub body: QueryBody<E, F>,
    pub order_by: Vec<OrderItem<E, F>>,
    pub row_bound: Option<RowBound>,
    pub result_fields: Vec<Field<F>>,
    pub span: Span,
}

#[derive(Debug, PartialEq, Eq)]
pub struct CommonTableExpression<E, F> {
    pub id: CteId,
    pub name: Name,
    pub query: Box<QueryExpression<E, F>>,
    pub span: Span,
}

#[derive(Debug, PartialEq, Eq)]
pub enum QueryBody<E, F> {
    Select(Box<SelectQuery<E, F>>),
    Parenthesized {
        query: Box<QueryExpression<E, F>>,
        span: Span,
    },
    SetOperation {
        left: Box<QueryBody<E, F>>,
        operator: SetOperator,
        all: bool,
        right: Box<QueryBody<E, F>>,
        result_fields: Vec<Field<F>>,
        span: Span,
    },
}

impl<E, F> QueryBody<E, F> {
    pub open spec fn spec_result_fields(&self) -> Seq<Field<F>> {
        match self {
            QueryBody::Select(select) => select.result_fields@,
            QueryBody::Parenthesized { query, .. } => query.result_fields@,
            QueryBody::SetOperation { result_fields, .. } => result_fields@,
        }
    }

    pub open spec fn spec_span(&self) -> Span {
        match self {
            QueryBody::Select(select) => select.span,
            QueryBody::Parenthesized { span, .. } => *span,
            QueryBody::SetOperation { span, .. } => *span,
        }
    }

    pub fn result_fields(&self) -> (fields: &[Field<F>])
        ensures
            fields@ == self.spec_result_fields(),
    {
        match self {
            QueryBody::Select(select) => select.result_fields.as_slice(),
            QueryBody::Parenthesized { query, .. } => query.result_fields.as_slice(),
            QueryBody::SetOperation { result_fields, .. } => result_fields.as_slice(),
        }
    }

    pub fn span(&self) -> (span: Span)
        ensures
            span == self.spec_span(),
    {
        match self {
            QueryBody::Select(select) => select.span,
            QueryBody::Parenthesized { span, .. } => *span,
            QueryBody::SetOperation { span, .. } => *span,
        }
    }
}

/// One bound query block.
#[derive(Debug, PartialEq, Eq)]
pub struct SelectQuery<E, F> {
    pub distinct: bool,
    pub select_list: Vec<SelectField<E, F>>,
    pub from: Vec<JoinedTable<E, F>>,
    pub source_fields: Vec<Field<F>>,
    pub where_clause: Option<Expression<E, F>>,
    pub group_by: Vec<Expression<E, F>>,
    pub having: Option<Expression<E, F>>,
    pub result_fields: Vec<Field<F>>,
    pub is_aggregate: bool,
    pub span: Span,
}

#[derive(Debug, PartialEq, Eq)]
pub struct SelectField<E, F> {
    pub output: Field<F>,
    pub expression: Expression<E, F>,
    pub span: Span,
}

#[derive(Debug, PartialEq, Eq)]
pub struct JoinedTable<E, F> {
    pub left: TablePrimary<E, F>,
    pub joins: Vec<Join<E, F>>,
    pub span: Span,
}

#[derive(Debug, PartialEq, Eq)]
pub enum TablePrimary<E, F> {
    Catalog {
        binding: RelationBinding,
        occurrence: RelationOccurrence<F>,
        span: Span,
    },
    CommonTableExpression {
        declaration: CteId,
        occurrence: RelationOccurrence<F>,
        span: Span,
    },
    Derived {
        query: Box<QueryExpression<E, F>>,
        occurrence: RelationOccurrence<F>,
        span: Span,
    },
}

impl<E, F> TablePrimary<E, F> {
    pub open spec fn spec_occurrence(&self) -> RelationOccurrence<F> {
        match self {
            TablePrimary::Catalog { occurrence, .. } => *occurrence,
            TablePrimary::CommonTableExpression { occurrence, .. } => *occurrence,
            TablePrimary::Derived { occurrence, .. } => *occurrence,
        }
    }

    pub open spec fn spec_span(&self) -> Span {
        match self {
            TablePrimary::Catalog { span, .. } => *span,
            TablePrimary::CommonTableExpression { span, .. } => *span,
            TablePrimary::Derived { span, .. } => *span,
        }
    }

    pub fn occurrence(&self) -> (occurrence: &RelationOccurrence<F>)
        ensures
            *occurrence == self.spec_occurrence(),
    {
        match self {
            TablePrimary::Catalog { occurrence, .. } => occurrence,
            TablePrimary::CommonTableExpression { occurrence, .. } => occurrence,
            TablePrimary::Derived { occurrence, .. } => occurrence,
        }
    }

    pub fn span(&self) -> (span: Span)
        ensures
            span == self.spec_span(),
    {
        match self {
            TablePrimary::Catalog { span, .. } => *span,
            TablePrimary::CommonTableExpression { span, .. } => *span,
            TablePrimary::Derived { span, .. } => *span,
        }
    }
}

#[derive(Debug, PartialEq, Eq)]
pub struct RelationOccurrence<F> {
    pub id: RelationOccurrenceId,
    pub qualifier: Name,
    pub fields: Vec<Field<F>>,
}

#[derive(Debug, PartialEq, Eq)]
pub struct Join<E, F> {
    pub kind: JoinKind,
    pub right: TablePrimary<E, F>,
    pub condition: Option<Expression<E, F>>,
    pub span: Span,
}

#[derive(Debug, PartialEq, Eq)]
pub struct OrderItem<E, F> {
    pub expression: Expression<E, F>,
    pub direction: Option<OrderDirection>,
    pub null_placement: Option<NullPlacement>,
    pub span: Span,
}

#[derive(Debug, PartialEq, Eq)]
pub struct RowBound {
    pub limit: Option<IntegerValue>,
    pub offset: Option<IntegerValue>,
    pub span: Span,
}

/// An unsigned integer spelling retained until static range checking.
#[derive(Debug, PartialEq, Eq)]
pub struct IntegerValue {
    pub spelling: String,
    pub span: Span,
}

/// A scalar expression annotated by its analysis phase.
#[derive(Debug, PartialEq, Eq)]
pub struct Expression<E, F> {
    pub kind: ExpressionKind<E, F>,
    pub annotation: E,
    pub span: Span,
}

impl<E, F> Expression<E, F> {
    pub fn new(kind: ExpressionKind<E, F>, annotation: E, span: Span) -> (expression: Self)
        ensures
            expression == (Expression { kind, annotation, span }),
    {
        Expression { kind, annotation, span }
    }
}

impl<F> Expression<TypeDescriptor, F> {
    pub fn descriptor(&self) -> (descriptor: TypeDescriptor)
        ensures
            descriptor == self.annotation,
    {
        self.annotation
    }
}

#[derive(Debug, PartialEq, Eq)]
pub enum ExpressionKind<E, F> {
    Literal(LiteralValue),
    Field(FieldId),
    Parenthesized(Box<Expression<E, F>>),
    Unary {
        operator: UnaryOperator,
        expression: Box<Expression<E, F>>,
    },
    Binary {
        left: Box<Expression<E, F>>,
        operator: BinaryOperator,
        right: Box<Expression<E, F>>,
    },
    IsNull {
        expression: Box<Expression<E, F>>,
        negated: bool,
    },
    InList {
        expression: Box<Expression<E, F>>,
        negated: bool,
        values: Vec<Expression<E, F>>,
    },
    InQuery {
        expression: Box<Expression<E, F>>,
        negated: bool,
        query: Box<QueryExpression<E, F>>,
    },
    Case {
        branches: Vec<WhenClause<E, F>>,
        else_expression: Option<Box<Expression<E, F>>>,
    },
    Cast {
        expression: Box<Expression<E, F>>,
        scalar_type: crate::types::ScalarType,
    },
    Exists {
        query: Box<QueryExpression<E, F>>,
    },
    Aggregate {
        function: AggregateFunction,
        argument: AggregateArgument<E, F>,
        window: Option<AggregateWindow<E, F>>,
    },
    Ranking {
        function: RankingFunction,
        partition_by: Vec<Expression<E, F>>,
        order_by: Vec<OrderItem<E, F>>,
    },
}

#[derive(Debug, PartialEq, Eq)]
pub enum LiteralValue {
    Integer(String),
    Text(String),
    Boolean(bool),
    Null,
}

#[derive(Debug, PartialEq, Eq)]
pub struct WhenClause<E, F> {
    pub condition: Expression<E, F>,
    pub result: Expression<E, F>,
    pub span: Span,
}

#[derive(Debug, PartialEq, Eq)]
pub enum AggregateArgument<E, F> {
    Star(Span),
    Expression(Box<Expression<E, F>>),
}

#[derive(Debug, PartialEq, Eq)]
pub struct AggregateWindow<E, F> {
    pub partition_by: Vec<Expression<E, F>>,
    pub span: Span,
}


/// Literal values are the same constant.
pub open spec fn same_literal(left: LiteralValue, right: LiteralValue) -> bool {
    match (left, right) {
        (LiteralValue::Integer(a), LiteralValue::Integer(b)) => a@ == b@,
        (LiteralValue::Text(a), LiteralValue::Text(b)) => a@ == b@,
        (LiteralValue::Boolean(a), LiteralValue::Boolean(b)) => a == b,
        (LiteralValue::Null, LiteralValue::Null) => true,
        _ => false,
    }
}

/// Structural equality under the source grouping rule (see [`structurally_equal`]).
pub open spec fn structurally_equivalent<E1, F1, E2, F2>(
    left: Expression<E1, F1>,
    right: Expression<E2, F2>,
) -> bool
    decreases left, right,
{
    match (left.kind, right.kind) {
        (ExpressionKind::Parenthesized(inner), _) => structurally_equivalent(*inner, right),
        (_, ExpressionKind::Parenthesized(inner)) => structurally_equivalent(left, *inner),
        (ExpressionKind::Literal(a), ExpressionKind::Literal(b)) => same_literal(a, b),
        (ExpressionKind::Field(a), ExpressionKind::Field(b)) => a == b,
        (
            ExpressionKind::Unary { operator: lo, expression: le },
            ExpressionKind::Unary { operator: ro, expression: re },
        ) => lo == ro && structurally_equivalent(*le, *re),
        (
            ExpressionKind::Binary { left: ll, operator: lo, right: lr },
            ExpressionKind::Binary { left: rl, operator: ro, right: rr },
        ) => lo == ro && structurally_equivalent(*ll, *rl) && structurally_equivalent(*lr, *rr),
        (
            ExpressionKind::IsNull { expression: le, negated: ln },
            ExpressionKind::IsNull { expression: re, negated: rn },
        ) => ln == rn && structurally_equivalent(*le, *re),
        (
            ExpressionKind::InList { expression: le, negated: ln, values: lv },
            ExpressionKind::InList { expression: re, negated: rn, values: rv },
        ) => ln == rn && structurally_equivalent(*le, *re) && lv@.len() == rv@.len() && forall|
            i: int,
        |
            0 <= i < lv@.len() ==> structurally_equivalent(#[trigger] lv@[i], rv@[i]),
        (
            ExpressionKind::Case { branches: lb, else_expression: le },
            ExpressionKind::Case { branches: rb, else_expression: re },
        ) => lb@.len() == rb@.len() && (forall|i: int|
            0 <= i < lb@.len() ==> structurally_equivalent(#[trigger] lb@[i].condition, rb@[i].condition)
                && structurally_equivalent(lb@[i].result, rb@[i].result)) && match (le, re) {
            (Some(a), Some(b)) => structurally_equivalent(*a, *b),
            (None, None) => true,
            _ => false,
        },
        (
            ExpressionKind::Cast { expression: le, scalar_type: lt },
            ExpressionKind::Cast { expression: re, scalar_type: rt },
        ) => lt == rt && structurally_equivalent(*le, *re),
        (
            ExpressionKind::Aggregate { function: lf, argument: la, window: lw },
            ExpressionKind::Aggregate { function: rf, argument: ra, window: rw },
        ) => lf == rf && match (la, ra) {
            (AggregateArgument::Star(_), AggregateArgument::Star(_)) => true,
            (AggregateArgument::Expression(a), AggregateArgument::Expression(b)) => structurally_equivalent(*a, *b),
            _ => false,
        } && match (lw, rw) {
            (Some(a), Some(b)) => a.partition_by@.len() == b.partition_by@.len() && forall|i: int|
                0 <= i < a.partition_by@.len() ==> structurally_equivalent(
                    #[trigger] a.partition_by@[i],
                    b.partition_by@[i],
                ),
            (None, None) => true,
            _ => false,
        },
        (
            ExpressionKind::Ranking { function: lf, partition_by: lp, order_by: lo },
            ExpressionKind::Ranking { function: rf, partition_by: rp, order_by: ro },
        ) => lf == rf && lp@.len() == rp@.len() && (forall|i: int|
            0 <= i < lp@.len() ==> structurally_equivalent(#[trigger] lp@[i], rp@[i])) && lo@.len()
            == ro@.len() && forall|i: int|
            0 <= i < lo@.len() ==> #[trigger] lo@[i].direction == ro@[i].direction && lo@[i].null_placement
                == ro@[i].null_placement && structurally_equivalent(lo@[i].expression, ro@[i].expression),
        (
            ExpressionKind::InQuery { expression: le, negated: ln, query: lq },
            ExpressionKind::InQuery { expression: re, negated: rn, query: rq },
        ) => ln == rn && structurally_equivalent(*le, *re) && same_query_object(*lq, *rq),
        (ExpressionKind::Exists { query: lq }, ExpressionKind::Exists { query: rq }) => same_query_object(*lq, *rq),
        _ => false,
    }
}

/// Two bound queries are one query object: they stand at the same place of
/// the program and define the same result field identities, which binding
/// allocates afresh for every query it reads.
pub open spec fn same_query_object<E1, F1, E2, F2>(left: QueryExpression<E1, F1>, right: QueryExpression<E2, F2>) -> bool {
    &&& left.span == right.span
    &&& left.result_fields@.len() == right.result_fields@.len()
    &&& forall|i: int| 0 <= i < left.result_fields@.len() ==> (#[trigger] left.result_fields@[i]).id == right.result_fields@[i].id
}

/// An expression with its enclosing parentheses removed.
pub open spec fn unparenthesized<E, F>(expression: Expression<E, F>) -> Expression<E, F>
    decreases expression,
{
    match expression.kind {
        ExpressionKind::Parenthesized(inner) => unparenthesized(*inner),
        _ => expression,
    }
}

/// Parentheses around either side never decide structural equality.
pub proof fn lemma_parentheses_transparent<E1, F1, E2, F2>(left: Expression<E1, F1>, right: Expression<E2, F2>)
    ensures
        structurally_equivalent(left, right) == structurally_equivalent(
            unparenthesized(left),
            unparenthesized(right),
        ),
    decreases left, right,
{
    match left.kind {
        ExpressionKind::Parenthesized(inner) => {
            lemma_parentheses_transparent(*inner, right);
        },
        _ => match right.kind {
            ExpressionKind::Parenthesized(inner) => {
                lemma_parentheses_transparent(left, *inner);
            },
            _ => {},
        },
    }
}

/// Every expression is structurally equal to itself, query-bearing
/// predicates included: a predicate refers to the same query object as
/// itself.
pub proof fn lemma_structurally_equivalent_reflexive<E, F>(expression: Expression<E, F>)
    ensures
        structurally_equivalent(expression, expression),
    decreases expression,
{
    match expression.kind {
        ExpressionKind::Parenthesized(inner) => {
            lemma_parentheses_transparent(expression, expression);
            lemma_parentheses_transparent(*inner, *inner);
            lemma_structurally_equivalent_reflexive(*inner);
        },
        ExpressionKind::Unary { expression: inner, .. } => lemma_structurally_equivalent_reflexive(*inner),
        ExpressionKind::Binary { left, right, .. } => {
            lemma_structurally_equivalent_reflexive(*left);
            lemma_structurally_equivalent_reflexive(*right);
        },
        ExpressionKind::IsNull { expression: inner, .. } => lemma_structurally_equivalent_reflexive(*inner),
        ExpressionKind::Cast { expression: inner, .. } => lemma_structurally_equivalent_reflexive(*inner),
        ExpressionKind::InQuery { expression: inner, .. } => lemma_structurally_equivalent_reflexive(*inner),
        ExpressionKind::InList { expression: inner, values, .. } => {
            lemma_structurally_equivalent_reflexive(*inner);
            assert forall|i: int| 0 <= i < values@.len() implies structurally_equivalent(
                #[trigger] values@[i],
                values@[i],
            ) by {
                assert(decreases_to!(expression => values@[i]));
                lemma_structurally_equivalent_reflexive(values@[i]);
            }
        },
        ExpressionKind::Case { branches, else_expression } => {
            assert forall|i: int| 0 <= i < branches@.len() implies structurally_equivalent(
                #[trigger] branches@[i].condition,
                branches@[i].condition,
            ) && structurally_equivalent(branches@[i].result, branches@[i].result) by {
                assert(decreases_to!(expression => branches@[i].condition));
                assert(decreases_to!(expression => branches@[i].result));
                lemma_structurally_equivalent_reflexive(branches@[i].condition);
                lemma_structurally_equivalent_reflexive(branches@[i].result);
            }
            if let Some(fallback) = else_expression {
                lemma_structurally_equivalent_reflexive(*fallback);
            }
        },
        ExpressionKind::Aggregate { argument, window, .. } => {
            if let AggregateArgument::Expression(inner) = argument {
                lemma_structurally_equivalent_reflexive(*inner);
            }
            if let Some(w) = window {
                assert forall|i: int| 0 <= i < w.partition_by@.len() implies structurally_equivalent(
                    #[trigger] w.partition_by@[i],
                    w.partition_by@[i],
                ) by {
                    assert(decreases_to!(expression => w.partition_by@[i]));
                    lemma_structurally_equivalent_reflexive(w.partition_by@[i]);
                }
            }
        },
        ExpressionKind::Ranking { partition_by, order_by, .. } => {
            assert forall|i: int| 0 <= i < partition_by@.len() implies structurally_equivalent(
                #[trigger] partition_by@[i],
                partition_by@[i],
            ) by {
                assert(decreases_to!(expression => partition_by@[i]));
                lemma_structurally_equivalent_reflexive(partition_by@[i]);
            }
            assert forall|i: int| 0 <= i < order_by@.len() implies structurally_equivalent(
                #[trigger] order_by@[i].expression,
                order_by@[i].expression,
            ) by {
                assert(decreases_to!(expression => order_by@[i].expression));
                lemma_structurally_equivalent_reflexive(order_by@[i].expression);
            }
        },
        _ => {},
    }
}

fn same_query<E1, F1, E2, F2>(left: &QueryExpression<E1, F1>, right: &QueryExpression<E2, F2>) -> (r: bool)
    ensures
        r == same_query_object(*left, *right),
{
    if left.span != right.span || left.result_fields.len() != right.result_fields.len() {
        return false;
    }
    let mut index: usize = 0;
    while index < left.result_fields.len()
        invariant
            index <= left.result_fields@.len(),
            left.result_fields@.len() == right.result_fields@.len(),
            forall|i: int| 0 <= i < index ==> (#[trigger] left.result_fields@[i]).id == right.result_fields@[i].id,
        decreases left.result_fields@.len() - index,
    {
        if left.result_fields[index].id != right.result_fields[index].id {
            return false;
        }
        index = index + 1;
    }
    true
}

fn literal_values_equal(left: &LiteralValue, right: &LiteralValue) -> (r: bool)
    ensures
        r == same_literal(*left, *right),
{
    match (left, right) {
        (LiteralValue::Integer(a), LiteralValue::Integer(b)) => *a == *b,
        (LiteralValue::Text(a), LiteralValue::Text(b)) => *a == *b,
        (LiteralValue::Boolean(a), LiteralValue::Boolean(b)) => *a == *b,
        (LiteralValue::Null, LiteralValue::Null) => true,
        _ => false,
    }
}

/// Tests structural equality under the source grouping rule.
///
/// Redundant parentheses and phase annotations are ignored. Bound field
/// identities, literal values, operator roles, and invocation structure remain
/// significant. Query-bearing predicates are compared using their bound HIR;
/// their independently allocated relation identities consequently remain
/// distinct unless they refer to the same semantic query object
/// (`same_query_object`).
#[verifier::loop_isolation(false)]
pub fn structurally_equal<E1, F1, E2, F2>(
    left: &Expression<E1, F1>,
    right: &Expression<E2, F2>,
) -> (r: bool)
    ensures
        r == structurally_equivalent(*left, *right),
    decreases *left, *right,
{
    if let ExpressionKind::Parenthesized(inner) = &left.kind {
        return structurally_equal(inner, right);
    }
    if let ExpressionKind::Parenthesized(inner) = &right.kind {
        return structurally_equal(left, inner);
    }
    match (&left.kind, &right.kind) {
        (ExpressionKind::Literal(a), ExpressionKind::Literal(b)) => literal_values_equal(a, b),
        (ExpressionKind::Field(a), ExpressionKind::Field(b)) => *a == *b,
        (
            ExpressionKind::Unary { operator: lo, expression: le },
            ExpressionKind::Unary { operator: ro, expression: re },
        ) => *lo == *ro && structurally_equal(le, re),
        (
            ExpressionKind::Binary { left: ll, operator: lo, right: lr },
            ExpressionKind::Binary { left: rl, operator: ro, right: rr },
        ) => *lo == *ro && structurally_equal(ll, rl) && structurally_equal(lr, rr),
        (
            ExpressionKind::IsNull { expression: le, negated: ln },
            ExpressionKind::IsNull { expression: re, negated: rn },
        ) => *ln == *rn && structurally_equal(le, re),
        (
            ExpressionKind::InList { expression: le, negated: ln, values: lv },
            ExpressionKind::InList { expression: re, negated: rn, values: rv },
        ) => {
            if !(*ln == *rn && structurally_equal(le, re)) || lv.len() != rv.len() {
                return false;
            }
            let mut index: usize = 0;
            while index < lv.len()
                invariant
                    lv@.len() == rv@.len(),
                    index <= lv@.len(),
                    forall|k: int| 0 <= k < index ==> structurally_equivalent(#[trigger] lv@[k], rv@[k]),
                decreases lv@.len() - index,
            {
                assert(decreases_to!(*left => lv@[index as int]));
                if !structurally_equal(&lv[index], &rv[index]) {
                    return false;
                }
                index = index + 1;
            }
            true
        },
        (
            ExpressionKind::Case { branches: lb, else_expression: le },
            ExpressionKind::Case { branches: rb, else_expression: re },
        ) => {
            if lb.len() != rb.len() {
                return false;
            }
            let mut index: usize = 0;
            while index < lb.len()
                invariant
                    lb@.len() == rb@.len(),
                    index <= lb@.len(),
                    forall|k: int|
                        0 <= k < index ==> structurally_equivalent(#[trigger] lb@[k].condition, rb@[k].condition)
                            && structurally_equivalent(lb@[k].result, rb@[k].result),
                decreases lb@.len() - index,
            {
                assert(decreases_to!(*left => lb@[index as int].condition));
                assert(decreases_to!(*left => lb@[index as int].result));
                if !structurally_equal(&lb[index].condition, &rb[index].condition)
                    || !structurally_equal(&lb[index].result, &rb[index].result) {
                    return false;
                }
                index = index + 1;
            }
            match (le, re) {
                (Some(a), Some(b)) => structurally_equal(a, b),
                (None, None) => true,
                _ => false,
            }
        },
        (
            ExpressionKind::Cast { expression: le, scalar_type: lt },
            ExpressionKind::Cast { expression: re, scalar_type: rt },
        ) => *lt == *rt && structurally_equal(le, re),
        (
            ExpressionKind::Aggregate { function: lf, argument: la, window: lw },
            ExpressionKind::Aggregate { function: rf, argument: ra, window: rw },
        ) => {
            if *lf != *rf {
                return false;
            }
            let arguments_equal = match (la, ra) {
                (AggregateArgument::Star(_), AggregateArgument::Star(_)) => true,
                (AggregateArgument::Expression(a), AggregateArgument::Expression(b)) => structurally_equal(a, b),
                _ => false,
            };
            if !arguments_equal {
                return false;
            }
            match (lw, rw) {
                (Some(a), Some(b)) => {
                    if a.partition_by.len() != b.partition_by.len() {
                        return false;
                    }
                    let mut index: usize = 0;
                    while index < a.partition_by.len()
                        invariant
                            a.partition_by@.len() == b.partition_by@.len(),
                            index <= a.partition_by@.len(),
                            forall|k: int|
                                0 <= k < index ==> structurally_equivalent(
                                    #[trigger] a.partition_by@[k],
                                    b.partition_by@[k],
                                ),
                        decreases a.partition_by@.len() - index,
                    {
                        assert(decreases_to!(*left => a.partition_by@[index as int]));
                        if !structurally_equal(&a.partition_by[index], &b.partition_by[index]) {
                            return false;
                        }
                        index = index + 1;
                    }
                    true
                },
                (None, None) => true,
                _ => false,
            }
        },
        (
            ExpressionKind::Ranking { function: lf, partition_by: lp, order_by: lo },
            ExpressionKind::Ranking { function: rf, partition_by: rp, order_by: ro },
        ) => {
            if *lf != *rf || lp.len() != rp.len() || lo.len() != ro.len() {
                return false;
            }
            let mut index: usize = 0;
            while index < lp.len()
                invariant
                    lp@.len() == rp@.len(),
                    index <= lp@.len(),
                    forall|k: int| 0 <= k < index ==> structurally_equivalent(#[trigger] lp@[k], rp@[k]),
                decreases lp@.len() - index,
            {
                assert(decreases_to!(*left => lp@[index as int]));
                if !structurally_equal(&lp[index], &rp[index]) {
                    return false;
                }
                index = index + 1;
            }
            let mut index: usize = 0;
            while index < lo.len()
                invariant
                    lo@.len() == ro@.len(),
                    index <= lo@.len(),
                    forall|k: int|
                        0 <= k < index ==> #[trigger] lo@[k].direction == ro@[k].direction
                            && lo@[k].null_placement == ro@[k].null_placement
                            && structurally_equivalent(lo@[k].expression, ro@[k].expression),
                decreases lo@.len() - index,
            {
                let same_direction = match (lo[index].direction, ro[index].direction) {
                    (Some(x), Some(y)) => x == y,
                    (None, None) => true,
                    _ => false,
                };
                let same_placement = match (lo[index].null_placement, ro[index].null_placement) {
                    (Some(x), Some(y)) => x == y,
                    (None, None) => true,
                    _ => false,
                };
                if !same_direction || !same_placement {
                    return false;
                }
                assert(decreases_to!(*left => lo@[index as int].expression));
                if !structurally_equal(&lo[index].expression, &ro[index].expression) {
                    return false;
                }
                index = index + 1;
            }
            true
        },
        (
            ExpressionKind::InQuery { expression: le, negated: ln, query: lq },
            ExpressionKind::InQuery { expression: re, negated: rn, query: rq },
        ) => *ln == *rn && structurally_equal(le, re) && same_query(lq, rq),
        (ExpressionKind::Exists { query: lq }, ExpressionKind::Exists { query: rq }) => same_query(lq, rq),
        _ => false,
    }
}

} // verus!
