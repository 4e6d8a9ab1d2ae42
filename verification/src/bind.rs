//! ShapeSQL name binding and wildcard expansion.
#![verifier::loop_isolation(false)]
use crate::ast;
use crate::catalog::{Catalog, CatalogRelation};
use crate::frontend::{integer_text_of, name_of, text_of, ParsedProgram};
use crate::hir::{
    AggregateArgument, AggregateWindow, BoundExpression, BoundField, BoundFieldAnnotation,
    BoundProgram, BoundQueryExpression, CommonTableExpression, Expression, ExpressionKind, Field,
    IntegerValue, Join, JoinedTable, LiteralValue, OrderItem, Program, QueryBody,
    QueryExpression, RelationOccurrence, RowBound, SelectField, SelectQuery, TablePrimary,
    WhenClause,
};
use crate::identity::{CteId, FieldId, RelationOccurrenceId};
use crate::lexer::{Span, TokenKind};
use crate::name::Name;
use crate::types::{enclosed, ScalarType};
use vstd::prelude::*;

verus! {

/// A name-resolution failure in syntactically valid ShapeSQL source.
#[derive(Clone, Debug, PartialEq, Eq)]
pub struct BindError {
    pub kind: BindErrorKind,
    pub span: Span,
}

/// Binding failure categories. Diagnostic wording is intentionally not part
/// of the language contract.
#[derive(Clone, Debug, PartialEq, Eq)]
pub enum BindErrorKind {
    UnknownRelation(Name),
    AmbiguousRelation(Name),
    DuplicateCommonTableExpression(Name),
    CommonTableExpressionCycle(Name),
    DuplicateSourceQualifier(Name),
    UnknownQualifier(Name),
    UnknownColumn(Name),
    AmbiguousColumn(Name),
    OrderByOrdinalOutOfRange(String),
    /// The program needs more field, occurrence, or declaration identities
    /// than the 32-bit identity spaces hold.
    IdentitySpaceExhausted,
}

impl BindErrorKind {
    /// The name or spelling that the failure is about.
    pub open spec fn subject(&self) -> Seq<char> {
        match self {
            BindErrorKind::UnknownRelation(name) => name@,
            BindErrorKind::AmbiguousRelation(name) => name@,
            BindErrorKind::DuplicateCommonTableExpression(name) => name@,
            BindErrorKind::CommonTableExpressionCycle(name) => name@,
            BindErrorKind::DuplicateSourceQualifier(name) => name@,
            BindErrorKind::UnknownQualifier(name) => name@,
            BindErrorKind::UnknownColumn(name) => name@,
            BindErrorKind::AmbiguousColumn(name) => name@,
            BindErrorKind::OrderByOrdinalOutOfRange(spelling) => spelling@,
            BindErrorKind::IdentitySpaceExhausted => Seq::empty(),
        }
    }
}

impl BindError {
    /// A short description of the failure category.
    /// The error as one line of text.
    pub fn describe(&self) -> (text: String)
        ensures
            text@ == match self.kind {
                BindErrorKind::UnknownRelation(name) => "unknown relation `"@ + name@ + "`"@,
                BindErrorKind::AmbiguousRelation(name) => "ambiguous relation `"@ + name@ + "`"@,
                BindErrorKind::DuplicateCommonTableExpression(name) => "duplicate common table expression `"@ + name@ + "`"@,
                BindErrorKind::CommonTableExpressionCycle(name) => "common table expression cycle through `"@ + name@ + "`"@,
                BindErrorKind::DuplicateSourceQualifier(name) => "duplicate source qualifier `"@ + name@ + "`"@,
                BindErrorKind::UnknownQualifier(name) => "unknown source qualifier `"@ + name@ + "`"@,
                BindErrorKind::UnknownColumn(name) => "unknown column `"@ + name@ + "`"@,
                BindErrorKind::AmbiguousColumn(name) => "ambiguous column `"@ + name@ + "`"@,
                BindErrorKind::OrderByOrdinalOutOfRange(ordinal) => "ORDER BY ordinal `"@ + ordinal@
                    + "` is out of range"@,
                BindErrorKind::IdentitySpaceExhausted => "identity space exhausted"@,
            },
    {
        match &self.kind {
            BindErrorKind::UnknownRelation(name) => enclosed("unknown relation `", name.as_str(), "`"),
            BindErrorKind::AmbiguousRelation(name) => enclosed("ambiguous relation `", name.as_str(), "`"),
            BindErrorKind::DuplicateCommonTableExpression(name) => enclosed("duplicate common table expression `", name.as_str(), "`"),
            BindErrorKind::CommonTableExpressionCycle(name) => enclosed("common table expression cycle through `", name.as_str(), "`"),
            BindErrorKind::DuplicateSourceQualifier(name) => enclosed("duplicate source qualifier `", name.as_str(), "`"),
            BindErrorKind::UnknownQualifier(name) => enclosed("unknown source qualifier `", name.as_str(), "`"),
            BindErrorKind::UnknownColumn(name) => enclosed("unknown column `", name.as_str(), "`"),
            BindErrorKind::AmbiguousColumn(name) => enclosed("ambiguous column `", name.as_str(), "`"),
            BindErrorKind::OrderByOrdinalOutOfRange(ordinal) => enclosed(
                "ORDER BY ordinal `",
                ordinal.as_str(),
                "` is out of range",
            ),
            BindErrorKind::IdentitySpaceExhausted => String::from_str("identity space exhausted"),
        }
    }
}

pub type BoundOccurrence = RelationOccurrence<BoundFieldAnnotation>;

/// A field as name resolution sees it: its identity and its name.
pub type FieldView = (FieldId, Seq<char>);

/// An occurrence as name resolution sees it: identity, qualifier, and fields.
pub type OccurrenceView = (RelationOccurrenceId, Seq<char>, Seq<FieldView>);

pub open spec fn field_view<F>(field: Field<F>) -> FieldView {
    (field.id, field.name@)
}

pub open spec fn fields_view<F>(fields: Seq<Field<F>>) -> Seq<FieldView> {
    fields.map_values(|field: Field<F>| field_view(field))
}

pub open spec fn occurrence_view(occurrence: BoundOccurrence) -> OccurrenceView {
    (occurrence.id, occurrence.qualifier@, fields_view(occurrence.fields@))
}

pub open spec fn sources_view(sources: Seq<BoundOccurrence>) -> Seq<OccurrenceView> {
    sources.map_values(|occurrence: BoundOccurrence| occurrence_view(occurrence))
}

/// The fields of all sources, source by source, in declaration order.
pub open spec fn flattened(sources: Seq<OccurrenceView>) -> Seq<FieldView>
    decreases sources.len(),
{
    if sources.len() == 0 {
        Seq::empty()
    } else {
        flattened(sources.drop_last()) + sources.last().2
    }
}

/// The identities of the fields named `name`, in order.
pub open spec fn ids_named(fields: Seq<FieldView>, name: Seq<char>) -> Seq<FieldId>
    decreases fields.len(),
{
    if fields.len() == 0 {
        Seq::empty()
    } else {
        let earlier = ids_named(fields.drop_last(), name);
        if fields.last().1 == name {
            earlier.push(fields.last().0)
        } else {
            earlier
        }
    }
}

/// The positions of the sources whose qualifier is `qualifier`, in order.
pub open spec fn positions_qualified(sources: Seq<OccurrenceView>, qualifier: Seq<char>) -> Seq<int>
    decreases sources.len(),
{
    if sources.len() == 0 {
        Seq::empty()
    } else {
        let earlier = positions_qualified(sources.drop_last(), qualifier);
        if sources.last().1 == qualifier {
            earlier.push(sources.len() - 1)
        } else {
            earlier
        }
    }
}

/// `r` is the failure `kind` about `subject` at `span`.
pub open spec fn fails_with<T>(
    r: Result<T, BindError>,
    kind: spec_fn(BindErrorKind) -> bool,
    subject: Seq<char>,
    span: Span,
) -> bool {
    r matches Err(e) && kind(e.kind) && e.kind.subject() == subject && e.span == span
}

/// The outcome of choosing the one field among the candidates named `name`.
pub open spec fn column_outcome(
    r: Result<FieldId, BindError>,
    candidates: Seq<FieldId>,
    name: Seq<char>,
    span: Span,
) -> bool {
    if candidates.len() == 1 {
        r == Ok::<FieldId, BindError>(candidates[0])
    } else if candidates.len() == 0 {
        fails_with(r, |k: BindErrorKind| k is UnknownColumn, name, span)
    } else {
        fails_with(r, |k: BindErrorKind| k is AmbiguousColumn, name, span)
    }
}

/// How a possibly qualified column reference resolves against relation sources.
pub open spec fn source_resolution(
    r: Result<FieldId, BindError>,
    parsed: ParsedProgram,
    qualifier: Option<ast::Identifier>,
    name: ast::Identifier,
    sources: Seq<OccurrenceView>,
) -> bool {
    let field_name = name_of(parsed, name);
    match qualifier {
        Some(q) => {
            let positions = positions_qualified(sources, name_of(parsed, q));
            if positions.len() != 1 {
                fails_with(r, |k: BindErrorKind| k is UnknownQualifier, name_of(parsed, q), q.span)
            } else {
                column_outcome(r, ids_named(sources[positions[0]].2, field_name), field_name, name.span)
            }
        },
        None => column_outcome(r, ids_named(flattened(sources), field_name), field_name, name.span),
    }
}

proof fn lemma_ids_named_extend(fields: Seq<FieldView>, next: FieldView, name: Seq<char>)
    ensures
        ids_named(fields.push(next), name) == if next.1 == name {
            ids_named(fields, name).push(next.0)
        } else {
            ids_named(fields, name)
        },
{
    assert(fields.push(next).drop_last() =~= fields);
}

proof fn lemma_flattened_extend(sources: Seq<OccurrenceView>, next: OccurrenceView)
    ensures
        flattened(sources.push(next)) == flattened(sources) + next.2,
{
    assert(sources.push(next).drop_last() =~= sources);
}

proof fn lemma_positions_extend(sources: Seq<OccurrenceView>, next: OccurrenceView, q: Seq<char>)
    ensures
        positions_qualified(sources.push(next), q) == if next.1 == q {
            positions_qualified(sources, q).push(sources.len() as int)
        } else {
            positions_qualified(sources, q)
        },
{
    assert(sources.push(next).drop_last() =~= sources);
}

proof fn lemma_positions_in_range(sources: Seq<OccurrenceView>, q: Seq<char>)
    ensures
        forall|k: int|
            0 <= k < positions_qualified(sources, q).len() ==> 0 <= #[trigger] positions_qualified(
                sources,
                q,
            )[k] < sources.len(),
    decreases sources.len(),
{
    if sources.len() > 0 {
        lemma_positions_in_range(sources.drop_last(), q);
        let earlier = positions_qualified(sources.drop_last(), q);
        assert forall|k: int|
            0 <= k < positions_qualified(sources, q).len() implies 0 <= #[trigger] positions_qualified(
                sources,
                q,
            )[k] < sources.len() by {
            if k < earlier.len() {
                assert(0 <= earlier[k] < sources.len() - 1);
            }
        }
    }
}

/// The identities of the fields named `name` among `fields`.
fn field_ids_named(fields: &[BoundField], name: &Name) -> (ids: Vec<FieldId>)
    ensures
        ids@ == ids_named(fields_view(fields@), name@),
{
    let mut ids: Vec<FieldId> = Vec::new();
    let mut index: usize = 0;
    while index < fields.len()
        invariant
            index <= fields@.len(),
            ids@ == ids_named(fields_view(fields@.subrange(0, index as int)), name@),
        decreases fields@.len() - index,
    {
        proof {
            lemma_ids_named_extend(
                fields_view(fields@.subrange(0, index as int)),
                field_view(fields@[index as int]),
                name@,
            );
            assert(fields_view(fields@.subrange(0, index + 1)) =~= fields_view(
                fields@.subrange(0, index as int),
            ).push(field_view(fields@[index as int])));
        }
        if fields[index].name.same(name) {
            ids.push(fields[index].id);
        }
        index = index + 1;
    }
    assert(fields@.subrange(0, fields@.len() as int) =~= fields@);
    ids
}

/// The identities of the fields named `name` among all fields of `sources`.
fn source_ids_named(sources: &[BoundOccurrence], name: &Name) -> (ids: Vec<FieldId>)
    ensures
        ids@ == ids_named(flattened(sources_view(sources@)), name@),
{
    let mut ids: Vec<FieldId> = Vec::new();
    let mut index: usize = 0;
    while index < sources.len()
        invariant
            index <= sources@.len(),
            ids@ == ids_named(flattened(sources_view(sources@.subrange(0, index as int))), name@),
        decreases sources@.len() - index,
    {
        let fields = &sources[index].fields;
        let ghost before = flattened(sources_view(sources@.subrange(0, index as int)));
        proof {
            assert(sources_view(sources@.subrange(0, index + 1)) =~= sources_view(
                sources@.subrange(0, index as int),
            ).push(occurrence_view(sources@[index as int])));
            lemma_flattened_extend(
                sources_view(sources@.subrange(0, index as int)),
                occurrence_view(sources@[index as int]),
            );
        }
        let mut inner: usize = 0;
        while inner < fields.len()
            invariant
                inner <= fields@.len(),
                ids@ == ids_named(before + fields_view(fields@.subrange(0, inner as int)), name@),
            decreases fields@.len() - inner,
        {
            proof {
                lemma_ids_named_extend(
                    before + fields_view(fields@.subrange(0, inner as int)),
                    field_view(fields@[inner as int]),
                    name@,
                );
                assert(before + fields_view(fields@.subrange(0, inner + 1)) =~= (before
                    + fields_view(fields@.subrange(0, inner as int))).push(
                    field_view(fields@[inner as int]),
                ));
            }
            if fields[inner].name.same(name) {
                ids.push(fields[inner].id);
            }
            inner = inner + 1;
        }
        assert(fields@.subrange(0, fields@.len() as int) =~= fields@);
        index = index + 1;
    }
    assert(sources@.subrange(0, sources@.len() as int) =~= sources@);
    ids
}

/// The positions of the sources qualified by `qualifier`.
fn qualified_positions(sources: &[BoundOccurrence], qualifier: &Name) -> (positions: Vec<usize>)
    ensures
        positions@.len() == positions_qualified(sources_view(sources@), qualifier@).len(),
        forall|k: int|
            0 <= k < positions@.len() ==> positions@[k] == positions_qualified(
                sources_view(sources@),
                qualifier@,
            )[k],
{
    let mut positions: Vec<usize> = Vec::new();
    let mut index: usize = 0;
    while index < sources.len()
        invariant
            index <= sources@.len(),
            positions@.len() == positions_qualified(
                sources_view(sources@.subrange(0, index as int)),
                qualifier@,
            ).len(),
            forall|k: int|
                0 <= k < positions@.len() ==> positions@[k] == positions_qualified(
                    sources_view(sources@.subrange(0, index as int)),
                    qualifier@,
                )[k],
        decreases sources@.len() - index,
    {
        proof {
            assert(sources_view(sources@.subrange(0, index + 1)) =~= sources_view(
                sources@.subrange(0, index as int),
            ).push(occurrence_view(sources@[index as int])));
            lemma_positions_extend(
                sources_view(sources@.subrange(0, index as int)),
                occurrence_view(sources@[index as int]),
                qualifier@,
            );
        }
        if sources[index].qualifier.same(qualifier) {
            positions.push(index);
        }
        index = index + 1;
    }
    assert(sources@.subrange(0, sources@.len() as int) =~= sources@);
    positions
}

fn column_choice(candidates: Vec<FieldId>, name: Name, span: Span) -> (r: Result<FieldId, BindError>)
    ensures
        column_outcome(r, candidates@, name@, span),
{
    if candidates.len() == 1 {
        Ok(candidates[0])
    } else if candidates.len() == 0 {
        Err(BindError { kind: BindErrorKind::UnknownColumn(name), span })
    } else {
        Err(BindError { kind: BindErrorKind::AmbiguousColumn(name), span })
    }
}

/// Resolves a possibly qualified column reference against relation sources.
fn resolve_source_field(
    parsed: &ParsedProgram,
    qualifier: Option<ast::Identifier>,
    name: ast::Identifier,
    sources: &[BoundOccurrence],
) -> (r: Result<FieldId, BindError>)
    ensures
        source_resolution(r, *parsed, qualifier, name, sources_view(sources@)),
{
    let name_value = parsed.identifier_name(name);
    match qualifier {
        Some(qualifier) => {
            let qualifier_value = parsed.identifier_name(qualifier);
            let positions = qualified_positions(sources, &qualifier_value);
            if positions.len() != 1 {
                return Err(
                    BindError {
                        kind: BindErrorKind::UnknownQualifier(qualifier_value),
                        span: qualifier.span,
                    },
                );
            }
            proof {
                lemma_positions_in_range(sources_view(sources@), qualifier_value@);
                assert(positions@[0] == positions_qualified(
                    sources_view(sources@),
                    qualifier_value@,
                )[0]);
            }
            let source = &sources[positions[0]];
            let candidates = field_ids_named(source.fields.as_slice(), &name_value);
            column_choice(candidates, name_value, name.span)
        },
        None => {
            let candidates = source_ids_named(sources, &name_value);
            column_choice(candidates, name_value, name.span)
        },
    }
}


// ---------------------------------------------------------------------------
// What binding keeps of the syntax
// ---------------------------------------------------------------------------

pub open spec fn scalar_type_of(scalar_type: ast::ScalarType) -> ScalarType {
    match scalar_type {
        ast::ScalarType::Boolean => ScalarType::Boolean,
        ast::ScalarType::Int64 => ScalarType::Int64,
        ast::ScalarType::Text => ScalarType::Text,
    }
}

fn convert_scalar_type(scalar_type: ast::ScalarType) -> (converted: ScalarType)
    ensures
        converted == scalar_type_of(scalar_type),
{
    match scalar_type {
        ast::ScalarType::Boolean => ScalarType::Boolean,
        ast::ScalarType::Int64 => ScalarType::Int64,
        ast::ScalarType::Text => ScalarType::Text,
    }
}

/// A bound literal holds the value that its source literal spells.
pub open spec fn literal_mirrors(parsed: ParsedProgram, literal: ast::Literal, value: LiteralValue) -> bool {
    match literal {
        ast::Literal::Integer(l) => value matches LiteralValue::Integer(s) && s@ == integer_text_of(parsed, l),
        ast::Literal::Text(l) => value matches LiteralValue::Text(s) && s@ == text_of(parsed, l),
        ast::Literal::Boolean { value: b, .. } => value matches LiteralValue::Boolean(c) && c == b,
        ast::Literal::Null { .. } => value is Null,
    }
}

/// The bound expression has the shape, operators, literals, and spans of its
/// syntax; each column reference has become a resolved field.
pub open spec fn expression_mirrors(
    parsed: ParsedProgram,
    syntax: ast::Expression,
    bound: BoundExpression,
) -> bool
    decreases syntax,
{
    &&& bound.span == syntax.spec_span()
    &&& match syntax {
        ast::Expression::Literal(literal) => bound.kind matches ExpressionKind::Literal(value)
            && literal_mirrors(parsed, literal, value),
        ast::Expression::ColumnReference { .. } => bound.kind is Field,
        ast::Expression::Parenthesized { expression, .. } => bound.kind matches ExpressionKind::Parenthesized(
            inner,
        ) && expression_mirrors(parsed, *expression, *inner),
        ast::Expression::Unary { operator, expression, .. } => bound.kind matches ExpressionKind::Unary {
            operator: o,
            expression: inner,
        } && o == operator && expression_mirrors(parsed, *expression, *inner),
        ast::Expression::Binary { left, operator, right, .. } => bound.kind matches ExpressionKind::Binary {
            left: l,
            operator: o,
            right: r,
        } && o == operator && expression_mirrors(parsed, *left, *l) && expression_mirrors(
            parsed,
            *right,
            *r,
        ),
        ast::Expression::IsNull { expression, negated, .. } => bound.kind matches ExpressionKind::IsNull {
            expression: inner,
            negated: n,
        } && n == negated && expression_mirrors(parsed, *expression, *inner),
        ast::Expression::InList { expression, negated, values, .. } => bound.kind matches ExpressionKind::InList {
            expression: inner,
            negated: n,
            values: bound_values,
        } && n == negated && expression_mirrors(parsed, *expression, *inner) && bound_values@.len()
            == values@.len() && forall|k: int|
            0 <= k < values@.len() ==> expression_mirrors(parsed, #[trigger] values@[k], bound_values@[k]),
        ast::Expression::InQuery { expression, negated, query, .. } => bound.kind matches ExpressionKind::InQuery {
            expression: inner,
            negated: n,
            query: q,
        } && n == negated && expression_mirrors(parsed, *expression, *inner) && query_mirrors(
            parsed,
            *query,
            *q,
        ),
        ast::Expression::Case { branches, else_expression, .. } => bound.kind matches ExpressionKind::Case {
            branches: bound_branches,
            else_expression: bound_else,
        } && bound_branches@.len() == branches@.len() && (forall|k: int|
            0 <= k < branches@.len() ==> when_mirrors(parsed, branches@[k], #[trigger] bound_branches@[k]))
            && match (else_expression, bound_else) {
            (Some(e), Some(b)) => expression_mirrors(parsed, *e, *b),
            (None, None) => true,
            _ => false,
        },
        ast::Expression::Cast { expression, scalar_type, .. } => bound.kind matches ExpressionKind::Cast {
            expression: inner,
            scalar_type: t,
        } && t == scalar_type_of(scalar_type) && expression_mirrors(parsed, *expression, *inner),
        ast::Expression::Exists { query, .. } => bound.kind matches ExpressionKind::Exists { query: q }
            && query_mirrors(parsed, *query, *q),
        ast::Expression::Aggregate { function, argument, window, .. } => bound.kind matches ExpressionKind::Aggregate {
            function: f,
            argument: a,
            window: w,
        } && f == function && match (argument, a) {
            (ast::AggregateArgument::Star(s1), AggregateArgument::Star(s2)) => s1 == s2,
            (ast::AggregateArgument::Expression(e), AggregateArgument::Expression(b)) => expression_mirrors(
                parsed,
                *e,
                *b,
            ),
            _ => false,
        } && match (window, w) {
            (Some(sw), Some(bw)) => bw.span == sw.span && bw.partition_by@.len()
                == sw.partition_by@.len() && forall|k: int|
                0 <= k < sw.partition_by@.len() ==> expression_mirrors(
                    parsed,
                    #[trigger] sw.partition_by@[k],
                    bw.partition_by@[k],
                ),
            (None, None) => true,
            _ => false,
        },
        ast::Expression::Ranking { function, partition_by, order_by, .. } => bound.kind matches ExpressionKind::Ranking {
            function: f,
            partition_by: p,
            order_by: o,
        } && f == function && p@.len() == partition_by@.len() && (forall|k: int|
            0 <= k < partition_by@.len() ==> expression_mirrors(parsed, #[trigger] partition_by@[k], p@[k]))
            && o@.len() == order_by@.len() && forall|k: int|
            0 <= k < order_by@.len() ==> ordering_kept(order_by@[k], #[trigger] o@[k])
                && expression_mirrors(parsed, order_by@[k].expression, o@[k].expression),
    }
}

/// The bound branch has the span of its syntax, and its condition and result
/// mirror the syntax's.
pub open spec fn when_mirrors(
    parsed: ParsedProgram,
    syntax: ast::WhenClause,
    bound: WhenClause<(), BoundFieldAnnotation>,
) -> bool
    decreases syntax,
{
    &&& bound.span == syntax.span
    &&& expression_mirrors(parsed, syntax.condition, bound.condition)
    &&& expression_mirrors(parsed, syntax.result, bound.result)
}

/// The bound ordering item keeps the span, direction, and null placement of its syntax.
pub open spec fn ordering_kept(syntax: ast::OrderItem, bound: OrderItem<(), BoundFieldAnnotation>) -> bool {
    bound.span == syntax.span && bound.direction == syntax.direction && bound.null_placement
        == syntax.null_placement
}

/// A query-level ordering item: an integer literal names a result field by
/// its ordinal position, and any other expression is bound in place.
pub open spec fn order_item_mirrors(
    parsed: ParsedProgram,
    syntax: ast::OrderItem,
    bound: OrderItem<(), BoundFieldAnnotation>,
) -> bool
    decreases syntax,
{
    &&& ordering_kept(syntax, bound)
    &&& if syntax.expression matches ast::Expression::Literal(ast::Literal::Integer(_)) {
        bound.expression.kind is Field && bound.expression.span == syntax.expression.spec_span()
    } else {
        expression_mirrors(parsed, syntax.expression, bound.expression)
    }
}

pub open spec fn option_mirrors(
    parsed: ParsedProgram,
    syntax: Option<ast::Expression>,
    bound: Option<BoundExpression>,
) -> bool
    decreases syntax,
{
    match (syntax, bound) {
        (Some(s), Some(b)) => expression_mirrors(parsed, s, b),
        (None, None) => true,
        _ => false,
    }
}

/// The occurrences that a joined table contributes, left to right.
pub open spec fn joined_sources(joined: JoinedTable<(), BoundFieldAnnotation>) -> Seq<OccurrenceView> {
    seq![occurrence_view(joined.left.spec_occurrence())] + joined.joins@.map_values(
        |join: Join<(), BoundFieldAnnotation>| occurrence_view(join.right.spec_occurrence()),
    )
}

/// The occurrences of a FROM list, left to right.
pub open spec fn from_sources(from: Seq<JoinedTable<(), BoundFieldAnnotation>>) -> Seq<OccurrenceView>
    decreases from.len(),
{
    if from.len() == 0 {
        Seq::empty()
    } else {
        from_sources(from.drop_last()) + joined_sources(from.last())
    }
}

/// Whether an expression holds a grouping (non-window) aggregate outside
/// nested queries.
pub open spec fn has_grouping_aggregate(expression: BoundExpression) -> bool
    decreases expression,
{
    match expression.kind {
        ExpressionKind::Aggregate { argument, window, .. } => window is None || (match argument {
            AggregateArgument::Expression(e) => has_grouping_aggregate(*e),
            AggregateArgument::Star(_) => false,
        }) || (window matches Some(w) && exists|k: int|
            0 <= k < w.partition_by@.len() && has_grouping_aggregate(#[trigger] w.partition_by@[k])),
        ExpressionKind::Parenthesized(e) => has_grouping_aggregate(*e),
        ExpressionKind::Unary { expression: e, .. } => has_grouping_aggregate(*e),
        ExpressionKind::IsNull { expression: e, .. } => has_grouping_aggregate(*e),
        ExpressionKind::Cast { expression: e, .. } => has_grouping_aggregate(*e),
        ExpressionKind::Binary { left, right, .. } => has_grouping_aggregate(*left)
            || has_grouping_aggregate(*right),
        ExpressionKind::InList { expression: e, values, .. } => has_grouping_aggregate(*e) || exists|
            k: int,
        | 0 <= k < values@.len() && has_grouping_aggregate(#[trigger] values@[k]),
        ExpressionKind::Case { branches, else_expression } => (exists|k: int|
            0 <= k < branches@.len() && (has_grouping_aggregate(#[trigger] branches@[k].condition)
                || has_grouping_aggregate(branches@[k].result))) || (else_expression matches Some(
            e,
        ) && has_grouping_aggregate(*e)),
        ExpressionKind::Ranking { partition_by, order_by, .. } => (exists|k: int|
            0 <= k < partition_by@.len() && has_grouping_aggregate(#[trigger] partition_by@[k]))
            || exists|k: int|
            0 <= k < order_by@.len() && has_grouping_aggregate(#[trigger] order_by@[k].expression),
        ExpressionKind::InQuery { expression: e, .. } => has_grouping_aggregate(*e),
        ExpressionKind::Literal(_) => false,
        ExpressionKind::Field(_) => false,
        ExpressionKind::Exists { .. } => false,
    }
}

pub open spec fn joined_mirrors(
    parsed: ParsedProgram,
    syntax: ast::JoinedTable,
    bound: JoinedTable<(), BoundFieldAnnotation>,
) -> bool
    decreases syntax,
{
    &&& bound.span == syntax.span
    &&& table_mirrors(parsed, syntax.left, bound.left)
    &&& bound.joins@.len() == syntax.joins@.len()
    &&& forall|k: int|
        0 <= k < syntax.joins@.len() ==> #[trigger] bound.joins@[k].kind == syntax.joins@[k].kind
            && bound.joins@[k].span == syntax.joins@[k].span && table_mirrors(
            parsed,
            syntax.joins@[k].right,
            bound.joins@[k].right,
        ) && option_mirrors(parsed, syntax.joins@[k].condition, bound.joins@[k].condition)
}

pub open spec fn table_mirrors(
    parsed: ParsedProgram,
    syntax: ast::TablePrimary,
    bound: TablePrimary<(), BoundFieldAnnotation>,
) -> bool
    decreases syntax,
{
    &&& bound.spec_span() == syntax.spec_span()
    &&& match syntax {
        ast::TablePrimary::Named { name, alias, .. } => (bound is Catalog || bound is CommonTableExpression)
            && bound.spec_occurrence().qualifier@ == match alias {
            Some(a) => name_of(parsed, a),
            None => name_of(parsed, name),
        },
        ast::TablePrimary::Derived { query, alias, .. } => bound matches TablePrimary::Derived {
            query: q,
            occurrence,
            ..
        } && query_mirrors(parsed, *query, *q) && occurrence.qualifier@ == name_of(parsed, alias)
            && occurrence.fields@.len() == q.result_fields@.len() && forall|k: int|
            0 <= k < q.result_fields@.len() ==> #[trigger] occurrence.fields@[k].name@
                == q.result_fields@[k].name@,
    }
}

pub open spec fn select_mirrors(
    parsed: ParsedProgram,
    syntax: ast::SelectQuery,
    bound: SelectQuery<(), BoundFieldAnnotation>,
) -> bool
    decreases syntax,
{
    &&& bound.span == syntax.span
    &&& bound.distinct == syntax.distinct
    &&& bound.from@.len() == syntax.from@.len()
    &&& forall|k: int|
        0 <= k < syntax.from@.len() ==> joined_mirrors(parsed, #[trigger] syntax.from@[k], bound.from@[k])
    &&& fields_view(bound.source_fields@) == flattened(from_sources(bound.from@))
    &&& option_mirrors(parsed, syntax.where_clause, bound.where_clause)
    &&& bound.group_by@.len() == syntax.group_by@.len()
    &&& forall|k: int|
        0 <= k < syntax.group_by@.len() ==> expression_mirrors(
            parsed,
            #[trigger] syntax.group_by@[k],
            bound.group_by@[k],
        )
    &&& option_mirrors(parsed, syntax.having, bound.having)
    &&& bound.result_fields@.len() == bound.select_list@.len()
    &&& forall|k: int|
        0 <= k < bound.select_list@.len() ==> field_view(#[trigger] bound.result_fields@[k])
            == field_view(bound.select_list@[k].output)
    &&& bound.is_aggregate == (bound.group_by@.len() > 0 || (exists|k: int|
        0 <= k < bound.select_list@.len() && has_grouping_aggregate(
            #[trigger] bound.select_list@[k].expression,
        )) || (bound.having matches Some(h) && has_grouping_aggregate(h)))
}

pub open spec fn body_mirrors(
    parsed: ParsedProgram,
    syntax: ast::QueryBody,
    bound: QueryBody<(), BoundFieldAnnotation>,
) -> bool
    decreases syntax,
{
    match syntax {
        ast::QueryBody::Select(select) => bound matches QueryBody::Select(b) && select_mirrors(
            parsed,
            *select,
            *b,
        ),
        ast::QueryBody::Parenthesized { query, span } => bound matches QueryBody::Parenthesized {
            query: q,
            span: s,
        } && s == span && query_mirrors(parsed, *query, *q),
        ast::QueryBody::SetOperation { left, operator, all, right, span } => bound matches QueryBody::SetOperation {
            left: l,
            operator: o,
            all: a,
            right: r,
            result_fields,
            span: s,
        } && o == operator && a == all && s == span && body_mirrors(parsed, *left, *l) && body_mirrors(
            parsed,
            *right,
            *r,
        ) && result_fields@.len() == l.spec_result_fields().len() && forall|k: int|
            0 <= k < result_fields@.len() ==> #[trigger] result_fields@[k].name@
                == l.spec_result_fields()[k].name@ && result_fields@[k].annotation is None,
    }
}

pub open spec fn integer_value_mirrors(
    parsed: ParsedProgram,
    syntax: Option<ast::IntegerLiteral>,
    bound: Option<IntegerValue>,
) -> bool {
    match (syntax, bound) {
        (Some(l), Some(v)) => v.span == l.span && v.spelling@ == integer_text_of(parsed, l),
        (None, None) => true,
        _ => false,
    }
}

/// The bound query has the declarations, body, ordering, and row bound of its
/// syntax, and its result fields are those of its body.
pub open spec fn query_mirrors(
    parsed: ParsedProgram,
    syntax: ast::QueryExpression,
    bound: BoundQueryExpression,
) -> bool
    decreases syntax,
{
    &&& bound.span == syntax.span
    &&& bound.common_table_expressions@.len() == syntax.common_table_expressions@.len()
    &&& forall|k: int|
        0 <= k < syntax.common_table_expressions@.len() ==> #[trigger] bound.common_table_expressions@[k].span
            == syntax.common_table_expressions@[k].span && bound.common_table_expressions@[k].name@
            == name_of(parsed, syntax.common_table_expressions@[k].name) && query_mirrors(
            parsed,
            *syntax.common_table_expressions@[k].query,
            *bound.common_table_expressions@[k].query,
        )
    &&& body_mirrors(parsed, syntax.body, bound.body)
    &&& bound.order_by@.len() == syntax.order_by@.len()
    &&& forall|k: int|
        0 <= k < syntax.order_by@.len() ==> order_item_mirrors(
            parsed,
            #[trigger] syntax.order_by@[k],
            bound.order_by@[k],
        )
    &&& match (syntax.row_bound, bound.row_bound) {
        (Some(s), Some(b)) => b.span == s.span && integer_value_mirrors(parsed, s.limit, b.limit)
            && integer_value_mirrors(parsed, s.offset, b.offset),
        (None, None) => true,
        _ => false,
    }
    &&& fields_view(bound.result_fields@) == fields_view(bound.body.spec_result_fields())
}

// ---------------------------------------------------------------------------
// Small helpers
// ---------------------------------------------------------------------------

fn copy_field(field: &BoundField) -> (copy: BoundField)
    ensures
        copy.id == field.id,
        copy.name@ == field.name@,
        copy.annotation == field.annotation,
{
    Field { id: field.id, name: field.name.clone(), annotation: field.annotation }
}

fn copy_fields(fields: &[BoundField]) -> (copies: Vec<BoundField>)
    ensures
        copies@.len() == fields@.len(),
        forall|k: int|
            0 <= k < fields@.len() ==> (#[trigger] copies@[k]).id == fields@[k].id && copies@[k].name@
                == fields@[k].name@ && copies@[k].annotation == fields@[k].annotation,
        fields_view(copies@) == fields_view(fields@),
{
    let mut copies: Vec<BoundField> = Vec::new();
    let mut index: usize = 0;
    while index < fields.len()
        invariant
            index <= fields@.len(),
            copies@.len() == index,
            forall|k: int|
                0 <= k < index ==> (#[trigger] copies@[k]).id == fields@[k].id && copies@[k].name@
                    == fields@[k].name@ && copies@[k].annotation == fields@[k].annotation,
        decreases fields@.len() - index,
    {
        copies.push(copy_field(&fields[index]));
        index = index + 1;
    }
    assert(fields_view(copies@) =~= fields_view(fields@));
    copies
}

fn copy_occurrence(occurrence: &BoundOccurrence) -> (copy: BoundOccurrence)
    ensures
        occurrence_view(copy) == occurrence_view(*occurrence),
{
    RelationOccurrence {
        id: occurrence.id,
        qualifier: occurrence.qualifier.clone(),
        fields: copy_fields(occurrence.fields.as_slice()),
    }
}

fn copy_occurrences(occurrences: &[BoundOccurrence]) -> (copies: Vec<BoundOccurrence>)
    ensures
        sources_view(copies@) == sources_view(occurrences@),
{
    let mut copies: Vec<BoundOccurrence> = Vec::new();
    let mut index: usize = 0;
    while index < occurrences.len()
        invariant
            index <= occurrences@.len(),
            sources_view(copies@) == sources_view(occurrences@.subrange(0, index as int)),
        decreases occurrences@.len() - index,
    {
        let copy = copy_occurrence(&occurrences[index]);
        let ghost before = copies@;
        copies.push(copy);
        assert(copies@ == before.push(copy));
        assert forall|k: int| 0 <= k < index + 1 implies #[trigger] sources_view(copies@)[k]
            == sources_view(occurrences@.subrange(0, index + 1))[k] by {
            assert(occurrences@.subrange(0, index + 1)[k] == occurrences@[k]);
            if k < index {
                assert(copies@[k] == before[k]);
                assert(occurrences@.subrange(0, index as int)[k] == occurrences@[k]);
                assert(sources_view(before)[k] == sources_view(occurrences@.subrange(0, index as int))[k]);
            } else {
                assert(copies@[k] == copy);
            }
        }
        assert(sources_view(copies@) =~= sources_view(occurrences@.subrange(0, index + 1)));
        index = index + 1;
    }
    assert(occurrences@.subrange(0, occurrences@.len() as int) =~= occurrences@);
    copies
}

fn copy_chain(chain: &[usize]) -> (copy: Vec<usize>)
    ensures
        copy@ == chain@,
{
    let mut copy: Vec<usize> = Vec::new();
    let mut index: usize = 0;
    while index < chain.len()
        invariant
            index <= chain@.len(),
            copy@ == chain@.subrange(0, index as int),
        decreases chain@.len() - index,
    {
        copy.push(chain[index]);
        assert(copy@ =~= chain@.subrange(0, index + 1));
        index = index + 1;
    }
    assert(chain@.subrange(0, chain@.len() as int) =~= chain@);
    copy
}

/// The field that an expression is, looking through parentheses.
pub open spec fn spec_expression_field(expression: BoundExpression) -> Option<FieldId>
    decreases expression,
{
    match expression.kind {
        ExpressionKind::Field(field) => Some(field),
        ExpressionKind::Parenthesized(inner) => spec_expression_field(*inner),
        _ => None,
    }
}

fn expression_field(expression: &BoundExpression) -> (field: Option<FieldId>)
    ensures
        field == spec_expression_field(*expression),
    decreases *expression,
{
    match &expression.kind {
        ExpressionKind::Field(field) => Some(*field),
        ExpressionKind::Parenthesized(inner) => expression_field(inner),
        _ => None,
    }
}

/// The name of the first field, in source order, with identity `id`.
pub open spec fn name_with_id(fields: Seq<FieldView>, id: FieldId) -> Option<Seq<char>>
    decreases fields.len(),
{
    if fields.len() == 0 {
        None
    } else {
        match name_with_id(fields.drop_last(), id) {
            Some(name) => Some(name),
            None => if fields.last().0 == id {
                Some(fields.last().1)
            } else {
                None
            },
        }
    }
}

fn find_field_name(sources: &[BoundOccurrence], id: FieldId) -> (name: Option<Name>)
    ensures
        match name_with_id(flattened(sources_view(sources@)), id) {
            Some(n) => name matches Some(found) && found@ == n,
            None => name is None,
        },
{
    let mut index: usize = 0;
    while index < sources.len()
        invariant
            index <= sources@.len(),
            name_with_id(flattened(sources_view(sources@.subrange(0, index as int))), id) is None,
        decreases sources@.len() - index,
    {
        let fields = &sources[index].fields;
        let ghost before = flattened(sources_view(sources@.subrange(0, index as int)));
        proof {
            assert(sources_view(sources@.subrange(0, index + 1)) =~= sources_view(
                sources@.subrange(0, index as int),
            ).push(occurrence_view(sources@[index as int])));
            lemma_flattened_extend(
                sources_view(sources@.subrange(0, index as int)),
                occurrence_view(sources@[index as int]),
            );
        }
        let mut inner: usize = 0;
        while inner < fields.len()
            invariant
                inner <= fields@.len(),
                name_with_id(before + fields_view(fields@.subrange(0, inner as int)), id) is None,
            decreases fields@.len() - inner,
        {
            let ghost prefix = before + fields_view(fields@.subrange(0, inner as int));
            let ghost extended = before + fields_view(fields@.subrange(0, inner + 1));
            assert(extended.drop_last() =~= prefix);
            assert(extended.last() == field_view(fields@[inner as int]));
            if fields[inner].id == id {
                proof {
                    assert(fields_view(fields@.subrange(0, inner + 1)) + fields_view(
                        fields@.subrange(inner + 1, fields@.len() as int),
                    ) =~= fields_view(fields@));
                    assert(sources_view(sources@)[index as int].2 == fields_view(fields@));
                    assert(sources_view(sources@).subrange(0, index + 1) =~= sources_view(
                        sources@.subrange(0, index + 1),
                    ));
                    assert(extended + fields_view(fields@.subrange(inner + 1, fields@.len() as int))
                        =~= before + fields_view(fields@));
                    lemma_name_with_id_stable(
                        sources_view(sources@),
                        index as int,
                        extended,
                        fields_view(fields@.subrange(inner + 1, fields@.len() as int)),
                        id,
                    );
                }
                return Some(fields[inner].name.clone());
            }
            inner = inner + 1;
        }
        assert(fields@.subrange(0, fields@.len() as int) =~= fields@);
        index = index + 1;
    }
    assert(sources@.subrange(0, sources@.len() as int) =~= sources@);
    None
}

/// Once a name is found, later fields and sources do not change it.
proof fn lemma_name_with_id_stable(
    sources: Seq<OccurrenceView>,
    index: int,
    found_prefix: Seq<FieldView>,
    rest_of_source: Seq<FieldView>,
    id: FieldId,
)
    requires
        0 <= index < sources.len(),
        found_prefix + rest_of_source == flattened(sources.subrange(0, index + 1)),
        name_with_id(found_prefix, id) is Some,
    ensures
        name_with_id(flattened(sources), id) == name_with_id(found_prefix, id),
    decreases sources.len() - index,
{
    lemma_name_with_id_append(found_prefix, rest_of_source, id);
    if index + 1 < sources.len() {
        let next = flattened(sources.subrange(0, index + 1));
        assert(sources.subrange(0, index + 2).drop_last() =~= sources.subrange(0, index + 1));
        lemma_name_with_id_append(next, sources[index + 1].2, id);
        lemma_name_with_id_stable(sources, index + 1, next + sources[index + 1].2, Seq::empty(), id);
        assert(next + sources[index + 1].2 + Seq::<FieldView>::empty() =~= next + sources[index + 1].2);
    } else {
        assert(sources.subrange(0, index + 1) =~= sources);
    }
}

proof fn lemma_name_with_id_append(prefix: Seq<FieldView>, suffix: Seq<FieldView>, id: FieldId)
    requires
        name_with_id(prefix, id) is Some,
    ensures
        name_with_id(prefix + suffix, id) == name_with_id(prefix, id),
    decreases suffix.len(),
{
    if suffix.len() > 0 {
        lemma_name_with_id_append(prefix, suffix.drop_last(), id);
        assert((prefix + suffix).drop_last() =~= prefix + suffix.drop_last());
    } else {
        assert(prefix + suffix =~= prefix);
    }
}


// ---------------------------------------------------------------------------
// Common-table-expression scopes
// ---------------------------------------------------------------------------

struct CteDeclaration<'a> {
    id: CteId,
    name: Name,
    syntax: &'a ast::CommonTableExpression,
    scope: usize,
}

enum CteState {
    Unvisited,
    Binding,
    Bound { fields: Vec<BoundField>, query: Option<Box<BoundQueryExpression>> },
}

/// The declarations of one WITH list, stored contiguously, and the scopes
/// that are visible from it, innermost last.
struct CteScope {
    lexical_chain: Vec<usize>,
    first: usize,
    count: usize,
    finished: bool,
}

spec fn count_unvisited(states: Seq<CteState>) -> nat
    decreases states.len(),
{
    if states.len() == 0 {
        0
    } else {
        count_unvisited(states.drop_last()) + if states.last() is Unvisited {
            1nat
        } else {
            0nat
        }
    }
}

proof fn lemma_count_push(states: Seq<CteState>, next: CteState)
    ensures
        count_unvisited(states.push(next)) == count_unvisited(states) + if next is Unvisited {
            1nat
        } else {
            0nat
        },
{
    assert(states.push(next).drop_last() =~= states);
}

proof fn lemma_count_update(states: Seq<CteState>, index: int, next: CteState)
    requires
        0 <= index < states.len(),
    ensures
        count_unvisited(states.update(index, next)) + (if states[index] is Unvisited {
            1nat
        } else {
            0nat
        }) == count_unvisited(states) + if next is Unvisited {
            1nat
        } else {
            0nat
        },
    decreases states.len(),
{
    if index == states.len() - 1 {
        assert(states.update(index, next).drop_last() =~= states.drop_last());
    } else {
        lemma_count_update(states.drop_last(), index, next);
        assert(states.update(index, next).drop_last() =~= states.drop_last().update(index, next));
    }
}

spec fn chain_valid(chain: Seq<usize>, scope_count: int) -> bool {
    forall|k: int| 0 <= k < chain.len() ==> #[trigger] chain[k] < scope_count
}

spec fn state_progressed(before: CteState, after: CteState) -> bool {
    match before {
        CteState::Unvisited => true,
        CteState::Binding => after is Binding,
        CteState::Bound { .. } => after == before,
    }
}

struct Binder<'a> {
    parsed: &'a ParsedProgram,
    catalog: &'a Catalog,
    next_field: u32,
    next_occurrence: u32,
    next_cte: u32,
    scopes: Vec<CteScope>,
    declarations: Vec<CteDeclaration<'a>>,
    states: Vec<CteState>,
}

impl<'a> Binder<'a> {
    /// Declarations still to be bound plus declaration identities still free:
    /// binding a declaration uses up one, and a new WITH list trades identities
    /// for declarations.
    spec fn potential(&self) -> nat {
        count_unvisited(self.states@) + (u32::MAX - self.next_cte) as nat
    }

    spec fn scope_wf(&self, scope: CteScope, s: int) -> bool {
        &&& scope.first + scope.count <= self.declarations@.len()
        &&& chain_valid(scope.lexical_chain@, self.scopes@.len() as int)
        &&& forall|d: int|
            scope.first <= d < scope.first + scope.count ==> (#[trigger] self.declarations@[d]).scope
                == s
    }

    spec fn state_wf(&self, i: int) -> bool {
        match self.states@[i] {
            CteState::Bound { fields, query } => match query {
                Some(q) => query_mirrors(*self.parsed, *self.declarations@[i].syntax.query, *q)
                    && fields_view(fields@) == fields_view(q.result_fields@) && (forall|k: int|
                    0 <= k < fields@.len() ==> (#[trigger] fields@[k]).name@ == q.result_fields@[k].name@),
                None => self.scopes@[self.declarations@[i].scope as int].finished,
            },
            _ => true,
        }
    }

    spec fn wf(&self) -> bool {
        &&& self.states@.len() == self.declarations@.len()
        &&& forall|i: int|
            0 <= i < self.declarations@.len() ==> (#[trigger] self.declarations@[i]).scope
                < self.scopes@.len()
        &&& forall|s: int| 0 <= s < self.scopes@.len() ==> self.scope_wf(#[trigger] self.scopes@[s], s)
        &&& forall|i: int| 0 <= i < self.states@.len() ==> #[trigger] self.state_wf(i)
    }

    /// `next` is a later state of this binder: identities only advance, and
    /// earlier scopes, declarations, and states are kept, except scope `skip`
    /// and the states in `lo..hi`.
    spec fn advanced_to(&self, next: &Self, skip: int, lo: int, hi: int) -> bool {
        &&& next.parsed == self.parsed
        &&& next.catalog == self.catalog
        &&& next.potential() <= self.potential()
        &&& self.next_field <= next.next_field
        &&& self.next_occurrence <= next.next_occurrence
        &&& self.next_cte <= next.next_cte
        &&& self.scopes@.len() <= next.scopes@.len()
        &&& self.declarations@.len() <= next.declarations@.len()
        &&& forall|s: int|
            0 <= s < self.scopes@.len() && s != skip ==> #[trigger] next.scopes@[s] == self.scopes@[s]
        &&& forall|i: int|
            0 <= i < self.declarations@.len() ==> #[trigger] next.declarations@[i]
                == self.declarations@[i]
        &&& forall|i: int|
            0 <= i < self.states@.len() && !(lo <= i < hi) ==> state_progressed(
                self.states@[i],
                #[trigger] next.states@[i],
            )
    }

    spec fn advanced(&self, next: &Self) -> bool {
        self.advanced_to(next, -1, 0, 0)
    }

    /// Only the identity counters differ.
    spec fn same_scopes(&self, next: &Self) -> bool {
        &&& next.parsed == self.parsed
        &&& next.catalog == self.catalog
        &&& next.next_cte == self.next_cte
        &&& next.scopes == self.scopes
        &&& next.declarations == self.declarations
        &&& next.states == self.states
    }

    fn new(parsed: &'a ParsedProgram, catalog: &'a Catalog) -> (binder: Self)
        ensures
            binder.wf(),
            binder.parsed == parsed,
            binder.catalog == catalog,
            binder.scopes@.len() == 0,
    {
        Binder {
            parsed,
            catalog,
            next_field: 0,
            next_occurrence: 0,
            next_cte: 0,
            scopes: Vec::new(),
            declarations: Vec::new(),
            states: Vec::new(),
        }
    }

    fn fresh_field(&mut self, span: Span) -> (r: Result<FieldId, BindError>)
        ensures
            final(self).same_scopes(old(self)),
            old(self).wf() ==> final(self).wf(),
            final(self).next_occurrence == old(self).next_occurrence,
            match r {
                Ok(id) => id.0 == old(self).next_field && final(self).next_field == old(
                    self,
                ).next_field + 1,
                Err(e) => e.kind is IdentitySpaceExhausted && final(self).next_field == old(
                    self,
                ).next_field,
            },
    {
        if self.next_field == u32::MAX {
            return Err(BindError { kind: BindErrorKind::IdentitySpaceExhausted, span });
        }
        let id = FieldId::from_index(self.next_field);
        self.next_field = self.next_field + 1;
        proof {
            if old(self).wf() {
                lemma_wf_kept(old(self), self);
            }
        }
        Ok(id)
    }

    fn fresh_occurrence(&mut self, span: Span) -> (r: Result<RelationOccurrenceId, BindError>)
        ensures
            final(self).same_scopes(old(self)),
            old(self).wf() ==> final(self).wf(),
            final(self).next_field == old(self).next_field,
            match r {
                Ok(id) => id.0 == old(self).next_occurrence && final(self).next_occurrence == old(
                    self,
                ).next_occurrence + 1,
                Err(e) => e.kind is IdentitySpaceExhausted && final(self).next_occurrence == old(
                    self,
                ).next_occurrence,
            },
    {
        if self.next_occurrence == u32::MAX {
            return Err(BindError { kind: BindErrorKind::IdentitySpaceExhausted, span });
        }
        let id = RelationOccurrenceId::from_index(self.next_occurrence);
        self.next_occurrence = self.next_occurrence + 1;
        proof {
            if old(self).wf() {
                lemma_wf_kept(old(self), self);
            }
        }
        Ok(id)
    }

    fn fresh_result_field(&mut self, name: Name, span: Span) -> (r: Result<BoundField, BindError>)
        ensures
            final(self).same_scopes(old(self)),
            old(self).wf() ==> final(self).wf(),
            final(self).next_occurrence == old(self).next_occurrence,
            old(self).next_field <= final(self).next_field,
            r matches Ok(field) ==> field.name@ == name@ && field.annotation is None && field.id.0
                == old(self).next_field,
            r matches Err(e) ==> e.kind is IdentitySpaceExhausted,
    {
        let id = self.fresh_field(span)?;
        Ok(Field { id, name, annotation: None })
    }

    /// A fresh occurrence of a relation whose fields are named as `source_fields`.
    fn instantiate_occurrence(
        &mut self,
        qualifier: Name,
        source_fields: &[BoundField],
        span: Span,
    ) -> (r: Result<BoundOccurrence, BindError>)
        ensures
            final(self).same_scopes(old(self)),
            old(self).wf() ==> final(self).wf(),
            old(self).next_field <= final(self).next_field,
            old(self).next_occurrence <= final(self).next_occurrence,
            r matches Ok(occurrence) ==> occurrence.qualifier@ == qualifier@
                && occurrence.fields@.len() == source_fields@.len() && forall|k: int|
                0 <= k < source_fields@.len() ==> #[trigger] occurrence.fields@[k].name@
                    == source_fields@[k].name@ && occurrence.fields@[k].annotation is None,
            r matches Err(e) ==> e.kind is IdentitySpaceExhausted,
    {
        let mut fields: Vec<BoundField> = Vec::new();
        let mut index: usize = 0;
        while index < source_fields.len()
            invariant
                self.same_scopes(old(self)),
                old(self).wf() ==> self.wf(),
                old(self).next_field <= self.next_field,
                self.next_occurrence == old(self).next_occurrence,
                index <= source_fields@.len(),
                fields@.len() == index,
                forall|k: int|
                    0 <= k < index ==> #[trigger] fields@[k].name@ == source_fields@[k].name@
                        && fields@[k].annotation is None,
            decreases source_fields@.len() - index,
        {
            let id = self.fresh_field(span)?;
            fields.push(Field { id, name: source_fields[index].name.clone(), annotation: None });
            index = index + 1;
        }
        let id = self.fresh_occurrence(span)?;
        Ok(RelationOccurrence { id, qualifier, fields })
    }

    fn bind_catalog_occurrence(
        &mut self,
        relation: &CatalogRelation,
        qualifier: Name,
        span: Span,
    ) -> (r: Result<TablePrimary<(), BoundFieldAnnotation>, BindError>)
        ensures
            final(self).same_scopes(old(self)),
            old(self).wf() ==> final(self).wf(),
            old(self).next_field <= final(self).next_field,
            old(self).next_occurrence <= final(self).next_occurrence,
            r matches Ok(table) ==> table is Catalog && table.spec_span() == span
                && table.spec_occurrence().qualifier@ == qualifier@,
            r matches Err(e) ==> e.kind is IdentitySpaceExhausted,
    {
        let mut fields: Vec<BoundField> = Vec::new();
        let mut index: usize = 0;
        while index < relation.fields.len()
            invariant
                self.same_scopes(old(self)),
                old(self).wf() ==> self.wf(),
                old(self).next_field <= self.next_field,
                self.next_occurrence == old(self).next_occurrence,
                index <= relation.fields@.len(),
            decreases relation.fields@.len() - index,
        {
            let id = self.fresh_field(span)?;
            let field = &relation.fields[index];
            fields.push(Field { id, name: field.name.clone(), annotation: Some(field.descriptor) });
            index = index + 1;
        }
        let id = self.fresh_occurrence(span)?;
        Ok(
            TablePrimary::Catalog {
                binding: relation.binding.clone(),
                occurrence: RelationOccurrence { id, qualifier, fields },
                span,
            },
        )
    }
}


/// The positions of the catalog relations named `name`, in order.
pub open spec fn relations_named(relations: Seq<CatalogRelation>, name: Seq<char>) -> Seq<int>
    decreases relations.len(),
{
    if relations.len() == 0 {
        Seq::empty()
    } else {
        let earlier = relations_named(relations.drop_last(), name);
        if relations.last().name@ == name {
            earlier.push(relations.len() - 1)
        } else {
            earlier
        }
    }
}

pub open spec fn names_view(names: Seq<Name>) -> Seq<Seq<char>> {
    names.map_values(|name: Name| name@)
}

fn contains_name(names: &Vec<Name>, name: &Name) -> (r: bool)
    ensures
        r == names_view(names@).contains(name@),
{
    let mut index: usize = 0;
    while index < names.len()
        invariant
            index <= names@.len(),
            forall|k: int| 0 <= k < index ==> names_view(names@)[k] != name@,
        decreases names@.len() - index,
    {
        if names[index].same(name) {
            assert(names_view(names@)[index as int] == name@);
            return true;
        }
        index = index + 1;
    }
    false
}

/// Records the qualifier of `occurrence` among the qualifiers of one query block.
fn register_qualifier(
    occurrence: &BoundOccurrence,
    qualifiers: &mut Vec<Name>,
    span: Span,
) -> (r: Result<(), BindError>)
    ensures
        names_view(old(qualifiers)@).contains(occurrence.qualifier@) ==> fails_with(
            r,
            |k: BindErrorKind| k is DuplicateSourceQualifier,
            occurrence.qualifier@,
            span,
        ) && final(qualifiers)@ == old(qualifiers)@,
        !names_view(old(qualifiers)@).contains(occurrence.qualifier@) ==> r is Ok && names_view(
            final(qualifiers)@,
        ) == names_view(old(qualifiers)@).push(occurrence.qualifier@),
{
    if contains_name(qualifiers, &occurrence.qualifier) {
        return Err(
            BindError {
                kind: BindErrorKind::DuplicateSourceQualifier(occurrence.qualifier.clone()),
                span,
            },
        );
    }
    let ghost before = qualifiers@;
    qualifiers.push(occurrence.qualifier.clone());
    assert(names_view(qualifiers@) =~= names_view(before).push(occurrence.qualifier@));
    Ok(())
}

/// The occurrences of a bound query block's FROM list, left to right.
fn select_occurrences(select: &SelectQuery<(), BoundFieldAnnotation>) -> (occurrences: Vec<
    BoundOccurrence,
>)
    ensures
        sources_view(occurrences@) == from_sources(select.from@),
{
    let mut occurrences: Vec<BoundOccurrence> = Vec::new();
    let mut index: usize = 0;
    while index < select.from.len()
        invariant
            index <= select.from@.len(),
            sources_view(occurrences@) == from_sources(select.from@.subrange(0, index as int)),
        decreases select.from@.len() - index,
    {
        let joined = &select.from[index];
        let ghost before = occurrences@;
        occurrences.push(copy_occurrence(joined.left.occurrence()));
        let mut inner: usize = 0;
        while inner < joined.joins.len()
            invariant
                inner <= joined.joins@.len(),
                sources_view(occurrences@) == sources_view(before) + seq![
                    occurrence_view(joined.left.spec_occurrence()),
                ] + joined.joins@.subrange(0, inner as int).map_values(
                    |join: Join<(), BoundFieldAnnotation>| occurrence_view(join.right.spec_occurrence()),
                ),
            decreases joined.joins@.len() - inner,
        {
            let ghost previous = occurrences@;
            occurrences.push(copy_occurrence(joined.joins[inner].right.occurrence()));
            assert(sources_view(occurrences@) =~= sources_view(previous).push(
                occurrence_view(joined.joins@[inner as int].right.spec_occurrence()),
            ));
            assert(joined.joins@.subrange(0, inner + 1).map_values(
                |join: Join<(), BoundFieldAnnotation>| occurrence_view(join.right.spec_occurrence()),
            ) =~= joined.joins@.subrange(0, inner as int).map_values(
                |join: Join<(), BoundFieldAnnotation>| occurrence_view(join.right.spec_occurrence()),
            ).push(occurrence_view(joined.joins@[inner as int].right.spec_occurrence())));
            inner = inner + 1;
        }
        assert(joined.joins@.subrange(0, joined.joins@.len() as int) =~= joined.joins@);
        assert(select.from@.subrange(0, index + 1).drop_last() =~= select.from@.subrange(
            0,
            index as int,
        ));
        assert(sources_view(occurrences@) =~= from_sources(select.from@.subrange(0, index + 1)));
        index = index + 1;
    }
    assert(select.from@.subrange(0, select.from@.len() as int) =~= select.from@);
    occurrences
}

/// Copies of all fields of `sources`, source by source.
fn flatten_fields(sources: &[BoundOccurrence]) -> (fields: Vec<BoundField>)
    ensures
        fields_view(fields@) == flattened(sources_view(sources@)),
{
    let mut fields: Vec<BoundField> = Vec::new();
    let mut index: usize = 0;
    while index < sources.len()
        invariant
            index <= sources@.len(),
            fields_view(fields@) == flattened(sources_view(sources@.subrange(0, index as int))),
        decreases sources@.len() - index,
    {
        let source_fields = &sources[index].fields;
        proof {
            assert(sources_view(sources@.subrange(0, index + 1)) =~= sources_view(
                sources@.subrange(0, index as int),
            ).push(occurrence_view(sources@[index as int])));
            lemma_flattened_extend(
                sources_view(sources@.subrange(0, index as int)),
                occurrence_view(sources@[index as int]),
            );
        }
        let ghost before = fields@;
        let mut inner: usize = 0;
        while inner < source_fields.len()
            invariant
                inner <= source_fields@.len(),
                fields_view(fields@) == fields_view(before) + fields_view(
                    source_fields@.subrange(0, inner as int),
                ),
            decreases source_fields@.len() - inner,
        {
            let ghost previous = fields@;
            fields.push(copy_field(&source_fields[inner]));
            assert(fields_view(fields@) =~= fields_view(previous).push(
                field_view(source_fields@[inner as int]),
            ));
            assert(fields_view(source_fields@.subrange(0, inner + 1)) =~= fields_view(
                source_fields@.subrange(0, inner as int),
            ).push(field_view(source_fields@[inner as int])));
            inner = inner + 1;
        }
        assert(source_fields@.subrange(0, source_fields@.len() as int) =~= source_fields@);
        index = index + 1;
    }
    assert(sources@.subrange(0, sources@.len() as int) =~= sources@);
    fields
}

/// Whether an expression holds a grouping aggregate outside nested queries.
/// Nested queries classify themselves independently.
fn contains_grouping_aggregate(expression: &BoundExpression) -> (r: bool)
    ensures
        r == has_grouping_aggregate(*expression),
    decreases *expression,
{
    match &expression.kind {
        ExpressionKind::Aggregate { argument, window, .. } => {
            if window.is_none() {
                return true;
            }
            let in_argument = match argument {
                AggregateArgument::Expression(inner) => contains_grouping_aggregate(inner),
                AggregateArgument::Star(_) => false,
            };
            if in_argument {
                return true;
            }
            match window {
                Some(w) => any_grouping_aggregate(&w.partition_by, Ghost(*expression)),
                None => false,
            }
        },
        ExpressionKind::Parenthesized(inner) => contains_grouping_aggregate(inner),
        ExpressionKind::Unary { expression: inner, .. } => contains_grouping_aggregate(inner),
        ExpressionKind::IsNull { expression: inner, .. } => contains_grouping_aggregate(inner),
        ExpressionKind::Cast { expression: inner, .. } => contains_grouping_aggregate(inner),
        ExpressionKind::Binary { left, right, .. } => contains_grouping_aggregate(left)
            || contains_grouping_aggregate(right),
        ExpressionKind::InList { expression: inner, values, .. } => contains_grouping_aggregate(
            inner,
        ) || any_grouping_aggregate(values, Ghost(*expression)),
        ExpressionKind::Case { branches, else_expression } => {
            let mut index: usize = 0;
            while index < branches.len()
                invariant
                    index <= branches@.len(),
                    forall|k: int|
                        0 <= k < index ==> !has_grouping_aggregate(#[trigger] branches@[k].condition)
                            && !has_grouping_aggregate(branches@[k].result),
                decreases branches@.len() - index,
            {
                assert(decreases_to!(*expression => branches@[index as int].condition));
                assert(decreases_to!(*expression => branches@[index as int].result));
                if contains_grouping_aggregate(&branches[index].condition)
                    || contains_grouping_aggregate(&branches[index].result) {
                    return true;
                }
                index = index + 1;
            }
            match else_expression {
                Some(inner) => contains_grouping_aggregate(inner),
                None => false,
            }
        },
        ExpressionKind::Ranking { partition_by, order_by, .. } => {
            if any_grouping_aggregate(partition_by, Ghost(*expression)) {
                return true;
            }
            let mut index: usize = 0;
            while index < order_by.len()
                invariant
                    index <= order_by@.len(),
                    forall|k: int|
                        0 <= k < index ==> !has_grouping_aggregate(#[trigger] order_by@[k].expression),
                decreases order_by@.len() - index,
            {
                assert(decreases_to!(*expression => order_by@[index as int].expression));
                if contains_grouping_aggregate(&order_by[index].expression) {
                    return true;
                }
                index = index + 1;
            }
            false
        },
        ExpressionKind::InQuery { expression: inner, .. } => contains_grouping_aggregate(inner),
        ExpressionKind::Literal(_) => false,
        ExpressionKind::Field(_) => false,
        ExpressionKind::Exists { .. } => false,
    }
}

fn any_grouping_aggregate(
    expressions: &Vec<BoundExpression>,
    Ghost(parent): Ghost<BoundExpression>,
) -> (r: bool)
    requires
        forall|k: int| 0 <= k < expressions@.len() ==> decreases_to!(parent => #[trigger] expressions@[k]),
    ensures
        r == exists|k: int| 0 <= k < expressions@.len() && has_grouping_aggregate(#[trigger] expressions@[k]),
    decreases parent, 0int,
{
    let mut index: usize = 0;
    while index < expressions.len()
        invariant
            index <= expressions@.len(),
            forall|k: int| 0 <= k < index ==> !has_grouping_aggregate(#[trigger] expressions@[k]),
        decreases expressions@.len() - index,
    {
        if contains_grouping_aggregate(&expressions[index]) {
            return true;
        }
        index = index + 1;
    }
    false
}


/// Well-formedness depends only on the scopes, declarations, and states.
proof fn lemma_wf_kept<'a>(before: &Binder<'a>, after: &Binder<'a>)
    requires
        before.wf(),
        after.parsed == before.parsed,
        after.scopes == before.scopes,
        after.declarations == before.declarations,
        after.states == before.states,
    ensures
        after.wf(),
{
    assert forall|s: int| 0 <= s < after.scopes@.len() implies after.scope_wf(
        #[trigger] after.scopes@[s],
        s,
    ) by {
        assert(before.scope_wf(before.scopes@[s], s));
    }
    assert forall|i: int| 0 <= i < after.states@.len() implies #[trigger] after.state_wf(i) by {
        assert(before.state_wf(i));
    }
}

impl<'a> Binder<'a> {
    /// The catalog relation named `name`.
    fn find_relation(&self, name: &Name, span: Span) -> (r: Result<usize, BindError>)
        ensures
            ({
                let positions = relations_named(self.catalog@, name@);
                &&& positions.len() == 0 ==> fails_with(r, |k: BindErrorKind| k is UnknownRelation, name@, span)
                &&& positions.len() == 1 ==> r == Ok::<usize, BindError>(positions[0] as usize)
                &&& positions.len() > 1 ==> fails_with(r, |k: BindErrorKind| k is AmbiguousRelation, name@, span)
            }),
            r matches Ok(p) ==> p < self.catalog@.len(),
    {
        let relations = self.catalog.relations();
        let mut found: Option<usize> = None;
        let mut count: usize = 0;
        let mut index: usize = 0;
        while index < relations.len()
            invariant
                relations@ == self.catalog@,
                index <= relations@.len(),
                count == relations_named(relations@.subrange(0, index as int), name@).len(),
                count <= index,
                count >= 1 ==> (found matches Some(p) && p == relations_named(
                    relations@.subrange(0, index as int),
                    name@,
                )[0] && p < relations@.len()),
                count == 0 ==> found is None,
            decreases relations@.len() - index,
        {
            let ghost prefix = relations@.subrange(0, index as int);
            assert(relations@.subrange(0, index + 1).drop_last() =~= prefix);
            if relations[index].name.same(name) {
                if count == 0 {
                    found = Some(index);
                }
                count = count + 1;
            }
            index = index + 1;
        }
        assert(relations@.subrange(0, relations@.len() as int) =~= relations@);
        if count == 0 {
            Err(BindError { kind: BindErrorKind::UnknownRelation(name.clone()), span })
        } else if count == 1 {
            match found {
                Some(position) => Ok(position),
                None => vstd::pervasive::unreached(),
            }
        } else {
            Err(BindError { kind: BindErrorKind::AmbiguousRelation(name.clone()), span })
        }
    }

    /// The innermost visible declaration named `name`, if any.
    fn resolve_cte(&self, name: &Name, chain: &[usize]) -> (r: Option<usize>)
        requires
            self.wf(),
            chain_valid(chain@, self.scopes@.len() as int),
        ensures
            r matches Some(index) ==> index < self.declarations@.len()
                && self.declarations@[index as int].name@ == name@,
            r is None ==> forall|k: int, d: int|
                #![trigger chain@[k], self.declarations@[d]]
                0 <= k < chain@.len() && self.scopes@[chain@[k] as int].first <= d
                    < self.scopes@[chain@[k] as int].first + self.scopes@[chain@[k] as int].count
                    ==> self.declarations@[d].name@ != name@,
    {
        let mut remaining = chain.len();
        while remaining > 0
            invariant
                remaining <= chain@.len(),
                forall|k: int, d: int|
                    #![trigger chain@[k], self.declarations@[d]]
                    remaining <= k < chain@.len() && self.scopes@[chain@[k] as int].first <= d
                        < self.scopes@[chain@[k] as int].first + self.scopes@[chain@[k] as int].count
                        ==> self.declarations@[d].name@ != name@,
            decreases remaining,
        {
            remaining = remaining - 1;
            let scope = &self.scopes[chain[remaining]];
            assert(self.scope_wf(self.scopes@[chain@[remaining as int] as int], chain@[remaining as int] as int));
            let total = self.declarations.len();
            let mut offset: usize = 0;
            while offset < scope.count
                invariant
                    total == self.declarations@.len(),
                    offset <= scope.count,
                    scope.first + scope.count <= self.declarations@.len(),
                    forall|d: int|
                        scope.first <= d < scope.first + offset ==> #[trigger] self.declarations@[d].name@
                            != name@,
                decreases scope.count - offset,
            {
                let index = scope.first + offset;
                if self.declarations[index].name.same(name) {
                    return Some(index);
                }
                offset = offset + 1;
            }
        }
        None
    }

    /// Opens the WITH list `declarations` as a new innermost scope.
    fn establish_cte_scope(
        &mut self,
        declarations: &'a Vec<ast::CommonTableExpression>,
        enclosing: &[usize],
        span: Span,
    ) -> (r: Result<(Vec<usize>, Option<usize>), BindError>)
        requires
            old(self).wf(),
            chain_valid(enclosing@, old(self).scopes@.len() as int),
        ensures
            final(self).wf(),
            old(self).advanced(final(self)),
            r matches Ok((chain, local)) ==> chain_valid(chain@, final(self).scopes@.len() as int)
                && match local {
                None => declarations@.len() == 0,
                Some(s) => declarations@.len() > 0 && s == old(self).scopes@.len() && s
                    < final(self).scopes@.len() && !final(self).scopes@[s as int].finished
                    && final(self).scopes@[s as int].first == old(self).declarations@.len()
                    && final(self).scopes@[s as int].count == declarations@.len() && forall|k: int|
                    0 <= k < declarations@.len() ==> *(#[trigger] final(self).declarations@[old(
                        self,
                    ).declarations@.len() + k]).syntax == declarations@[k]
                        && final(self).declarations@[old(self).declarations@.len() + k].name@
                        == name_of(*old(self).parsed, declarations@[k].name),
            },
            r matches Err(e) ==> e.kind is IdentitySpaceExhausted || (
            e.kind is DuplicateCommonTableExpression && exists|i: int, j: int|
                #![trigger declarations@[i], declarations@[j]]
                0 <= i < j < declarations@.len() && name_of(*old(self).parsed, declarations@[i].name)
                    == e.kind.subject() && name_of(*old(self).parsed, declarations@[j].name)
                    == e.kind.subject() && e.span == declarations@[j].name.span),
    {
        if declarations.len() == 0 {
            return Ok((copy_chain(enclosing), None));
        }
        let mut names: Vec<Name> = Vec::new();
        let mut index: usize = 0;
        while index < declarations.len()
            invariant
                self == old(self),
                index <= declarations@.len(),
                names@.len() == index,
                forall|k: int|
                    0 <= k < index ==> (#[trigger] names@[k])@ == name_of(
                        *old(self).parsed,
                        declarations@[k].name,
                    ),
            decreases declarations@.len() - index,
        {
            let name = self.parsed.identifier_name(declarations[index].name);
            if contains_name(&names, &name) {
                let ghost earlier = choose|i: int| 0 <= i < names@.len() && names_view(names@)[i] == name@;
                assert(names_view(names@)[earlier] == names@[earlier]@);
                return Err(
                    BindError {
                        kind: BindErrorKind::DuplicateCommonTableExpression(name),
                        span: declarations[index].name.span,
                    },
                );
            }
            names.push(name);
            index = index + 1;
        }
        let mut ids: Vec<CteId> = Vec::new();
        while ids.len() < declarations.len()
            invariant
                self.scopes == old(self).scopes,
                self.declarations == old(self).declarations,
                self.states == old(self).states,
                self.parsed == old(self).parsed,
                self.catalog == old(self).catalog,
                self.next_field == old(self).next_field,
                self.next_occurrence == old(self).next_occurrence,
                self.next_cte == old(self).next_cte + ids@.len(),
                ids@.len() <= declarations@.len(),
            decreases declarations@.len() - ids@.len(),
        {
            if self.next_cte == u32::MAX {
                proof {
                    lemma_wf_kept(old(self), self);
                }
                return Err(BindError { kind: BindErrorKind::IdentitySpaceExhausted, span });
            }
            ids.push(CteId::from_index(self.next_cte));
            self.next_cte = self.next_cte + 1;
        }
        let scope_id = self.scopes.len();
        let first = self.declarations.len();
        let mut index: usize = 0;
        while index < declarations.len()
            invariant
                self.scopes == old(self).scopes,
                self.parsed == old(self).parsed,
                self.catalog == old(self).catalog,
                self.next_field == old(self).next_field,
                self.next_occurrence == old(self).next_occurrence,
                self.next_cte == old(self).next_cte + declarations@.len(),
                scope_id == self.scopes@.len(),
                first == old(self).declarations@.len(),
                ids@.len() == declarations@.len(),
                names@.len() == declarations@.len(),
                forall|k: int|
                    0 <= k < declarations@.len() ==> (#[trigger] names@[k])@ == name_of(
                        *old(self).parsed,
                        declarations@[k].name,
                    ),
                index <= declarations@.len(),
                self.declarations@.len() == first + index,
                self.states@.len() == first + index,
                forall|i: int| 0 <= i < first ==> #[trigger] self.declarations@[i] == old(self).declarations@[i],
                forall|i: int| 0 <= i < first ==> #[trigger] self.states@[i] == old(self).states@[i],
                forall|k: int|
                    0 <= k < index ==> (#[trigger] self.declarations@[first + k]).scope == scope_id
                        && *self.declarations@[first + k].syntax == declarations@[k]
                        && self.declarations@[first + k].name@ == names@[k]@
                        && self.states@[first + k] is Unvisited,
                count_unvisited(self.states@) == count_unvisited(old(self).states@) + index,
            decreases declarations@.len() - index,
        {
            proof {
                lemma_count_push(self.states@, CteState::Unvisited);
            }
            self.declarations.push(
                CteDeclaration {
                    id: ids[index],
                    name: names[index].clone(),
                    syntax: &declarations[index],
                    scope: scope_id,
                },
            );
            self.states.push(CteState::Unvisited);
            index = index + 1;
        }
        let mut chain = copy_chain(enclosing);
        chain.push(scope_id);
        let lexical_chain = copy_chain(chain.as_slice());
        self.scopes.push(
            CteScope { lexical_chain, first, count: declarations.len(), finished: false },
        );
        proof {
            assert forall|s: int| 0 <= s < self.scopes@.len() implies self.scope_wf(
                #[trigger] self.scopes@[s],
                s,
            ) by {
                let scope = self.scopes@[s];
                if s < scope_id {
                    assert(old(self).scope_wf(old(self).scopes@[s], s));
                    assert(scope == old(self).scopes@[s]);
                    assert forall|d: int| scope.first <= d < scope.first + scope.count implies (
                    #[trigger] self.declarations@[d]).scope == s by {
                        assert(self.declarations@[d] == old(self).declarations@[d]);
                    }
                    assert forall|k: int| 0 <= k < scope.lexical_chain@.len() implies #[trigger] scope.lexical_chain@[k]
                        < self.scopes@.len() by {
                        assert(scope.lexical_chain@[k] < old(self).scopes@.len());
                    }
                } else {
                    assert(scope.first == first && scope.count == declarations@.len());
                    assert forall|d: int| scope.first <= d < scope.first + scope.count implies (
                    #[trigger] self.declarations@[d]).scope == s by {
                        let k = d - first;
                        assert(self.declarations@[first + k].scope == scope_id);
                    }
                    assert forall|k: int| 0 <= k < scope.lexical_chain@.len() implies #[trigger] scope.lexical_chain@[k]
                        < self.scopes@.len() by {
                        if k < enclosing@.len() {
                            assert(scope.lexical_chain@[k] == enclosing@[k]);
                        }
                    }
                }
            }
            assert forall|i: int| 0 <= i < self.states@.len() implies #[trigger] self.state_wf(i) by {
                if i < first {
                    assert(old(self).state_wf(i));
                } else {
                    let k = i - first;
                    assert(self.declarations@[first + k].scope == scope_id);
                    assert(self.states@[first + k] is Unvisited);
                }
            }
            assert forall|i: int| 0 <= i < self.declarations@.len() implies (
            #[trigger] self.declarations@[i]).scope < self.scopes@.len() by {
                if i < first {
                    assert(self.declarations@[i] == old(self).declarations@[i]);
                } else {
                    let k = i - first;
                    assert(self.declarations@[first + k].scope == scope_id);
                }
            }
        }
        Ok((chain, Some(scope_id)))
    }
}


/// Resolves a parsed program against one immutable catalog snapshot.
///
/// A bound program keeps the structure of its syntax: every query, body,
/// source, expression, ordering item, and row bound stands where its syntax
/// stood, with the same spans, and every name has become a resolved identity.
pub fn bind(parsed: &ParsedProgram, catalog: &Catalog) -> (r: Result<BoundProgram, BindError>)
    ensures
        r matches Ok(program) ==> program.span == parsed.spec_syntax().span && query_mirrors(
            *parsed,
            parsed.spec_syntax().query,
            program.query,
        ),
{
    let mut binder = Binder::new(parsed, catalog);
    let syntax = parsed.syntax();
    let outermost: Vec<usize> = Vec::new();
    let query = binder.bind_query_expression(&syntax.query, outermost.as_slice())?;
    Ok(Program { query, span: syntax.span })
}

impl<'a> Binder<'a> {
    /// Starts binding the declaration at `index`: `true` where it was not
    /// visited before and is now being bound, `false` where it is already
    /// bound; a declaration reached again while it is being bound is a cycle.
    fn begin_cte(&mut self, index: usize) -> (r: Result<bool, BindError>)
        requires
            old(self).wf(),
            index < old(self).declarations@.len(),
        ensures
            final(self).wf(),
            old(self).advanced(final(self)),
            old(self).states@[index as int] is Unvisited ==> r == Ok::<bool, BindError>(true)
                && final(self).states@[index as int] is Binding && final(self).potential() < old(
                self,
            ).potential(),
            old(self).states@[index as int] is Bound ==> r == Ok::<bool, BindError>(false)
                && *final(self) == *old(self),
            old(self).states@[index as int] is Binding ==> fails_with(
                r,
                |k: BindErrorKind| k is CommonTableExpressionCycle,
                old(self).declarations@[index as int].name@,
                old(self).declarations@[index as int].syntax.name.span,
            ),
    {
        let state = match &self.states[index] {
            CteState::Unvisited => 0u8,
            CteState::Binding => 1u8,
            CteState::Bound { .. } => 2u8,
        };
        if state == 2 {
            return Ok(false);
        }
        if state == 1 {
            return Err(
                BindError {
                    kind: BindErrorKind::CommonTableExpressionCycle(
                        self.declarations[index].name.clone(),
                    ),
                    span: self.declarations[index].syntax.name.span,
                },
            );
        }
        proof {
            lemma_count_update(self.states@, index as int, CteState::Binding);
        }
        let ghost before = *self;
        self.states.set(index, CteState::Binding);
        proof {
            assert forall|i: int| 0 <= i < self.states@.len() implies #[trigger] self.state_wf(i) by {
                if i != index {
                    assert(before.state_wf(i));
                }
            }
            lemma_scopes_kept(&before, self);
        }
        Ok(true)
    }

    /// Binds the query of the declaration at `index`, which is being bound.
    fn bind_cte_query(&mut self, index: usize) -> (r: Result<(), BindError>)
        requires
            old(self).wf(),
            index < old(self).declarations@.len(),
            old(self).states@[index as int] is Binding,
        ensures
            final(self).wf(),
            old(self).advanced_to(final(self), -1, index as int, index + 1),
            r is Ok ==> final(self).states@[index as int] is Bound,
        decreases old(self).potential(), *old(self).declarations@[index as int].syntax, 0int,
    {
        let syntax: &'a ast::CommonTableExpression = self.declarations[index].syntax;
        let scope = self.declarations[index].scope;
        assert(self.scope_wf(self.scopes@[scope as int], scope as int));
        let chain = copy_chain(self.scopes[scope].lexical_chain.as_slice());
        assert(decreases_to!(*syntax => *syntax.query));
        let query = self.bind_query_expression(&syntax.query, chain.as_slice())?;
        let fields = copy_fields(query.result_fields.as_slice());
        proof {
            lemma_count_update(
                self.states@,
                index as int,
                CteState::Bound { fields, query: Some(Box::new(query)) },
            );
        }
        let ghost before = *self;
        self.states.set(index, CteState::Bound { fields, query: Some(Box::new(query)) });
        proof {
            assert forall|i: int| 0 <= i < self.states@.len() implies #[trigger] self.state_wf(i) by {
                if i != index {
                    assert(before.state_wf(i));
                }
            }
            lemma_scopes_kept(&before, self);
        }
        Ok(())
    }

    /// Binds every declaration of `scope` that no reference has bound yet and
    /// hands the bound declarations over, in declaration order.
    fn finish_cte_scope(&mut self, scope: usize, Ghost(node): Ghost<ast::QueryExpression>) -> (r:
        Result<Vec<CommonTableExpression<(), BoundFieldAnnotation>>, BindError>)
        requires
            old(self).wf(),
            scope < old(self).scopes@.len(),
            !old(self).scopes@[scope as int].finished,
        ensures
            final(self).wf(),
            old(self).advanced_to(
                final(self),
                scope as int,
                old(self).scopes@[scope as int].first as int,
                old(self).scopes@[scope as int].first + old(self).scopes@[scope as int].count,
            ),
            r matches Ok(ctes) ==> ctes@.len() == old(self).scopes@[scope as int].count && forall|
                k: int,
            |
                0 <= k < ctes@.len() ==> {
                    let declaration = final(self).declarations@[old(
                        self,
                    ).scopes@[scope as int].first + k];
                    &&& (#[trigger] ctes@[k]).id == declaration.id
                    &&& ctes@[k].name@ == declaration.name@
                    &&& ctes@[k].span == declaration.syntax.span
                    &&& query_mirrors(*old(self).parsed, *declaration.syntax.query, *ctes@[k].query)
                },
        decreases old(self).potential(), node, 1int,
    {
        let first = self.scopes[scope].first;
        let count = self.scopes[scope].count;
        assert(self.scope_wf(self.scopes@[scope as int], scope as int));
        let total = self.declarations.len();
        let end = first + count;
        let mut offset: usize = 0;
        while offset < count
            invariant
                end == first + count,
                self.wf(),
                old(self).advanced(self),
                self.scopes@[scope as int] == old(self).scopes@[scope as int],
                first == old(self).scopes@[scope as int].first,
                count == old(self).scopes@[scope as int].count,
                first + count <= self.declarations@.len(),
                offset <= count,
                forall|k: int| first <= k < first + offset ==> #[trigger] self.states@[k] is Bound,
            decreases count - offset,
        {
            let ghost before = *self;
            if self.begin_cte(first + offset)? {
                self.bind_cte_query(first + offset)?;
            }
            proof {
                assert forall|k: int| first <= k < first + offset + 1 implies #[trigger] self.states@[k] is Bound by {
                    if k < first + offset {
                        assert(state_progressed(before.states@[k], self.states@[k]));
                    }
                }
            }
            offset = offset + 1;
        }
        let ghost visited = *self;
        let ghost potential = self.potential();
        let mut scope_value = CteScope {
            lexical_chain: Vec::new(),
            first: 0,
            count: 0,
            finished: false,
        };
        self.scopes.set_and_swap(scope, &mut scope_value);
        scope_value.finished = true;
        self.scopes.set_and_swap(scope, &mut scope_value);
        proof {
            assert forall|s: int| 0 <= s < self.scopes@.len() implies self.scope_wf(
                #[trigger] self.scopes@[s],
                s,
            ) by {
                assert(visited.scope_wf(visited.scopes@[s], s));
            }
            assert forall|i: int| 0 <= i < self.states@.len() implies #[trigger] self.state_wf(i) by {
                assert(visited.state_wf(i));
            }
        }
        let mut ctes: Vec<CommonTableExpression<(), BoundFieldAnnotation>> = Vec::new();
        let mut offset: usize = 0;
        while offset < count
            invariant
                end == first + count,
                self.wf(),
                self.parsed == visited.parsed,
                self.catalog == visited.catalog,
                self.next_field == visited.next_field,
                self.next_occurrence == visited.next_occurrence,
                self.next_cte == visited.next_cte,
                self.scopes@.len() == visited.scopes@.len(),
                forall|s: int| 0 <= s < self.scopes@.len() && s != scope ==> #[trigger] self.scopes@[s] == visited.scopes@[s],
                self.scopes@[scope as int].finished,
                self.scopes@[scope as int].first == first,
                self.scopes@[scope as int].count == count,
                self.declarations == visited.declarations,
                self.states@.len() == visited.states@.len(),
                count_unvisited(self.states@) == potential - (u32::MAX - visited.next_cte) as nat,
                forall|i: int|
                    0 <= i < self.states@.len() && !(first <= i < first + count) ==> #[trigger] self.states@[i]
                        == visited.states@[i],
                forall|i: int| first + offset <= i < first + count ==> #[trigger] self.states@[i] == visited.states@[i],
                forall|i: int| first <= i < first + count ==> #[trigger] visited.states@[i] is Bound,
                forall|i: int| first <= i < first + offset ==> #[trigger] self.states@[i] is Bound,
                offset <= count,
                ctes@.len() == offset,
                forall|k: int|
                    0 <= k < offset ==> {
                        let declaration = self.declarations@[first + k];
                        &&& (#[trigger] ctes@[k]).id == declaration.id
                        &&& ctes@[k].name@ == declaration.name@
                        &&& ctes@[k].span == declaration.syntax.span
                        &&& query_mirrors(*old(self).parsed, *declaration.syntax.query, *ctes@[k].query)
                    },
            decreases count - offset,
        {
            let index = first + offset;
            assert(visited.state_wf(index as int));
            assert(!visited.scopes@[scope as int].finished);
            assert(self.declarations@[index as int].scope == scope);
            let mut state = CteState::Unvisited;
            let ghost before = *self;
            self.states.set_and_swap(index, &mut state);
            match state {
                CteState::Bound { fields, query: Some(query) } => {
                    let declaration = &self.declarations[index];
                    ctes.push(
                        CommonTableExpression {
                            id: declaration.id,
                            name: declaration.name.clone(),
                            query,
                            span: declaration.syntax.span,
                        },
                    );
                    proof {
                        lemma_count_update(before.states@, index as int, CteState::Bound { fields, query: None });
                    }
                    self.states.set(index, CteState::Bound { fields, query: None });
                    proof {
                        assert(self.states@ == before.states@.update(index as int, CteState::Bound { fields, query: None }));
                        assert forall|i: int| 0 <= i < self.states@.len() implies #[trigger] self.state_wf(i) by {
                            if i != index {
                                assert(before.state_wf(i));
                            }
                        }
                    }
                },
                _ => {
                    proof {
                        assert(false);
                    }
                },
            }
            offset = offset + 1;
        }
        Ok(ctes)
    }
}

/// The scopes of a binder stay well formed when only its states change.
proof fn lemma_scopes_kept<'a>(before: &Binder<'a>, after: &Binder<'a>)
    requires
        before.wf(),
        after.parsed == before.parsed,
        after.scopes == before.scopes,
        after.declarations == before.declarations,
        after.states@.len() == before.states@.len(),
        forall|i: int| 0 <= i < after.states@.len() ==> #[trigger] after.state_wf(i),
    ensures
        after.wf(),
{
    assert forall|s: int| 0 <= s < after.scopes@.len() implies after.scope_wf(
        #[trigger] after.scopes@[s],
        s,
    ) by {
        assert(before.scope_wf(before.scopes@[s], s));
    }
}


impl<'a> Binder<'a> {
    fn bind_query_expression(
        &mut self,
        syntax: &'a ast::QueryExpression,
        chain: &[usize],
    ) -> (r: Result<BoundQueryExpression, BindError>)
        requires
            old(self).wf(),
            chain_valid(chain@, old(self).scopes@.len() as int),
        ensures
            final(self).wf(),
            old(self).advanced(final(self)),
            r matches Ok(query) ==> query_mirrors(*old(self).parsed, *syntax, query),
        decreases old(self).potential(), *syntax, 2int,
    {
        let (scope_chain, local_scope) = self.establish_cte_scope(
            &syntax.common_table_expressions,
            chain,
            syntax.span,
        )?;
        let ghost established = *self;
        let body = self.bind_query_body(&syntax.body, scope_chain.as_slice())?;
        let result_fields = copy_fields(body.result_fields());
        let (fallback, window) = match &body {
            QueryBody::Select(select) => {
                let sources = select_occurrences(select);
                let fallback = if !select.distinct {
                    Some(copy_occurrences(sources.as_slice()))
                } else {
                    None
                };
                (fallback, Some(sources))
            },
            _ => (None, None),
        };
        let mut order_by: Vec<OrderItem<(), BoundFieldAnnotation>> = Vec::new();
        let mut index: usize = 0;
        while index < syntax.order_by.len()
            invariant
                self.wf(),
                established.advanced(self),
                self.parsed == old(self).parsed,
                chain_valid(scope_chain@, self.scopes@.len() as int),
                index <= syntax.order_by@.len(),
                order_by@.len() == index,
                forall|k: int|
                    0 <= k < index ==> order_item_mirrors(
                        *old(self).parsed,
                        #[trigger] syntax.order_by@[k],
                        order_by@[k],
                    ),
            decreases syntax.order_by@.len() - index,
        {
            let fallback_sources = match &fallback {
                Some(sources) => Some(sources.as_slice()),
                None => None,
            };
            let window_sources = match &window {
                Some(sources) => Some(sources.as_slice()),
                None => None,
            };
            assert(decreases_to!(*syntax => syntax.order_by@[index as int]));
            let item = self.bind_order_item(
                &syntax.order_by[index],
                result_fields.as_slice(),
                fallback_sources,
                window_sources,
                scope_chain.as_slice(),
            )?;
            order_by.push(item);
            index = index + 1;
        }
        let row_bound = match &syntax.row_bound {
            Some(bound) => Some(
                RowBound {
                    limit: match bound.limit {
                        Some(literal) => Some(
                            IntegerValue {
                                spelling: self.parsed.integer_spelling(literal),
                                span: literal.span,
                            },
                        ),
                        None => None,
                    },
                    offset: match bound.offset {
                        Some(literal) => Some(
                            IntegerValue {
                                spelling: self.parsed.integer_spelling(literal),
                                span: literal.span,
                            },
                        ),
                        None => None,
                    },
                    span: bound.span,
                },
            ),
            None => None,
        };
        let ghost before_finish = *self;
        let common_table_expressions = match local_scope {
            Some(scope) => self.finish_cte_scope(scope, Ghost(*syntax))?,
            None => Vec::new(),
        };
        proof {
            if let Some(scope) = local_scope {
                let first = established.scopes@[scope as int].first;
                assert forall|k: int|
                    0 <= k < syntax.common_table_expressions@.len() implies #[trigger] common_table_expressions@[k].span
                        == syntax.common_table_expressions@[k].span
                        && common_table_expressions@[k].name@ == name_of(
                        *old(self).parsed,
                        syntax.common_table_expressions@[k].name,
                    ) && query_mirrors(
                        *old(self).parsed,
                        *syntax.common_table_expressions@[k].query,
                        *common_table_expressions@[k].query,
                    ) by {
                    assert(established.declarations@[first + k] == before_finish.declarations@[first + k]);
                }
            }
        }
        Ok(
            QueryExpression {
                common_table_expressions,
                body,
                order_by,
                row_bound,
                result_fields,
                span: syntax.span,
            },
        )
    }

    fn bind_order_item(
        &mut self,
        syntax: &'a ast::OrderItem,
        results: &[BoundField],
        fallback_sources: Option<&[BoundOccurrence]>,
        window_sources: Option<&[BoundOccurrence]>,
        chain: &[usize],
    ) -> (r: Result<OrderItem<(), BoundFieldAnnotation>, BindError>)
        requires
            old(self).wf(),
            chain_valid(chain@, old(self).scopes@.len() as int),
        ensures
            final(self).wf(),
            old(self).advanced(final(self)),
            r matches Ok(item) ==> order_item_mirrors(*old(self).parsed, *syntax, item),
        decreases old(self).potential(), *syntax, 0int,
    {
        let expression = if let ast::Expression::Literal(ast::Literal::Integer(literal)) =
            &syntax.expression {
            match self.parsed.ordinal_position(*literal, results.len()) {
                Some(position) => Expression::new(
                    ExpressionKind::Field(results[position].id),
                    (),
                    syntax.expression.span(),
                ),
                None => {
                    return Err(
                        BindError {
                            kind: BindErrorKind::OrderByOrdinalOutOfRange(
                                self.parsed.integer_spelling(*literal),
                            ),
                            span: literal.span,
                        },
                    );
                },
            }
        } else {
            let no_sources: Vec<BoundOccurrence> = Vec::new();
            let sources = match fallback_sources {
                Some(sources) => sources,
                None => no_sources.as_slice(),
            };
            self.bind_expression_with(
                &syntax.expression,
                sources,
                Some(results),
                window_sources,
                chain,
                false,
            )?
        };
        Ok(
            OrderItem {
                expression,
                direction: syntax.direction,
                null_placement: syntax.null_placement,
                span: syntax.span,
            },
        )
    }

    fn bind_query_body(&mut self, syntax: &'a ast::QueryBody, chain: &[usize]) -> (r: Result<
        QueryBody<(), BoundFieldAnnotation>,
        BindError,
    >)
        requires
            old(self).wf(),
            chain_valid(chain@, old(self).scopes@.len() as int),
        ensures
            final(self).wf(),
            old(self).advanced(final(self)),
            r matches Ok(body) ==> body_mirrors(*old(self).parsed, *syntax, body),
        decreases old(self).potential(), *syntax, 0int,
    {
        match syntax {
            ast::QueryBody::Select(select) => {
                let bound = self.bind_select_query(select, chain)?;
                Ok(QueryBody::Select(Box::new(bound)))
            },
            ast::QueryBody::Parenthesized { query, span } => {
                let bound = self.bind_query_expression(query, chain)?;
                Ok(QueryBody::Parenthesized { query: Box::new(bound), span: *span })
            },
            ast::QueryBody::SetOperation { left, operator, all, right, span } => {
                let left = self.bind_query_body(left, chain)?;
                let right = self.bind_query_body(right, chain)?;
                let left_fields = left.result_fields();
                let mut result_fields: Vec<BoundField> = Vec::new();
                let mut index: usize = 0;
                while index < left_fields.len()
                    invariant
                        self.wf(),
                        old(self).advanced(self),
                        index <= left_fields@.len(),
                        result_fields@.len() == index,
                        forall|k: int|
                            0 <= k < index ==> #[trigger] result_fields@[k].name@ == left_fields@[k].name@
                                && result_fields@[k].annotation is None,
                    decreases left_fields@.len() - index,
                {
                    let ghost before = *self;
                    let field = self.fresh_result_field(left_fields[index].name.clone(), *span)?;
                    proof {
                        lemma_wf_kept(&before, self);
                    }
                    result_fields.push(field);
                    index = index + 1;
                }
                Ok(
                    QueryBody::SetOperation {
                        left: Box::new(left),
                        operator: *operator,
                        all: *all,
                        right: Box::new(right),
                        result_fields,
                        span: *span,
                    },
                )
            },
        }
    }

    fn bind_select_query(&mut self, syntax: &'a ast::SelectQuery, chain: &[usize]) -> (r: Result<
        SelectQuery<(), BoundFieldAnnotation>,
        BindError,
    >)
        requires
            old(self).wf(),
            chain_valid(chain@, old(self).scopes@.len() as int),
        ensures
            final(self).wf(),
            old(self).advanced(final(self)),
            r matches Ok(select) ==> select_mirrors(*old(self).parsed, *syntax, select),
        decreases old(self).potential(), *syntax, 0int,
    {
        let mut qualifiers: Vec<Name> = Vec::new();
        let mut sources: Vec<BoundOccurrence> = Vec::new();
        let mut from: Vec<JoinedTable<(), BoundFieldAnnotation>> = Vec::new();
        let mut index: usize = 0;
        while index < syntax.from.len()
            invariant
                self.wf(),
                old(self).advanced(self),
                chain_valid(chain@, self.scopes@.len() as int),
                index <= syntax.from@.len(),
                from@.len() == index,
                forall|k: int|
                    0 <= k < index ==> joined_mirrors(*old(self).parsed, #[trigger] syntax.from@[k], from@[k]),
                sources_view(sources@) == from_sources(from@),
            decreases syntax.from@.len() - index,
        {
            assert(decreases_to!(*syntax => syntax.from@[index as int]));
            let (joined, occurrences) = self.bind_joined_table(
                &syntax.from[index],
                chain,
                &mut qualifiers,
            )?;
            let ghost before_sources = sources@;
            let mut inner: usize = 0;
            while inner < occurrences.len()
                invariant
                    inner <= occurrences@.len(),
                    sources_view(sources@) == sources_view(before_sources) + sources_view(
                        occurrences@.subrange(0, inner as int),
                    ),
                decreases occurrences@.len() - inner,
            {
                let ghost previous = sources@;
                sources.push(copy_occurrence(&occurrences[inner]));
                assert(sources_view(sources@) =~= sources_view(previous).push(
                    occurrence_view(occurrences@[inner as int]),
                ));
                assert(sources_view(occurrences@.subrange(0, inner + 1)) =~= sources_view(
                    occurrences@.subrange(0, inner as int),
                ).push(occurrence_view(occurrences@[inner as int])));
                inner = inner + 1;
            }
            assert(occurrences@.subrange(0, occurrences@.len() as int) =~= occurrences@);
            let ghost previous_from = from@;
            from.push(joined);
            assert(from@.drop_last() =~= previous_from);
            index = index + 1;
        }
        let source_fields = flatten_fields(sources.as_slice());
        let where_clause = match &syntax.where_clause {
            Some(expression) => Some(self.bind_expression(expression, sources.as_slice(), chain)?),
            None => None,
        };
        let mut group_by: Vec<BoundExpression> = Vec::new();
        let mut index: usize = 0;
        while index < syntax.group_by.len()
            invariant
                self.wf(),
                old(self).advanced(self),
                chain_valid(chain@, self.scopes@.len() as int),
                index <= syntax.group_by@.len(),
                group_by@.len() == index,
                forall|k: int|
                    0 <= k < index ==> expression_mirrors(
                        *old(self).parsed,
                        #[trigger] syntax.group_by@[k],
                        group_by@[k],
                    ),
            decreases syntax.group_by@.len() - index,
        {
            assert(decreases_to!(*syntax => syntax.group_by@[index as int]));
            let expression = self.bind_expression(
                &syntax.group_by[index],
                sources.as_slice(),
                chain,
            )?;
            group_by.push(expression);
            index = index + 1;
        }
        let having = match &syntax.having {
            Some(expression) => Some(self.bind_expression(expression, sources.as_slice(), chain)?),
            None => None,
        };
        let mut select_list: Vec<SelectField<(), BoundFieldAnnotation>> = Vec::new();
        let mut index: usize = 0;
        while index < syntax.select_list.len()
            invariant
                self.wf(),
                old(self).advanced(self),
                chain_valid(chain@, self.scopes@.len() as int),
                index <= syntax.select_list@.len(),
            decreases syntax.select_list@.len() - index,
        {
            assert(decreases_to!(*syntax => syntax.select_list@[index as int]));
            match &syntax.select_list[index] {
                ast::SelectItem::Wildcard { qualifier, span } => {
                    let chosen: Vec<BoundField> = match qualifier {
                        Some(qualifier) => {
                            let qualifier_name = self.parsed.identifier_name(*qualifier);
                            let positions = qualified_positions(sources.as_slice(), &qualifier_name);
                            if positions.len() != 1 {
                                return Err(
                                    BindError {
                                        kind: BindErrorKind::UnknownQualifier(qualifier_name),
                                        span: qualifier.span,
                                    },
                                );
                            }
                            proof {
                                lemma_positions_in_range(sources_view(sources@), qualifier_name@);
                                assert(positions@[0] == positions_qualified(
                                    sources_view(sources@),
                                    qualifier_name@,
                                )[0]);
                            }
                            copy_fields(sources[positions[0]].fields.as_slice())
                        },
                        None => flatten_fields(sources.as_slice()),
                    };
                    let mut inner: usize = 0;
                    while inner < chosen.len()
                        invariant
                            self.wf(),
                            old(self).advanced(self),
                            chain_valid(chain@, self.scopes@.len() as int),
                            inner <= chosen@.len(),
                        decreases chosen@.len() - inner,
                    {
                        let ghost before = *self;
                        let output = self.fresh_result_field(chosen[inner].name.clone(), *span)?;
                        proof {
                            lemma_wf_kept(&before, self);
                        }
                        select_list.push(
                            SelectField {
                                output,
                                expression: Expression::new(
                                    ExpressionKind::Field(chosen[inner].id),
                                    (),
                                    *span,
                                ),
                                span: *span,
                            },
                        );
                        inner = inner + 1;
                    }
                },
                ast::SelectItem::Expression { expression, alias, span } => {
                    let bound = self.bind_expression(expression, sources.as_slice(), chain)?;
                    let name = match alias {
                        Some(alias) => self.parsed.identifier_name(*alias),
                        None => match expression_field(&bound) {
                            Some(field) => match find_field_name(sources.as_slice(), field) {
                                Some(name) => name,
                                None => Name::default(),
                            },
                            None => Name::default(),
                        },
                    };
                    let ghost before = *self;
                    let output = self.fresh_result_field(name, *span)?;
                    proof {
                        lemma_wf_kept(&before, self);
                    }
                    select_list.push(SelectField { output, expression: bound, span: *span });
                },
            }
            index = index + 1;
        }
        let mut result_fields: Vec<BoundField> = Vec::new();
        let mut any_aggregate = false;
        let mut index: usize = 0;
        while index < select_list.len()
            invariant
                index <= select_list@.len(),
                result_fields@.len() == index,
                forall|k: int|
                    0 <= k < index ==> field_view(#[trigger] result_fields@[k]) == field_view(
                        select_list@[k].output,
                    ),
                any_aggregate == exists|k: int|
                    0 <= k < index && has_grouping_aggregate(#[trigger] select_list@[k].expression),
            decreases select_list@.len() - index,
        {
            result_fields.push(copy_field(&select_list[index].output));
            if contains_grouping_aggregate(&select_list[index].expression) {
                any_aggregate = true;
            }
            index = index + 1;
        }
        let having_aggregate = match &having {
            Some(expression) => contains_grouping_aggregate(expression),
            None => false,
        };
        let is_aggregate = group_by.len() > 0 || any_aggregate || having_aggregate;
        Ok(
            SelectQuery {
                distinct: syntax.distinct,
                select_list,
                from,
                source_fields,
                where_clause,
                group_by,
                having,
                result_fields,
                is_aggregate,
                span: syntax.span,
            },
        )
    }

    fn bind_joined_table(
        &mut self,
        syntax: &'a ast::JoinedTable,
        chain: &[usize],
        qualifiers: &mut Vec<Name>,
    ) -> (r: Result<(JoinedTable<(), BoundFieldAnnotation>, Vec<BoundOccurrence>), BindError>)
        requires
            old(self).wf(),
            chain_valid(chain@, old(self).scopes@.len() as int),
        ensures
            final(self).wf(),
            old(self).advanced(final(self)),
            r matches Ok((joined, occurrences)) ==> joined_mirrors(*old(self).parsed, *syntax, joined)
                && sources_view(occurrences@) == joined_sources(joined),
        decreases old(self).potential(), *syntax, 0int,
    {
        let left = self.bind_table_primary(&syntax.left, chain)?;
        register_qualifier(left.occurrence(), qualifiers, syntax.left.span())?;
        let mut occurrences: Vec<BoundOccurrence> = Vec::new();
        occurrences.push(copy_occurrence(left.occurrence()));
        let mut joins: Vec<Join<(), BoundFieldAnnotation>> = Vec::new();
        let mut index: usize = 0;
        while index < syntax.joins.len()
            invariant
                self.wf(),
                old(self).advanced(self),
                chain_valid(chain@, self.scopes@.len() as int),
                index <= syntax.joins@.len(),
                joins@.len() == index,
                forall|k: int|
                    0 <= k < index ==> #[trigger] joins@[k].kind == syntax.joins@[k].kind
                        && joins@[k].span == syntax.joins@[k].span && table_mirrors(
                        *old(self).parsed,
                        syntax.joins@[k].right,
                        joins@[k].right,
                    ) && option_mirrors(*old(self).parsed, syntax.joins@[k].condition, joins@[k].condition),
                sources_view(occurrences@) == seq![occurrence_view(left.spec_occurrence())]
                    + joins@.map_values(
                    |join: Join<(), BoundFieldAnnotation>| occurrence_view(join.right.spec_occurrence()),
                ),
            decreases syntax.joins@.len() - index,
        {
            let join = &syntax.joins[index];
            assert(decreases_to!(*syntax => syntax.joins@[index as int]));
            assert(decreases_to!(syntax.joins@[index as int] => syntax.joins@[index as int].right));
            let right = self.bind_table_primary(&join.right, chain)?;
            register_qualifier(right.occurrence(), qualifiers, join.right.span())?;
            let mut condition_sources = copy_occurrences(occurrences.as_slice());
            condition_sources.push(copy_occurrence(right.occurrence()));
            let condition = match &join.condition {
                Some(condition) => Some(
                    self.bind_expression(condition, condition_sources.as_slice(), chain)?,
                ),
                None => None,
            };
            let ghost previous = occurrences@;
            let ghost previous_joins = joins@;
            occurrences.push(copy_occurrence(right.occurrence()));
            let bound = Join { kind: join.kind, right, condition, span: join.span };
            joins.push(bound);
            assert(joins@.map_values(
                |join: Join<(), BoundFieldAnnotation>| occurrence_view(join.right.spec_occurrence()),
            ) =~= previous_joins.map_values(
                |join: Join<(), BoundFieldAnnotation>| occurrence_view(join.right.spec_occurrence()),
            ).push(occurrence_view(bound.right.spec_occurrence())));
            assert(sources_view(occurrences@) =~= sources_view(previous).push(
                occurrence_view(bound.right.spec_occurrence()),
            ));
            index = index + 1;
        }
        Ok((JoinedTable { left, joins, span: syntax.span }, occurrences))
    }

    fn bind_table_primary(&mut self, syntax: &'a ast::TablePrimary, chain: &[usize]) -> (r: Result<
        TablePrimary<(), BoundFieldAnnotation>,
        BindError,
    >)
        requires
            old(self).wf(),
            chain_valid(chain@, old(self).scopes@.len() as int),
        ensures
            final(self).wf(),
            old(self).advanced(final(self)),
            r matches Ok(table) ==> table_mirrors(*old(self).parsed, *syntax, table),
        decreases old(self).potential(), *syntax, 1int,
    {
        match syntax {
            ast::TablePrimary::Named { name, alias, span } => {
                let source_name = self.parsed.identifier_name(*name);
                let qualifier = match alias {
                    Some(alias) => self.parsed.identifier_name(*alias),
                    None => source_name.clone(),
                };
                match self.resolve_cte(&source_name, chain) {
                    Some(index) => {
                        if self.begin_cte(index)? {
                            self.bind_cte_query(index)?;
                        }
                        let declaration = self.declarations[index].id;
                        let fields = match &self.states[index] {
                            CteState::Bound { fields, .. } => copy_fields(fields.as_slice()),
                            _ => vstd::pervasive::unreached(),
                        };
                        let ghost before = *self;
                        let occurrence = self.instantiate_occurrence(
                            qualifier,
                            fields.as_slice(),
                            *span,
                        )?;
                        proof {
                            lemma_wf_kept(&before, self);
                        }
                        Ok(
                            TablePrimary::CommonTableExpression {
                                declaration,
                                occurrence,
                                span: *span,
                            },
                        )
                    },
                    None => {
                        let position = self.find_relation(&source_name, name.span)?;
                        let catalog = self.catalog;
                        let relations = catalog.relations();
                        let ghost before = *self;
                        let table = self.bind_catalog_occurrence(
                            &relations[position],
                            qualifier,
                            *span,
                        )?;
                        proof {
                            lemma_wf_kept(&before, self);
                        }
                        Ok(table)
                    },
                }
            },
            ast::TablePrimary::Derived { query, alias, span } => {
                let bound = self.bind_query_expression(query, chain)?;
                let qualifier = self.parsed.identifier_name(*alias);
                let ghost before = *self;
                let occurrence = self.instantiate_occurrence(
                    qualifier,
                    bound.result_fields.as_slice(),
                    *span,
                )?;
                proof {
                    lemma_wf_kept(&before, self);
                }
                Ok(TablePrimary::Derived { query: Box::new(bound), occurrence, span: *span })
            },
        }
    }

    fn bind_expression(
        &mut self,
        syntax: &'a ast::Expression,
        sources: &[BoundOccurrence],
        chain: &[usize],
    ) -> (r: Result<BoundExpression, BindError>)
        requires
            old(self).wf(),
            chain_valid(chain@, old(self).scopes@.len() as int),
        ensures
            final(self).wf(),
            old(self).advanced(final(self)),
            r matches Ok(expression) ==> expression_mirrors(*old(self).parsed, *syntax, expression),
        decreases old(self).potential(), *syntax, 2int,
    {
        self.bind_expression_with(syntax, sources, None, Some(sources), chain, false)
    }
}


/// How a column reference resolves: inside a window specification and when
/// qualified it names a source field; otherwise a result field of the same
/// name, where `results` are visible, comes first.
pub open spec fn column_resolution(
    r: Result<FieldId, BindError>,
    parsed: ParsedProgram,
    qualifier: Option<ast::Identifier>,
    name: ast::Identifier,
    sources: Seq<OccurrenceView>,
    results: Option<Seq<FieldView>>,
    inside_window: bool,
) -> bool {
    if inside_window || qualifier is Some || results is None {
        source_resolution(r, parsed, qualifier, name, sources)
    } else {
        let candidates = ids_named(results->Some_0, name_of(parsed, name));
        if candidates.len() == 1 {
            r == Ok::<FieldId, BindError>(candidates[0])
        } else if candidates.len() == 0 {
            source_resolution(r, parsed, qualifier, name, sources)
        } else {
            fails_with(r, |k: BindErrorKind| k is AmbiguousColumn, name_of(parsed, name), name.span)
        }
    }
}

/// Whether a scalar expression reads no column, invocation or query: its
/// leaves are literals, under parentheses, operators, IS NULL, CAST, CASE
/// and IN lists.
pub open spec fn column_free(expression: ast::Expression) -> bool
    decreases expression,
{
    match expression {
        ast::Expression::Literal(_) => true,
        ast::Expression::Parenthesized { expression: inner, .. } => column_free(*inner),
        ast::Expression::Unary { expression: inner, .. } => column_free(*inner),
        ast::Expression::Binary { left, right, .. } => column_free(*left) && column_free(*right),
        ast::Expression::IsNull { expression: inner, .. } => column_free(*inner),
        ast::Expression::Cast { expression: inner, .. } => column_free(*inner),
        ast::Expression::InList { expression: inner, values, .. } => column_free(*inner) && all_column_free(values@),
        ast::Expression::Case { branches, else_expression, .. } => clauses_column_free(branches@) && match else_expression {
            Some(fallback) => column_free(*fallback),
            None => true,
        },
        _ => false,
    }
}

/// Whether every expression of a list is column-free.
pub open spec fn all_column_free(expressions: Seq<ast::Expression>) -> bool
    decreases expressions,
{
    expressions.len() == 0 || (column_free(expressions[0]) && all_column_free(expressions.drop_first()))
}

/// Whether every branch of a CASE has a column-free condition and result.
pub open spec fn clauses_column_free(branches: Seq<ast::WhenClause>) -> bool
    decreases branches,
{
    branches.len() == 0 || (column_free(branches[0].condition) && column_free(branches[0].result)
        && clauses_column_free(branches.drop_first()))
}

/// The field that a bound column reference names, or its binding error.
pub open spec fn bound_field(r: Result<BoundExpression, BindError>) -> Result<FieldId, BindError> {
    match r {
        Ok(expression) => match expression.kind {
            ExpressionKind::Field(field) => Ok(field),
            _ => arbitrary(),
        },
        Err(e) => Err(e),
    }
}

impl<'a> Binder<'a> {
    fn resolve_column(
        &self,
        qualifier: Option<ast::Identifier>,
        name: ast::Identifier,
        sources: &[BoundOccurrence],
        results: Option<&[BoundField]>,
        inside_window: bool,
    ) -> (r: Result<FieldId, BindError>)
        ensures
            column_resolution(
                r,
                *self.parsed,
                qualifier,
                name,
                sources_view(sources@),
                match results {
                    Some(fields) => Some(fields_view(fields@)),
                    None => None,
                },
                inside_window,
            ),
    {
        if inside_window || qualifier.is_some() {
            return resolve_source_field(self.parsed, qualifier, name, sources);
        }
        match results {
            Some(fields) => {
                let name_value = self.parsed.identifier_name(name);
                let candidates = field_ids_named(fields, &name_value);
                if candidates.len() == 1 {
                    Ok(candidates[0])
                } else if candidates.len() == 0 {
                    resolve_source_field(self.parsed, qualifier, name, sources)
                } else {
                    Err(BindError { kind: BindErrorKind::AmbiguousColumn(name_value), span: name.span })
                }
            },
            None => resolve_source_field(self.parsed, qualifier, name, sources),
        }
    }

    #[verifier::rlimit(60)]
    #[verifier::spinoff_prover]
    fn bind_expression_with(
        &mut self,
        syntax: &'a ast::Expression,
        sources: &[BoundOccurrence],
        results: Option<&[BoundField]>,
        window_sources: Option<&[BoundOccurrence]>,
        chain: &[usize],
        inside_window: bool,
    ) -> (r: Result<BoundExpression, BindError>)
        requires
            old(self).wf(),
            chain_valid(chain@, old(self).scopes@.len() as int),
        ensures
            final(self).wf(),
            old(self).advanced(final(self)),
            r matches Ok(expression) ==> expression_mirrors(*old(self).parsed, *syntax, expression),
            syntax is Literal ==> r is Ok,
            column_free(*syntax) ==> r is Ok,
            syntax matches ast::Expression::ColumnReference { qualifier, name, .. } ==> column_resolution(
                bound_field(r),
                *old(self).parsed,
                *qualifier,
                *name,
                sources_view(sources@),
                match results {
                    Some(fields) => Some(fields_view(fields@)),
                    None => None,
                },
                inside_window,
            ),
        decreases old(self).potential(), *syntax, 1int,
    {
        let span = syntax.span();
        let no_sources: Vec<BoundOccurrence> = Vec::new();
        let window_fields = match window_sources {
            Some(window) => window,
            None => no_sources.as_slice(),
        };
        let kind = match syntax {
            ast::Expression::Literal(literal) => ExpressionKind::Literal(
                match literal {
                    ast::Literal::Integer(l) => LiteralValue::Integer(self.parsed.integer_spelling(*l)),
                    ast::Literal::Text(l) => LiteralValue::Text(self.parsed.text_value(*l)),
                    ast::Literal::Boolean { value, .. } => LiteralValue::Boolean(*value),
                    ast::Literal::Null { .. } => LiteralValue::Null,
                },
            ),
            ast::Expression::ColumnReference { qualifier, name, .. } => {
                let field = self.resolve_column(*qualifier, *name, sources, results, inside_window)?;
                ExpressionKind::Field(field)
            },
            ast::Expression::Parenthesized { expression, .. } => {
                let inner = self.bind_expression_with(
                    expression,
                    sources,
                    results,
                    window_sources,
                    chain,
                    inside_window,
                )?;
                ExpressionKind::Parenthesized(Box::new(inner))
            },
            ast::Expression::Unary { operator, expression, .. } => {
                let inner = self.bind_expression_with(
                    expression,
                    sources,
                    results,
                    window_sources,
                    chain,
                    inside_window,
                )?;
                ExpressionKind::Unary { operator: *operator, expression: Box::new(inner) }
            },
            ast::Expression::Binary { left, operator, right, .. } => {
                let left = self.bind_expression_with(
                    left,
                    sources,
                    results,
                    window_sources,
                    chain,
                    inside_window,
                )?;
                let right = self.bind_expression_with(
                    right,
                    sources,
                    results,
                    window_sources,
                    chain,
                    inside_window,
                )?;
                ExpressionKind::Binary {
                    left: Box::new(left),
                    operator: *operator,
                    right: Box::new(right),
                }
            },
            ast::Expression::IsNull { expression, negated, .. } => {
                let inner = self.bind_expression_with(
                    expression,
                    sources,
                    results,
                    window_sources,
                    chain,
                    inside_window,
                )?;
                ExpressionKind::IsNull { expression: Box::new(inner), negated: *negated }
            },
            ast::Expression::InList { expression, negated, values, .. } => {
                let inner = self.bind_expression_with(
                    expression,
                    sources,
                    results,
                    window_sources,
                    chain,
                    inside_window,
                )?;
                let bound_values = self.bind_expression_list(
                    values,
                    Ghost(*syntax),
                    sources,
                    results,
                    window_sources,
                    chain,
                    inside_window,
                )?;
                ExpressionKind::InList {
                    expression: Box::new(inner),
                    negated: *negated,
                    values: bound_values,
                }
            },
            ast::Expression::InQuery { expression, negated, query, .. } => {
                let inner = self.bind_expression_with(
                    expression,
                    sources,
                    results,
                    window_sources,
                    chain,
                    inside_window,
                )?;
                let bound = self.bind_query_expression(query, chain)?;
                ExpressionKind::InQuery {
                    expression: Box::new(inner),
                    negated: *negated,
                    query: Box::new(bound),
                }
            },
            ast::Expression::Case { branches, else_expression, .. } => {
                let bound_branches = self.bind_when_clauses(
                    branches,
                    Ghost(*syntax),
                    sources,
                    results,
                    window_sources,
                    chain,
                    inside_window,
                )?;
                let bound_else = match else_expression {
                    Some(expression) => Some(
                        Box::new(
                            self.bind_expression_with(
                                expression,
                                sources,
                                results,
                                window_sources,
                                chain,
                                inside_window,
                            )?,
                        ),
                    ),
                    None => None,
                };
                ExpressionKind::Case { branches: bound_branches, else_expression: bound_else }
            },
            ast::Expression::Cast { expression, scalar_type, .. } => {
                let inner = self.bind_expression_with(
                    expression,
                    sources,
                    results,
                    window_sources,
                    chain,
                    inside_window,
                )?;
                ExpressionKind::Cast {
                    expression: Box::new(inner),
                    scalar_type: convert_scalar_type(*scalar_type),
                }
            },
            ast::Expression::Exists { query, .. } => {
                let bound = self.bind_query_expression(query, chain)?;
                ExpressionKind::Exists { query: Box::new(bound) }
            },
            ast::Expression::Aggregate { function, argument, window, .. } => {
                let is_window = window.is_some();
                let bound_argument = match argument {
                    ast::AggregateArgument::Star(star) => AggregateArgument::Star(*star),
                    ast::AggregateArgument::Expression(expression) => {
                        let inner = if is_window {
                            self.bind_expression_with(
                                expression,
                                window_fields,
                                None,
                                window_sources,
                                chain,
                                true,
                            )?
                        } else {
                            self.bind_expression_with(
                                expression,
                                sources,
                                results,
                                window_sources,
                                chain,
                                inside_window,
                            )?
                        };
                        AggregateArgument::Expression(Box::new(inner))
                    },
                };
                let bound_window = match window {
                    Some(window) => {
                        let partition_by = self.bind_expression_list(
                            &window.partition_by,
                            Ghost(*syntax),
                            window_fields,
                            None,
                            window_sources,
                            chain,
                            true,
                        )?;
                        Some(AggregateWindow { partition_by, span: window.span })
                    },
                    None => None,
                };
                ExpressionKind::Aggregate {
                    function: *function,
                    argument: bound_argument,
                    window: bound_window,
                }
            },
            ast::Expression::Ranking { function, partition_by, order_by, .. } => {
                let bound_partition = self.bind_expression_list(
                    partition_by,
                    Ghost(*syntax),
                    window_fields,
                    None,
                    window_sources,
                    chain,
                    true,
                )?;
                let bound_order = self.bind_window_order(
                    order_by,
                    Ghost(*syntax),
                    window_fields,
                    window_sources,
                    chain,
                )?;
                ExpressionKind::Ranking {
                    function: *function,
                    partition_by: bound_partition,
                    order_by: bound_order,
                }
            },
        };
        Ok(Expression::new(kind, (), span))
    }
}


impl<'a> Binder<'a> {
    /// Binds each expression of a list that belongs to `parent`.
    fn bind_expression_list(
        &mut self,
        expressions: &'a Vec<ast::Expression>,
        Ghost(parent): Ghost<ast::Expression>,
        sources: &[BoundOccurrence],
        results: Option<&[BoundField]>,
        window_sources: Option<&[BoundOccurrence]>,
        chain: &[usize],
        inside_window: bool,
    ) -> (r: Result<Vec<BoundExpression>, BindError>)
        requires
            old(self).wf(),
            chain_valid(chain@, old(self).scopes@.len() as int),
            forall|k: int|
                0 <= k < expressions@.len() ==> decreases_to!(parent => #[trigger] expressions@[k]),
        ensures
            final(self).wf(),
            old(self).advanced(final(self)),
            r matches Ok(bound) ==> bound@.len() == expressions@.len() && forall|k: int|
                0 <= k < expressions@.len() ==> expression_mirrors(
                    *old(self).parsed,
                    #[trigger] expressions@[k],
                    bound@[k],
                ),
            all_column_free(expressions@) ==> r is Ok,
        decreases old(self).potential(), parent, 0int,
    {
        let mut bound: Vec<BoundExpression> = Vec::new();
        let mut index: usize = 0;
        assert(expressions@.subrange(0, expressions@.len() as int) =~= expressions@);
        while index < expressions.len()
            invariant
                all_column_free(expressions@) ==> all_column_free(
                    expressions@.subrange(index as int, expressions@.len() as int),
                ),
                self.wf(),
                old(self).advanced(self),
                chain_valid(chain@, self.scopes@.len() as int),
                index <= expressions@.len(),
                bound@.len() == index,
                forall|k: int|
                    0 <= k < index ==> expression_mirrors(
                        *old(self).parsed,
                        #[trigger] expressions@[k],
                        bound@[k],
                    ),
            decreases expressions@.len() - index,
        {
            proof {
                let rest = expressions@.subrange(index as int, expressions@.len() as int);
                assert(rest[0] == expressions@[index as int]);
                assert(rest.drop_first() =~= expressions@.subrange(index + 1, expressions@.len() as int));
            }
            let expression = self.bind_expression_with(
                &expressions[index],
                sources,
                results,
                window_sources,
                chain,
                inside_window,
            )?;
            bound.push(expression);
            index = index + 1;
        }
        Ok(bound)
    }

    fn bind_when_clauses(
        &mut self,
        branches: &'a Vec<ast::WhenClause>,
        Ghost(parent): Ghost<ast::Expression>,
        sources: &[BoundOccurrence],
        results: Option<&[BoundField]>,
        window_sources: Option<&[BoundOccurrence]>,
        chain: &[usize],
        inside_window: bool,
    ) -> (r: Result<Vec<WhenClause<(), BoundFieldAnnotation>>, BindError>)
        requires
            old(self).wf(),
            chain_valid(chain@, old(self).scopes@.len() as int),
            forall|k: int|
                0 <= k < branches@.len() ==> decreases_to!(parent => (#[trigger] branches@[k]).condition)
                    && decreases_to!(parent => branches@[k].result),
        ensures
            final(self).wf(),
            old(self).advanced(final(self)),
            r matches Ok(bound) ==> bound@.len() == branches@.len() && forall|k: int|
                0 <= k < branches@.len() ==> when_mirrors(*old(self).parsed, branches@[k], #[trigger] bound@[k]),
            clauses_column_free(branches@) ==> r is Ok,
        decreases old(self).potential(), parent, 0int,
    {
        let mut bound: Vec<WhenClause<(), BoundFieldAnnotation>> = Vec::new();
        let mut index: usize = 0;
        assert(branches@.subrange(0, branches@.len() as int) =~= branches@);
        while index < branches.len()
            invariant
                clauses_column_free(branches@) ==> clauses_column_free(
                    branches@.subrange(index as int, branches@.len() as int),
                ),
                self.wf(),
                old(self).advanced(self),
                chain_valid(chain@, self.scopes@.len() as int),
                index <= branches@.len(),
                bound@.len() == index,
                forall|k: int|
                    0 <= k < index ==> when_mirrors(*old(self).parsed, branches@[k], #[trigger] bound@[k]),
            decreases branches@.len() - index,
        {
            proof {
                let rest = branches@.subrange(index as int, branches@.len() as int);
                assert(rest[0] == branches@[index as int]);
                assert(rest.drop_first() =~= branches@.subrange(index + 1, branches@.len() as int));
            }
            let branch = &branches[index];
            let condition = self.bind_expression_with(
                &branch.condition,
                sources,
                results,
                window_sources,
                chain,
                inside_window,
            )?;
            let result = self.bind_expression_with(
                &branch.result,
                sources,
                results,
                window_sources,
                chain,
                inside_window,
            )?;
            let ghost previous = bound@;
            bound.push(WhenClause { condition, result, span: branch.span });
            assert forall|k: int| 0 <= k < index + 1 implies when_mirrors(*old(self).parsed, branches@[k], #[trigger] bound@[k]) by {
                if k < index {
                    assert(bound@[k] == previous[k]);
                }
            }
            index = index + 1;
        }
        Ok(bound)
    }

    /// Binds the ordering of a ranking function, within its window.
    fn bind_window_order(
        &mut self,
        order_by: &'a Vec<ast::OrderItem>,
        Ghost(parent): Ghost<ast::Expression>,
        window_fields: &[BoundOccurrence],
        window_sources: Option<&[BoundOccurrence]>,
        chain: &[usize],
    ) -> (r: Result<Vec<OrderItem<(), BoundFieldAnnotation>>, BindError>)
        requires
            old(self).wf(),
            chain_valid(chain@, old(self).scopes@.len() as int),
            forall|k: int|
                0 <= k < order_by@.len() ==> decreases_to!(parent => (#[trigger] order_by@[k]).expression),
        ensures
            final(self).wf(),
            old(self).advanced(final(self)),
            r matches Ok(bound) ==> bound@.len() == order_by@.len() && forall|k: int|
                0 <= k < order_by@.len() ==> ordering_kept(order_by@[k], #[trigger] bound@[k])
                    && expression_mirrors(*old(self).parsed, order_by@[k].expression, bound@[k].expression),
        decreases old(self).potential(), parent, 0int,
    {
        let mut bound: Vec<OrderItem<(), BoundFieldAnnotation>> = Vec::new();
        let mut index: usize = 0;
        while index < order_by.len()
            invariant
                self.wf(),
                old(self).advanced(self),
                chain_valid(chain@, self.scopes@.len() as int),
                index <= order_by@.len(),
                bound@.len() == index,
                forall|k: int|
                    0 <= k < index ==> ordering_kept(order_by@[k], #[trigger] bound@[k])
                        && expression_mirrors(*old(self).parsed, order_by@[k].expression, bound@[k].expression),
            decreases order_by@.len() - index,
        {
            let item = &order_by[index];
            let expression = self.bind_expression_with(
                &item.expression,
                window_fields,
                None,
                window_sources,
                chain,
                true,
            )?;
            let ghost previous = bound@;
            bound.push(
                OrderItem {
                    expression,
                    direction: item.direction,
                    null_placement: item.null_placement,
                    span: item.span,
                },
            );
            assert forall|k: int| 0 <= k < index + 1 implies ordering_kept(order_by@[k], #[trigger] bound@[k])
                && expression_mirrors(*old(self).parsed, order_by@[k].expression, bound@[k].expression) by {
                if k < index {
                    assert(bound@[k] == previous[k]);
                }
            }
            index = index + 1;
        }
        Ok(bound)
    }
}

} // verus!
