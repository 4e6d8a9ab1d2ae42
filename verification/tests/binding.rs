use shapesql::hir::{ExpressionKind, QueryBody, TablePrimary};
use shapesql::{
    bind, parse_owned, BindErrorKind, Catalog, CatalogField, CatalogRelation, Name,
    RelationBinding, ScalarType, TypeDescriptor,
};

fn catalog() -> Catalog {
    Catalog::new(vec![
        CatalogRelation::new(
            Name::new("outer_rows"),
            RelationBinding::new("outer_rows"),
            vec![
                CatalogField::new("id", TypeDescriptor::non_nullable(ScalarType::Int64)),
                CatalogField::new("group_id", TypeDescriptor::non_nullable(ScalarType::Int64)),
            ],
        ),
        CatalogRelation::new(
            Name::new("inner_rows"),
            RelationBinding::new("inner_rows"),
            vec![
                CatalogField::new("id", TypeDescriptor::non_nullable(ScalarType::Int64)),
                CatalogField::new("group_id", TypeDescriptor::non_nullable(ScalarType::Int64)),
                CatalogField::new("flag", TypeDescriptor::nullable(ScalarType::Boolean)),
            ],
        ),
    ])
}

fn bind_source(source: &str) -> Result<shapesql::hir::BoundProgram, shapesql::BindError> {
    let parsed = parse_owned(source.as_bytes()).unwrap();
    bind(&parsed, &catalog())
}

#[test]
fn binds_forward_ctes_and_retains_unreferenced_declarations() {
    let source = b"WITH later AS (SELECT id FROM inner_rows), unused AS (SELECT flag FROM inner_rows) SELECT id FROM later";
    let parsed = parse_owned(source).unwrap();
    let program = bind(&parsed, &catalog()).unwrap();

    assert_eq!(program.query.common_table_expressions.len(), 2);
    assert_eq!(
        program.query.common_table_expressions[1].name.as_str(),
        "unused"
    );
}

#[test]
fn statically_analyzes_unreferenced_ctes() {
    let source = b"WITH unused AS (SELECT id FROM missing_rows) SELECT id FROM outer_rows";
    let parsed = parse_owned(source).unwrap();

    assert!(bind(&parsed, &catalog()).is_err());
}

#[test]
fn expands_qualified_and_unqualified_wildcards_into_fresh_fields() {
    let program = bind_source(
        "SELECT i.*, o.group_id AS outer_group FROM inner_rows AS i JOIN outer_rows AS o ON i.id = o.id",
    )
    .unwrap();
    let QueryBody::Select(select) = &program.query.body else {
        panic!("expected select query")
    };
    let names = select
        .result_fields
        .iter()
        .map(|field| field.name.as_str())
        .collect::<Vec<_>>();
    assert_eq!(names, ["id", "group_id", "flag", "outer_group"]);
    assert!(select.result_fields.iter().all(|result| {
        select
            .source_fields
            .iter()
            .all(|source| result.id != source.id)
    }));
    assert_eq!(select.source_fields.len(), 5);
}

#[test]
fn unknown_relation_is_reported_with_its_name() {
    let error = bind_source("SELECT id FROM missing_rows").unwrap_err();
    assert!(matches!(&error.kind, BindErrorKind::UnknownRelation(name) if name.as_str() == "missing_rows"));
    assert_eq!((error.span.start, error.span.end), (15, 27));
}

#[test]
fn ambiguous_unqualified_column_is_rejected() {
    let error = bind_source("SELECT id FROM inner_rows AS i CROSS JOIN outer_rows AS o").unwrap_err();
    assert!(matches!(&error.kind, BindErrorKind::AmbiguousColumn(name) if name.as_str() == "id"));
}

#[test]
fn unknown_column_and_qualifier_are_rejected() {
    let error = bind_source("SELECT missing FROM inner_rows").unwrap_err();
    assert!(matches!(&error.kind, BindErrorKind::UnknownColumn(name) if name.as_str() == "missing"));
    let error = bind_source("SELECT x.id FROM inner_rows").unwrap_err();
    assert!(matches!(&error.kind, BindErrorKind::UnknownQualifier(name) if name.as_str() == "x"));
}

#[test]
fn duplicate_source_qualifiers_are_rejected() {
    let error = bind_source("SELECT 1 FROM inner_rows CROSS JOIN inner_rows").unwrap_err();
    assert!(matches!(&error.kind, BindErrorKind::DuplicateSourceQualifier(name) if name.as_str() == "inner_rows"));
}

#[test]
fn duplicate_and_cyclic_ctes_are_rejected() {
    let error = bind_source("WITH a AS (SELECT id FROM inner_rows), a AS (SELECT id FROM inner_rows) SELECT id FROM a")
        .unwrap_err();
    assert!(matches!(&error.kind, BindErrorKind::DuplicateCommonTableExpression(name) if name.as_str() == "a"));
    let error = bind_source("WITH a AS (SELECT id FROM b), b AS (SELECT id FROM a) SELECT id FROM a")
        .unwrap_err();
    assert!(matches!(&error.kind, BindErrorKind::CommonTableExpressionCycle(_)));
}

#[test]
fn order_by_ordinals_name_result_fields() {
    let program = bind_source("SELECT id, flag FROM inner_rows ORDER BY 2").unwrap();
    let QueryBody::Select(select) = &program.query.body else {
        panic!("expected select query")
    };
    let ExpressionKind::Field(field) = &program.query.order_by[0].expression.kind else {
        panic!("ordinal should become a field")
    };
    assert_eq!(*field, select.result_fields[1].id);

    let error = bind_source("SELECT id FROM inner_rows ORDER BY 3").unwrap_err();
    assert!(matches!(&error.kind, BindErrorKind::OrderByOrdinalOutOfRange(spelling) if spelling == "3"));
    let error = bind_source("SELECT id FROM inner_rows ORDER BY 0").unwrap_err();
    assert!(matches!(&error.kind, BindErrorKind::OrderByOrdinalOutOfRange(spelling) if spelling == "0"));
}

#[test]
fn select_aliases_are_not_visible_in_where() {
    let error = bind_source("SELECT id AS alias FROM inner_rows WHERE alias = 1").unwrap_err();
    assert!(matches!(&error.kind, BindErrorKind::UnknownColumn(name) if name.as_str() == "alias"));
}

#[test]
fn order_by_prefers_result_names_and_sees_sources_without_distinct() {
    assert!(bind_source("SELECT id AS key FROM inner_rows ORDER BY key").is_ok());
    assert!(bind_source("SELECT id FROM inner_rows ORDER BY group_id").is_ok());
    assert!(bind_source("SELECT DISTINCT id FROM inner_rows ORDER BY group_id").is_err());
}

#[test]
fn cte_occurrences_are_reidentified() {
    let program = bind_source(
        "WITH c AS (SELECT id FROM inner_rows) SELECT l.id FROM c AS l CROSS JOIN c AS r",
    )
    .unwrap();
    let QueryBody::Select(select) = &program.query.body else {
        panic!("expected select query")
    };
    let left = select.from[0].left.occurrence();
    let right = select.from[0].joins[0].right.occurrence();
    assert_ne!(left.id, right.id);
    assert_ne!(left.fields[0].id, right.fields[0].id);
    assert!(matches!(select.from[0].left, TablePrimary::CommonTableExpression { .. }));
}

#[test]
fn a_query_bearing_predicate_is_structurally_equal_to_itself() {
    let program = bind_source(
        "SELECT id FROM outer_rows WHERE EXISTS (SELECT id FROM inner_rows) AND id IN (SELECT id FROM inner_rows)",
    )
    .unwrap();
    let QueryBody::Select(select) = &program.query.body else {
        panic!("expected a SELECT body");
    };
    let predicate = select.where_clause.as_ref().unwrap();
    let ExpressionKind::Binary { left, right, .. } = &predicate.kind else {
        panic!("expected a conjunction");
    };
    assert!(matches!(left.kind, ExpressionKind::Exists { .. }));
    assert!(matches!(right.kind, ExpressionKind::InQuery { .. }));
    assert!(shapesql::hir::structurally_equal(left, left));
    assert!(shapesql::hir::structurally_equal(right, right));
    assert!(!shapesql::hir::structurally_equal(left, right));
    assert!(shapesql::hir::structurally_equal(predicate, predicate));
}
