use shapesql::{
    bind, parse_owned, type_check, Catalog, CatalogField, CatalogRelation, Name, RelationBinding,
    ScalarType, TypeDescriptor, TypeErrorKind,
};

fn catalog() -> Catalog {
    Catalog::new(vec![
        CatalogRelation::new(
            Name::new("outer_rows"),
            RelationBinding::new("outer_rows"),
            vec![
                CatalogField::new("id", TypeDescriptor::non_nullable(ScalarType::Int64)),
                CatalogField::new("group_id", TypeDescriptor::non_nullable(ScalarType::Int64)),
            ],
        ),
        CatalogRelation::new(
            Name::new("inner_rows"),
            RelationBinding::new("inner_rows"),
            vec![
                CatalogField::new("id", TypeDescriptor::non_nullable(ScalarType::Int64)),
                CatalogField::new("group_id", TypeDescriptor::non_nullable(ScalarType::Int64)),
                CatalogField::new("flag", TypeDescriptor::nullable(ScalarType::Boolean)),
            ],
        ),
    ])
}

fn type_source(source: &str) -> Result<shapesql::hir::TypedProgram, shapesql::TypeError> {
    let parsed = parse_owned(source.as_bytes()).unwrap();
    let bound = bind(&parsed, &catalog()).unwrap();
    type_check(bound)
}

#[test]
fn contextual_null_constraints_flow_both_directions_across_sets() {
    for source in [
        "SELECT NULL FROM outer_rows UNION SELECT id FROM inner_rows",
        "SELECT id FROM outer_rows UNION SELECT NULL FROM inner_rows",
        "SELECT NULL, id FROM outer_rows UNION SELECT id, NULL FROM inner_rows",
    ] {
        let parsed = parse_owned(source.as_bytes()).unwrap();
        let bound = bind(&parsed, &catalog()).unwrap();
        let typed = type_check(bound).unwrap_or_else(|error| panic!("{source}: {}", error.describe()));
        assert!(
            typed
                .query
                .result_fields
                .iter()
                .all(|field| field.annotation.scalar == ScalarType::Int64)
        );
    }
}

#[test]
fn a_source_use_does_not_retroactively_type_its_producer() {
    let source = b"WITH unresolved AS (SELECT NULL FROM inner_rows) SELECT id FROM outer_rows WHERE id IN (SELECT * FROM unresolved)";
    let parsed = parse_owned(source).unwrap();
    let bound = bind(&parsed, &catalog()).unwrap();

    assert!(type_check(bound).is_err());
}

#[test]
fn contextual_null_constraints_flow_both_directions_through_in_query() {
    for source in [
        "SELECT NULL IN (SELECT id FROM inner_rows) FROM outer_rows",
        "SELECT id IN (SELECT NULL FROM inner_rows) FROM outer_rows",
    ] {
        let parsed = parse_owned(source.as_bytes()).unwrap();
        let bound = bind(&parsed, &catalog()).unwrap();
        let typed = type_check(bound).unwrap_or_else(|error| panic!("{source}: {}", error.describe()));
        assert_eq!(
            typed.query.result_fields[0].annotation.scalar,
            ScalarType::Boolean
        );
    }
}

#[test]
fn outer_join_widens_only_the_null_extended_side() {
    let source = b"SELECT o.id, i.id FROM outer_rows AS o LEFT JOIN inner_rows AS i ON o.id = i.id";
    let parsed = parse_owned(source).unwrap();
    let bound = bind(&parsed, &catalog()).unwrap();
    let typed = type_check(bound).unwrap();

    assert!(!typed.query.result_fields[0].annotation.nullable);
    assert!(typed.query.result_fields[1].annotation.nullable);
}

#[test]
fn right_and_full_joins_widen_their_null_extended_sides() {
    let typed = type_source(
        "SELECT o.id, i.id FROM outer_rows AS o RIGHT JOIN inner_rows AS i ON o.id = i.id",
    )
    .unwrap();
    assert!(typed.query.result_fields[0].annotation.nullable);
    assert!(!typed.query.result_fields[1].annotation.nullable);
    let typed = type_source(
        "SELECT o.id, i.id FROM outer_rows AS o FULL JOIN inner_rows AS i ON o.id = i.id",
    )
    .unwrap();
    assert!(typed.query.result_fields[0].annotation.nullable);
    assert!(typed.query.result_fields[1].annotation.nullable);
}

#[test]
fn expression_descriptors_follow_the_typing_rules() {
    let typed = type_source(
        "SELECT id + 1, 'a' || 'b', flag AND TRUE, CAST(id AS TEXT), COUNT(*), SUM(id), id IS NULL FROM inner_rows GROUP BY id, flag",
    )
    .unwrap();
    let actual = typed
        .query
        .result_fields
        .iter()
        .map(|field| field.annotation)
        .collect::<Vec<_>>();
    assert_eq!(
        actual,
        [
            TypeDescriptor::non_nullable(ScalarType::Int64),
            TypeDescriptor::non_nullable(ScalarType::Text),
            TypeDescriptor::nullable(ScalarType::Boolean),
            TypeDescriptor::non_nullable(ScalarType::Text),
            TypeDescriptor::non_nullable(ScalarType::Int64),
            TypeDescriptor::nullable(ScalarType::Int64),
            TypeDescriptor::non_nullable(ScalarType::Boolean),
        ]
    );
}

#[test]
fn the_minimum_int64_is_accepted_only_under_negation() {
    let typed = type_source("SELECT -9223372036854775808 FROM outer_rows").unwrap();
    assert_eq!(
        typed.query.result_fields[0].annotation,
        TypeDescriptor::non_nullable(ScalarType::Int64)
    );
    let error = type_source("SELECT 9223372036854775808 FROM outer_rows").unwrap_err();
    assert!(matches!(&error.kind, TypeErrorKind::IntegerOutOfRange(spelling) if spelling == "9223372036854775808"));
}

#[test]
fn typing_errors_are_reported_by_category() {
    let cases: [(&str, fn(&TypeErrorKind) -> bool); 12] = [
        ("SELECT 'a' + 1 FROM outer_rows", |k| matches!(k, TypeErrorKind::TypeMismatch { .. })),
        ("SELECT NULL FROM outer_rows", |k| matches!(k, TypeErrorKind::UnconstrainedNull)),
        ("SELECT id FROM outer_rows WHERE id", |k| matches!(k, TypeErrorKind::TypeMismatch { .. })),
        ("SELECT CASE WHEN TRUE THEN 1 ELSE 'a' END FROM outer_rows", |k| matches!(k, TypeErrorKind::TypeMismatch { .. })),
        ("SELECT id FROM outer_rows UNION SELECT id, group_id FROM inner_rows", |k| matches!(k, TypeErrorKind::SetArity { .. })),
        ("SELECT id IN (SELECT id, group_id FROM inner_rows) FROM outer_rows", |k| matches!(k, TypeErrorKind::InQueryArity(2))),
        ("SELECT SUM(flag) FROM inner_rows", |k| matches!(k, TypeErrorKind::TypeMismatch { .. } | TypeErrorKind::InvalidAggregateArgument)),
        ("SELECT flag FROM inner_rows ORDER BY flag", |k| matches!(k, TypeErrorKind::NullableOrderingWithoutPlacement)),
        ("SELECT id FROM outer_rows WHERE COUNT(*) > 0", |k| matches!(k, TypeErrorKind::InvalidCrossRowPlacement)),
        ("SELECT id FROM outer_rows HAVING id > 0", |k| matches!(k, TypeErrorKind::HavingWithoutAggregate)),
        ("SELECT id, COUNT(*) FROM outer_rows", |k| matches!(k, TypeErrorKind::UngroupedColumn)),
        ("SELECT id FROM outer_rows ORDER BY id LIMIT 1", |_| false),
    ];
    for (source, expected) in cases.iter().take(11) {
        let error = type_source(source).unwrap_err();
        assert!(expected(&error.kind), "{source}: {:?}", error.kind);
    }
    assert!(type_source(cases[11].0).is_ok());
}

#[test]
fn row_bounds_and_row_numbers_require_complete_orderings() {
    let error = type_source("SELECT id, group_id FROM outer_rows ORDER BY id LIMIT 1").unwrap_err();
    assert!(matches!(error.kind, TypeErrorKind::IncompleteRowBoundOrdering));
    let error = type_source("SELECT ROW_NUMBER() OVER (ORDER BY id) FROM outer_rows").unwrap_err();
    assert!(matches!(error.kind, TypeErrorKind::IncompleteRowNumberOrdering));
    assert!(type_source("SELECT ROW_NUMBER() OVER (ORDER BY id, group_id) FROM outer_rows").is_ok());
    let error = type_source("SELECT CAST(TRUE AS INT64) FROM outer_rows").unwrap_err();
    assert!(matches!(error.kind, TypeErrorKind::UnsupportedCast { source: ScalarType::Boolean, target: ScalarType::Int64 }));
}
