use shapesql::shape_ir::{CollectionKind, Field, Graph, Node, NodeKind};
use shapesql::{
    bind, evaluate, lower, parse_owned, type_check, Catalog, CatalogField, CatalogRelation,
    EvaluateError, EvaluationErrorKind, InputErrorKind, InputField, InputRelation, Name,
    RelationBinding, Row, ScalarType, Snapshot, SnapshotError, TypeDescriptor, Value,
};

fn descriptor(scalar: ScalarType, nullable: bool) -> TypeDescriptor {
    TypeDescriptor::new(scalar, nullable)
}

fn catalog_field(name: &str, scalar: ScalarType, nullable: bool) -> CatalogField {
    CatalogField::new(name, descriptor(scalar, nullable))
}

fn catalog_relation(name: &str, fields: Vec<CatalogField>) -> CatalogRelation {
    CatalogRelation::new(Name::new(name), RelationBinding::new(name), fields)
}

fn input_field(name: &str, scalar: ScalarType, nullable: bool) -> InputField {
    InputField::new(name, descriptor(scalar, nullable))
}

fn relation(schema: Vec<InputField>, rows: Vec<Row>) -> InputRelation {
    InputRelation::new(schema, rows)
}

fn row(values: Vec<Value>) -> Row {
    Row::new(values)
}

fn int64(value: i64) -> Value {
    Value::Int64(value)
}

fn boolean(value: bool) -> Value {
    Value::Boolean(value)
}

fn text(value: &str) -> Value {
    Value::Text(value.to_string())
}

fn snapshot(relations: Vec<(&str, InputRelation)>) -> Snapshot {
    Snapshot::from_relations(
        relations
            .into_iter()
            .map(|(binding, relation)| (RelationBinding::new(binding), relation))
            .collect(),
    )
    .unwrap()
}

fn compile(source: &[u8], catalog: &Catalog) -> Graph {
    let parsed = parse_owned(source).unwrap();
    let bound = bind(&parsed, catalog).unwrap_or_else(|error| panic!("{}", error.describe()));
    let typed = type_check(bound).unwrap_or_else(|error| panic!("{}", error.describe()));
    lower(typed).unwrap()
}

fn evaluate_sql(source: &str, catalog: &Catalog, snapshot: &Snapshot) -> shapesql::EvaluationResult {
    let graph = compile(source.as_bytes(), catalog);
    evaluate(&graph, snapshot).unwrap()
}

fn assert_bag_eq(actual: &[Row], expected: Vec<Row>) {
    let mut remaining: Vec<&Row> = actual.iter().collect();
    for expected_row in &expected {
        let Some(index) = remaining.iter().position(|row| *row == expected_row) else {
            panic!("missing row {expected_row:?}; actual rows: {actual:?}");
        };
        remaining.remove(index);
    }
    assert!(remaining.is_empty(), "unexpected rows {remaining:?}; expected rows: {expected:?}");
}

fn division_by_zero(result: Result<shapesql::EvaluationResult, EvaluateError>) -> bool {
    matches!(
        result,
        Err(EvaluateError::Evaluation(shapesql::EvaluationError {
            kind: EvaluationErrorKind::DivisionByZero,
            ..
        }))
    )
}

/// One input node named `n0` over the binding `rows` with one INT64 field.
fn minimal_input_graph() -> Graph {
    Graph::new(
        "n0",
        vec![Node {
            id: shapesql::shape_ir::NodeId::new("n0"),
            kind: NodeKind::Input { binding: RelationBinding::new("rows") },
            output_schema: vec![Field::new("f0", "value", descriptor(ScalarType::Int64, false))],
            collection: CollectionKind::Bag,
        }],
    )
}

#[test]
fn validates_only_demanded_host_relations_and_checks_them_strictly() {
    let graph = minimal_input_graph();
    let missing = evaluate(&graph, &Snapshot::new()).unwrap_err();
    assert!(matches!(
        missing,
        EvaluateError::Input(shapesql::InputError { kind: InputErrorKind::MissingBinding, .. })
    ));

    let wrong_schema = snapshot(vec![(
        "rows",
        relation(vec![input_field("other", ScalarType::Int64, false)], vec![row(vec![int64(1)])]),
    )]);
    assert!(matches!(
        evaluate(&graph, &wrong_schema),
        Err(EvaluateError::Input(shapesql::InputError { kind: InputErrorKind::FieldName { .. }, .. }))
    ));

    let invalid_value = snapshot(vec![(
        "rows",
        relation(vec![input_field("value", ScalarType::Int64, false)], vec![row(vec![Value::Null])]),
    )]);
    assert!(matches!(
        evaluate(&graph, &invalid_value),
        Err(EvaluateError::Input(shapesql::InputError { kind: InputErrorKind::InvalidValue { .. }, .. }))
    ));

    let mut invalid_graph = minimal_input_graph();
    invalid_graph.nodes.push(Node {
        id: shapesql::shape_ir::NodeId::new("n1"),
        kind: NodeKind::Slice {
            input: shapesql::shape_ir::NodeId::new("n0"),
            offset: -1,
            limit: None,
        },
        output_schema: vec![Field::new("f0", "value", descriptor(ScalarType::Int64, false))],
        collection: CollectionKind::Ordered,
    });
    invalid_graph.root = shapesql::shape_ir::NodeId::new("n1");
    assert!(matches!(
        evaluate(&invalid_graph, &Snapshot::new()),
        Err(EvaluateError::Validation(_))
    ));
}

#[test]
fn preserves_conditional_and_strict_scalar_error_demand() {
    let catalog = Catalog::new(vec![catalog_relation(
        "numbers",
        vec![catalog_field("id", ScalarType::Int64, false)],
    )]);
    let one = snapshot(vec![(
        "numbers",
        relation(vec![input_field("id", ScalarType::Int64, false)], vec![row(vec![int64(1)])]),
    )]);

    let success = evaluate_sql(
        "SELECT CASE WHEN TRUE THEN 7 ELSE 1 / 0 END, FALSE AND (1 / 0 = 0), TRUE OR (1 / 0 = 0) FROM numbers",
        &catalog,
        &one,
    );
    assert_eq!(success.rows, vec![row(vec![int64(7), boolean(false), boolean(true)])]);

    for source in [
        "SELECT CAST(NULL AS INT64) + (1 / 0) FROM numbers",
        "SELECT 1 IN (1, 1 / 0) FROM numbers",
    ] {
        let graph = compile(source.as_bytes(), &catalog);
        assert!(division_by_zero(evaluate(&graph, &one)), "{source}");
    }
}

#[test]
fn relational_predicates_ordering_and_slice_require_complete_inputs() {
    let catalog = Catalog::new(vec![
        catalog_relation("outer_rows", vec![catalog_field("id", ScalarType::Int64, false)]),
        catalog_relation("inner_rows", vec![catalog_field("id", ScalarType::Int64, false)]),
    ]);
    let snapshot = snapshot(vec![
        (
            "outer_rows",
            relation(vec![input_field("id", ScalarType::Int64, false)], vec![row(vec![int64(1)])]),
        ),
        (
            "inner_rows",
            relation(
                vec![input_field("id", ScalarType::Int64, false)],
                vec![row(vec![int64(1)]), row(vec![int64(0)])],
            ),
        ),
    ]);

    for source in [
        "SELECT o.id FROM outer_rows AS o WHERE EXISTS (SELECT 1 / i.id FROM inner_rows AS i)",
        "SELECT o.id FROM outer_rows AS o WHERE o.id IN (SELECT CASE WHEN i.id = 0 THEN 1 / 0 ELSE 1 END FROM inner_rows AS i)",
        "SELECT i.id FROM inner_rows AS i ORDER BY 1 DESC, 1 / i.id ASC LIMIT 1",
        "SELECT o.id FROM outer_rows AS o WHERE FALSE INTERSECT SELECT 1 / i.id FROM inner_rows AS i",
    ] {
        let graph = compile(source.as_bytes(), &catalog);
        assert!(division_by_zero(evaluate(&graph, &snapshot)), "{source}");
    }
}

#[test]
fn full_outer_join_preserves_candidate_pair_multiplicity() {
    let catalog = Catalog::new(vec![
        catalog_relation("left_rows", vec![catalog_field("id", ScalarType::Int64, false)]),
        catalog_relation("right_rows", vec![catalog_field("id", ScalarType::Int64, false)]),
    ]);
    let snapshot = snapshot(vec![
        (
            "left_rows",
            relation(
                vec![input_field("id", ScalarType::Int64, false)],
                vec![row(vec![int64(1)]), row(vec![int64(1)]), row(vec![int64(2)])],
            ),
        ),
        (
            "right_rows",
            relation(
                vec![input_field("id", ScalarType::Int64, false)],
                vec![row(vec![int64(1)]), row(vec![int64(1)]), row(vec![int64(3)])],
            ),
        ),
    ]);
    let result = evaluate_sql(
        "SELECT l.id, r.id FROM left_rows AS l FULL JOIN right_rows AS r ON l.id = r.id",
        &catalog,
        &snapshot,
    );

    assert_bag_eq(
        &result.rows,
        vec![
            row(vec![int64(1), int64(1)]),
            row(vec![int64(1), int64(1)]),
            row(vec![int64(1), int64(1)]),
            row(vec![int64(1), int64(1)]),
            row(vec![int64(2), Value::Null]),
            row(vec![Value::Null, int64(3)]),
        ],
    );

    let cross = evaluate_sql(
        "SELECT l.id, r.id FROM left_rows AS l CROSS JOIN right_rows AS r",
        &catalog,
        &snapshot,
    );
    assert_eq!(cross.rows.len(), 9);
}

fn grouped_catalog() -> Catalog {
    Catalog::new(vec![catalog_relation(
        "rows",
        vec![
            catalog_field("group_id", ScalarType::Int64, false),
            catalog_field("value", ScalarType::Int64, true),
            catalog_field("flag", ScalarType::Boolean, true),
        ],
    )])
}

fn grouped_schema() -> Vec<InputField> {
    vec![
        input_field("group_id", ScalarType::Int64, false),
        input_field("value", ScalarType::Int64, true),
        input_field("flag", ScalarType::Boolean, true),
    ]
}

#[test]
fn grouping_aggregates_use_null_and_exact_final_sum_semantics() {
    let catalog = grouped_catalog();
    let grouped = snapshot(vec![(
        "rows",
        relation(
            grouped_schema(),
            vec![
                row(vec![int64(1), int64(5), boolean(true)]),
                row(vec![int64(1), Value::Null, Value::Null]),
                row(vec![int64(1), int64(-2), boolean(false)]),
                row(vec![int64(2), Value::Null, Value::Null]),
            ],
        ),
    )]);
    let result = evaluate_sql(
        "SELECT group_id, COUNT(*), COUNT(value), SUM(value), MIN(value), MAX(value), BOOL_AND(flag), BOOL_OR(flag) FROM rows GROUP BY group_id",
        &catalog,
        &grouped,
    );
    assert_bag_eq(
        &result.rows,
        vec![
            row(vec![int64(1), int64(3), int64(2), int64(3), int64(-2), int64(5), boolean(false), boolean(true)]),
            row(vec![
                int64(2),
                int64(1),
                int64(0),
                Value::Null,
                Value::Null,
                Value::Null,
                Value::Null,
                Value::Null,
            ]),
        ],
    );

    let exact = snapshot(vec![(
        "rows",
        relation(
            grouped_schema(),
            vec![
                row(vec![int64(1), int64(i64::MAX), boolean(true)]),
                row(vec![int64(1), int64(1), boolean(true)]),
                row(vec![int64(1), int64(-1), boolean(true)]),
            ],
        ),
    )]);
    let result = evaluate_sql("SELECT SUM(value) FROM rows", &catalog, &exact);
    assert_eq!(result.rows, vec![row(vec![int64(i64::MAX)])]);

    let empty = snapshot(vec![("rows", relation(grouped_schema(), vec![]))]);
    let global = evaluate_sql(
        "SELECT COUNT(*), COUNT(value), SUM(value), MIN(value), MAX(value), BOOL_AND(flag), BOOL_OR(flag) FROM rows",
        &catalog,
        &empty,
    );
    assert_eq!(
        global.rows,
        vec![row(vec![
            int64(0),
            int64(0),
            Value::Null,
            Value::Null,
            Value::Null,
            Value::Null,
            Value::Null,
        ])]
    );
    let grouped_empty =
        evaluate_sql("SELECT group_id, COUNT(*) FROM rows GROUP BY group_id", &catalog, &empty);
    assert!(grouped_empty.rows.is_empty());
}

#[test]
fn boolean_aggregates_do_not_suppress_later_argument_errors() {
    let catalog =
        Catalog::new(vec![catalog_relation("rows", vec![catalog_field("id", ScalarType::Int64, false)])]);
    let snapshot = snapshot(vec![(
        "rows",
        relation(
            vec![input_field("id", ScalarType::Int64, false)],
            vec![row(vec![int64(1)]), row(vec![int64(0)])],
        ),
    )]);
    let graph = compile("SELECT BOOL_OR(1 / id > 0) FROM rows".as_bytes(), &catalog);
    assert!(division_by_zero(evaluate(&graph, &snapshot)));
}

#[test]
fn evaluates_partitioned_aggregates_and_all_ranking_functions() {
    let catalog = Catalog::new(vec![catalog_relation(
        "rows",
        vec![
            catalog_field("group_id", ScalarType::Int64, false),
            catalog_field("id", ScalarType::Int64, false),
            catalog_field("value", ScalarType::Int64, false),
        ],
    )]);
    let snapshot = snapshot(vec![(
        "rows",
        relation(
            vec![
                input_field("group_id", ScalarType::Int64, false),
                input_field("id", ScalarType::Int64, false),
                input_field("value", ScalarType::Int64, false),
            ],
            vec![
                row(vec![int64(1), int64(1), int64(10)]),
                row(vec![int64(1), int64(2), int64(10)]),
                row(vec![int64(1), int64(3), int64(5)]),
                row(vec![int64(2), int64(4), int64(7)]),
            ],
        ),
    )]);
    let source = "
        SELECT id,
               COUNT(*) OVER (PARTITION BY group_id),
               SUM(value) OVER (PARTITION BY group_id),
               ROW_NUMBER() OVER (
                   PARTITION BY group_id
                   ORDER BY group_id ASC, id ASC, value ASC
               ),
               RANK() OVER (PARTITION BY group_id ORDER BY value DESC),
               DENSE_RANK() OVER (PARTITION BY group_id ORDER BY value DESC)
        FROM rows
    ";
    let result = evaluate_sql(source, &catalog, &snapshot);
    assert_bag_eq(
        &result.rows,
        vec![
            row(vec![int64(1), int64(3), int64(25), int64(1), int64(1), int64(1)]),
            row(vec![int64(2), int64(3), int64(25), int64(2), int64(1), int64(1)]),
            row(vec![int64(3), int64(3), int64(25), int64(3), int64(3), int64(2)]),
            row(vec![int64(4), int64(1), int64(7), int64(1), int64(1), int64(1)]),
        ],
    );
}

#[test]
fn implements_all_set_multiplicity_rules() {
    let catalog = Catalog::new(vec![
        catalog_relation("left_rows", vec![catalog_field("value", ScalarType::Int64, false)]),
        catalog_relation("right_rows", vec![catalog_field("value", ScalarType::Int64, false)]),
    ]);
    let snapshot = snapshot(vec![
        (
            "left_rows",
            relation(
                vec![input_field("value", ScalarType::Int64, false)],
                vec![row(vec![int64(1)]), row(vec![int64(1)]), row(vec![int64(2)]), row(vec![int64(3)])],
            ),
        ),
        (
            "right_rows",
            relation(
                vec![input_field("value", ScalarType::Int64, false)],
                vec![row(vec![int64(1)]), row(vec![int64(2)]), row(vec![int64(2)]), row(vec![int64(4)])],
            ),
        ),
    ]);

    let cases = [
        (
            "UNION ALL",
            vec![
                row(vec![int64(1)]),
                row(vec![int64(1)]),
                row(vec![int64(1)]),
                row(vec![int64(2)]),
                row(vec![int64(2)]),
                row(vec![int64(2)]),
                row(vec![int64(3)]),
                row(vec![int64(4)]),
            ],
        ),
        ("UNION", vec![row(vec![int64(1)]), row(vec![int64(2)]), row(vec![int64(3)]), row(vec![int64(4)])]),
        ("INTERSECT ALL", vec![row(vec![int64(1)]), row(vec![int64(2)])]),
        ("INTERSECT", vec![row(vec![int64(1)]), row(vec![int64(2)])]),
        ("EXCEPT ALL", vec![row(vec![int64(1)]), row(vec![int64(3)])]),
        ("EXCEPT", vec![row(vec![int64(3)])]),
    ];

    for (operation, expected) in cases {
        let source = format!("SELECT value FROM left_rows {operation} SELECT value FROM right_rows");
        let result = evaluate_sql(&source, &catalog, &snapshot);
        assert_bag_eq(&result.rows, expected);
    }
}

#[test]
fn null_placement_is_independent_of_direction_and_slice_is_ordered() {
    let catalog = Catalog::new(vec![catalog_relation(
        "rows",
        vec![
            catalog_field("id", ScalarType::Int64, false),
            catalog_field("value", ScalarType::Int64, true),
        ],
    )]);
    let snapshot = snapshot(vec![(
        "rows",
        relation(
            vec![input_field("id", ScalarType::Int64, false), input_field("value", ScalarType::Int64, true)],
            vec![
                row(vec![int64(1), int64(1)]),
                row(vec![int64(2), Value::Null]),
                row(vec![int64(3), int64(2)]),
            ],
        ),
    )]);

    let first = evaluate_sql(
        "SELECT id, value FROM rows ORDER BY value DESC NULLS FIRST, id ASC",
        &catalog,
        &snapshot,
    );
    assert_eq!(
        first.rows,
        vec![row(vec![int64(2), Value::Null]), row(vec![int64(3), int64(2)]), row(vec![int64(1), int64(1)])]
    );

    let bounded = evaluate_sql(
        "SELECT id, value FROM rows ORDER BY value DESC NULLS LAST, id ASC LIMIT 1 OFFSET 1",
        &catalog,
        &snapshot,
    );
    assert_eq!(bounded.rows, vec![row(vec![int64(1), int64(1)])]);
}

#[test]
fn arithmetic_and_cast_boundaries_follow_portable_rules() {
    let catalog = Catalog::new(vec![catalog_relation("unit", vec![])]);
    let snapshot = snapshot(vec![("unit", relation(vec![], vec![row(vec![])]))]);
    let result = evaluate_sql(
        "SELECT -9223372036854775808 % -1, CAST('+001' AS INT64), CAST('fAlSe' AS BOOLEAN) FROM unit",
        &catalog,
        &snapshot,
    );
    assert_eq!(result.rows, vec![row(vec![int64(0), int64(1), boolean(false)])]);

    for (source, expected) in [
        ("SELECT 9223372036854775807 + 1 FROM unit", EvaluationErrorKind::IntegerOverflow),
        (
            "SELECT CAST(' 1' AS INT64) FROM unit",
            EvaluationErrorKind::InvalidTextCast { target: ScalarType::Int64 },
        ),
        (
            "SELECT CAST('yes' AS BOOLEAN) FROM unit",
            EvaluationErrorKind::InvalidTextCast { target: ScalarType::Boolean },
        ),
    ] {
        let graph = compile(source.as_bytes(), &catalog);
        assert!(matches!(
            evaluate(&graph, &snapshot),
            Err(EvaluateError::Evaluation(shapesql::EvaluationError { kind, .. })) if kind == expected
        ), "{source}");
    }
}

#[test]
fn snapshot_refuses_a_repeated_binding() {
    let mut snapshot = Snapshot::new();
    assert!(snapshot.is_empty());
    snapshot.insert(RelationBinding::new("rows"), relation(vec![], vec![])).unwrap();
    let repeated = snapshot.insert(RelationBinding::new("rows"), relation(vec![], vec![]));
    assert!(matches!(repeated, Err(SnapshotError::DuplicateBinding(binding)) if binding.as_str() == "rows"));
    assert_eq!(snapshot.len(), 1);
    assert!(snapshot.get(&RelationBinding::new("rows")).is_some());
    assert!(snapshot.get(&RelationBinding::new("other")).is_none());
    let built = Snapshot::from_relations(vec![
        (RelationBinding::new("a"), relation(vec![], vec![])),
        (RelationBinding::new("a"), relation(vec![], vec![])),
    ]);
    assert!(built.is_err());
}

#[test]
fn scalar_operations_follow_their_exact_rules() {
    let catalog = Catalog::new(vec![catalog_relation("unit", vec![])]);
    let snapshot = snapshot(vec![("unit", relation(vec![], vec![row(vec![])]))]);
    let result = evaluate_sql(
        "SELECT -7 / 2, -7 % 2, 'é' || '!', 'a' < 'é', FALSE < TRUE, CAST(NULL AS INT64) + 1, \
         CAST(-12 AS TEXT), CAST(TRUE AS TEXT), CAST('TrUe' AS BOOLEAN), \
         CAST('-9223372036854775808' AS INT64), NOT TRUE, 2 IN (1, NULL), 1 IN (1, NULL) FROM unit",
        &catalog,
        &snapshot,
    );
    assert_eq!(
        result.rows,
        vec![row(vec![
            int64(-3),
            int64(-1),
            text("é!"),
            boolean(true),
            boolean(true),
            Value::Null,
            text("-12"),
            text("TRUE"),
            boolean(true),
            int64(i64::MIN),
            boolean(false),
            Value::Null,
            boolean(true),
        ])]
    );
    for (source, expected) in [
        ("SELECT -9223372036854775808 / -1 FROM unit", EvaluationErrorKind::IntegerOverflow),
        ("SELECT -(-9223372036854775808) FROM unit", EvaluationErrorKind::IntegerOverflow),
        ("SELECT 1 % 0 FROM unit", EvaluationErrorKind::RemainderByZero),
    ] {
        let graph = compile(source.as_bytes(), &catalog);
        assert!(matches!(
            evaluate(&graph, &snapshot),
            Err(EvaluateError::Evaluation(shapesql::EvaluationError { kind, .. })) if kind == expected
        ), "{source}");
    }
}

#[test]
fn literal_only_graph_is_evaluated_without_inputs() {
    let graph = compile(
        b"SELECT 1 AS one FROM unit",
        &Catalog::new(vec![catalog_relation("unit", vec![])]),
    );
    let snapshot = snapshot(vec![("unit", relation(vec![], vec![row(vec![]), row(vec![])]))]);
    let result = evaluate(&graph, &snapshot).unwrap();
    assert_eq!(result.rows, vec![row(vec![int64(1)]), row(vec![int64(1)])]);
    assert_eq!(result.collection, CollectionKind::Bag);
}

#[test]
fn every_result_row_is_as_wide_as_the_result_schema() {
    let catalog = Catalog::new(vec![
        catalog_relation(
            "left_rows",
            vec![catalog_field("id", ScalarType::Int64, false), catalog_field("tag", ScalarType::Text, true)],
        ),
        catalog_relation("right_rows", vec![catalog_field("id", ScalarType::Int64, false)]),
    ]);
    let snapshot = snapshot(vec![
        (
            "left_rows",
            relation(
                vec![input_field("id", ScalarType::Int64, false), input_field("tag", ScalarType::Text, true)],
                vec![row(vec![int64(1), text("a")]), row(vec![int64(2), Value::Null])],
            ),
        ),
        ("right_rows", relation(vec![input_field("id", ScalarType::Int64, false)], vec![row(vec![int64(3)])])),
    ]);
    let sources = [
        "SELECT l.id, l.tag, r.id FROM left_rows AS l FULL JOIN right_rows AS r ON l.id = r.id",
        "SELECT id, COUNT(*), MAX(tag) FROM left_rows GROUP BY id",
        "SELECT id, ROW_NUMBER() OVER (ORDER BY id ASC, tag ASC NULLS LAST) FROM left_rows",
        "SELECT DISTINCT tag FROM left_rows ORDER BY tag ASC NULLS LAST LIMIT 1",
    ];
    let widths = [3usize, 3, 2, 1];
    for (source, width) in sources.iter().zip(widths.iter()) {
        let result = evaluate_sql(source, &catalog, &snapshot);
        assert_eq!(result.schema.len(), *width);
        assert!(!result.rows.is_empty());
        for evaluated in &result.rows {
            assert_eq!(evaluated.values.len(), *width);
        }
    }
}

#[test]
fn null_operands_follow_three_valued_logic() {
    let catalog = Catalog::new(vec![catalog_relation(
        "numbers",
        vec![catalog_field("id", ScalarType::Int64, false)],
    )]);
    let one = snapshot(vec![(
        "numbers",
        relation(vec![input_field("id", ScalarType::Int64, false)], vec![row(vec![int64(1)])]),
    )]);
    let result = evaluate_sql(
        "SELECT CAST(NULL AS BOOLEAN) AND FALSE, CAST(NULL AS BOOLEAN) AND TRUE, \
         CAST(NULL AS BOOLEAN) OR TRUE, CAST(NULL AS BOOLEAN) OR FALSE, \
         CASE WHEN CAST(NULL AS BOOLEAN) THEN 1 ELSE 2 END FROM numbers",
        &catalog,
        &one,
    );
    assert_eq!(
        result.rows,
        vec![row(vec![boolean(false), Value::Null, boolean(true), Value::Null, int64(2)])]
    );
}
