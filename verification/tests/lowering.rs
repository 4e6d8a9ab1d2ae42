use shapesql::shape_ir::{
    CollectionKind, Expression, ExpressionKind, Graph, LiteralValue, NodeKind, ProjectEntry,
};
use shapesql::{
    bind, lower, parse_owned, type_check, Catalog, CatalogField, CatalogRelation, Name,
    RelationBinding, ScalarType, TypeDescriptor,
};

fn catalog() -> Catalog {
    Catalog::new(vec![
        CatalogRelation::new(
            Name::new("outer_rows"),
            RelationBinding::new("outer_rows"),
            vec![
                CatalogField::new("id", TypeDescriptor::non_nullable(ScalarType::Int64)),
                CatalogField::new("group_id", TypeDescriptor::non_nullable(ScalarType::Int64)),
            ],
        ),
        CatalogRelation::new(
            Name::new("inner_rows"),
            RelationBinding::new("inner_rows"),
            vec![
                CatalogField::new("id", TypeDescriptor::non_nullable(ScalarType::Int64)),
                CatalogField::new("group_id", TypeDescriptor::non_nullable(ScalarType::Int64)),
                CatalogField::new("flag", TypeDescriptor::nullable(ScalarType::Boolean)),
            ],
        ),
    ])
}

fn compile(source: &[u8]) -> Graph {
    let parsed = parse_owned(source).unwrap();
    let bound = bind(&parsed, &catalog()).unwrap_or_else(|error| panic!("{}", error.describe()));
    let typed = type_check(bound).unwrap_or_else(|error| panic!("{}", error.describe()));
    lower(typed).unwrap_or_else(|error| panic!("{error:?}"))
}

fn root_node(graph: &Graph) -> &shapesql::shape_ir::Node {
    graph
        .nodes
        .iter()
        .find(|node| node.id.as_str() == graph.root.as_str())
        .expect("the root names a node")
}

fn expression_contains_minimum(expression: &Expression) -> bool {
    match &expression.kind {
        ExpressionKind::Literal(LiteralValue::Int64(value)) => *value == i64::MIN,
        ExpressionKind::Unary { operand, .. }
        | ExpressionKind::IsNull { operand, .. }
        | ExpressionKind::Cast { operand, .. } => expression_contains_minimum(operand),
        ExpressionKind::Binary { left, right, .. } => {
            expression_contains_minimum(left) || expression_contains_minimum(right)
        }
        ExpressionKind::Case { arms, fallback } => {
            arms.iter().any(|arm| {
                expression_contains_minimum(&arm.when) || expression_contains_minimum(&arm.result)
            }) || expression_contains_minimum(fallback)
        }
        ExpressionKind::InList { value, candidates } => {
            expression_contains_minimum(value) || candidates.iter().any(expression_contains_minimum)
        }
        ExpressionKind::InQuery { value, .. } => expression_contains_minimum(value),
        ExpressionKind::Literal(_) | ExpressionKind::Field(_) | ExpressionKind::Exists { .. } => {
            false
        }
    }
}

#[test]
fn lowers_grouping_windows_ordering_and_bounds_to_owned_nodes() {
    let graph = compile(
        b"SELECT group_id, COUNT(*) AS total, ROW_NUMBER() OVER (ORDER BY group_id) AS position \
          FROM outer_rows GROUP BY group_id ORDER BY group_id, total, position LIMIT 5 OFFSET 1",
    );
    assert!(graph.validate().is_ok());
    assert!(graph.nodes.iter().any(|node| matches!(node.kind, NodeKind::Aggregate { .. })));
    assert!(graph.nodes.iter().any(|node| matches!(node.kind, NodeKind::Window { .. })));
    assert!(graph.nodes.iter().any(|node| matches!(node.kind, NodeKind::Order { .. })));
    assert!(graph.nodes.iter().any(|node| matches!(
        node.kind,
        NodeKind::Slice { offset: 1, limit: Some(5), .. }
    )));
}

#[test]
fn lowers_the_special_minimum_int64_as_one_ir_literal() {
    let graph = compile(b"SELECT -9223372036854775808 AS minimum FROM outer_rows");
    let has_minimum = graph.nodes.iter().any(|node| {
        let NodeKind::Project { entries, .. } = &node.kind else {
            return false;
        };
        entries.iter().any(|entry| {
            let ProjectEntry::Compute { expression, .. } = entry else {
                return false;
            };
            expression_contains_minimum(expression)
        })
    });
    assert!(has_minimum);
}

#[test]
fn shares_a_cte_subgraph_but_reidentifies_each_occurrence() {
    let source = b"WITH rows AS (SELECT id FROM inner_rows) SELECT l.id, r.id FROM rows AS l CROSS JOIN rows AS r";
    let graph = compile(source);
    let inner_inputs = graph
        .nodes
        .iter()
        .filter(|node| {
            matches!(
                &node.kind,
                NodeKind::Input { binding } if binding.as_str() == "inner_rows"
            )
        })
        .count();
    let occurrence_projects = graph
        .nodes
        .iter()
        .filter(|node| matches!(&node.kind, NodeKind::Project { .. }))
        .count();

    assert_eq!(inner_inputs, 1);
    assert!(occurrence_projects >= 3);
}

#[test]
fn omits_unreferenced_ctes_from_the_graph() {
    let source = b"WITH unused AS (SELECT id FROM inner_rows) SELECT id FROM outer_rows";
    let graph = compile(source);

    assert!(graph.nodes.iter().all(|node| {
        !matches!(
            &node.kind,
            NodeKind::Input { binding } if binding.as_str() == "inner_rows"
        )
    }));
}

#[test]
fn nodes_are_named_by_position_and_refer_only_backwards() {
    let graph = compile(
        b"SELECT id FROM outer_rows WHERE id IN (SELECT id FROM inner_rows) AND EXISTS (SELECT 1 FROM inner_rows)",
    );
    assert_eq!(graph.version, "0.1");
    for (index, node) in graph.nodes.iter().enumerate() {
        assert_eq!(node.id.as_str(), format!("n{index}"));
    }
    let inputs = |kind: &NodeKind| -> Vec<String> {
        match kind {
            NodeKind::Project { input, .. }
            | NodeKind::Filter { input, .. }
            | NodeKind::Aggregate { input, .. }
            | NodeKind::Window { input, .. }
            | NodeKind::Distinct { input }
            | NodeKind::Order { input, .. }
            | NodeKind::Slice { input, .. }
            | NodeKind::ForgetOrder { input } => vec![input.as_str().to_string()],
            NodeKind::Join { left, right, .. } | NodeKind::SetOperation { left, right, .. } => {
                vec![left.as_str().to_string(), right.as_str().to_string()]
            }
            NodeKind::Input { .. } | NodeKind::Empty => vec![],
        }
    };
    for (index, node) in graph.nodes.iter().enumerate() {
        for input in inputs(&node.kind) {
            let position: usize = input[1..].parse().unwrap();
            assert!(position < index);
        }
    }
    assert_eq!(graph.root.as_str(), format!("n{}", graph.nodes.len() - 1));
}

#[test]
fn root_schema_carries_the_query_result_fields() {
    let graph = compile(b"SELECT group_id AS g, id FROM outer_rows");
    let root = root_node(&graph);
    let names: Vec<&str> = root.output_schema.iter().map(|field| field.name.as_str()).collect();
    assert_eq!(names, vec!["g", "id"]);
    assert!(root.output_schema.iter().all(|field| field.id.as_str().starts_with('f')));
    assert_eq!(root.collection, CollectionKind::Bag);
}

#[test]
fn ordered_queries_have_an_ordered_root() {
    let graph = compile(b"SELECT id FROM outer_rows ORDER BY id DESC");
    assert_eq!(root_node(&graph).collection, CollectionKind::Ordered);
    let graph = compile(b"(SELECT id FROM outer_rows ORDER BY id)");
    assert_eq!(root_node(&graph).collection, CollectionKind::Ordered);
    let graph = compile(b"SELECT id FROM outer_rows UNION ALL SELECT id FROM inner_rows");
    assert_eq!(root_node(&graph).collection, CollectionKind::Bag);
}

#[test]
fn ordering_by_a_hidden_expression_projects_it_away_again() {
    let graph = compile(b"SELECT id FROM outer_rows ORDER BY group_id + 1");
    let root = root_node(&graph);
    assert_eq!(root.output_schema.len(), 1);
    assert!(graph
        .nodes
        .iter()
        .any(|node| node.output_schema.iter().any(|field| field.id.as_str().starts_with('t'))));
    assert!(graph.validate().is_ok());
}

#[test]
fn outer_joins_widen_the_null_extended_side() {
    let graph = compile(b"SELECT o.id, i.flag FROM outer_rows AS o LEFT JOIN inner_rows AS i ON o.id = i.id");
    let join = graph
        .nodes
        .iter()
        .find(|node| matches!(node.kind, NodeKind::Join { .. }))
        .unwrap();
    assert!(join.output_schema[..2].iter().all(|field| !field.descriptor.nullable));
    assert!(join.output_schema[2..].iter().all(|field| field.descriptor.nullable));
}
