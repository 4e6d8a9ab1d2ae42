use shapesql::shape_ir::{
    CollectionKind, Direction, Expression, ExpressionKind, Field, FieldId, Graph, LiteralValue,
    Node, NodeId, NodeKind, NullPlacement, OrderingItem, ValidationErrorKind,
};
use shapesql::{RelationBinding, ScalarType, TypeDescriptor};

fn int_field(id: &str) -> Field {
    Field::new(id, "value", TypeDescriptor::non_nullable(ScalarType::Int64))
}

#[test]
fn validates_a_minimal_input_graph() {
    let graph = Graph::new(
        "n0",
        vec![Node {
            id: NodeId::new("n0"),
            kind: NodeKind::Input {
                binding: RelationBinding::new("rows"),
            },
            output_schema: vec![int_field("f0")],
            collection: CollectionKind::Bag,
        }],
    );

    let summary = graph.validate().unwrap();
    assert_eq!(summary.root_schema, vec![int_field("f0")]);
    assert_eq!(summary.root_collection, CollectionKind::Bag);
}

#[test]
fn rejects_unreachable_nodes() {
    let graph = Graph::new(
        "n0",
        vec![
            Node {
                id: NodeId::new("n0"),
                kind: NodeKind::Empty,
                output_schema: vec![],
                collection: CollectionKind::Bag,
            },
            Node {
                id: NodeId::new("n1"),
                kind: NodeKind::Empty,
                output_schema: vec![],
                collection: CollectionKind::Bag,
            },
        ],
    );

    assert!(matches!(
        graph.validate().unwrap_err().kind,
        ValidationErrorKind::UnreachableNode(_)
    ));
}

#[test]
fn includes_demand_edges_in_reachability_and_cycle_checks() {
    let exists = Expression::new(
        ExpressionKind::Exists {
            query: NodeId::new("n1"),
        },
        TypeDescriptor::non_nullable(ScalarType::Boolean),
    );
    let graph = Graph::new(
        "n0",
        vec![
            Node {
                id: NodeId::new("n0"),
                kind: NodeKind::Filter {
                    input: NodeId::new("n1"),
                    predicate: exists,
                },
                output_schema: vec![],
                collection: CollectionKind::Bag,
            },
            Node {
                id: NodeId::new("n1"),
                kind: NodeKind::Filter {
                    input: NodeId::new("n0"),
                    predicate: Expression::new(
                        ExpressionKind::Literal(LiteralValue::Boolean(true)),
                        TypeDescriptor::non_nullable(ScalarType::Boolean),
                    ),
                },
                output_schema: vec![],
                collection: CollectionKind::Bag,
            },
        ],
    );

    assert!(matches!(
        graph.validate().unwrap_err().kind,
        ValidationErrorKind::CyclicGraph(_)
    ));
}

#[test]
fn slice_requires_ordering_fields_to_cover_a_value_key() {
    let input = Node {
        id: NodeId::new("n0"),
        kind: NodeKind::Input {
            binding: RelationBinding::new("rows"),
        },
        output_schema: vec![int_field("f0"), int_field("f1")],
        collection: CollectionKind::Bag,
    };
    let order = Node {
        id: NodeId::new("n1"),
        kind: NodeKind::Order {
            input: NodeId::new("n0"),
            items: vec![OrderingItem {
                expression: Expression::new(
                    ExpressionKind::Field(FieldId::new("f0")),
                    TypeDescriptor::non_nullable(ScalarType::Int64),
                ),
                direction: Direction::Ascending,
                null_placement: NullPlacement::NotApplicable,
            }],
        },
        output_schema: input.output_schema.clone(),
        collection: CollectionKind::Ordered,
    };
    let slice = Node {
        id: NodeId::new("n2"),
        kind: NodeKind::Slice {
            input: NodeId::new("n1"),
            offset: 0,
            limit: Some(1),
        },
        output_schema: input.output_schema.clone(),
        collection: CollectionKind::Ordered,
    };
    let graph = Graph::new("n2", vec![input, order, slice]);

    assert!(matches!(
        graph.validate().unwrap_err().kind,
        ValidationErrorKind::IncompleteSliceKey
    ));
}

#[test]
fn rejects_checked_annotations_that_disagree_with_semantics() {
    let graph = Graph::new(
        "n1",
        vec![
            Node {
                id: NodeId::new("n0"),
                kind: NodeKind::Input {
                    binding: RelationBinding::new("rows"),
                },
                output_schema: vec![int_field("f0")],
                collection: CollectionKind::Bag,
            },
            Node {
                id: NodeId::new("n1"),
                kind: NodeKind::Filter {
                    input: NodeId::new("n0"),
                    predicate: Expression::new(
                        ExpressionKind::Literal(LiteralValue::Boolean(true)),
                        TypeDescriptor::non_nullable(ScalarType::Boolean),
                    ),
                },
                output_schema: vec![],
                collection: CollectionKind::Bag,
            },
        ],
    );

    assert!(matches!(
        graph.validate().unwrap_err().kind,
        ValidationErrorKind::IncorrectOutputSchema
    ));
}
