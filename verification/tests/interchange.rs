use shapesql::interchange::{decode_document, encode_document, refuse_byte_order_mark, EncodeError, JsonValue};
use shapesql::shape_ir::{CollectionKind, Field, Graph, Node, NodeId, NodeKind};
use shapesql::{
    bind, lower, parse_owned, type_check, Catalog, CatalogField, CatalogRelation, Name,
    RelationBinding, ScalarType, TypeDescriptor,
};

fn s(text: &str) -> JsonValue {
    JsonValue::String(text.to_string())
}

fn obj(members: Vec<(&str, JsonValue)>) -> JsonValue {
    JsonValue::Object(members.into_iter().map(|(key, value)| (key.to_string(), value)).collect())
}

fn int64_type() -> JsonValue {
    obj(vec![("nullable", JsonValue::Bool(false)), ("scalar", s("int64"))])
}

fn document(nodes: Vec<JsonValue>) -> JsonValue {
    obj(vec![
        ("interchange_version", s("0.1")),
        ("nodes", JsonValue::Array(nodes)),
        ("root", s("n0")),
        ("shape_ir_version", s("0.1")),
    ])
}

fn empty_node(id: &str) -> JsonValue {
    obj(vec![
        ("collection", s("bag")),
        ("id", s(id)),
        ("kind", s("empty")),
        ("output_schema", JsonValue::Array(vec![])),
    ])
}

fn catalog() -> Catalog {
    Catalog::new(vec![
        CatalogRelation::new(
            Name::new("outer_rows"),
            RelationBinding::new("outer_rows"),
            vec![
                CatalogField::new("id", TypeDescriptor::non_nullable(ScalarType::Int64)),
                CatalogField::new("group_id", TypeDescriptor::non_nullable(ScalarType::Int64)),
            ],
        ),
        CatalogRelation::new(
            Name::new("inner_rows"),
            RelationBinding::new("inner_rows"),
            vec![
                CatalogField::new("id", TypeDescriptor::non_nullable(ScalarType::Int64)),
                CatalogField::new("group_id", TypeDescriptor::non_nullable(ScalarType::Int64)),
                CatalogField::new("flag", TypeDescriptor::nullable(ScalarType::Boolean)),
            ],
        ),
    ])
}

fn compile(source: &str) -> Graph {
    let parsed = parse_owned(source.as_bytes()).unwrap();
    let bound = bind(&parsed, &catalog()).unwrap();
    lower(type_check(bound).unwrap()).unwrap()
}

#[test]
fn accepted_direct_ir_fixtures_decode_validate_and_round_trip() {
    for source in [
        "SELECT id FROM outer_rows",
        "SELECT -9223372036854775808 AS low, 9223372036854775807 AS high FROM outer_rows",
        "SELECT id FROM outer_rows WHERE EXISTS (SELECT 1 FROM inner_rows) AND id IN (SELECT id FROM inner_rows)",
        "WITH rows AS (SELECT id FROM inner_rows) SELECT l.id, r.id FROM rows AS l CROSS JOIN rows AS r",
        "SELECT CASE WHEN id > 1 THEN 'big' ELSE 'small' END AS size, CAST(id AS TEXT) AS t, id IS NULL AS n, id IN (1, 2) AS m FROM outer_rows",
        "SELECT group_id, COUNT(*) AS c, SUM(id) AS s, ROW_NUMBER() OVER (PARTITION BY group_id ORDER BY group_id) AS r \
         FROM outer_rows GROUP BY group_id ORDER BY group_id, c, s NULLS LAST, r LIMIT 3 OFFSET 1",
        "SELECT o.id, i.flag FROM outer_rows AS o LEFT JOIN inner_rows AS i ON o.id = i.id",
        "SELECT id FROM outer_rows UNION SELECT id FROM inner_rows EXCEPT ALL SELECT group_id FROM inner_rows",
        "SELECT DISTINCT group_id FROM outer_rows",
        "SELECT id, MIN(id) OVER (PARTITION BY group_id) AS least FROM inner_rows",
    ] {
        let graph = compile(source);
        graph.validate().unwrap();
        let encoded = encode_document(&graph).unwrap_or_else(|error| panic!("{source}: {error:?}"));
        let decoded = decode_document(&encoded).unwrap_or_else(|error| panic!("{source}: {}", error.describe()));
        assert_eq!(decoded, graph, "{source}");
    }
}

#[test]
fn metadata_accepts_json_numbers_outside_machine_ranges() {
    let mut members = match document(vec![empty_node("n0")]) {
        JsonValue::Object(members) => members,
        _ => unreachable!(),
    };
    members.insert(
        1,
        ("metadata".to_string(), obj(vec![("tool.measurement", JsonValue::Number)])),
    );
    let graph = decode_document(&JsonValue::Object(members)).unwrap();
    graph.validate().unwrap();
}

#[test]
fn canonical_int64_spelling_is_enforced_during_mapping() {
    for spelling in ["+1", "01", "-0", "9223372036854775808"] {
        let input = obj(vec![
            ("binding", s("rows")),
            ("collection", s("bag")),
            ("id", s("n0")),
            ("kind", s("input")),
            ("metadata", obj(vec![("ignored", s(spelling))])),
            (
                "output_schema",
                JsonValue::Array(vec![obj(vec![
                    ("id", s("f0")),
                    ("name", s("x")),
                    ("type", int64_type()),
                ])]),
            ),
        ]);
        let graph = decode_document(&document(vec![input])).unwrap();
        graph.validate().unwrap();

        let filter = obj(vec![
            ("collection", s("bag")),
            ("id", s("n0")),
            ("input", s("n1")),
            ("kind", s("filter")),
            ("output_schema", JsonValue::Array(vec![])),
            (
                "predicate",
                obj(vec![("kind", s("literal")), ("type", int64_type()), ("value", s(spelling))]),
            ),
        ]);
        let error = decode_document(&document(vec![filter, empty_node("n1")])).unwrap_err();
        assert_eq!(error.path, "$.nodes[0].predicate.value", "{spelling}");
        assert_eq!(error.message, "invalid canonical INT64 spelling");
    }
}

#[test]
fn encoder_rejects_invalid_graphs_and_nonportable_identities() {
    let invalid = Graph::new(
        "n1",
        vec![
            Node {
                id: NodeId::new("n0"),
                kind: NodeKind::Input { binding: RelationBinding::new("rows") },
                output_schema: vec![Field::new("f0", "x", TypeDescriptor::non_nullable(ScalarType::Int64))],
                collection: CollectionKind::Bag,
            },
            Node {
                id: NodeId::new("n1"),
                kind: NodeKind::Slice { input: NodeId::new("n0"), offset: -1, limit: None },
                output_schema: vec![Field::new("f0", "x", TypeDescriptor::non_nullable(ScalarType::Int64))],
                collection: CollectionKind::Ordered,
            },
        ],
    );
    assert!(matches!(encode_document(&invalid), Err(EncodeError::Validation(_))));

    let graph = Graph::new(
        "bad id",
        vec![Node {
            id: NodeId::new("bad id"),
            kind: NodeKind::Empty,
            output_schema: vec![],
            collection: CollectionKind::Bag,
        }],
    );
    graph.validate().unwrap();
    assert!(matches!(
        encode_document(&graph),
        Err(EncodeError::InvalidIdentifier(identifier)) if identifier == "bad id"
    ));
}

#[test]
fn decoding_reports_the_path_of_each_structural_failure() {
    let error = decode_document(&document(vec![])).unwrap_err();
    assert_eq!((error.path.as_str(), error.message.as_str()), ("$.nodes", "array must be nonempty"));

    let mut node = empty_node("n0");
    if let JsonValue::Object(members) = &mut node {
        members.push(("surprise".to_string(), JsonValue::Null));
    }
    let error = decode_document(&document(vec![node])).unwrap_err();
    assert_eq!(error.path, "$.nodes[0].surprise");
    assert_eq!(error.message, "unknown member");
    assert_eq!(error.describe(), "$.nodes[0].surprise: unknown member");

    let wrong_version = obj(vec![
        ("interchange_version", s("0.2")),
        ("nodes", JsonValue::Array(vec![empty_node("n0")])),
        ("root", s("n0")),
        ("shape_ir_version", s("0.1")),
    ]);
    let error = decode_document(&wrong_version).unwrap_err();
    assert_eq!(error.path, "$.interchange_version");
    assert_eq!(error.message, "unsupported Shape IR Interchange version `0.2`");

    let error = decode_document(&document(vec![empty_node("9lives")])).unwrap_err();
    assert_eq!((error.path.as_str(), error.message.as_str()), ("$.nodes[0].id", "invalid identifier"));

    let error = decode_document(&JsonValue::Array(vec![])).unwrap_err();
    assert_eq!((error.path.as_str(), error.message.as_str()), ("$", "expected JSON object"));
}

#[test]
fn encoding_writes_every_member_of_a_node() {
    let graph = compile("SELECT id FROM outer_rows");
    let JsonValue::Object(members) = encode_document(&graph).unwrap() else {
        panic!("a document is an object");
    };
    let keys: Vec<&str> = members.iter().map(|(key, _)| key.as_str()).collect();
    assert_eq!(keys, vec!["interchange_version", "shape_ir_version", "root", "nodes"]);
    let JsonValue::Array(nodes) = &members[3].1 else { panic!("nodes are an array") };
    assert_eq!(nodes.len(), graph.nodes.len());
    let JsonValue::Object(first) = &nodes[0] else { panic!("a node is an object") };
    assert_eq!(first[0], ("id".to_string(), s("n0")));
    assert_eq!(first[1], ("kind".to_string(), s("input")));
}

#[test]
fn byte_order_mark_is_refused_at_the_root() {
    let error = refuse_byte_order_mark(&[0xef, 0xbb, 0xbf, b'{', b'}']).unwrap_err();
    assert_eq!(error.path, "$");
    assert_eq!(error.message, "a UTF-8 BOM is not permitted");
    assert!(refuse_byte_order_mark(b"{}").is_ok());
    assert!(refuse_byte_order_mark(&[0xef, 0xbb]).is_ok());
    assert!(refuse_byte_order_mark(&[]).is_ok());
}

fn sorted_members(value: JsonValue) -> JsonValue {
    match value {
        JsonValue::Object(members) => {
            let mut members: Vec<(String, JsonValue)> =
                members.into_iter().map(|(key, value)| (key, sorted_members(value))).collect();
            members.sort_by(|left, right| left.0.cmp(&right.0));
            JsonValue::Object(members)
        }
        JsonValue::Array(items) => JsonValue::Array(items.into_iter().map(sorted_members).collect()),
        other => other,
    }
}

#[test]
fn documents_with_sorted_members_and_metadata_read_back_as_the_same_graph() {
    let graph = compile(
        "SELECT o.id, COUNT(*) AS n FROM outer_rows AS o LEFT JOIN inner_rows AS i ON o.id = i.id \
         WHERE i.flag IS NULL OR o.id > 1 GROUP BY o.id ORDER BY o.id DESC",
    );
    let written = encode_document(&graph).unwrap();
    let JsonValue::Object(mut members) = sorted_members(written) else {
        panic!("a document is an object");
    };
    members.push(("metadata".to_string(), obj(vec![("note", s("kept aside"))])));
    let read = decode_document(&JsonValue::Object(members)).unwrap();
    assert_eq!(read, graph);
}
