use vector_store::document::find_field;
use vector_store::{
    node_from_json, node_to_json, nodes_from_json, nodes_to_json, Filter, Json, Node, StoreError,
};

fn text(s: &str) -> Json {
    Json::Text(s.to_string())
}

fn object(fields: Vec<(&str, Json)>) -> Json {
    Json::Object(fields.into_iter().map(|(name, value)| (name.to_string(), value)).collect())
}

fn numbers(values: &[i128]) -> Json {
    Json::Array(values.iter().map(|n| Json::Number(*n)).collect())
}

fn sample_document() -> Json {
    object(vec![
        ("embedding", Json::Array(vec![numbers(&[7, -7, 0])])),
        ("sentence", text("a chunk")),
        ("text_id", Json::Number(3)),
        ("metadata", object(vec![("key", text("topic")), ("value", text("a"))])),
    ])
}

fn sample_node() -> Node {
    Node::new(
        "a chunk".to_string(),
        3,
        Filter::new("topic".to_string(), "a".to_string()),
        vec![7, -7, 0],
    )
}

fn same_node(a: &Node, b: &Node) -> bool {
    a.text_id() == b.text_id()
        && a.sentence() == b.sentence()
        && a.embedding() == b.embedding()
        && a.metadata().same_as(b.metadata())
}

fn with_field(name: &str, value: Json) -> Json {
    match sample_document() {
        Json::Object(fields) => Json::Object(
            fields
                .into_iter()
                .map(|(n, v)| if n == name { (n, value_of(&value)) } else { (n, v) })
                .collect(),
        ),
        other => other,
    }
}

fn value_of(doc: &Json) -> Json {
    match doc {
        Json::Null => Json::Null,
        Json::Bool(b) => Json::Bool(*b),
        Json::Number(n) => Json::Number(*n),
        Json::Text(s) => Json::Text(s.clone()),
        Json::Array(items) => Json::Array(items.iter().map(value_of).collect()),
        Json::Object(fields) => {
            Json::Object(fields.iter().map(|(n, v)| (n.clone(), value_of(v))).collect())
        }
    }
}

fn without_field(name: &str) -> Json {
    match sample_document() {
        Json::Object(fields) => {
            Json::Object(fields.into_iter().filter(|(n, _)| n != name).collect())
        }
        other => other,
    }
}

#[test]
fn node_document_has_the_persisted_layout() {
    assert_eq!(node_to_json(&sample_node()), sample_document());
}

#[test]
fn node_document_of_empty_values() {
    let node = Node::new(String::new(), 0, Filter::new(String::new(), String::new()), Vec::new());
    let expected = object(vec![
        ("embedding", Json::Array(vec![Json::Array(Vec::new())])),
        ("sentence", text("")),
        ("text_id", Json::Number(0)),
        ("metadata", object(vec![("key", text("")), ("value", text(""))])),
    ]);
    assert_eq!(node_to_json(&node), expected);
}

#[test]
fn node_document_holds_extreme_numbers() {
    let node = Node::new(
        "x".to_string(),
        usize::MAX,
        Filter::new("k".to_string(), "v".to_string()),
        vec![i32::MIN, i32::MAX],
    );
    let doc = node_to_json(&node);
    let expected = object(vec![
        ("embedding", Json::Array(vec![numbers(&[i32::MIN as i128, i32::MAX as i128])])),
        ("sentence", text("x")),
        ("text_id", Json::Number(usize::MAX as i128)),
        ("metadata", object(vec![("key", text("k")), ("value", text("v"))])),
    ]);
    assert_eq!(doc, expected);
    assert!(same_node(&node_from_json(&doc).unwrap(), &node));
}

#[test]
fn node_is_read_back_from_its_document() {
    let node = node_from_json(&sample_document()).unwrap();
    assert!(same_node(&node, &sample_node()));
    let again = node_from_json(&node_to_json(&node)).unwrap();
    assert!(same_node(&again, &sample_node()));
}

#[test]
fn fields_are_found_by_name_in_any_order() {
    let doc = object(vec![
        ("metadata", object(vec![("value", text("a")), ("extra", Json::Null), ("key", text("topic"))])),
        ("text_id", Json::Number(3)),
        ("score", Json::Number(99)),
        ("sentence", text("a chunk")),
        ("embedding", Json::Array(vec![numbers(&[7, -7, 0])])),
    ]);
    assert!(same_node(&node_from_json(&doc).unwrap(), &sample_node()));
}

#[test]
fn first_field_of_a_name_counts() {
    let doc = object(vec![
        ("sentence", text("a chunk")),
        ("sentence", text("shadowed")),
        ("embedding", Json::Array(vec![numbers(&[7, -7, 0])])),
        ("text_id", Json::Number(3)),
        ("text_id", text("not a number")),
        ("metadata", object(vec![("key", text("topic")), ("value", text("a"))])),
    ]);
    assert!(same_node(&node_from_json(&doc).unwrap(), &sample_node()));
    let shadowing = object(vec![
        ("sentence", Json::Null),
        ("sentence", text("a chunk")),
        ("embedding", Json::Array(vec![numbers(&[7, -7, 0])])),
        ("text_id", Json::Number(3)),
        ("metadata", object(vec![("key", text("topic")), ("value", text("a"))])),
    ]);
    assert_eq!(node_from_json(&shadowing).err(), Some(StoreError::PersistenceError));
}

#[test]
fn find_field_returns_first_match() {
    let fields = vec![
        ("a".to_string(), Json::Number(1)),
        ("b".to_string(), Json::Number(2)),
        ("a".to_string(), Json::Number(3)),
    ];
    assert_eq!(find_field(&fields, "a"), Some(&Json::Number(1)));
    assert_eq!(find_field(&fields, "b"), Some(&Json::Number(2)));
    assert_eq!(find_field(&fields, "c"), None);
    assert_eq!(find_field(&fields, "A"), None);
    assert_eq!(find_field(&Vec::new(), "a"), None);
}

#[test]
fn node_needs_every_field() {
    for name in ["embedding", "sentence", "text_id", "metadata"] {
        assert_eq!(node_from_json(&without_field(name)).err(), Some(StoreError::PersistenceError));
    }
    let no_key = with_field("metadata", object(vec![("value", text("a"))]));
    assert_eq!(node_from_json(&no_key).err(), Some(StoreError::PersistenceError));
    let no_value = with_field("metadata", object(vec![("key", text("topic"))]));
    assert_eq!(node_from_json(&no_value).err(), Some(StoreError::PersistenceError));
}

#[test]
fn node_needs_fields_of_the_right_kind() {
    let bad = [
        with_field("sentence", Json::Number(1)),
        with_field("sentence", Json::Null),
        with_field("text_id", text("3")),
        with_field("text_id", Json::Bool(true)),
        with_field("metadata", text("topic=a")),
        with_field("metadata", object(vec![("key", Json::Number(1)), ("value", text("a"))])),
        with_field("metadata", object(vec![("key", text("topic")), ("value", Json::Null)])),
        with_field("embedding", numbers(&[7, -7, 0])),
        with_field("embedding", Json::Array(vec![text("7")])),
        with_field("embedding", Json::Array(vec![Json::Array(vec![text("7")])])),
        with_field("embedding", Json::Null),
        Json::Array(vec![sample_document()]),
        Json::Null,
        text("node"),
    ];
    for doc in &bad {
        assert_eq!(node_from_json(doc).err(), Some(StoreError::PersistenceError));
    }
}

#[test]
fn node_needs_numbers_in_range() {
    let negative_id = with_field("text_id", Json::Number(-1));
    assert_eq!(node_from_json(&negative_id).err(), Some(StoreError::PersistenceError));
    let huge_id = with_field("text_id", Json::Number(usize::MAX as i128 + 1));
    assert_eq!(node_from_json(&huge_id).err(), Some(StoreError::PersistenceError));
    let largest_id = with_field("text_id", Json::Number(usize::MAX as i128));
    assert_eq!(node_from_json(&largest_id).unwrap().text_id(), usize::MAX);
    let above = with_field("embedding", Json::Array(vec![numbers(&[0, i32::MAX as i128 + 1])]));
    assert_eq!(node_from_json(&above).err(), Some(StoreError::PersistenceError));
    let below = with_field("embedding", Json::Array(vec![numbers(&[i32::MIN as i128 - 1])]));
    assert_eq!(node_from_json(&below).err(), Some(StoreError::PersistenceError));
    let edge = with_field(
        "embedding",
        Json::Array(vec![numbers(&[i32::MIN as i128, i32::MAX as i128])]),
    );
    assert_eq!(node_from_json(&edge).unwrap().embedding(), &vec![i32::MIN, i32::MAX]);
}

#[test]
fn node_holds_exactly_one_vector() {
    let none = with_field("embedding", Json::Array(Vec::new()));
    assert_eq!(node_from_json(&none).err(), Some(StoreError::PersistenceError));
    let two = with_field("embedding", Json::Array(vec![numbers(&[1]), numbers(&[2])]));
    assert_eq!(node_from_json(&two).err(), Some(StoreError::PersistenceError));
    let empty_vector = with_field("embedding", Json::Array(vec![numbers(&[])]));
    assert_eq!(node_from_json(&empty_vector).unwrap().embedding(), &Vec::<i32>::new());
}

#[test]
fn node_lists_round_trip_in_order() {
    let nodes = vec![
        Node::new("one".to_string(), 1, Filter::new("t".to_string(), "a".to_string()), vec![1, 0]),
        Node::new("two".to_string(), 5, Filter::new("t".to_string(), "b".to_string()), vec![0, 1]),
        Node::new("three".to_string(), 2, Filter::new("u".to_string(), "".to_string()), vec![]),
    ];
    let doc = nodes_to_json(&nodes);
    match &doc {
        Json::Array(items) => {
            assert_eq!(items.len(), 3);
            assert_eq!(items[1], node_to_json(&nodes[1]));
        }
        other => panic!("not an array: {:?}", other),
    }
    let back = nodes_from_json(&doc).unwrap();
    assert_eq!(back.len(), 3);
    for (a, b) in nodes.iter().zip(back.iter()) {
        assert!(same_node(a, b));
    }
    assert_eq!(nodes_to_json(&Vec::new()), Json::Array(Vec::new()));
    assert_eq!(nodes_from_json(&Json::Array(Vec::new())).unwrap().len(), 0);
}

#[test]
fn node_lists_fail_on_any_bad_item() {
    let doc = Json::Array(vec![sample_document(), Json::Null, sample_document()]);
    assert_eq!(nodes_from_json(&doc).err(), Some(StoreError::PersistenceError));
    assert_eq!(nodes_from_json(&sample_document()).err(), Some(StoreError::PersistenceError));
    assert_eq!(nodes_from_json(&Json::Number(0)).err(), Some(StoreError::PersistenceError));
}
