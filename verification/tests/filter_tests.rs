use vector_store::filter::tag_passes;
use vector_store::{Filter, Node};

fn tag(key: &str, value: &str) -> Filter {
    Filter::new(key.to_string(), value.to_string())
}

fn node_tagged(key: &str, value: &str) -> Node {
    Node::new("text".to_string(), 1, tag(key, value), vec![1, 0])
}

#[test]
fn filter_new_keeps_key_and_value() {
    let f = Filter::new("topic".to_string(), "rules".to_string());
    assert_eq!(f.key(), "topic");
    assert_eq!(f.value(), "rules");
}

#[test]
fn filter_clone_is_equal() {
    let f = tag("a", "1");
    let g = f.clone();
    assert!(f.same_as(&g));
    assert_eq!(g.key(), "a");
    assert_eq!(g.value(), "1");
}

#[test]
fn same_as_needs_both_fields() {
    assert!(tag("a", "1").same_as(&tag("a", "1")));
    assert!(!tag("a", "1").same_as(&tag("a", "2")));
    assert!(!tag("a", "1").same_as(&tag("b", "1")));
    assert!(!tag("a", "1").same_as(&tag("1", "a")));
}

#[test]
fn same_as_is_case_sensitive() {
    assert!(!tag("Topic", "a").same_as(&tag("topic", "a")));
    assert!(!tag("topic", "A").same_as(&tag("topic", "a")));
}

#[test]
fn single_filter_is_exact() {
    let required = vec![tag("a", "1")];
    assert!(vector_store::node::matches(&node_tagged("a", "1"), &required));
    assert!(!vector_store::node::matches(&node_tagged("a", "2"), &required));
    assert!(!vector_store::node::matches(&node_tagged("b", "1"), &required));
    assert!(!vector_store::node::matches(&node_tagged("", ""), &required));
}

#[test]
fn no_filter_is_passed_by_every_node() {
    let required: Vec<Filter> = Vec::new();
    assert!(vector_store::node::matches(&node_tagged("a", "1"), &required));
    assert!(vector_store::node::matches(&node_tagged("", ""), &required));
}

#[test]
fn several_filters_must_all_equal_the_tag() {
    let repeated = vec![tag("a", "1"), tag("a", "1")];
    assert!(vector_store::node::matches(&node_tagged("a", "1"), &repeated));
    let mixed = vec![tag("a", "1"), tag("b", "2")];
    assert!(!vector_store::node::matches(&node_tagged("a", "1"), &mixed));
    assert!(!vector_store::node::matches(&node_tagged("b", "2"), &mixed));
    let late = vec![tag("a", "1"), tag("a", "1"), tag("a", "x")];
    assert!(!vector_store::node::matches(&node_tagged("a", "1"), &late));
}

#[test]
fn tag_passes_agrees_with_matches() {
    let required = vec![tag("k", "v")];
    assert!(tag_passes(&tag("k", "v"), &required));
    assert!(!tag_passes(&tag("k", "w"), &required));
}

#[test]
fn node_new_keeps_its_parts() {
    let node = Node::new("hello".to_string(), 7, tag("k", "v"), vec![1, -2, 3]);
    assert_eq!(node.text_id(), 7);
    assert_eq!(node.sentence(), "hello");
    assert_eq!(node.embedding(), &vec![1, -2, 3]);
    assert!(node.metadata().same_as(&tag("k", "v")));
    let copy = node.clone();
    assert_eq!(copy.text_id(), 7);
    assert_eq!(copy.sentence(), "hello");
    assert_eq!(copy.embedding(), &vec![1, -2, 3]);
    assert!(copy.metadata().same_as(&tag("k", "v")));
}
