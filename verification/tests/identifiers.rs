use node_group::error::MalformedIdentifier;
use node_group::id_node::IdNode;

fn id(id_type: &str, id_name: &str) -> IdNode {
    IdNode::new(id_type.to_string(), id_name.to_string())
}

#[test]
fn new_keeps_type_and_name() {
    let node = id("User", "alice");
    assert_eq!(node.get_id_type(), "User");
    assert_eq!(node.get_id_name(), "alice");
}

#[test]
fn canonical_text_is_type_separator_name() {
    assert_eq!(id("User", "alice").to_string(), "User::alice");
    assert_eq!(id("", "").to_string(), "::");
    assert_eq!(id("a", "b::c").to_string(), "a::b::c");
}

#[test]
fn parse_splits_at_the_separator() {
    let node = IdNode::parse("Type::Name").unwrap();
    assert_eq!(node.get_id_type(), "Type");
    assert_eq!(node.get_id_name(), "Name");
}

#[test]
fn parse_splits_at_the_first_separator_only() {
    let node = IdNode::parse("a::b::c").unwrap();
    assert_eq!(node.get_id_type(), "a");
    assert_eq!(node.get_id_name(), "b::c");
}

#[test]
fn parse_takes_the_leftmost_of_three_colons() {
    let node = IdNode::parse("a:::b").unwrap();
    assert_eq!(node.get_id_type(), "a");
    assert_eq!(node.get_id_name(), ":b");
}

#[test]
fn parse_accepts_empty_parts() {
    assert_eq!(IdNode::parse("::").unwrap(), id("", ""));
    assert_eq!(IdNode::parse("::x").unwrap(), id("", "x"));
    assert_eq!(IdNode::parse("x::").unwrap(), id("x", ""));
}

#[test]
fn parse_keeps_characters_beyond_ascii() {
    let node = IdNode::parse("Stra\u{df}e::\u{e9}t\u{e9}::\u{1f600}").unwrap();
    assert_eq!(node.get_id_type(), "Stra\u{df}e");
    assert_eq!(node.get_id_name(), "\u{e9}t\u{e9}::\u{1f600}");
}

#[test]
fn parse_rejects_text_without_separator() {
    assert_eq!(IdNode::parse("BadFormat"), Err(MalformedIdentifier));
    assert_eq!(IdNode::parse(""), Err(MalformedIdentifier));
    assert_eq!(IdNode::parse(":"), Err(MalformedIdentifier));
    assert_eq!(IdNode::parse("a:b"), Err(MalformedIdentifier));
    assert_eq!(IdNode::parse("a:b:c"), Err(MalformedIdentifier));
}

#[test]
fn malformed_identifier_names_the_separator() {
    assert_eq!(
        MalformedIdentifier.message(),
        "malformed identifier: the separator \"::\" is missing"
    );
}

#[test]
fn parse_of_canonical_text_gives_the_identifier_back() {
    for (id_type, id_name) in [("User", "alice"), ("", ""), ("T", ""), ("", "n"), ("a b", "c$d")] {
        let node = id(id_type, id_name);
        assert_eq!(IdNode::parse(&node.to_string()), Ok(node));
    }
}

#[test]
fn parse_of_canonical_text_keeps_a_name_with_separators() {
    let node = id("T", "x::y:");
    assert_eq!(IdNode::parse(&node.to_string()), Ok(node));
}

#[test]
fn parse_of_canonical_text_differs_where_the_type_ends_in_a_colon() {
    let node = id("a:", "b");
    assert_eq!(node.to_string(), "a:::b");
    assert_eq!(IdNode::parse(&node.to_string()), Ok(id("a", ":b")));
}

#[test]
fn equality_is_by_type_and_name() {
    assert_eq!(id("A", "1"), IdNode::parse("A::1").unwrap());
    assert_ne!(id("A", "1"), id("A", "2"));
    assert_ne!(id("A", "1"), id("B", "1"));
    assert_ne!(id("A", "B"), id("B", "A"));
}

#[test]
fn equal_identifiers_hash_alike() {
    let mut set = std::collections::HashSet::new();
    set.insert(id("A", "1"));
    assert!(set.contains(&IdNode::parse("A::1").unwrap()));
    assert!(!set.contains(&id("A", "2")));
}

#[test]
fn clone_is_equal() {
    let node = id("A", "1");
    assert_eq!(node.clone(), node);
}

#[test]
fn setters_replace_one_field() {
    let mut node = id("A", "1");
    node.set_id_name("2".to_string());
    assert_eq!(node, id("A", "2"));
    node.set_id_type("B".to_string());
    assert_eq!(node, id("B", "2"));
    assert_eq!(node.to_string(), "B::2");
}

#[test]
fn equal_identifiers_are_filed_under_the_same_number() {
    assert_eq!(id("A", "1").hash_code(), IdNode::parse("A::1").unwrap().hash_code());
    assert_eq!(id("A", "1").hash_code(), id("A", "1").clone().hash_code());
    assert_ne!(id("A", "1").hash_code(), id("A", "2").hash_code());
}
