use node_group::error::{MalformedIdentifier, MalformedPair};
use node_group::id_node::IdNode;
use node_group::id_pair::IdPair;

fn node(text: &str) -> IdNode {
    IdNode::parse(text).unwrap()
}

fn pair(first: &str, second: &str) -> IdPair {
    IdPair::create(node(first), node(second))
}

#[test]
fn create_keeps_the_order_of_the_endpoints() {
    let p = pair("A::1", "B::2");
    assert_eq!(p.id_node1(), &node("A::1"));
    assert_eq!(p.id_node2(), &node("B::2"));
}

#[test]
fn pair_equals_its_reversal() {
    assert_eq!(pair("A::1", "B::2"), pair("B::2", "A::1"));
    assert_eq!(pair("A::1", "B::2"), pair("A::1", "B::2"));
}

#[test]
fn pairs_with_other_endpoints_differ() {
    assert_ne!(pair("A::1", "B::2"), pair("A::1", "C::3"));
    assert_ne!(pair("A::1", "B::2"), pair("C::3", "B::2"));
    assert_ne!(pair("A::1", "A::1"), pair("A::1", "B::2"));
    assert_ne!(pair("A::1", "B::2"), pair("B::2", "B::2"));
    assert_eq!(pair("A::1", "A::1"), pair("A::1", "A::1"));
}

#[test]
fn pair_holds_its_endpoints_and_no_third() {
    let p = pair("A::1", "B::2");
    assert!(p.check_node_in_pair(&node("A::1")));
    assert!(p.check_node_in_pair(&node("B::2")));
    assert!(!p.check_node_in_pair(&node("C::3")));
    assert!(!p.check_node_in_pair(&node("A::2")));
}

#[test]
fn next_node_is_the_other_endpoint() {
    let p = pair("A::1", "B::2");
    assert_eq!(p.get_next_node(&node("A::1")), &node("B::2"));
    assert_eq!(p.get_next_node(&node("B::2")), &node("A::1"));
}

#[test]
fn next_node_of_a_self_pair_is_the_same_identifier() {
    let p = pair("A::1", "A::1");
    assert!(p.check_node_in_pair(&node("A::1")));
    assert_eq!(p.get_next_node(&node("A::1")), &node("A::1"));
}

#[test]
fn canonical_text_joins_the_identifiers() {
    assert_eq!(pair("A::1", "B::2").to_pair_string(), "A::1$B::2");
    assert_eq!(pair("::", "::").to_pair_string(), "::$::");
}

#[test]
fn parse_splits_at_the_first_dollar() {
    let p = IdPair::parse("A::1$B::2").unwrap();
    assert_eq!(p.id_node1(), &node("A::1"));
    assert_eq!(p.id_node2(), &node("B::2"));
    let q = IdPair::parse("A::b$C::d$e").unwrap();
    assert_eq!(q.id_node1(), &node("A::b"));
    assert_eq!(q.id_node2().get_id_type(), "C");
    assert_eq!(q.id_node2().get_id_name(), "d$e");
}

#[test]
fn parse_rejects_text_without_dollar() {
    assert_eq!(IdPair::parse("Type::Name"), Err(MalformedPair::MissingSeparator));
    assert_eq!(IdPair::parse(""), Err(MalformedPair::MissingSeparator));
}

#[test]
fn parse_reports_the_half_that_is_no_identifier() {
    assert_eq!(IdPair::parse("A$B::c"), Err(MalformedPair::First(MalformedIdentifier)));
    assert_eq!(IdPair::parse("A::b$C"), Err(MalformedPair::Second(MalformedIdentifier)));
    assert_eq!(IdPair::parse("A$B"), Err(MalformedPair::First(MalformedIdentifier)));
    assert_eq!(IdPair::parse("$"), Err(MalformedPair::First(MalformedIdentifier)));
    assert_eq!(IdPair::parse("A$b::c$D::e"), Err(MalformedPair::First(MalformedIdentifier)));
}

#[test]
fn malformed_pair_names_the_separator() {
    assert_eq!(
        MalformedPair::MissingSeparator.message(),
        "malformed pair: the separator \"$\" is missing"
    );
    assert_eq!(
        MalformedPair::First(MalformedIdentifier).message(),
        "malformed pair: the separator \"::\" is missing in the first identifier"
    );
    assert_eq!(
        MalformedPair::Second(MalformedIdentifier).message(),
        "malformed pair: the separator \"::\" is missing in the second identifier"
    );
}

#[test]
fn parse_of_canonical_text_gives_the_pair_back() {
    let p = pair("User::alice", "Org::acme");
    let read = IdPair::parse(&p.to_pair_string()).unwrap();
    assert_eq!(read.id_node1(), p.id_node1());
    assert_eq!(read.id_node2(), p.id_node2());
    assert_eq!(read, p);
}

#[test]
fn parse_of_the_reversed_text_gives_the_same_pair() {
    let p = pair("User::alice", "Org::acme");
    let reversed = pair("Org::acme", "User::alice");
    assert_eq!(IdPair::parse(&reversed.to_pair_string()).unwrap(), p);
}

#[test]
fn clone_keeps_the_endpoints() {
    let p = pair("A::1", "B::2");
    let q = p.clone();
    assert_eq!(q.id_node1(), p.id_node1());
    assert_eq!(q.id_node2(), p.id_node2());
    assert_eq!(q, p);
}
