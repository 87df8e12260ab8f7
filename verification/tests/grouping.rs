use node_group::binding::{group_id_pairs, PyIdNode, PyIdPair};
use node_group::components::connected_components;
use node_group::graph::IdPairGraph;
use node_group::group::group_id_pairs_core;
use node_group::id_node::IdNode;
use node_group::id_pair::IdPair;
use node_group::node_table::NodeTable;

fn node(text: &str) -> IdNode {
    IdNode::parse(text).unwrap()
}

fn pairs(texts: &[(&str, &str)]) -> Vec<IdPair> {
    texts.iter().map(|(a, b)| IdPair::create(node(a), node(b))).collect()
}

fn texts(groups: &[Vec<IdNode>]) -> Vec<Vec<String>> {
    groups.iter().map(|g| g.iter().map(|n| n.to_string()).collect()).collect()
}

fn names(groups: &[&[&str]]) -> Vec<Vec<String>> {
    groups.iter().map(|g| g.iter().map(|n| n.to_string()).collect()).collect()
}

#[test]
fn no_pairs_give_no_groups() {
    assert!(group_id_pairs_core(Vec::new()).is_empty());
}

#[test]
fn a_chain_of_two_pairs_is_one_group() {
    let groups =
        group_id_pairs_core(pairs(&[("User::alice", "Org::acme"), ("Org::acme", "Team::core")]));
    assert_eq!(texts(&groups), names(&[&["User::alice", "Org::acme", "Team::core"]]));
}

#[test]
fn two_separate_pairs_are_two_groups() {
    let groups = group_id_pairs_core(pairs(&[("A::1", "B::2"), ("C::3", "D::4")]));
    assert_eq!(texts(&groups), names(&[&["A::1", "B::2"], &["C::3", "D::4"]]));
}

#[test]
fn a_self_pair_is_a_group_of_one() {
    let groups = group_id_pairs_core(pairs(&[("A::1", "A::1")]));
    assert_eq!(texts(&groups), names(&[&["A::1"]]));
}

#[test]
fn repeated_and_reversed_pairs_change_nothing() {
    let groups = group_id_pairs_core(pairs(&[
        ("A::1", "B::2"),
        ("B::2", "A::1"),
        ("A::1", "B::2"),
        ("B::2", "B::2"),
    ]));
    assert_eq!(texts(&groups), names(&[&["A::1", "B::2"]]));
}

#[test]
fn groups_start_in_the_order_of_discovery() {
    let groups = group_id_pairs_core(pairs(&[
        ("C::3", "D::4"),
        ("A::1", "B::2"),
        ("E::5", "E::5"),
        ("B::2", "F::6"),
    ]));
    assert_eq!(
        texts(&groups),
        names(&[&["C::3", "D::4"], &["A::1", "B::2", "F::6"], &["E::5"]])
    );
}

#[test]
fn a_group_is_listed_breadth_first() {
    // a - b, a - c, b - d, c - e, d - e
    let groups = group_id_pairs_core(pairs(&[
        ("N::a", "N::b"),
        ("N::b", "N::d"),
        ("N::a", "N::c"),
        ("N::c", "N::e"),
        ("N::d", "N::e"),
    ]));
    assert_eq!(texts(&groups), names(&[&["N::a", "N::b", "N::c", "N::d", "N::e"]]));
}

#[test]
fn a_late_pair_joins_two_earlier_groups() {
    let groups = group_id_pairs_core(pairs(&[
        ("C::3", "D::4"),
        ("A::1", "B::2"),
        ("B::2", "C::3"),
    ]));
    assert_eq!(texts(&groups), names(&[&["C::3", "D::4", "B::2", "A::1"]]));
}

#[test]
fn identifiers_with_the_same_name_and_other_type_are_apart() {
    let groups = group_id_pairs_core(pairs(&[("A::x", "B::x"), ("C::x", "D::x")]));
    assert_eq!(texts(&groups), names(&[&["A::x", "B::x"], &["C::x", "D::x"]]));
}

fn find(parent: &mut Vec<usize>, x: usize) -> usize {
    let mut root = x;
    while parent[root] != root {
        root = parent[root];
    }
    parent[x] = root;
    root
}

fn check_against_closure(edges: &[(usize, usize)], n: usize) {
    let label = |i: usize| format!("V::{}", i);
    let list: Vec<IdPair> = edges
        .iter()
        .map(|&(a, b)| IdPair::create(node(&label(a)), node(&label(b))))
        .collect();
    let groups = group_id_pairs_core(list);
    let mut parent: Vec<usize> = (0..n).collect();
    let mut used = vec![false; n];
    for &(a, b) in edges {
        used[a] = true;
        used[b] = true;
        let ra = find(&mut parent, a);
        let rb = find(&mut parent, b);
        parent[ra] = rb;
    }
    let mut group_of: Vec<Option<usize>> = vec![None; n];
    for (g, group) in groups.iter().enumerate() {
        assert!(!group.is_empty());
        for member in group {
            let i: usize = member.get_id_name().parse().unwrap();
            assert_eq!(member.get_id_type(), "V");
            assert!(used[i]);
            assert_eq!(group_of[i], None);
            group_of[i] = Some(g);
        }
    }
    for i in 0..n {
        assert_eq!(group_of[i].is_some(), used[i]);
        for j in 0..n {
            if used[i] && used[j] {
                let same = find(&mut parent, i) == find(&mut parent, j);
                assert_eq!(group_of[i] == group_of[j], same);
            }
        }
    }
}

#[test]
fn groups_agree_with_the_transitive_closure() {
    check_against_closure(&[], 3);
    check_against_closure(&[(0, 1), (1, 2), (3, 4)], 6);
    check_against_closure(&[(0, 0), (1, 1), (2, 2)], 3);
    check_against_closure(&[(5, 4), (3, 2), (1, 0), (4, 3), (0, 5)], 6);
    check_against_closure(&[(0, 1), (2, 3), (4, 5), (6, 7), (1, 2), (5, 6)], 9);
    check_against_closure(&[(0, 1), (1, 2), (2, 0), (3, 4), (4, 5), (5, 3), (6, 6)], 7);
    check_against_closure(&[(7, 0), (7, 1), (7, 2), (7, 3), (4, 5), (6, 4)], 8);
}

#[test]
fn components_of_adjacency_lists() {
    let adj: Vec<Vec<usize>> = vec![vec![2], vec![3, 3], vec![0, 4], vec![1, 1], vec![2], vec![]];
    assert_eq!(connected_components(&adj), vec![vec![0, 2, 4], vec![1, 3], vec![5]]);
    assert_eq!(connected_components(&Vec::new()), Vec::<Vec<usize>>::new());
    assert_eq!(connected_components(&vec![vec![0, 0]]), vec![vec![0]]);
}

#[test]
fn components_are_listed_breadth_first() {
    // 0 - 1, 0 - 2, 1 - 3, 2 - 4, 3 - 4
    let adj: Vec<Vec<usize>> = vec![vec![1, 2], vec![0, 3], vec![0, 4], vec![1, 4], vec![2, 3]];
    assert_eq!(connected_components(&adj), vec![vec![0, 1, 2, 3, 4]]);
    let other: Vec<Vec<usize>> = vec![vec![2, 1], vec![0, 3], vec![0, 4], vec![1, 4], vec![2, 3]];
    assert_eq!(connected_components(&other), vec![vec![0, 2, 1, 4, 3]]);
}

#[test]
fn table_numbers_identifiers_in_the_order_of_arrival() {
    let mut table = NodeTable::new();
    assert_eq!(table.len(), 0);
    assert_eq!(table.intern(&node("A::1")), 0);
    assert_eq!(table.intern(&node("B::2")), 1);
    assert_eq!(table.intern(&node("A::1")), 0);
    assert_eq!(table.intern(&node("A::2")), 2);
    assert_eq!(table.len(), 3);
    assert_eq!(table.find(&node("B::2")), Some(1));
    assert_eq!(table.find(&node("C::3")), None);
    assert_eq!(table.get(2), &node("A::2"));
    assert_eq!(table.nodes(), &vec![node("A::1"), node("B::2"), node("A::2")]);
}

#[test]
fn graph_lists_vertices_and_neighbours_in_the_order_of_the_pairs() {
    let graph = IdPairGraph::new(pairs(&[
        ("A::1", "B::2"),
        ("C::3", "A::1"),
        ("A::1", "A::1"),
        ("B::2", "A::1"),
    ]));
    assert_eq!(graph.id_nodes(), &vec![node("A::1"), node("B::2"), node("C::3")]);
    assert_eq!(graph.id_pair_list().len(), 4);
    assert_eq!(graph.adjacency(), &vec![vec![1, 2, 0, 0, 1], vec![0, 0], vec![0]]);
    assert_eq!(
        graph.get_neighbor(&node("A::1")),
        vec![node("B::2"), node("C::3"), node("A::1"), node("A::1"), node("B::2")]
    );
    assert_eq!(graph.get_neighbor(&node("B::2")), vec![node("A::1"), node("A::1")]);
    assert_eq!(graph.get_neighbor(&node("C::3")), vec![node("A::1")]);
    assert_eq!(graph.get_neighbor(&node("D::4")), Vec::<IdNode>::new());
}

#[test]
fn wrapped_identifier_reads_and_writes_its_fields() {
    let mut wrapped = PyIdNode::new("User".to_string(), "alice".to_string());
    assert_eq!(wrapped.id_type(), "User");
    assert_eq!(wrapped.id_name(), "alice");
    assert_eq!(wrapped.as_string(), "User::alice");
    assert_eq!(PyIdNode::from_string("User::alice"), Ok(wrapped.clone()));
    wrapped.set_id_name("bob".to_string());
    wrapped.set_id_type("Admin".to_string());
    assert_eq!(wrapped.as_string(), "Admin::bob");
    assert!(PyIdNode::from_string("BadFormat").is_err());
    assert_eq!(wrapped.clone().into_node(), node("Admin::bob"));
    assert_eq!(PyIdNode::from_node(node("Admin::bob")), wrapped);
}

#[test]
fn wrapped_pair_gives_copies_of_its_endpoints() {
    let a = PyIdNode::from_string("A::1").unwrap();
    let b = PyIdNode::from_string("B::2").unwrap();
    let pair = PyIdPair::new(&a, &b);
    assert_eq!(pair.node1(), a);
    assert_eq!(pair.node2(), b);
    assert_eq!(pair.as_string(), "A::1$B::2");
    let read = PyIdPair::from_string("A::1$B::2").unwrap();
    assert_eq!(read.node1(), a);
    assert_eq!(read.node2(), b);
    assert!(PyIdPair::from_string("Type::Name").is_err());
    assert_eq!(pair.clone().into_pair(), IdPair::create(node("B::2"), node("A::1")));
    assert_eq!(PyIdPair::from_pair(IdPair::create(node("A::1"), node("B::2"))).node2(), b);
}

#[test]
fn wrapped_grouping_agrees_with_the_grouping() {
    let list = vec![
        PyIdPair::from_string("User::alice$Org::acme").unwrap(),
        PyIdPair::from_string("C::3$D::4").unwrap(),
        PyIdPair::from_string("Org::acme$Team::core").unwrap(),
    ];
    let groups = group_id_pairs(list);
    let got: Vec<Vec<String>> =
        groups.iter().map(|g| g.iter().map(|n| n.as_string()).collect()).collect();
    assert_eq!(got, names(&[&["User::alice", "Org::acme", "Team::core"], &["C::3", "D::4"]]));
    assert!(group_id_pairs(Vec::new()).is_empty());
}

#[test]
fn table_keeps_apart_identifiers_that_share_a_text() {
    let mut table = NodeTable::new();
    let plain = IdNode::new("a".to_string(), "b::c".to_string());
    let split = IdNode::new("a::b".to_string(), "c".to_string());
    assert_eq!(plain.to_string(), split.to_string());
    assert_eq!(table.intern(&plain), 0);
    assert_eq!(table.intern(&split), 1);
    assert_eq!(table.find(&plain), Some(0));
    assert_eq!(table.find(&split), Some(1));
}

#[test]
fn a_long_chain_is_one_group_in_order() {
    let n = 20000;
    let list: Vec<IdPair> = (0..n)
        .map(|i| {
            IdPair::create(
                IdNode::new("V".to_string(), i.to_string()),
                IdNode::new("V".to_string(), (i + 1).to_string()),
            )
        })
        .collect();
    let groups = group_id_pairs_core(list);
    assert_eq!(groups.len(), 1);
    assert_eq!(groups[0].len(), n + 1);
    for (i, member) in groups[0].iter().enumerate() {
        assert_eq!(member.get_id_name(), i.to_string());
    }
}

#[test]
fn many_separate_pairs_are_as_many_groups() {
    let n = 5000;
    let list: Vec<IdPair> = (0..n)
        .map(|i| {
            IdPair::create(
                IdNode::new("L".to_string(), i.to_string()),
                IdNode::new("R".to_string(), i.to_string()),
            )
        })
        .collect();
    let groups = group_id_pairs_core(list);
    assert_eq!(groups.len(), n);
    for (i, group) in groups.iter().enumerate() {
        assert_eq!(texts(std::slice::from_ref(group)), vec![vec![format!("L::{}", i), format!("R::{}", i)]]);
    }
}
