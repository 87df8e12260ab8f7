//! Grouping: the identifiers of a list of pairs, split into the groups that chains of
//! pairs hold together.

use crate::components::{
    children_in_order, connected_components, covers, has_edge, has_parent, in_search_order,
    is_parent, is_partition, same_group_iff_reachable, spans_from_first, stands_before,
};
use crate::graph::{
    adjacency_matches, connected, discovered, is_endpoint, lemma_discovered, lemma_edges_are_links,
    lemma_graph_is_symmetric, lemma_walks_are_chains, linked, named, neighbours, IdPairGraph,
};
use crate::id_node::{IdKey, IdNode};
use crate::id_pair::{IdPair, PairKey};
use vstd::prelude::*;

verus! {

/// `key` is a member of one of `groups`.
pub open spec fn grouped(groups: Seq<Seq<IdKey>>, key: IdKey) -> bool {
    exists|g: int, i: int|
        0 <= g < groups.len() && 0 <= i < groups[g].len() && #[trigger] groups[g][i] == key
}

/// No group is empty, and the endpoints of `pairs`, and nothing else, stand in `groups`,
/// each of them exactly once.
pub open spec fn is_partition_of_endpoints(pairs: Seq<PairKey>, groups: Seq<Seq<IdKey>>) -> bool {
    &&& forall|g: int| 0 <= g < groups.len() ==> (#[trigger] groups[g]).len() > 0
    &&& forall|g: int, i: int|
        0 <= g < groups.len() && 0 <= i < groups[g].len() ==> is_endpoint(
            pairs,
            #[trigger] groups[g][i],
        )
    &&& forall|key: IdKey| is_endpoint(pairs, key) ==> #[trigger] grouped(groups, key)
    &&& forall|g: int, i: int, h: int, j: int|
        0 <= g < groups.len() && 0 <= i < groups[g].len() && 0 <= h < groups.len() && 0 <= j
            < groups[h].len() && #[trigger] groups[g][i] == #[trigger] groups[h][j] ==> g == h && i
            == j
}

/// Two members of `groups` stand in the same group exactly if a chain of `pairs` leads
/// from one to the other.
pub open spec fn groups_are_components(pairs: Seq<PairKey>, groups: Seq<Seq<IdKey>>) -> bool {
    forall|g: int, i: int, h: int, j: int|
        0 <= g < groups.len() && 0 <= i < groups[g].len() && 0 <= h < groups.len() && 0 <= j
            < groups[h].len() ==> (connected(pairs, #[trigger] groups[g][i], #[trigger] groups[h][j])
            <==> g == h)
}

/// The member at position `j` of `group` is the first member that a pair links the member
/// at position `i`, which stands behind it, to.
pub open spec fn is_first_link(pairs: Seq<PairKey>, group: Seq<IdKey>, j: int, i: int) -> bool {
    &&& 0 <= j < i < group.len()
    &&& linked(pairs, group[j], group[i])
    &&& forall|e: int| 0 <= e < j ==> !linked(pairs, #[trigger] group[e], group[i])
}

/// The member at position `i` of `group` is linked by a pair to a member before it.
pub open spec fn linked_to_earlier(pairs: Seq<PairKey>, group: Seq<IdKey>, i: int) -> bool {
    exists|j: int| #[trigger] is_first_link(pairs, group, j, i)
}

/// The order of a breadth-first search from the first member of `group`: every later
/// member is linked to a member before it; the members stand in the order of the first
/// members that they are linked to, and those that share this member in the order in which
/// they first stand among its neighbours.
pub open spec fn breadth_first(pairs: Seq<PairKey>, group: Seq<IdKey>) -> bool {
    &&& forall|i: int| 0 < i < group.len() ==> #[trigger] linked_to_earlier(pairs, group, i)
    &&& forall|i1: int, i2: int, j1: int, j2: int|
        i1 < i2 && #[trigger] is_first_link(pairs, group, j1, i1) && #[trigger] is_first_link(
            pairs,
            group,
            j2,
            i2,
        ) ==> j1 <= j2 && (j1 == j2 ==> stands_before(
            neighbours(pairs, group[j1]),
            group[i1],
            group[i2],
        ))
}

/// The order of the result: each group starts with the member that is discovered first,
/// the groups stand in the order in which their first members are discovered, and each
/// group stands in the order of a breadth-first search from its first member.
pub open spec fn in_discovery_order(pairs: Seq<PairKey>, groups: Seq<Seq<IdKey>>) -> bool {
    &&& forall|g: int, h: int|
        0 <= g < h < groups.len() ==> discovered(pairs).index_of((#[trigger] groups[g])[0])
            < discovered(pairs).index_of((#[trigger] groups[h])[0])
    &&& forall|g: int, i: int|
        0 <= g < groups.len() && 0 <= i < groups[g].len() ==> discovered(pairs).index_of(
            groups[g][0],
        ) <= discovered(pairs).index_of(#[trigger] groups[g][i])
    &&& forall|g: int| 0 <= g < groups.len() ==> breadth_first(pairs, #[trigger] groups[g])
}

/// Over the identifiers that the numbers of `part` stand for, the first link of a member
/// is what its parent is in `part`.
proof fn lemma_first_link_is_parent(
    pairs: Seq<PairKey>,
    keys: Seq<IdKey>,
    rows: Seq<Seq<usize>>,
    part: Seq<usize>,
    j: int,
    i: int,
)
    requires
        keys.no_duplicates(),
        adjacency_matches(pairs, keys, rows),
        forall|e: int| 0 <= e < part.len() ==> (#[trigger] part[e]) < keys.len(),
    ensures
        is_first_link(pairs, named(part, keys), j, i) <==> is_parent(rows, part, j, i),
{
    let group = named(part, keys);
    if 0 <= j < i < part.len() {
        assert forall|e: int| 0 <= e <= j implies (linked(pairs, #[trigger] group[e], group[i])
            <==> has_edge(rows, part[e], part[i])) by {
            assert(part[e] < keys.len() && part[i] < keys.len());
            lemma_edges_are_links(pairs, keys, rows, part[e], part[i]);
        }
        if is_first_link(pairs, group, j, i) {
            assert forall|e: int| 0 <= e < j implies !has_edge(rows, #[trigger] part[e], part[i]) by {
                assert(!linked(pairs, group[e], group[i]));
            }
        }
        if is_parent(rows, part, j, i) {
            assert forall|e: int| 0 <= e < j implies !linked(pairs, #[trigger] group[e], group[i]) by {
                assert(!has_edge(rows, part[e], part[i]));
            }
        }
    }
}

/// The identifiers that the numbers of a part in breadth-first order stand for are in
/// breadth-first order.
proof fn lemma_named_breadth_first(
    pairs: Seq<PairKey>,
    keys: Seq<IdKey>,
    rows: Seq<Seq<usize>>,
    part: Seq<usize>,
)
    requires
        keys.no_duplicates(),
        adjacency_matches(pairs, keys, rows),
        forall|e: int| 0 <= e < part.len() ==> (#[trigger] part[e]) < keys.len(),
        spans_from_first(rows, part),
        children_in_order(rows, part),
    ensures
        breadth_first(pairs, named(part, keys)),
{
    let group = named(part, keys);
    assert forall|i: int| 0 < i < group.len() implies #[trigger] linked_to_earlier(
        pairs,
        group,
        i,
    ) by {
        assert(has_parent(rows, part, i));
        let j = choose|j: int| #[trigger] is_parent(rows, part, j, i);
        lemma_first_link_is_parent(pairs, keys, rows, part, j, i);
        assert(is_first_link(pairs, group, j, i));
    }
    assert forall|i1: int, i2: int, j1: int, j2: int|
        i1 < i2 && #[trigger] is_first_link(pairs, group, j1, i1) && #[trigger] is_first_link(
            pairs,
            group,
            j2,
            i2,
        ) implies j1 <= j2 && (j1 == j2 ==> stands_before(
        neighbours(pairs, group[j1]),
        group[i1],
        group[i2],
    )) by {
        lemma_first_link_is_parent(pairs, keys, rows, part, j1, i1);
        lemma_first_link_is_parent(pairs, keys, rows, part, j2, i2);
        assert(is_parent(rows, part, j1, i1) && is_parent(rows, part, j2, i2));
        if j1 == j2 {
            let u = part[j1] as int;
            let row = rows[u];
            let names = named(row, keys);
            assert(part[j1] < keys.len());
            assert(names == neighbours(pairs, keys[u]));
            assert(stands_before(row, part[i1], part[i2]));
            let at = choose|at: int|
                0 <= at < row.len() && #[trigger] row[at] == part[i1] && forall|k: int|
                    0 <= k <= at ==> #[trigger] row[k] != part[i2];
            assert(names[at] == group[i1]);
            assert forall|k: int| 0 <= k <= at implies #[trigger] names[k] != group[i2] by {
                assert(rows[u][k] < keys.len());
                assert(row[k] != part[i2]);
                assert(part[i2] < keys.len());
            }
            assert(stands_before(names, group[i1], group[i2]));
        }
    }
}

/// `groups` are `parts` with each number replaced by the identifier of `keys` that it stands for.
spec fn names_of(parts: Seq<Seq<usize>>, keys: Seq<IdKey>, groups: Seq<Seq<IdKey>>) -> bool {
    &&& groups.len() == parts.len()
    &&& forall|g: int| 0 <= g < groups.len() ==> #[trigger] groups[g] == named(parts[g], keys)
}

proof fn lemma_groups_of_parts(
    pairs: Seq<PairKey>,
    keys: Seq<IdKey>,
    rows: Seq<Seq<usize>>,
    parts: Seq<Seq<usize>>,
    groups: Seq<Seq<IdKey>>,
)
    requires
        keys == discovered(pairs),
        keys.len() <= usize::MAX,
        adjacency_matches(pairs, keys, rows),
        is_partition(keys.len(), parts),
        same_group_iff_reachable(rows, parts),
        in_search_order(rows, parts),
        names_of(parts, keys, groups),
    ensures
        is_partition_of_endpoints(pairs, groups),
        groups_are_components(pairs, groups),
        in_discovery_order(pairs, groups),
{
    lemma_discovered(pairs);
    assert forall|g: int, i: int| 0 <= g < groups.len() && 0 <= i < groups[g].len() implies (
    #[trigger] parts[g][i]) < keys.len() && groups[g][i] == keys[parts[g][i] as int]
        && keys.index_of(groups[g][i]) == parts[g][i] && is_endpoint(pairs, groups[g][i]) by {
        assert(groups[g] == named(parts[g], keys));
        assert(keys.contains(keys[parts[g][i] as int]));
    }
    assert forall|key: IdKey| is_endpoint(pairs, key) implies #[trigger] grouped(groups, key) by {
        assert(keys.contains(key));
        let u = keys.index_of(key);
        assert(covers(parts, u as usize));
        let (g, i) = choose|g: int, i: int|
            0 <= g < parts.len() && 0 <= i < parts[g].len() && #[trigger] parts[g][i] == u as usize;
        assert(groups[g] == named(parts[g], keys));
        assert(groups[g][i] == key);
    }
    assert forall|g: int, i: int, h: int, j: int|
        0 <= g < groups.len() && 0 <= i < groups[g].len() && 0 <= h < groups.len() && 0 <= j
            < groups[h].len() implies ((#[trigger] groups[g][i] == #[trigger] groups[h][j]) ==> g
        == h && i == j) && (connected(pairs, groups[g][i], groups[h][j]) <==> g == h) by {
        assert(groups[g] == named(parts[g], keys));
        assert(groups[h] == named(parts[h], keys));
        assert(parts[g][i] < keys.len() && parts[h][j] < keys.len());
        lemma_walks_are_chains(pairs, keys, rows, parts[g][i], parts[h][j]);
    }
    assert forall|g: int| 0 <= g < groups.len() implies breadth_first(pairs, #[trigger] groups[g]) by {
        assert(groups[g] == named(parts[g], keys));
        assert(spans_from_first(rows, parts[g]) && children_in_order(rows, parts[g]));
        assert forall|e: int| 0 <= e < parts[g].len() implies (#[trigger] parts[g][e]) < keys.len() by {}
        lemma_named_breadth_first(pairs, keys, rows, parts[g]);
    }
    assert forall|g: int, h: int| 0 <= g < h < groups.len() implies discovered(pairs).index_of(
        (#[trigger] groups[g])[0],
    ) < discovered(pairs).index_of((#[trigger] groups[h])[0]) by {
        assert(parts[g].len() > 0 && parts[h].len() > 0);
        assert(keys.index_of(groups[g][0]) == parts[g][0]);
        assert(keys.index_of(groups[h][0]) == parts[h][0]);
    }
    assert forall|g: int, i: int|
        0 <= g < groups.len() && 0 <= i < groups[g].len() implies discovered(pairs).index_of(
        groups[g][0],
    ) <= discovered(pairs).index_of(#[trigger] groups[g][i]) by {
        assert(keys.index_of(groups[g][0]) == parts[g][0]);
        assert(keys.index_of(groups[g][i]) == parts[g][i]);
    }
}

/// The identifiers that the numbers of `part` stand for in `nodes`.
fn name_group(part: &Vec<usize>, nodes: &Vec<IdNode>) -> (group: Vec<IdNode>)
    requires
        forall|i: int| 0 <= i < part.len() ==> (#[trigger] part@[i]) < nodes.len(),
    ensures
        group.deep_view() == named(part@, nodes.deep_view()),
{
    let ghost names = named(part@, nodes.deep_view());
    let mut group: Vec<IdNode> = Vec::new();
    let mut i: usize = 0;
    proof {
        assert(group.deep_view() =~= names.take(0));
    }
    while i < part.len()
        invariant
            i <= part.len(),
            names == named(part@, nodes.deep_view()),
            forall|k: int| 0 <= k < part.len() ==> (#[trigger] part@[k]) < nodes.len(),
            group.deep_view() == names.take(i as int),
        decreases part.len() - i,
    {
        let ghost before = group.deep_view();
        group.push(nodes[part[i]].clone());
        proof {
            assert(group.deep_view() =~= before.push(names[i as int]));
            assert(names.take(i + 1) =~= names.take(i as int).push(names[i as int]));
        }
        i += 1;
    }
    proof {
        assert(names.take(i as int) =~= names);
    }
    group
}

/// Groups the identifiers of `id_pairs`: two identifiers fall into the same group exactly
/// if a chain of pairs leads from one to the other.
///
/// The identifiers are taken in the order in which they are first met in `id_pairs`. Each
/// group is the breadth-first search from the first identifier that no group holds yet.
pub fn group_id_pairs_core(id_pairs: Vec<IdPair>) -> (groups: Vec<Vec<IdNode>>)
    ensures
        is_partition_of_endpoints(id_pairs.deep_view(), groups.deep_view()),
        groups_are_components(id_pairs.deep_view(), groups.deep_view()),
        in_discovery_order(id_pairs.deep_view(), groups.deep_view()),
        id_pairs.len() == 0 ==> groups.len() == 0,
{
    let ghost pairs = id_pairs.deep_view();
    let graph = IdPairGraph::new(id_pairs);
    let nodes = graph.id_nodes();
    let adj = graph.adjacency();
    let ghost keys = nodes.deep_view();
    proof {
        lemma_discovered(pairs);
        lemma_graph_is_symmetric(pairs, keys, adj.deep_view());
    }
    let parts = connected_components(adj);
    let mut groups: Vec<Vec<IdNode>> = Vec::new();
    let mut g: usize = 0;
    while g < parts.len()
        invariant
            g <= parts.len(),
            keys == nodes.deep_view(),
            is_partition(keys.len(), parts.deep_view()),
            groups.len() == g,
            forall|h: int|
                0 <= h < g ==> (#[trigger] groups.deep_view()[h]) == named(parts.deep_view()[h], keys),
        decreases parts.len() - g,
    {
        let part = &parts[g];
        proof {
            assert(parts.deep_view()[g as int] =~= part@);
            assert forall|i: int| 0 <= i < part.len() implies (#[trigger] part@[i]) < nodes.len() by {
                assert(parts.deep_view()[g as int][i] < keys.len());
            }
        }
        let group = name_group(part, nodes);
        let ghost before = groups.deep_view();
        groups.push(group);
        proof {
            assert(groups.deep_view() =~= before.push(group.deep_view()));
        }
        g += 1;
    }
    proof {
        lemma_groups_of_parts(pairs, keys, adj.deep_view(), parts.deep_view(), groups.deep_view());
        if pairs.len() == 0 && groups.len() > 0 {
            assert(is_endpoint(pairs, groups.deep_view()[0][0]));
        }
    }
    groups
}

} // verus!
