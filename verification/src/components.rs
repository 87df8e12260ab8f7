//! Connected components of an undirected graph that is kept as adjacency lists.
//!
//! The vertices of a graph of `n` lists are the numbers below `n`; list `u` names
//! the neighbours of vertex `u`.

use std::collections::VecDeque;
use vstd::prelude::*;
use vstd::set_lib::{lemma_int_range, lemma_len_subset, set_int_range};

verus! {

/// The lists of a vector of vectors, each as a sequence.
spec fn rows(lists: Seq<Vec<usize>>) -> Seq<Seq<usize>> {
    Seq::new(lists.len(), |i: int| lists[i]@)
}

proof fn lemma_rows(lists: Vec<Vec<usize>>)
    ensures
        lists.deep_view() == rows(lists@),
{
    assert(lists.deep_view() =~~= rows(lists@));
}

/// `v` stands in the adjacency list of the vertex `u`.
pub open spec fn has_edge(adj: Seq<Seq<usize>>, u: usize, v: usize) -> bool {
    u < adj.len() && adj[u as int].contains(v)
}

/// Every neighbour that a list names is a vertex.
pub open spec fn well_formed(adj: Seq<Seq<usize>>) -> bool {
    forall|u: usize, v: usize| #[trigger] has_edge(adj, u, v) ==> v < adj.len()
}

/// Every edge runs both ways.
pub open spec fn symmetric(adj: Seq<Seq<usize>>) -> bool {
    forall|u: usize, v: usize| #[trigger] has_edge(adj, u, v) ==> has_edge(adj, v, u)
}

/// `walk` starts at a vertex and goes from each of its vertices to the next along an edge.
pub open spec fn is_walk(adj: Seq<Seq<usize>>, walk: Seq<usize>) -> bool {
    &&& walk.len() > 0
    &&& walk[0] < adj.len()
    &&& forall|i: int| 0 <= i < walk.len() - 1 ==> has_edge(adj, #[trigger] walk[i], walk[i + 1])
}

/// Some walk leads from `u` to `v`.
pub open spec fn reachable(adj: Seq<Seq<usize>>, u: usize, v: usize) -> bool {
    exists|walk: Seq<usize>| #[trigger] is_walk(adj, walk) && walk[0] == u && walk.last() == v
}

/// Whatever is a neighbour of a member of `group` is a member of `group`.
pub open spec fn closed_under_edges(adj: Seq<Seq<usize>>, group: Seq<usize>) -> bool {
    forall|u: usize, v: usize| group.contains(u) && #[trigger] has_edge(adj, u, v) ==> group.contains(v)
}

/// `a` stands in `row`, and before the first place of `b`.
pub open spec fn stands_before<T>(row: Seq<T>, a: T, b: T) -> bool {
    exists|at: int|
        0 <= at < row.len() && #[trigger] row[at] == a && forall|k: int|
            0 <= k <= at ==> #[trigger] row[k] != b
}

/// The member at position `j` of `group` is the first member that the member at position
/// `i`, which stands behind it, is a neighbour of.
pub open spec fn is_parent(adj: Seq<Seq<usize>>, group: Seq<usize>, j: int, i: int) -> bool {
    &&& 0 <= j < i < group.len()
    &&& has_edge(adj, group[j], group[i])
    &&& forall|e: int| 0 <= e < j ==> !has_edge(adj, #[trigger] group[e], group[i])
}

/// The member at position `i` of `group` is a neighbour of a member before it.
pub open spec fn has_parent(adj: Seq<Seq<usize>>, group: Seq<usize>, i: int) -> bool {
    exists|j: int| #[trigger] is_parent(adj, group, j, i)
}

/// Every member of `group` but the first is a neighbour of a member before it.
pub open spec fn spans_from_first(adj: Seq<Seq<usize>>, group: Seq<usize>) -> bool {
    forall|i: int| 0 < i < group.len() ==> #[trigger] has_parent(adj, group, i)
}

/// The members of `group` stand in the order of their parents, and the children of one
/// parent in the order in which its adjacency list names them first.
pub open spec fn children_in_order(adj: Seq<Seq<usize>>, group: Seq<usize>) -> bool {
    forall|i1: int, i2: int, j1: int, j2: int|
        i1 < i2 && #[trigger] is_parent(adj, group, j1, i1) && #[trigger] is_parent(
            adj,
            group,
            j2,
            i2,
        ) ==> j1 <= j2 && (j1 == j2 ==> stands_before(
            adj[group[j1] as int],
            group[i1],
            group[i2],
        ))
}

/// `v` is a member of one of `groups`.
pub open spec fn covers(groups: Seq<Seq<usize>>, v: usize) -> bool {
    exists|g: int, i: int|
        0 <= g < groups.len() && 0 <= i < groups[g].len() && #[trigger] groups[g][i] == v
}

/// `groups` are not empty, and each vertex below `n`, and nothing else, stands in them exactly once.
pub open spec fn is_partition(n: nat, groups: Seq<Seq<usize>>) -> bool {
    &&& forall|g: int| 0 <= g < groups.len() ==> (#[trigger] groups[g]).len() > 0
    &&& forall|g: int, i: int|
        0 <= g < groups.len() && 0 <= i < groups[g].len() ==> (#[trigger] groups[g][i]) < n
    &&& forall|v: usize| v < n ==> #[trigger] covers(groups, v)
    &&& forall|g: int, i: int, h: int, j: int|
        0 <= g < groups.len() && 0 <= i < groups[g].len() && 0 <= h < groups.len() && 0 <= j
            < groups[h].len() && #[trigger] groups[g][i] == #[trigger] groups[h][j] ==> g == h && i
            == j
}

/// Two members of `groups` stand in the same group exactly if a walk leads from one to the other.
pub open spec fn same_group_iff_reachable(adj: Seq<Seq<usize>>, groups: Seq<Seq<usize>>) -> bool {
    forall|g: int, i: int, h: int, j: int|
        0 <= g < groups.len() && 0 <= i < groups[g].len() && 0 <= h < groups.len() && 0 <= j
            < groups[h].len() ==> (reachable(adj, #[trigger] groups[g][i], #[trigger] groups[h][j])
            <==> g == h)
}

/// The order of a breadth-first sweep over the vertices in rising order: each group starts
/// with its least vertex, the groups stand by rising first vertex, and the members of a
/// group stand in the order in which a breadth-first search from the first finds them.
pub open spec fn in_search_order(adj: Seq<Seq<usize>>, groups: Seq<Seq<usize>>) -> bool {
    &&& forall|g: int, h: int|
        0 <= g < h < groups.len() ==> (#[trigger] groups[g])[0] < (#[trigger] groups[h])[0]
    &&& forall|g: int, i: int|
        0 <= g < groups.len() && 0 <= i < groups[g].len() ==> groups[g][0] <= #[trigger] groups[g][i]
    &&& forall|g: int|
        0 <= g < groups.len() ==> spans_from_first(adj, #[trigger] groups[g]) && children_in_order(
            adj,
            groups[g],
        )
}

/// A vertex is reachable from itself.
pub proof fn lemma_reachable_self(adj: Seq<Seq<usize>>, u: usize)
    requires
        u < adj.len(),
    ensures
        reachable(adj, u, u),
{
    let walk = seq![u];
    assert(is_walk(adj, walk));
    assert(walk[0] == u && walk.last() == u);
}

/// A walk can be prolonged by an edge.
pub proof fn lemma_reachable_extend(adj: Seq<Seq<usize>>, u: usize, v: usize, w: usize)
    requires
        reachable(adj, u, v),
        has_edge(adj, v, w),
    ensures
        reachable(adj, u, w),
{
    let walk = choose|walk: Seq<usize>| #[trigger]
        is_walk(adj, walk) && walk[0] == u && walk.last() == v;
    let longer = walk.push(w);
    assert forall|i: int| 0 <= i < longer.len() - 1 implies has_edge(
        adj,
        #[trigger] longer[i],
        longer[i + 1],
    ) by {
        if i < walk.len() - 1 {
            assert(has_edge(adj, walk[i], walk[i + 1]));
        }
    }
    assert(is_walk(adj, longer));
    assert(longer[0] == u && longer.last() == w);
}

proof fn lemma_walk_reaches(adj: Seq<Seq<usize>>, u: usize, walk: Seq<usize>, i: int)
    requires
        is_walk(adj, walk),
        reachable(adj, u, walk[0]),
        0 <= i < walk.len(),
    ensures
        reachable(adj, u, walk[i]),
    decreases i,
{
    if i > 0 {
        lemma_walk_reaches(adj, u, walk, i - 1);
        assert(has_edge(adj, walk[i - 1], walk[i - 1 + 1]));
        lemma_reachable_extend(adj, u, walk[i - 1], walk[i]);
    }
}

/// Two walks, the second from where the first ends, make one.
pub proof fn lemma_reachable_trans(adj: Seq<Seq<usize>>, u: usize, v: usize, w: usize)
    requires
        reachable(adj, u, v),
        reachable(adj, v, w),
    ensures
        reachable(adj, u, w),
{
    let walk = choose|walk: Seq<usize>| #[trigger]
        is_walk(adj, walk) && walk[0] == v && walk.last() == w;
    lemma_walk_reaches(adj, u, walk, walk.len() - 1);
}

proof fn lemma_walk_returns(adj: Seq<Seq<usize>>, walk: Seq<usize>, i: int)
    requires
        symmetric(adj),
        is_walk(adj, walk),
        0 <= i < walk.len(),
    ensures
        reachable(adj, walk[i], walk[0]),
    decreases i,
{
    if i == 0 {
        lemma_reachable_self(adj, walk[0]);
    } else {
        lemma_walk_returns(adj, walk, i - 1);
        assert(has_edge(adj, walk[i - 1], walk[i - 1 + 1]));
        assert(has_edge(adj, walk[i], walk[i - 1]));
        lemma_reachable_self(adj, walk[i]);
        lemma_reachable_extend(adj, walk[i], walk[i], walk[i - 1]);
        lemma_reachable_trans(adj, walk[i], walk[i - 1], walk[0]);
    }
}

/// In a symmetric graph a walk can be gone backwards.
pub proof fn lemma_reachable_sym(adj: Seq<Seq<usize>>, u: usize, v: usize)
    requires
        symmetric(adj),
        reachable(adj, u, v),
    ensures
        reachable(adj, v, u),
{
    let walk = choose|walk: Seq<usize>| #[trigger]
        is_walk(adj, walk) && walk[0] == u && walk.last() == v;
    lemma_walk_returns(adj, walk, walk.len() - 1);
}

proof fn lemma_closed_walk(adj: Seq<Seq<usize>>, group: Seq<usize>, walk: Seq<usize>, i: int)
    requires
        closed_under_edges(adj, group),
        is_walk(adj, walk),
        group.contains(walk[0]),
        0 <= i < walk.len(),
    ensures
        group.contains(walk[i]),
    decreases i,
{
    if i > 0 {
        lemma_closed_walk(adj, group, walk, i - 1);
        assert(has_edge(adj, walk[i - 1], walk[i - 1 + 1]));
    }
}

/// No walk leaves a group that is closed under edges.
pub proof fn lemma_closed_keeps_reachable(adj: Seq<Seq<usize>>, group: Seq<usize>, u: usize, v: usize)
    requires
        closed_under_edges(adj, group),
        group.contains(u),
        reachable(adj, u, v),
    ensures
        group.contains(v),
{
    let walk = choose|walk: Seq<usize>| #[trigger]
        is_walk(adj, walk) && walk[0] == u && walk.last() == v;
    lemma_closed_walk(adj, group, walk, walk.len() - 1);
}

/// Every member of a group that spans from its first member is reachable from it.
pub proof fn lemma_spanned_reachable(adj: Seq<Seq<usize>>, group: Seq<usize>, i: int)
    requires
        spans_from_first(adj, group),
        0 <= i < group.len(),
        group[0] < adj.len(),
    ensures
        reachable(adj, group[0], group[i]),
    decreases i,
{
    if i == 0 {
        lemma_reachable_self(adj, group[0]);
    } else {
        assert(has_parent(adj, group, i));
        let j = choose|j: int| #[trigger] is_parent(adj, group, j, i);
        lemma_spanned_reachable(adj, group, j);
        lemma_reachable_extend(adj, group[0], group[j], group[i]);
    }
}

/// Distinct vertices below `n` are at most `n`.
proof fn lemma_distinct_vertices_bounded(order: Seq<usize>, n: nat)
    requires
        order.no_duplicates(),
        forall|i: int| 0 <= i < order.len() ==> (#[trigger] order[i]) < n,
    ensures
        order.len() <= n,
{
    let ints = Seq::new(order.len(), |i: int| order[i] as int);
    assert(ints.no_duplicates());
    assert forall|x: int| ints.to_set().contains(x) implies set_int_range(0, n as int).contains(
        x,
    ) by {
        let i = choose|i: int| 0 <= i < ints.len() && ints[i] == x;
        assert(order[i] < n);
    }
    assert(ints.to_set().subset_of(set_int_range(0, n as int)));
    lemma_int_range(0, n as int);
    lemma_len_subset(ints.to_set(), set_int_range(0, n as int));
    ints.unique_seq_to_set();
}

/// The marked vertices are closed under edges.
spec fn marks_closed(adj: Seq<Seq<usize>>, marks: Seq<bool>) -> bool {
    forall|u: usize, v: usize|
        u < marks.len() && marks[u as int] && #[trigger] has_edge(adj, u, v) ==> v < marks.len()
            && marks[v as int]
}

/// The parent of the vertex at position `i` of `order` is one of the first `seen` vertices.
spec fn found_from(adj: Seq<Seq<usize>>, order: Seq<usize>, i: int, seen: int) -> bool {
    exists|j: int| j < seen && #[trigger] is_parent(adj, order, j, i)
}

/// `v` stands at one of the first `k` places of `row`.
spec fn read_in(row: Seq<usize>, k: int, v: usize) -> bool {
    exists|at: int| 0 <= at < k && at < row.len() && #[trigger] row[at] == v
}

/// What holds during a search from `order[0]`: `order` lists the vertices found so far,
/// none of them marked in `before`; the first `seen` of them have left the queue, and the
/// lists of the first `done` of them have been read to the end.
spec fn search_state(
    adj: Seq<Seq<usize>>,
    before: Seq<bool>,
    marks: Seq<bool>,
    order: Seq<usize>,
    seen: int,
    done: int,
) -> bool {
    &&& before.len() == adj.len()
    &&& marks.len() == adj.len()
    &&& 0 <= done <= seen <= order.len()
    &&& order.no_duplicates()
    &&& forall|i: int|
        0 <= i < order.len() ==> (#[trigger] order[i]) < adj.len() && !before[order[i] as int]
    &&& forall|v: usize|
        #![trigger marks[v as int]]
        #![trigger order.contains(v)]
        v < adj.len() ==> (marks[v as int] <==> (before[v as int] || order.contains(v)))
    &&& forall|i: int| 0 < i < order.len() ==> #[trigger] found_from(adj, order, i, seen)
    &&& children_in_order(adj, order)
    &&& forall|i: int, w: usize|
        0 <= i < done && #[trigger] has_edge(adj, order[i], w) ==> w < adj.len() && marks[w as int]
}

/// What holds while the list of the vertex at position `seen - 1` is read: its children
/// stand at the first `k` places of its list.
spec fn scan_state(adj: Seq<Seq<usize>>, order: Seq<usize>, seen: int, k: int) -> bool {
    forall|i: int| #[trigger]
        is_parent(adj, order, seen - 1, i) ==> read_in(adj[order[seen - 1] as int], k, order[i])
}

proof fn lemma_search_start(adj: Seq<Seq<usize>>, before: Seq<bool>, seed: usize)
    requires
        before.len() == adj.len(),
        seed < adj.len(),
        !before[seed as int],
    ensures
        search_state(adj, before, before.update(seed as int, true), seq![seed], 0, 0),
{
    let order = seq![seed];
    let marks = before.update(seed as int, true);
    assert(order[0] == seed);
    assert forall|v: usize| v < adj.len() implies (marks[v as int] <==> (before[v as int]
        || order.contains(v))) by {
        if v == seed {
            assert(order[0] == v);
        }
    }
}

proof fn lemma_search_dequeue(
    adj: Seq<Seq<usize>>,
    before: Seq<bool>,
    marks: Seq<bool>,
    order: Seq<usize>,
    seen: int,
    done: int,
)
    requires
        search_state(adj, before, marks, order, seen, done),
        seen < order.len(),
    ensures
        search_state(adj, before, marks, order, seen + 1, done),
        scan_state(adj, order, seen + 1, 0),
{
    assert forall|i: int| 0 < i < order.len() implies #[trigger] found_from(
        adj,
        order,
        i,
        seen + 1,
    ) by {
        assert(found_from(adj, order, i, seen));
        let j = choose|j: int| j < seen && #[trigger] is_parent(adj, order, j, i);
        assert(j < seen + 1 && is_parent(adj, order, j, i));
    }
    assert forall|i: int| #[trigger] is_parent(adj, order, seen + 1 - 1, i) implies read_in(
        adj[order[seen + 1 - 1] as int],
        0,
        order[i],
    ) by {
        assert(found_from(adj, order, i, seen));
        let j = choose|j: int| j < seen && #[trigger] is_parent(adj, order, j, i);
        assert(has_edge(adj, order[j], order[i]));
    }
}

/// Whether a vertex is the parent of another depends on the vertices up to the child only.
proof fn lemma_parent_in_longer(adj: Seq<Seq<usize>>, order: Seq<usize>, v: usize, j: int, i: int)
    requires
        i < order.len(),
    ensures
        is_parent(adj, order.push(v), j, i) <==> is_parent(adj, order, j, i),
{
    let longer = order.push(v);
    if is_parent(adj, longer, j, i) {
        assert(longer[j] == order[j] && longer[i] == order[i]);
        assert forall|e: int| 0 <= e < j implies !has_edge(adj, #[trigger] order[e], order[i]) by {
            assert(longer[e] == order[e]);
        }
    }
    if is_parent(adj, order, j, i) {
        assert(longer[j] == order[j] && longer[i] == order[i]);
        assert forall|e: int| 0 <= e < j implies !has_edge(adj, #[trigger] longer[e], longer[i]) by {
            assert(longer[e] == order[e]);
        }
    }
}

proof fn lemma_search_enqueue(
    adj: Seq<Seq<usize>>,
    before: Seq<bool>,
    marks: Seq<bool>,
    order: Seq<usize>,
    seen: int,
    k: int,
    v: usize,
)
    requires
        search_state(adj, before, marks, order, seen, seen - 1),
        scan_state(adj, order, seen, k),
        seen > 0,
        0 <= k < adj[order[seen - 1] as int].len(),
        adj[order[seen - 1] as int][k] == v,
        forall|at: int| 0 <= at < k ==> marks[(#[trigger] adj[order[seen - 1] as int][at]) as int],
        v < adj.len(),
        !marks[v as int],
    ensures
        search_state(adj, before, marks.update(v as int, true), order.push(v), seen, seen - 1),
        scan_state(adj, order.push(v), seen, k + 1),
{
    let longer = order.push(v);
    let marked = marks.update(v as int, true);
    let last = order.len() as int;
    let curr = order[seen - 1];
    let row = adj[curr as int];
    assert(has_edge(adj, curr, v));
    assert(!order.contains(v));
    assert(!before[v as int]);
    assert forall|i: int, j: int|
        0 <= i < longer.len() && 0 <= j < longer.len() && i != j implies longer[i] != longer[j] by {
        if i < order.len() && j < order.len() {
        } else if i < order.len() {
            assert(order[i] != v);
        } else {
            assert(order[j] != v);
        }
    }
    assert forall|w: usize| w < adj.len() implies (marked[w as int] <==> (before[w as int]
        || longer.contains(w))) by {
        if w == v {
            assert(longer[last] == w);
        } else {
            if order.contains(w) {
                let i = choose|i: int| 0 <= i < order.len() && order[i] == w;
                assert(longer[i] == w);
            }
            if longer.contains(w) {
                let i = choose|i: int| 0 <= i < longer.len() && longer[i] == w;
                assert(order[i] == w);
            }
        }
    }
    assert(is_parent(adj, longer, seen - 1, last)) by {
        assert(longer[seen - 1] == curr && longer[last] == v);
        assert forall|e: int| 0 <= e < seen - 1 implies !has_edge(
            adj,
            #[trigger] longer[e],
            longer[last],
        ) by {
            assert(longer[e] == order[e]);
            if has_edge(adj, order[e], v) {
                assert(marks[v as int]);
            }
        }
    }
    assert forall|i: int| 0 < i < longer.len() implies #[trigger] found_from(adj, longer, i, seen) by {
        if i < order.len() {
            assert(found_from(adj, order, i, seen));
            let j = choose|j: int| j < seen && #[trigger] is_parent(adj, order, j, i);
            lemma_parent_in_longer(adj, order, v, j, i);
            assert(j < seen && is_parent(adj, longer, j, i));
        } else {
            assert(seen - 1 < seen && is_parent(adj, longer, seen - 1, i));
        }
    }
    assert forall|i1: int, i2: int, j1: int, j2: int|
        i1 < i2 && #[trigger] is_parent(adj, longer, j1, i1) && #[trigger] is_parent(
            adj,
            longer,
            j2,
            i2,
        ) implies j1 <= j2 && (j1 == j2 ==> stands_before(
        adj[longer[j1] as int],
        longer[i1],
        longer[i2],
    )) by {
        lemma_parent_in_longer(adj, order, v, j1, i1);
        assert(longer[j1] == order[j1] && longer[i1] == order[i1]);
        if i2 < order.len() {
            lemma_parent_in_longer(adj, order, v, j2, i2);
            assert(longer[i2] == order[i2]);
        } else {
            assert(has_edge(adj, longer[j2], longer[i2]));
            assert(has_edge(adj, longer[seen - 1], longer[i2]));
            assert(j2 == seen - 1);
            assert(found_from(adj, order, i1, seen));
            let j = choose|j: int| j < seen && #[trigger] is_parent(adj, order, j, i1);
            assert(has_edge(adj, order[j], order[i1]));
            assert(has_edge(adj, order[j1], order[i1]));
            assert(j == j1);
            if j1 == j2 {
                assert(read_in(row, k, order[i1]));
                let at = choose|at: int| 0 <= at < k && at < row.len() && #[trigger] row[at] == order[i1];
                assert forall|e: int| 0 <= e <= at implies #[trigger] row[e] != v by {
                    assert(marks[row[e] as int]);
                }
                assert(stands_before(row, order[i1], v));
            }
        }
    }
    assert forall|i: int, w: usize| 0 <= i < seen - 1 && #[trigger] has_edge(
        adj,
        longer[i],
        w,
    ) implies w < adj.len() && marked[w as int] by {
        assert(longer[i] == order[i]);
        assert(has_edge(adj, order[i], w));
    }
    assert forall|i: int| #[trigger] is_parent(adj, longer, seen - 1, i) implies read_in(
        adj[longer[seen - 1] as int],
        k + 1,
        longer[i],
    ) by {
        assert(longer[seen - 1] == curr);
        if i < order.len() {
            lemma_parent_in_longer(adj, order, v, seen - 1, i);
            assert(read_in(row, k, order[i]));
            let at = choose|at: int| 0 <= at < k && at < row.len() && #[trigger] row[at] == order[i];
            assert(0 <= at < k + 1 && row[at] == longer[i]);
        } else {
            assert(0 <= k < k + 1 && row[k] == longer[i]);
        }
    }
}

proof fn lemma_scan_skip(adj: Seq<Seq<usize>>, order: Seq<usize>, seen: int, k: int)
    requires
        scan_state(adj, order, seen, k),
    ensures
        scan_state(adj, order, seen, k + 1),
{
    let row = adj[order[seen - 1] as int];
    assert forall|i: int| #[trigger] is_parent(adj, order, seen - 1, i) implies read_in(
        row,
        k + 1,
        order[i],
    ) by {
        assert(read_in(row, k, order[i]));
        let at = choose|at: int| 0 <= at < k && at < row.len() && #[trigger] row[at] == order[i];
        assert(0 <= at < k + 1 && row[at] == order[i]);
    }
}

proof fn lemma_search_finish(
    adj: Seq<Seq<usize>>,
    before: Seq<bool>,
    marks: Seq<bool>,
    order: Seq<usize>,
    seen: int,
    done: int,
)
    requires
        search_state(adj, before, marks, order, seen, done),
        done < seen,
        forall|w: usize| #[trigger] has_edge(adj, order[done], w) ==> w < adj.len() && marks[w as int],
    ensures
        search_state(adj, before, marks, order, seen, done + 1),
{
}

proof fn lemma_search_end(adj: Seq<Seq<usize>>, before: Seq<bool>, marks: Seq<bool>, group: Seq<usize>)
    requires
        search_state(adj, before, marks, group, group.len() as int, group.len() as int),
        symmetric(adj),
        well_formed(adj),
        marks_closed(adj, before),
    ensures
        closed_under_edges(adj, group),
        spans_from_first(adj, group),
        children_in_order(adj, group),
        marks_closed(adj, marks),
{
    assert forall|u: usize, v: usize| group.contains(u) && #[trigger] has_edge(
        adj,
        u,
        v,
    ) implies group.contains(v) by {
        let i = choose|i: int| 0 <= i < group.len() && group[i] == u;
        assert(has_edge(adj, group[i], v));
        assert(marks[v as int]);
        if before[v as int] {
            assert(has_edge(adj, v, u));
            assert(before[u as int]);
        }
    }
    assert forall|i: int| 0 < i < group.len() implies #[trigger] has_parent(adj, group, i) by {
        assert(found_from(adj, group, i, group.len() as int));
        let j = choose|j: int| j < group.len() && #[trigger] is_parent(adj, group, j, i);
        assert(is_parent(adj, group, j, i));
    }
    assert forall|u: usize, v: usize|
        u < marks.len() && marks[u as int] && #[trigger] has_edge(adj, u, v) implies v < marks.len()
            && marks[v as int] by {
        if before[u as int] {
            assert(before[v as int]);
        } else {
            assert(group.contains(u));
            assert(group.contains(v));
        }
    }
}

/// The vertices that can be reached from `seed`, in the order in which a breadth-first
/// search finds them; they are marked in `visited`.
fn visit_from(adj: &Vec<Vec<usize>>, seed: usize, visited: &mut Vec<bool>) -> (group: Vec<usize>)
    requires
        well_formed(rows(adj@)),
        symmetric(rows(adj@)),
        old(visited).len() == adj.len(),
        seed < adj.len(),
        !old(visited)@[seed as int],
        marks_closed(rows(adj@), old(visited)@),
    ensures
        final(visited).len() == adj.len(),
        marks_closed(rows(adj@), final(visited)@),
        forall|v: usize|
            #![trigger final(visited)@[v as int]]
            #![trigger group@.contains(v)]
            v < adj.len() ==> (final(visited)@[v as int] <==> (old(visited)@[v as int]
                || group@.contains(v))),
        group@.no_duplicates(),
        forall|i: int|
            0 <= i < group.len() ==> (#[trigger] group@[i]) < adj.len() && !old(visited)@[group@[i] as int],
        group.len() > 0,
        group@[0] == seed,
        spans_from_first(rows(adj@), group@),
        children_in_order(rows(adj@), group@),
        closed_under_edges(rows(adj@), group@),
{
    let ghost graph = rows(adj@);
    let ghost before = visited@;
    let mut group: Vec<usize> = Vec::new();
    let mut queue: VecDeque<usize> = VecDeque::new();
    visited.set(seed, true);
    queue.push_back(seed);
    proof {
        lemma_search_start(graph, before, seed);
        assert(group@ + queue@ =~= seq![seed]);
    }
    while queue.len() > 0
        invariant
            graph == rows(adj@),
            well_formed(graph),
            visited.len() == adj.len(),
            (group@ + queue@).len() > 0,
            (group@ + queue@)[0] == seed,
            search_state(
                graph,
                before,
                visited@,
                group@ + queue@,
                group.len() as int,
                group.len() as int,
            ),
        decreases adj.len() - group.len(),
    {
        let ghost order = group@ + queue@;
        proof {
            lemma_distinct_vertices_bounded(order, adj.len() as nat);
            lemma_search_dequeue(
                graph,
                before,
                visited@,
                order,
                group.len() as int,
                group.len() as int,
            );
            assert(order[group.len() as int] == queue@[0]);
        }
        let curr = queue.pop_front().unwrap();
        group.push(curr);
        assert(group@ + queue@ =~= order);
        let row = &adj[curr];
        let mut k: usize = 0;
        while k < row.len()
            invariant
                graph == rows(adj@),
                well_formed(graph),
                curr < adj.len(),
                row@ == graph[curr as int],
                visited.len() == adj.len(),
                k <= row.len(),
                group.len() > 0,
                group@[group.len() - 1] == curr,
                (group@ + queue@).len() > 0,
                (group@ + queue@)[0] == seed,
                search_state(
                    graph,
                    before,
                    visited@,
                    group@ + queue@,
                    group.len() as int,
                    group.len() - 1,
                ),
                scan_state(graph, group@ + queue@, group.len() as int, k as int),
                forall|j: int|
                    0 <= j < k ==> (#[trigger] row@[j]) < adj.len() && visited@[row@[j] as int],
            decreases row.len() - k,
        {
            let v = row[k];
            let ghost found = group@ + queue@;
            proof {
                assert(graph[curr as int][k as int] == v);
                assert(has_edge(graph, curr, v));
                assert(found[group.len() - 1] == curr);
            }
            if !visited[v] {
                proof {
                    lemma_search_enqueue(
                        graph,
                        before,
                        visited@,
                        found,
                        group.len() as int,
                        k as int,
                        v,
                    );
                }
                visited.set(v, true);
                queue.push_back(v);
                assert(group@ + queue@ =~= found.push(v));
            } else {
                proof {
                    lemma_scan_skip(graph, found, group.len() as int, k as int);
                }
            }
            k += 1;
        }
        proof {
            let found = group@ + queue@;
            assert(found[group.len() - 1] == curr);
            assert forall|w: usize| #[trigger] has_edge(graph, found[group.len() - 1], w) implies w
                < adj.len() && visited@[w as int] by {
                let j = choose|j: int| 0 <= j < row@.len() && row@[j] == w;
                assert(visited@[row@[j] as int]);
            }
            lemma_search_finish(
                graph,
                before,
                visited@,
                found,
                group.len() as int,
                group.len() - 1,
            );
        }
    }
    proof {
        assert(group@ + queue@ =~= group@);
        lemma_search_end(graph, before, visited@, group@);
    }
    group
}

/// What holds while the vertices are swept in rising order: the vertices below `next`
/// are marked, and `groups` are the components of the marked vertices.
spec fn sweep_state(adj: Seq<Seq<usize>>, marks: Seq<bool>, groups: Seq<Seq<usize>>, next: int) -> bool {
    &&& marks.len() == adj.len()
    &&& 0 <= next <= adj.len()
    &&& marks_closed(adj, marks)
    &&& forall|v: int| 0 <= v < next ==> #[trigger] marks[v]
    &&& forall|v: usize|
        #![trigger marks[v as int]]
        #![trigger covers(groups, v)]
        v < adj.len() ==> (marks[v as int] <==> covers(groups, v))
    &&& is_partition_of_marked(adj.len(), groups)
    &&& forall|g: int|
        0 <= g < groups.len() ==> closed_under_edges(adj, #[trigger] groups[g]) && spans_from_first(
            adj,
            groups[g],
        ) && children_in_order(adj, groups[g]) && groups[g][0] < next
    &&& forall|g: int, h: int|
        0 <= g < h < groups.len() ==> (#[trigger] groups[g])[0] < (#[trigger] groups[h])[0]
    &&& forall|g: int, i: int|
        0 <= g < groups.len() && 0 <= i < groups[g].len() ==> groups[g][0] <= #[trigger] groups[g][i]
}

/// `groups` are not empty, hold vertices below `n` only, and none of them twice.
spec fn is_partition_of_marked(n: nat, groups: Seq<Seq<usize>>) -> bool {
    &&& forall|g: int| 0 <= g < groups.len() ==> (#[trigger] groups[g]).len() > 0
    &&& forall|g: int, i: int|
        0 <= g < groups.len() && 0 <= i < groups[g].len() ==> (#[trigger] groups[g][i]) < n
    &&& forall|g: int, i: int, h: int, j: int|
        0 <= g < groups.len() && 0 <= i < groups[g].len() && 0 <= h < groups.len() && 0 <= j
            < groups[h].len() && #[trigger] groups[g][i] == #[trigger] groups[h][j] ==> g == h && i
            == j
}

proof fn lemma_sweep_add(
    adj: Seq<Seq<usize>>,
    before: Seq<bool>,
    marks: Seq<bool>,
    groups: Seq<Seq<usize>>,
    group: Seq<usize>,
    next: int,
)
    requires
        sweep_state(adj, before, groups, next),
        next < adj.len(),
        !before[next],
        marks.len() == adj.len(),
        marks_closed(adj, marks),
        forall|v: usize|
            #![trigger marks[v as int]]
            #![trigger group.contains(v)]
            v < adj.len() ==> (marks[v as int] <==> (before[v as int] || group.contains(v))),
        group.no_duplicates(),
        forall|i: int|
            0 <= i < group.len() ==> (#[trigger] group[i]) < adj.len() && !before[group[i] as int],
        group.len() > 0,
        group[0] == next,
        spans_from_first(adj, group),
        children_in_order(adj, group),
        closed_under_edges(adj, group),
    ensures
        sweep_state(adj, marks, groups.push(group), next + 1),
{
    let more = groups.push(group);
    let last = groups.len() as int;
    assert(more[last] == group);
    assert forall|g: int| 0 <= g < groups.len() implies more[g] == groups[g] by {}
    assert forall|v: int| 0 <= v < next + 1 implies #[trigger] marks[v] by {
        if v < next {
            assert(before[v]);
            assert(marks[(v as usize) as int]);
        } else {
            assert(group[0] == v as usize);
            assert(group.contains(v as usize));
            assert(marks[(v as usize) as int]);
        }
    }
    assert forall|v: usize| v < adj.len() implies (marks[v as int] <==> covers(more, v)) by {
        if covers(groups, v) {
            let (g, i) = choose|g: int, i: int|
                0 <= g < groups.len() && 0 <= i < groups[g].len() && #[trigger] groups[g][i] == v;
            assert(more[g][i] == v);
        }
        if group.contains(v) {
            let i = choose|i: int| 0 <= i < group.len() && group[i] == v;
            assert(more[last][i] == v);
        }
        if covers(more, v) {
            let (g, i) = choose|g: int, i: int|
                0 <= g < more.len() && 0 <= i < more[g].len() && #[trigger] more[g][i] == v;
            if g < last {
                assert(groups[g][i] == v);
            } else {
                assert(group[i] == v);
            }
        }
    }
    assert forall|g: int, i: int, h: int, j: int|
        0 <= g < more.len() && 0 <= i < more[g].len() && 0 <= h < more.len() && 0 <= j
            < more[h].len() && #[trigger] more[g][i] == #[trigger] more[h][j] implies g == h && i
        == j by {
        if g < last && h < last {
            assert(groups[g][i] == groups[h][j]);
        } else if g < last {
            assert(groups[g][i] == group[j]);
            assert(covers(groups, groups[g][i]));
        } else if h < last {
            assert(groups[h][j] == group[i]);
            assert(covers(groups, groups[h][j]));
        }
    }
    assert forall|g: int, i: int| 0 <= g < more.len() && 0 <= i < more[g].len() implies more[g][0]
        <= #[trigger] more[g][i] by {
        if g < last {
            assert(groups[g][0] <= groups[g][i]);
        } else {
            assert(!before[group[i] as int]);
        }
    }
    assert(is_partition_of_marked(adj.len(), more));
}

proof fn lemma_sweep_end(adj: Seq<Seq<usize>>, marks: Seq<bool>, groups: Seq<Seq<usize>>)
    requires
        sweep_state(adj, marks, groups, adj.len() as int),
        well_formed(adj),
        symmetric(adj),
    ensures
        is_partition(adj.len(), groups),
        same_group_iff_reachable(adj, groups),
        in_search_order(adj, groups),
{
    assert forall|v: usize| v < adj.len() implies #[trigger] covers(groups, v) by {
        assert(marks[v as int]);
    }
    assert forall|g: int, i: int, h: int, j: int|
        0 <= g < groups.len() && 0 <= i < groups[g].len() && 0 <= h < groups.len() && 0 <= j
            < groups[h].len() implies (reachable(
        adj,
        #[trigger] groups[g][i],
        #[trigger] groups[h][j],
    ) <==> g == h) by {
        let x = groups[g][i];
        let y = groups[h][j];
        if g == h {
            lemma_spanned_reachable(adj, groups[g], i);
            lemma_spanned_reachable(adj, groups[g], j);
            lemma_reachable_sym(adj, groups[g][0], x);
            lemma_reachable_trans(adj, x, groups[g][0], y);
        }
        if reachable(adj, x, y) {
            assert(groups[g].contains(x));
            lemma_closed_keeps_reachable(adj, groups[g], x, y);
            let k = choose|k: int| 0 <= k < groups[g].len() && groups[g][k] == y;
            assert(groups[g][k] == groups[h][j]);
        }
    }
}

/// The connected components of a symmetric graph: one group for each, the groups by
/// rising least vertex, and each group in the order in which a breadth-first search
/// from its least vertex finds its members.
pub fn connected_components(adj: &Vec<Vec<usize>>) -> (groups: Vec<Vec<usize>>)
    requires
        well_formed(adj.deep_view()),
        symmetric(adj.deep_view()),
    ensures
        is_partition(adj.len() as nat, groups.deep_view()),
        same_group_iff_reachable(adj.deep_view(), groups.deep_view()),
        in_search_order(adj.deep_view(), groups.deep_view()),
{
    let ghost graph = rows(adj@);
    proof {
        lemma_rows(*adj);
    }
    let n: usize = adj.len();
    let mut visited: Vec<bool> = Vec::new();
    let mut filled: usize = 0;
    while filled < n
        invariant
            filled <= n,
            visited.len() == filled,
            forall|j: int| 0 <= j < filled ==> !(#[trigger] visited@[j]),
        decreases n - filled,
    {
        visited.push(false);
        filled += 1;
    }
    let mut groups: Vec<Vec<usize>> = Vec::new();
    let mut next: usize = 0;
    proof {
        assert(rows(groups@) =~= Seq::<Seq<usize>>::empty());
    }
    while next < n
        invariant
            n == adj.len(),
            graph == rows(adj@),
            well_formed(graph),
            symmetric(graph),
            visited.len() == n,
            sweep_state(graph, visited@, rows(groups@), next as int),
        decreases n - next,
    {
        if !visited[next] {
            let ghost before = visited@;
            let ghost found = rows(groups@);
            let group = visit_from(adj, next, &mut visited);
            proof {
                lemma_sweep_add(graph, before, visited@, found, group@, next as int);
                assert(rows(groups@.push(group)) =~= found.push(group@));
            }
            groups.push(group);
        }
        next += 1;
    }
    proof {
        lemma_sweep_end(graph, visited@, rows(groups@));
        lemma_rows(groups);
    }
    groups
}

} // verus!
