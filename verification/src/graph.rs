//! The undirected graph of a list of pairs: its vertices are the identifiers that
//! stand in the pairs, numbered in the order in which they are first met, and each
//! pair is an edge between its two endpoints.

use crate::components::{has_edge, is_walk, reachable, symmetric, well_formed};
use crate::id_node::{IdKey, IdNode};
use crate::id_pair::{IdPair, PairKey};
use crate::node_table::{with_key, NodeTable};
use vstd::prelude::*;

verus! {

/// `key` is an endpoint of one of `pairs`.
pub open spec fn is_endpoint(pairs: Seq<PairKey>, key: IdKey) -> bool {
    exists|i: int| 0 <= i < pairs.len() && ((#[trigger] pairs[i]).0 == key || pairs[i].1 == key)
}

/// One of `pairs` has the endpoints `a` and `b`, in this order or the other.
pub open spec fn linked(pairs: Seq<PairKey>, a: IdKey, b: IdKey) -> bool {
    exists|i: int| 0 <= i < pairs.len() && ((#[trigger] pairs[i]) == (a, b) || pairs[i] == (b, a))
}

/// `chain` starts at an endpoint of `pairs`, and each of its identifiers is linked to the
/// next by one of `pairs`.
pub open spec fn is_chain(pairs: Seq<PairKey>, chain: Seq<IdKey>) -> bool {
    &&& chain.len() > 0
    &&& is_endpoint(pairs, chain[0])
    &&& forall|i: int| 0 <= i < chain.len() - 1 ==> linked(pairs, #[trigger] chain[i], chain[i + 1])
}

/// A chain of `pairs` leads from `a` to `b`.
pub open spec fn connected(pairs: Seq<PairKey>, a: IdKey, b: IdKey) -> bool {
    exists|chain: Seq<IdKey>| #[trigger] is_chain(pairs, chain) && chain[0] == a && chain.last() == b
}

/// The endpoints of `pairs`, each once, in the order in which they are first met when the
/// pairs are read in order, the first endpoint of a pair before its second.
pub open spec fn discovered(pairs: Seq<PairKey>) -> Seq<IdKey>
    decreases pairs.len(),
{
    if pairs.len() == 0 {
        Seq::empty()
    } else {
        with_key(with_key(discovered(pairs.drop_last()), pairs.last().0), pairs.last().1)
    }
}

/// The neighbours of `key`: for each of `pairs`, in order, its second endpoint where `key`
/// is its first, and then its first endpoint where `key` is its second.
pub open spec fn neighbours(pairs: Seq<PairKey>, key: IdKey) -> Seq<IdKey>
    decreases pairs.len(),
{
    if pairs.len() == 0 {
        Seq::empty()
    } else {
        with_neighbours(neighbours(pairs.drop_last(), key), pairs.last(), key)
    }
}

/// `rest`, and after it what `pair` adds to the neighbours of `key`: its second endpoint
/// where `key` is its first, and then its first endpoint where `key` is its second.
pub open spec fn with_neighbours(rest: Seq<IdKey>, pair: PairKey, key: IdKey) -> Seq<IdKey> {
    let forth = if pair.0 == key {
        rest.push(pair.1)
    } else {
        rest
    };
    if pair.1 == key {
        forth.push(pair.0)
    } else {
        forth
    }
}

/// `rows`, with an empty list at the end for a vertex that is not `known` yet.
pub open spec fn with_vertex(rows: Seq<Seq<usize>>, known: bool) -> Seq<Seq<usize>> {
    if known {
        rows
    } else {
        rows.push(Seq::empty())
    }
}

/// `rows`, with `v` at the end of the list of `u`.
pub open spec fn with_edge(rows: Seq<Seq<usize>>, u: usize, v: usize) -> Seq<Seq<usize>> {
    rows.update(u as int, rows[u as int].push(v))
}

/// The identifiers that the numbers of `row` stand for.
pub open spec fn named(row: Seq<usize>, keys: Seq<IdKey>) -> Seq<IdKey> {
    Seq::new(row.len(), |k: int| keys[row[k] as int])
}

/// `rows` are the adjacency lists of `pairs` over the vertices `keys`: list `u` names the
/// neighbours of `keys[u]`, in order.
pub open spec fn adjacency_matches(pairs: Seq<PairKey>, keys: Seq<IdKey>, rows: Seq<Seq<usize>>) -> bool {
    &&& rows.len() == keys.len()
    &&& forall|u: int, k: int|
        0 <= u < rows.len() && 0 <= k < rows[u].len() ==> (#[trigger] rows[u][k]) < keys.len()
    &&& forall|u: int|
        0 <= u < rows.len() ==> named(#[trigger] rows[u], keys) == neighbours(pairs, keys[u])
}

proof fn lemma_push_contains(keys: Seq<IdKey>, key: IdKey, other: IdKey)
    ensures
        keys.push(key).contains(other) <==> keys.contains(other) || key == other,
{
    let longer = keys.push(key);
    if keys.contains(other) {
        let i = choose|i: int| 0 <= i < keys.len() && keys[i] == other;
        assert(longer[i] == other);
    }
    if key == other {
        assert(longer[keys.len() as int] == other);
    }
    if longer.contains(other) {
        let i = choose|i: int| 0 <= i < longer.len() && longer[i] == other;
        if i < keys.len() {
            assert(keys[i] == other);
        }
    }
}

/// Adding a key keeps a sequence without duplicates so, and adds this key only.
pub proof fn lemma_with_key(keys: Seq<IdKey>, key: IdKey)
    requires
        keys.no_duplicates(),
    ensures
        with_key(keys, key).no_duplicates(),
        with_key(keys, key).contains(key),
        forall|other: IdKey|
            #[trigger] with_key(keys, key).contains(other) <==> keys.contains(other) || key == other,
        forall|i: int| 0 <= i < keys.len() ==> with_key(keys, key)[i] == #[trigger] keys[i],
        keys.len() <= with_key(keys, key).len(),
{
    assert forall|other: IdKey| #[trigger]
        with_key(keys, key).contains(other) <==> keys.contains(other) || key == other by {
        lemma_push_contains(keys, key, other);
    }
}

proof fn lemma_endpoint_push(pairs: Seq<PairKey>, pair: PairKey, key: IdKey)
    ensures
        is_endpoint(pairs.push(pair), key) <==> is_endpoint(pairs, key) || pair.0 == key || pair.1
            == key,
{
    let longer = pairs.push(pair);
    if is_endpoint(pairs, key) {
        let i = choose|i: int|
            0 <= i < pairs.len() && ((#[trigger] pairs[i]).0 == key || pairs[i].1 == key);
        assert(longer[i] == pairs[i]);
    }
    if pair.0 == key || pair.1 == key {
        assert(longer[pairs.len() as int] == pair);
    }
    if is_endpoint(longer, key) {
        let i = choose|i: int|
            0 <= i < longer.len() && ((#[trigger] longer[i]).0 == key || longer[i].1 == key);
        if i < pairs.len() {
            assert(pairs[i] == longer[i]);
        }
    }
}

proof fn lemma_linked_push(pairs: Seq<PairKey>, pair: PairKey, a: IdKey, b: IdKey)
    ensures
        linked(pairs.push(pair), a, b) <==> linked(pairs, a, b) || pair == (a, b) || pair == (b, a),
{
    let longer = pairs.push(pair);
    if linked(pairs, a, b) {
        let i = choose|i: int|
            0 <= i < pairs.len() && ((#[trigger] pairs[i]) == (a, b) || pairs[i] == (b, a));
        assert(longer[i] == pairs[i]);
    }
    if pair == (a, b) || pair == (b, a) {
        assert(longer[pairs.len() as int] == pair);
    }
    if linked(longer, a, b) {
        let i = choose|i: int|
            0 <= i < longer.len() && ((#[trigger] longer[i]) == (a, b) || longer[i] == (b, a));
        if i < pairs.len() {
            assert(pairs[i] == longer[i]);
        }
    }
}

/// What one more pair adds to the vertices and to the neighbours of an identifier.
pub proof fn lemma_one_more_pair(pairs: Seq<PairKey>, pair: PairKey, key: IdKey)
    ensures
        discovered(pairs.push(pair)) == with_key(with_key(discovered(pairs), pair.0), pair.1),
        neighbours(pairs.push(pair), key) == with_neighbours(neighbours(pairs, key), pair, key),
{
    assert(pairs.push(pair).drop_last() =~= pairs);
    assert(pairs.push(pair).last() == pair);
}

/// The vertices are the endpoints of the pairs, each once.
pub proof fn lemma_discovered(pairs: Seq<PairKey>)
    ensures
        discovered(pairs).no_duplicates(),
        forall|key: IdKey| #[trigger] discovered(pairs).contains(key) <==> is_endpoint(pairs, key),
    decreases pairs.len(),
{
    if pairs.len() == 0 {
    } else {
        let init = pairs.drop_last();
        let pair = pairs.last();
        lemma_discovered(init);
        assert(pairs =~= init.push(pair));
        let some = with_key(discovered(init), pair.0);
        lemma_with_key(discovered(init), pair.0);
        lemma_with_key(some, pair.1);
        assert forall|key: IdKey| #[trigger]
            discovered(pairs).contains(key) <==> is_endpoint(pairs, key) by {
            lemma_endpoint_push(init, pair, key);
            assert(some.contains(key) <==> discovered(init).contains(key) || pair.0 == key);
        }
    }
}

/// The neighbours of an identifier are the identifiers that a pair links it to.
pub proof fn lemma_neighbours(pairs: Seq<PairKey>, a: IdKey)
    ensures
        forall|b: IdKey| #[trigger] neighbours(pairs, a).contains(b) <==> linked(pairs, a, b),
    decreases pairs.len(),
{
    if pairs.len() == 0 {
        assert(neighbours(pairs, a) =~= Seq::<IdKey>::empty());
    } else {
        let init = pairs.drop_last();
        let pair = pairs.last();
        lemma_neighbours(init, a);
        assert(pairs =~= init.push(pair));
        let rest = neighbours(init, a);
        let forth = if pair.0 == a {
            rest.push(pair.1)
        } else {
            rest
        };
        assert forall|b: IdKey| #[trigger]
            neighbours(pairs, a).contains(b) <==> linked(pairs, a, b) by {
            lemma_linked_push(init, pair, a, b);
            lemma_push_contains(rest, pair.1, b);
            lemma_push_contains(forth, pair.0, b);
            assert(rest.contains(b) <==> linked(init, a, b));
        }
    }
}

/// An identifier that stands in no pair has no neighbours.
pub proof fn lemma_stranger_has_no_neighbours(pairs: Seq<PairKey>, key: IdKey)
    requires
        !is_endpoint(pairs, key),
    ensures
        neighbours(pairs, key) == Seq::<IdKey>::empty(),
    decreases pairs.len(),
{
    if pairs.len() > 0 {
        let init = pairs.drop_last();
        let pair = pairs.last();
        assert(pairs =~= init.push(pair));
        lemma_endpoint_push(init, pair, key);
        lemma_stranger_has_no_neighbours(init, key);
    }
}

/// The lists that fit a list of pairs stay fit when a vertex without neighbours is added.
proof fn lemma_rows_after_intern(
    pairs: Seq<PairKey>,
    keys: Seq<IdKey>,
    rows: Seq<Seq<usize>>,
    key: IdKey,
)
    requires
        keys.no_duplicates(),
        adjacency_matches(pairs, keys, rows),
        forall|other: IdKey| is_endpoint(pairs, other) ==> keys.contains(other),
    ensures
        adjacency_matches(pairs, with_key(keys, key), with_vertex(rows, keys.contains(key))),
{
    lemma_with_key(keys, key);
    if !keys.contains(key) {
        let more = keys.push(key);
        let longer = rows.push(Seq::<usize>::empty());
        lemma_stranger_has_no_neighbours(pairs, key);
        assert forall|u: int| 0 <= u < longer.len() implies named(#[trigger] longer[u], more)
            == neighbours(pairs, more[u]) by {
            if u < rows.len() {
                assert(longer[u] == rows[u]);
                assert(named(rows[u], more) =~= named(rows[u], keys));
            } else {
                assert(named(longer[u], more) =~= Seq::<IdKey>::empty());
            }
        }
    }
}

/// The lists that fit a list of pairs fit the list with one more pair once each endpoint
/// of this pair is added to the list of the other.
proof fn lemma_rows_after_pair(
    pairs: Seq<PairKey>,
    keys: Seq<IdKey>,
    rows: Seq<Seq<usize>>,
    pair: PairKey,
    a: usize,
    b: usize,
)
    requires
        keys.no_duplicates(),
        adjacency_matches(pairs, keys, rows),
        a < keys.len(),
        b < keys.len(),
        keys[a as int] == pair.0,
        keys[b as int] == pair.1,
    ensures
        adjacency_matches(pairs.push(pair), keys, with_edge(with_edge(rows, a, b), b, a)),
{
    let forth = rows.update(a as int, rows[a as int].push(b));
    let both = forth.update(b as int, forth[b as int].push(a));
    let more = pairs.push(pair);
    assert forall|u: int| 0 <= u < both.len() implies named(#[trigger] both[u], keys) == neighbours(
        more,
        keys[u],
    ) by {
        lemma_one_more_pair(pairs, pair, keys[u]);
        assert(named(rows[u], keys) == neighbours(pairs, keys[u]));
        if u == a && u == b {
            assert(named(both[u], keys) =~= named(rows[u], keys).push(pair.1).push(pair.0));
        } else if u == a {
            assert(named(both[u], keys) =~= named(rows[u], keys).push(pair.1));
        } else if u == b {
            assert(named(both[u], keys) =~= named(rows[u], keys).push(pair.0));
        } else {
            assert(both[u] == rows[u]);
        }
    }
}

/// An edge between two vertices is a pair that links their identifiers.
pub proof fn lemma_edges_are_links(
    pairs: Seq<PairKey>,
    keys: Seq<IdKey>,
    rows: Seq<Seq<usize>>,
    u: usize,
    v: usize,
)
    requires
        keys.no_duplicates(),
        adjacency_matches(pairs, keys, rows),
        u < keys.len(),
    ensures
        has_edge(rows, u, v) ==> v < keys.len(),
        v < keys.len() ==> (has_edge(rows, u, v) <==> linked(pairs, keys[u as int], keys[v as int])),
{
    let row = rows[u as int];
    let names = named(row, keys);
    lemma_neighbours(pairs, keys[u as int]);
    assert(names == neighbours(pairs, keys[u as int]));
    if has_edge(rows, u, v) {
        let k = choose|k: int| 0 <= k < row.len() && row[k] == v;
        assert(rows[u as int][k] < keys.len());
        assert(names[k] == keys[v as int]);
        assert(names.contains(keys[v as int]));
    }
    if v < keys.len() && linked(pairs, keys[u as int], keys[v as int]) {
        assert(names.contains(keys[v as int]));
        let k = choose|k: int| 0 <= k < names.len() && names[k] == keys[v as int];
        assert(rows[u as int][k] < keys.len());
        assert(row[k] == v);
    }
}

/// The adjacency lists of a list of pairs name vertices only, and every edge runs both ways.
pub proof fn lemma_graph_is_symmetric(pairs: Seq<PairKey>, keys: Seq<IdKey>, rows: Seq<Seq<usize>>)
    requires
        keys.no_duplicates(),
        adjacency_matches(pairs, keys, rows),
    ensures
        well_formed(rows),
        symmetric(rows),
{
    assert forall|u: usize, v: usize| #[trigger] has_edge(rows, u, v) implies v < rows.len()
        && has_edge(rows, v, u) by {
        lemma_edges_are_links(pairs, keys, rows, u, v);
        lemma_edges_are_links(pairs, keys, rows, v, u);
        let i = choose|i: int|
            0 <= i < pairs.len() && ((#[trigger] pairs[i]) == (keys[u as int], keys[v as int])
                || pairs[i] == (keys[v as int], keys[u as int]));
        assert(pairs[i] == (keys[v as int], keys[u as int]) || pairs[i] == (
            keys[u as int],
            keys[v as int],
        ));
    }
}

/// A walk leads from one vertex to another exactly if a chain of pairs leads from the
/// identifier of the first to that of the second.
pub proof fn lemma_walks_are_chains(
    pairs: Seq<PairKey>,
    keys: Seq<IdKey>,
    rows: Seq<Seq<usize>>,
    u: usize,
    v: usize,
)
    requires
        keys == discovered(pairs),
        keys.len() <= usize::MAX,
        adjacency_matches(pairs, keys, rows),
        u < keys.len(),
        v < keys.len(),
    ensures
        reachable(rows, u, v) <==> connected(pairs, keys[u as int], keys[v as int]),
{
    lemma_discovered(pairs);
    lemma_graph_is_symmetric(pairs, keys, rows);
    if reachable(rows, u, v) {
        let walk = choose|walk: Seq<usize>| #[trigger]
            is_walk(rows, walk) && walk[0] == u && walk.last() == v;
        let chain = Seq::new(walk.len(), |i: int| keys[walk[i] as int]);
        assert(keys.contains(keys[u as int]));
        assert forall|i: int| 0 <= i < chain.len() - 1 implies linked(
            pairs,
            #[trigger] chain[i],
            chain[i + 1],
        ) by {
            assert(has_edge(rows, walk[i], walk[i + 1]));
            lemma_edges_are_links(pairs, keys, rows, walk[i], walk[i + 1]);
        }
        assert(is_chain(pairs, chain));
        assert(chain[0] == keys[u as int] && chain.last() == keys[v as int]);
    }
    if connected(pairs, keys[u as int], keys[v as int]) {
        let chain = choose|chain: Seq<IdKey>| #[trigger]
            is_chain(pairs, chain) && chain[0] == keys[u as int] && chain.last() == keys[v as int];
        assert forall|i: int| 0 <= i < chain.len() implies keys.contains(#[trigger] chain[i]) by {
            if i > 0 {
                assert(linked(pairs, chain[i - 1], chain[i - 1 + 1]));
                let at = choose|at: int|
                    0 <= at < pairs.len() && ((#[trigger] pairs[at]) == (chain[i - 1], chain[i])
                        || pairs[at] == (chain[i], chain[i - 1]));
                assert(pairs[at].0 == chain[i] || pairs[at].1 == chain[i]);
                assert(is_endpoint(pairs, chain[i]));
            }
        }
        let walk = Seq::new(chain.len(), |i: int| keys.index_of(chain[i]) as usize);
        assert forall|i: int| 0 <= i < walk.len() implies (#[trigger] walk[i]) < keys.len()
            && keys[walk[i] as int] == chain[i] by {
            assert(keys.contains(chain[i]));
            let at = keys.index_of(chain[i]);
            assert(0 <= at < keys.len() && keys[at] == chain[i]);
            assert(walk[i] == at as usize);
        }
        assert forall|i: int| 0 <= i < walk.len() - 1 implies has_edge(
            rows,
            #[trigger] walk[i],
            walk[i + 1],
        ) by {
            assert(walk[i + 1] < keys.len() && keys[walk[i + 1] as int] == chain[i + 1]);
            assert(linked(pairs, chain[i], chain[i + 1]));
            lemma_edges_are_links(pairs, keys, rows, walk[i], walk[i + 1]);
        }
        assert(is_walk(rows, walk));
        assert(walk[0] == u);
        assert(walk.last() == v);
    }
}

fn push_neighbour(adj: &mut Vec<Vec<usize>>, u: usize, v: usize)
    requires
        u < old(adj).len(),
    ensures
        final(adj).len() == old(adj).len(),
        final(adj).deep_view() == with_edge(old(adj).deep_view(), u, v),
{
    let ghost before = adj.deep_view();
    adj[u].push(v);
    assert(adj.deep_view() =~~= before.update(u as int, before[u as int].push(v)));
}

/// The graph of a list of pairs.
#[derive(Debug)]
pub struct IdPairGraph {
    id_pair_list: Vec<IdPair>,
    id_nodes: NodeTable,
    adj: Vec<Vec<usize>>,
}

impl IdPairGraph {
    /// The pairs that the graph was made of.
    pub closed spec fn pairs(&self) -> Seq<PairKey> {
        self.id_pair_list.deep_view()
    }

    /// The adjacency lists fit the pairs, over the vertices in the order of discovery.
    #[verifier::type_invariant]
    spec fn lists_fit_pairs(self) -> bool {
        &&& self.id_nodes.wf()
        &&& self.id_nodes@ == discovered(self.pairs())
        &&& adjacency_matches(self.pairs(), self.id_nodes@, self.adj.deep_view())
    }

    /// The graph of `id_pair_list`.
    pub fn new(id_pair_list: Vec<IdPair>) -> (r: Self)
        ensures
            r.pairs() == id_pair_list.deep_view(),
    {
        let ghost pairs = id_pair_list.deep_view();
        let mut table = NodeTable::new();
        let mut adj: Vec<Vec<usize>> = Vec::new();
        let mut done: usize = 0;
        proof {
            assert(pairs.take(0) =~= Seq::<PairKey>::empty());
            assert(adj.deep_view() =~= Seq::<Seq<usize>>::empty());
        }
        while done < id_pair_list.len()
            invariant
                pairs == id_pair_list.deep_view(),
                done <= id_pair_list.len(),
                table.wf(),
                table@ == discovered(pairs.take(done as int)),
                adjacency_matches(pairs.take(done as int), table@, adj.deep_view()),
            decreases id_pair_list.len() - done,
        {
            let pair = &id_pair_list[done];
            let ghost prefix = pairs.take(done as int);
            let ghost keys0 = table@;
            let ghost rows0 = adj.deep_view();
            proof {
                table.lemma_wf();
                lemma_discovered(prefix);
                assert(pairs[done as int] == pair@);
            }
            let a = table.intern(pair.id_node1());
            if a == adj.len() {
                adj.push(Vec::new());
            }
            let ghost keys1 = table@;
            let ghost rows1 = adj.deep_view();
            proof {
                table.lemma_wf();
                lemma_rows_after_intern(prefix, keys0, rows0, pair@.0);
                lemma_with_key(keys0, pair@.0);
                assert(rows1 =~~= with_vertex(rows0, keys0.contains(pair@.0)));
            }
            let b = table.intern(pair.id_node2());
            if b == adj.len() {
                adj.push(Vec::new());
            }
            let ghost keys2 = table@;
            let ghost rows2 = adj.deep_view();
            proof {
                table.lemma_wf();
                lemma_rows_after_intern(prefix, keys1, rows1, pair@.1);
                lemma_with_key(keys1, pair@.1);
                assert(rows2 =~~= with_vertex(rows1, keys1.contains(pair@.1)));
                assert(keys2[a as int] == pair@.0);
            }
            push_neighbour(&mut adj, a, b);
            push_neighbour(&mut adj, b, a);
            proof {
                lemma_rows_after_pair(prefix, keys2, rows2, pair@, a, b);
                lemma_one_more_pair(prefix, pair@, pair@.0);
                assert(pairs.take(done + 1) =~= prefix.push(pair@));
            }
            done += 1;
        }
        proof {
            assert(pairs.take(done as int) =~= pairs);
        }
        IdPairGraph { id_pair_list, id_nodes: table, adj }
    }

    /// The pairs that the graph was made of.
    pub fn id_pair_list(&self) -> (r: &Vec<IdPair>)
        ensures
            r.deep_view() == self.pairs(),
    {
        &self.id_pair_list
    }

    /// The vertices: the identifiers that stand in the pairs, in the order of discovery.
    pub fn id_nodes(&self) -> (r: &Vec<IdNode>)
        ensures
            r.deep_view() == discovered(self.pairs()),
    {
        proof {
            use_type_invariant(self);
        }
        self.id_nodes.nodes()
    }

    /// The adjacency lists, over the numbers of the vertices.
    pub fn adjacency(&self) -> (r: &Vec<Vec<usize>>)
        ensures
            adjacency_matches(self.pairs(), discovered(self.pairs()), r.deep_view()),
    {
        proof {
            use_type_invariant(self);
        }
        &self.adj
    }

    /// The neighbours of `id_in`, in the order of the pairs; none where `id_in` stands in no pair.
    pub fn get_neighbor(&self, id_in: &IdNode) -> (r: Vec<IdNode>)
        ensures
            r.deep_view() == neighbours(self.pairs(), id_in@),
    {
        proof {
            use_type_invariant(self);
            lemma_discovered(self.pairs());
        }
        let mut out: Vec<IdNode> = Vec::new();
        match self.id_nodes.find(id_in) {
            None => {
                proof {
                    lemma_stranger_has_no_neighbours(self.pairs(), id_in@);
                    assert(out.deep_view() =~= Seq::<IdKey>::empty());
                }
            },
            Some(u) => {
                let row = &self.adj[u];
                let ghost names = named(row@, self.id_nodes@);
                proof {
                    assert(self.adj.deep_view()[u as int] =~= row@);
                    assert(out.deep_view() =~= names.take(0));
                }
                let mut k: usize = 0;
                while k < row.len()
                    invariant
                        k <= row.len(),
                        names == named(row@, self.id_nodes@),
                        forall|j: int| 0 <= j < row.len() ==> (#[trigger] row@[j]) < self.id_nodes@.len(),
                        out.deep_view() == names.take(k as int),
                    decreases row.len() - k,
                {
                    let ghost before = out.deep_view();
                    out.push(self.id_nodes.get(row[k]).clone());
                    assert(out.deep_view() =~= before.push(names[k as int]));
                    assert(names.take(k + 1) =~= names.take(k as int).push(names[k as int]));
                    k += 1;
                }
                proof {
                    assert(names.take(k as int) =~= names);
                }
            },
        }
        out
    }
}

} // verus!
