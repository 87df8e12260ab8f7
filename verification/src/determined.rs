//! The grouping of a list of pairs is determined: what is stated of the result of the
//! grouping leaves no choice, neither of the groups nor of any order.

use crate::components::stands_before;
use crate::graph::{connected, discovered, is_endpoint, lemma_discovered, linked, neighbours};
use crate::group::{
    breadth_first, grouped, groups_are_components, in_discovery_order, is_first_link,
    is_partition_of_endpoints, linked_to_earlier,
};
use crate::id_node::IdKey;
use crate::id_pair::PairKey;
use vstd::prelude::*;

verus! {

/// `groups` are the grouping of `pairs`: they part the endpoints of `pairs` by the chains
/// that hold them together, and stand in the order of discovery.
pub open spec fn is_grouping(pairs: Seq<PairKey>, groups: Seq<Seq<IdKey>>) -> bool {
    &&& is_partition_of_endpoints(pairs, groups)
    &&& groups_are_components(pairs, groups)
    &&& in_discovery_order(pairs, groups)
}

/// The group of `right` whose first member is the first member of the group `g` of `left`.
spec fn partner(left: Seq<Seq<IdKey>>, right: Seq<Seq<IdKey>>, g: int) -> int {
    choose|h: int| 0 <= h < right.len() && (#[trigger] right[h])[0] == left[g][0]
}

proof fn lemma_rank(pairs: Seq<PairKey>, key: IdKey)
    requires
        is_endpoint(pairs, key),
    ensures
        0 <= discovered(pairs).index_of(key) < discovered(pairs).len(),
        discovered(pairs)[discovered(pairs).index_of(key)] == key,
{
    lemma_discovered(pairs);
    assert(discovered(pairs).contains(key));
}

/// Two groups of two groupings that share a member have the same members.
proof fn lemma_same_members(
    pairs: Seq<PairKey>,
    left: Seq<Seq<IdKey>>,
    right: Seq<Seq<IdKey>>,
    g: int,
    h: int,
    i: int,
    j: int,
    other: int,
)
    requires
        is_grouping(pairs, left),
        is_grouping(pairs, right),
        0 <= g < left.len(),
        0 <= i < left[g].len(),
        0 <= h < right.len(),
        0 <= j < right[h].len(),
        left[g][i] == right[h][j],
        0 <= other < left[g].len(),
    ensures
        right[h].contains(left[g][other]),
{
    let key = left[g][other];
    assert(is_endpoint(pairs, key));
    assert(grouped(right, key));
    let (h2, j2) = choose|h2: int, j2: int|
        0 <= h2 < right.len() && 0 <= j2 < right[h2].len() && #[trigger] right[h2][j2] == key;
    assert(connected(pairs, left[g][i], left[g][other]));
    assert(connected(pairs, right[h][j], right[h2][j2]));
    assert(h == h2);
    assert(right[h][j2] == key);
}

/// Two groups of two groupings that share a member start with the same member.
proof fn lemma_same_first(
    pairs: Seq<PairKey>,
    left: Seq<Seq<IdKey>>,
    right: Seq<Seq<IdKey>>,
    g: int,
    h: int,
    i: int,
    j: int,
)
    requires
        is_grouping(pairs, left),
        is_grouping(pairs, right),
        0 <= g < left.len(),
        0 <= i < left[g].len(),
        0 <= h < right.len(),
        0 <= j < right[h].len(),
        left[g][i] == right[h][j],
    ensures
        left[g][0] == right[h][0],
{
    let order = discovered(pairs);
    assert(left[g].len() > 0 && right[h].len() > 0);
    lemma_same_members(pairs, left, right, g, h, i, j, 0);
    lemma_same_members(pairs, right, left, h, g, j, i, 0);
    let ja = choose|ja: int| 0 <= ja < right[h].len() && right[h][ja] == left[g][0];
    let ib = choose|ib: int| 0 <= ib < left[g].len() && left[g][ib] == right[h][0];
    assert(order.index_of(left[g][0]) <= order.index_of(left[g][ib]));
    assert(order.index_of(right[h][0]) <= order.index_of(right[h][ja]));
    assert(is_endpoint(pairs, left[g][0]));
    assert(is_endpoint(pairs, right[h][0]));
    lemma_rank(pairs, left[g][0]);
    lemma_rank(pairs, right[h][0]);
}

proof fn lemma_partner(pairs: Seq<PairKey>, left: Seq<Seq<IdKey>>, right: Seq<Seq<IdKey>>, g: int)
    requires
        is_grouping(pairs, left),
        is_grouping(pairs, right),
        0 <= g < left.len(),
    ensures
        0 <= partner(left, right, g) < right.len(),
        right[partner(left, right, g)][0] == left[g][0],
{
    assert(left[g].len() > 0);
    let key = left[g][0];
    assert(is_endpoint(pairs, key));
    assert(grouped(right, key));
    let (h, j) = choose|h: int, j: int|
        0 <= h < right.len() && 0 <= j < right[h].len() && #[trigger] right[h][j] == key;
    lemma_same_first(pairs, left, right, g, h, 0, j);
    assert(0 <= h < right.len() && right[h][0] == left[g][0]);
}

proof fn lemma_partner_rises(
    pairs: Seq<PairKey>,
    left: Seq<Seq<IdKey>>,
    right: Seq<Seq<IdKey>>,
    g1: int,
    g2: int,
)
    requires
        is_grouping(pairs, left),
        is_grouping(pairs, right),
        0 <= g1 < g2 < left.len(),
    ensures
        partner(left, right, g1) < partner(left, right, g2),
{
    let order = discovered(pairs);
    let h1 = partner(left, right, g1);
    let h2 = partner(left, right, g2);
    lemma_partner(pairs, left, right, g1);
    lemma_partner(pairs, left, right, g2);
    assert(order.index_of(left[g1][0]) < order.index_of(left[g2][0]));
    if h2 < h1 {
        assert(order.index_of(right[h2][0]) < order.index_of(right[h1][0]));
    }
}

proof fn lemma_partner_not_before(
    pairs: Seq<PairKey>,
    left: Seq<Seq<IdKey>>,
    right: Seq<Seq<IdKey>>,
    g: int,
)
    requires
        is_grouping(pairs, left),
        is_grouping(pairs, right),
        0 <= g < left.len(),
    ensures
        g <= partner(left, right, g) < right.len(),
    decreases g,
{
    lemma_partner(pairs, left, right, g);
    if g > 0 {
        lemma_partner_not_before(pairs, left, right, g - 1);
        lemma_partner_rises(pairs, left, right, g - 1, g);
    }
}

/// The groups of two groupings start with the same members, in the same order.
proof fn lemma_same_firsts(pairs: Seq<PairKey>, left: Seq<Seq<IdKey>>, right: Seq<Seq<IdKey>>, g: int)
    requires
        is_grouping(pairs, left),
        is_grouping(pairs, right),
        0 <= g < left.len(),
    ensures
        g < right.len(),
        right[g].len() > 0,
        left[g].len() > 0,
        right[g][0] == left[g][0],
{
    let h = partner(left, right, g);
    lemma_partner_not_before(pairs, left, right, g);
    lemma_partner(pairs, left, right, g);
    let back = partner(right, left, h);
    lemma_partner_not_before(pairs, right, left, h);
    lemma_partner(pairs, right, left, h);
    assert(left[back].len() > 0 && left[g].len() > 0);
    assert(left[back][0] == left[g][0]);
    assert(back == g);
}

/// Of two different members of a list, not each stands before the first place of the other.
proof fn lemma_not_both_before(row: Seq<IdKey>, a: IdKey, b: IdKey)
    ensures
        !(stands_before(row, a, b) && stands_before(row, b, a)),
{
    if stands_before(row, a, b) && stands_before(row, b, a) {
        let at = choose|at: int|
            0 <= at < row.len() && #[trigger] row[at] == a && forall|k: int|
                0 <= k <= at ==> #[trigger] row[k] != b;
        let bt = choose|bt: int|
            0 <= bt < row.len() && #[trigger] row[bt] == b && forall|k: int|
                0 <= k <= bt ==> #[trigger] row[k] != a;
        if at <= bt {
            assert(row[at] != a);
        } else {
            assert(row[bt] != b);
        }
    }
}

/// The parent of a member is found among the members before it, so it is the same in two
/// lists that agree up to a position behind which the member stands in both.
proof fn lemma_same_parent(
    pairs: Seq<PairKey>,
    left: Seq<IdKey>,
    right: Seq<IdKey>,
    k: int,
    jl: int,
    il: int,
    jr: int,
    ir: int,
)
    requires
        forall|e: int| 0 <= e < k ==> left[e] == right[e],
        is_first_link(pairs, left, jl, il),
        is_first_link(pairs, right, jr, ir),
        left[il] == right[ir],
        jl < k || jr < k,
    ensures
        jl == jr,
{
    if jl < jr {
        assert(jl < k);
        assert(right[jl] == left[jl]);
        assert(!linked(pairs, right[jl], right[ir]));
    }
    if jr < jl {
        assert(jr < k);
        assert(left[jr] == right[jr]);
        assert(!linked(pairs, left[jr], left[il]));
    }
}

proof fn lemma_same_up_to(pairs: Seq<PairKey>, left: Seq<IdKey>, right: Seq<IdKey>, k: int)
    requires
        left.len() == right.len(),
        left[0] == right[0],
        left.no_duplicates(),
        right.no_duplicates(),
        forall|i: int| 0 <= i < left.len() ==> right.contains(#[trigger] left[i]),
        forall|i: int| 0 <= i < right.len() ==> left.contains(#[trigger] right[i]),
        breadth_first(pairs, left),
        breadth_first(pairs, right),
        0 <= k < left.len(),
    ensures
        forall|e: int| 0 <= e <= k ==> left[e] == right[e],
    decreases k,
{
    if k > 0 {
        lemma_same_up_to(pairs, left, right, k - 1);
        let x = left[k];
        let y = right[k];
        if x != y {
            assert(left.contains(right[k]));
            let m = choose|m: int| 0 <= m < left.len() && left[m] == y;
            if m < k {
                assert(right[m] == left[m]);
            }
            assert(m > k);
            assert(right.contains(left[k]));
            let n = choose|n: int| 0 <= n < right.len() && right[n] == x;
            if n < k {
                assert(left[n] == right[n]);
            }
            assert(n > k);
            assert(linked_to_earlier(pairs, left, k));
            assert(linked_to_earlier(pairs, left, m));
            assert(linked_to_earlier(pairs, right, k));
            assert(linked_to_earlier(pairs, right, n));
            let j = choose|j: int| #[trigger] is_first_link(pairs, left, j, k);
            let jm = choose|jm: int| #[trigger] is_first_link(pairs, left, jm, m);
            let jh = choose|jh: int| #[trigger] is_first_link(pairs, right, jh, k);
            let jn = choose|jn: int| #[trigger] is_first_link(pairs, right, jn, n);
            lemma_same_parent(pairs, left, right, k, jm, m, jh, k);
            lemma_same_parent(pairs, left, right, k, j, k, jn, n);
            assert(j <= jm);
            assert(jh <= jn);
            assert(left[j] == right[j]);
            assert(stands_before(neighbours(pairs, left[j]), x, y));
            assert(stands_before(neighbours(pairs, right[j]), y, x));
            lemma_not_both_before(neighbours(pairs, left[j]), x, y);
        }
    }
}

/// Two lists of the same members that start with the same member and are both in
/// breadth-first order are the same list.
proof fn lemma_same_group(pairs: Seq<PairKey>, left: Seq<IdKey>, right: Seq<IdKey>)
    requires
        left.len() > 0,
        right.len() > 0,
        left[0] == right[0],
        left.no_duplicates(),
        right.no_duplicates(),
        forall|i: int| 0 <= i < left.len() ==> right.contains(#[trigger] left[i]),
        forall|i: int| 0 <= i < right.len() ==> left.contains(#[trigger] right[i]),
        breadth_first(pairs, left),
        breadth_first(pairs, right),
    ensures
        left == right,
{
    assert forall|key: IdKey| left.to_set().contains(key) <==> right.to_set().contains(key) by {
        if left.contains(key) {
            let i = choose|i: int| 0 <= i < left.len() && left[i] == key;
            assert(right.contains(left[i]));
        }
        if right.contains(key) {
            let i = choose|i: int| 0 <= i < right.len() && right[i] == key;
            assert(left.contains(right[i]));
        }
    }
    assert(left.to_set() =~= right.to_set());
    left.unique_seq_to_set();
    right.unique_seq_to_set();
    lemma_same_up_to(pairs, left, right, left.len() - 1);
    assert(left =~= right);
}

/// A list of pairs has one grouping only: two lists of groups of which all holds that is
/// stated of the result of the grouping are the same, group by group and member by member.
pub proof fn lemma_grouping_is_determined(
    pairs: Seq<PairKey>,
    left: Seq<Seq<IdKey>>,
    right: Seq<Seq<IdKey>>,
)
    requires
        is_grouping(pairs, left),
        is_grouping(pairs, right),
    ensures
        left == right,
{
    if left.len() > 0 {
        lemma_same_firsts(pairs, left, right, left.len() - 1);
    }
    if right.len() > 0 {
        lemma_same_firsts(pairs, right, left, right.len() - 1);
    }
    assert(left.len() == right.len());
    assert forall|g: int| 0 <= g < left.len() implies left[g] == right[g] by {
        lemma_same_firsts(pairs, left, right, g);
        let l = left[g];
        let r = right[g];
        assert forall|i: int| 0 <= i < l.len() implies r.contains(#[trigger] l[i]) by {
            lemma_same_members(pairs, left, right, g, g, 0, 0, i);
        }
        assert forall|i: int| 0 <= i < r.len() implies l.contains(#[trigger] r[i]) by {
            lemma_same_members(pairs, right, left, g, g, 0, 0, i);
        }
        assert forall|i: int, j: int| 0 <= i < l.len() && 0 <= j < l.len() && i != j implies l[i]
            != l[j] by {
            if left[g][i] == left[g][j] {
            }
        }
        assert forall|i: int, j: int| 0 <= i < r.len() && 0 <= j < r.len() && i != j implies r[i]
            != r[j] by {
            if right[g][i] == right[g][j] {
            }
        }
        assert(breadth_first(pairs, left[g]));
        assert(breadth_first(pairs, right[g]));
        lemma_same_group(pairs, l, r);
    }
    assert(left =~= right);
}

} // verus!
