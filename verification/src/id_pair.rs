//! Pairs: an unordered relation between two identifiers.

use crate::error::{MalformedIdentifier, MalformedPair};
use crate::id_node::{
    canonical_id, id_separator, lemma_parse_canonical_id, parse_id, splits_after, IdKey, IdNode,
};
use crate::text::{first_at, lemma_first_is_unique, occurs_at, split_at_first, split_first};
use vstd::pervasive::unreached;
use vstd::prelude::*;
use vstd::string::*;

verus! {

/// What a pair stands for: its first endpoint, then its second.
pub type PairKey = (IdKey, IdKey);

/// The separator between the two identifiers in the canonical text: `"$"`.
pub open spec fn pair_separator() -> Seq<char> {
    seq!['$']
}

/// The endpoints of a pair as a set: of one member where both endpoints are the same.
pub open spec fn endpoints(pair: PairKey) -> Set<IdKey> {
    set![pair.0, pair.1]
}

/// Two pairs are the same pair where they have the same endpoints, in whatever order.
pub open spec fn same_pair(left: PairKey, right: PairKey) -> bool {
    endpoints(left) == endpoints(right)
}

/// The endpoint of `pair` that lies opposite to its endpoint `id`.
pub open spec fn other_endpoint(pair: PairKey, id: IdKey) -> IdKey {
    if id == pair.0 {
        pair.1
    } else {
        pair.0
    }
}

/// The canonical text of a pair: first identifier, `"$"`, second identifier.
pub open spec fn canonical_pair(pair: PairKey) -> Seq<char> {
    canonical_id(pair.0) + pair_separator() + canonical_id(pair.1)
}

/// The pair that a text denotes: the text is split at its first `"$"`, and each half is
/// read as an identifier, the first half first.
pub open spec fn parse_pair(text: Seq<char>) -> Result<PairKey, MalformedPair> {
    match split_first(text, pair_separator()) {
        None => Err(MalformedPair::MissingSeparator),
        Some((head, tail)) => match parse_id(head) {
            None => Err(MalformedPair::First(MalformedIdentifier)),
            Some(first) => match parse_id(tail) {
                None => Err(MalformedPair::Second(MalformedIdentifier)),
                Some(second) => Ok((first, second)),
            },
        },
    }
}

/// The identifiers that stand in `set`.
pub open spec fn members(set: Seq<IdNode>) -> Set<IdKey> {
    Set::new(|key: IdKey| exists|i: int| 0 <= i < set.len() && (#[trigger] set[i])@ == key)
}

fn holds(set: &Vec<IdNode>, id: &IdNode) -> (r: bool)
    ensures
        r == members(set@).contains(id@),
{
    let mut i: usize = 0;
    while i < set.len()
        invariant
            i <= set.len(),
            forall|j: int| 0 <= j < i ==> (#[trigger] set@[j])@ != id@,
        decreases set.len() - i,
    {
        if set[i].eq(id) {
            return true;
        }
        i += 1;
    }
    false
}

fn includes(set: &Vec<IdNode>, part: &Vec<IdNode>) -> (r: bool)
    ensures
        r == members(part@).subset_of(members(set@)),
{
    let mut i: usize = 0;
    while i < part.len()
        invariant
            i <= part.len(),
            forall|j: int| 0 <= j < i ==> members(set@).contains((#[trigger] part@[j])@),
        decreases part.len() - i,
    {
        if !holds(set, &part[i]) {
            assert(members(part@).contains(part@[i as int]@));
            return false;
        }
        i += 1;
    }
    true
}

/// An unordered pair of identifiers.
#[derive(Debug)]
pub struct IdPair {
    id_node1: IdNode,
    id_node2: IdNode,
    id_set: Vec<IdNode>,
}

impl View for IdPair {
    type V = PairKey;

    closed spec fn view(&self) -> PairKey {
        (self.id_node1@, self.id_node2@)
    }
}

impl DeepView for IdPair {
    type V = PairKey;

    open spec fn deep_view(&self) -> PairKey {
        self@
    }
}

impl Clone for IdPair {
    fn clone(&self) -> (r: Self)
        ensures
            r@ == self@,
    {
        IdPair::create(self.id_node1.clone(), self.id_node2.clone())
    }
}

impl PartialEq for IdPair {
    fn eq(&self, other: &Self) -> (r: bool) {
        proof {
            use_type_invariant(self);
            use_type_invariant(other);
            self.lemma_set_holds_endpoints();
            other.lemma_set_holds_endpoints();
        }
        let r = includes(&self.id_set, &other.id_set) && includes(&other.id_set, &self.id_set);
        proof {
            if r {
                assert(members(self.id_set@) =~= members(other.id_set@));
            }
        }
        r
    }
}

impl vstd::std_specs::cmp::PartialEqSpecImpl for IdPair {
    open spec fn obeys_eq_spec() -> bool {
        true
    }

    open spec fn eq_spec(&self, other: &Self) -> bool {
        same_pair(self@, other@)
    }
}

impl Eq for IdPair {

}

impl IdPair {
    /// The set of endpoints is taken when the pair is made: it holds the first endpoint,
    /// and the second where it is another identifier.
    #[verifier::type_invariant]
    spec fn set_is_derived(self) -> bool {
        &&& self.id_set@.len() >= 1
        &&& self.id_set@[0]@ == self.id_node1@
        &&& if self.id_node1@ == self.id_node2@ {
            self.id_set@.len() == 1
        } else {
            self.id_set@.len() == 2 && self.id_set@[1]@ == self.id_node2@
        }
    }

    proof fn lemma_set_holds_endpoints(self)
        requires
            self.set_is_derived(),
        ensures
            members(self.id_set@) == endpoints(self@),
    {
        let set = self.id_set@;
        assert forall|key: IdKey| members(set).contains(key) <==> endpoints(self@).contains(key) by {
            if key == self.id_node1@ {
                assert(set[0]@ == key);
            } else if key == self.id_node2@ {
                assert(set[1]@ == key);
            }
        }
        assert(members(set) =~= endpoints(self@));
    }

    /// The pair of `id_node1` and `id_node2`.
    pub fn create(id_node1: IdNode, id_node2: IdNode) -> (r: Self)
        ensures
            r@ == (id_node1@, id_node2@),
    {
        let mut id_set: Vec<IdNode> = Vec::new();
        id_set.push(id_node1.clone());
        if !id_node1.eq(&id_node2) {
            id_set.push(id_node2.clone());
        }
        IdPair { id_node1, id_node2, id_set }
    }

    /// The first endpoint.
    pub fn id_node1(&self) -> (r: &IdNode)
        ensures
            r@ == self@.0,
    {
        &self.id_node1
    }

    /// The second endpoint.
    pub fn id_node2(&self) -> (r: &IdNode)
        ensures
            r@ == self@.1,
    {
        &self.id_node2
    }

    /// Whether `id_in` is an endpoint of the pair.
    pub fn check_node_in_pair(&self, id_in: &IdNode) -> (r: bool)
        ensures
            r == endpoints(self@).contains(id_in@),
    {
        proof {
            use_type_invariant(self);
            self.lemma_set_holds_endpoints();
        }
        holds(&self.id_set, id_in)
    }

    /// The endpoint opposite to `id_in`, which must be an endpoint of the pair.
    pub fn get_next_node(&self, id_in: &IdNode) -> (r: &IdNode)
        requires
            endpoints(self@).contains(id_in@),
        ensures
            r@ == other_endpoint(self@, id_in@),
    {
        if id_in.eq(&self.id_node1) {
            &self.id_node2
        } else if id_in.eq(&self.id_node2) {
            &self.id_node1
        } else {
            unreached()
        }
    }

    /// The canonical text: first identifier, `"$"`, second identifier.
    pub fn to_pair_string(&self) -> (r: String)
        ensures
            r@ == canonical_pair(self@),
    {
        proof {
            reveal_strlit("$");
            assert("$"@ =~= pair_separator());
        }
        let mut out = self.id_node1.to_string();
        out.append("$");
        let second = self.id_node2.to_string();
        out.append(second.as_str());
        out
    }

    /// Reads a pair from its canonical text.
    pub fn parse(id_pair_str: &str) -> (r: Result<IdPair, MalformedPair>)
        ensures
            match r {
                Ok(pair) => parse_pair(id_pair_str@) == Ok::<PairKey, MalformedPair>(pair@),
                Err(e) => parse_pair(id_pair_str@) == Err::<PairKey, MalformedPair>(e),
            },
    {
        proof {
            reveal_strlit("$");
            assert("$"@ =~= pair_separator());
        }
        match split_at_first(id_pair_str, "$") {
            None => Err(MalformedPair::MissingSeparator),
            Some((head, tail)) => match IdNode::parse(head.as_str()) {
                Err(e) => Err(MalformedPair::First(e)),
                Ok(id_node1) => match IdNode::parse(tail.as_str()) {
                    Err(e) => Err(MalformedPair::Second(e)),
                    Ok(id_node2) => Ok(IdPair::create(id_node1, id_node2)),
                },
            },
        }
    }
}

/// Reading the canonical text of a pair gives the pair back, endpoint by endpoint, where
/// the first identifier holds no `'$'` and both types hold no `"::"` and do not end in `':'`.
pub proof fn lemma_parse_canonical_pair(pair: PairKey)
    requires
        splits_after(pair.0.0),
        splits_after(pair.1.0),
        !pair.0.0.contains('$'),
        !pair.0.1.contains('$'),
    ensures
        parse_pair(canonical_pair(pair)) == Ok::<PairKey, MalformedPair>(pair),
{
    let sep = pair_separator();
    let head = canonical_id(pair.0);
    let tail = canonical_id(pair.1);
    let text = canonical_pair(pair);
    let m = head.len() as int;
    let n = pair.0.0.len() as int;
    assert(sep[0] == '$');
    assert(id_separator()[0] == ':' && id_separator()[1] == ':');
    assert(occurs_at(text, sep, m)) by {
        assert forall|k: int| 0 <= k < sep.len() implies text[m + k] == #[trigger] sep[k] by {}
    }
    assert forall|j: int| 0 <= j < m implies !occurs_at(text, sep, j) by {
        if occurs_at(text, sep, j) {
            assert(text[j + 0] == sep[0]);
            assert(text[j] == head[j]);
            if j < n {
                assert(head[j] == pair.0.0[j]);
                assert(pair.0.0.contains('$'));
            } else if j < n + 2 {
                assert(head[j] == id_separator()[j - n]);
            } else {
                assert(head[j] == pair.0.1[j - n - 2]);
                assert(pair.0.1.contains('$'));
            }
        }
    }
    assert(first_at(text, sep, m));
    lemma_first_is_unique(text, sep, m);
    assert(text.subrange(0, m) =~= head);
    assert(text.subrange(m + sep.len(), text.len() as int) =~= tail);
    lemma_parse_canonical_id(pair.0);
    lemma_parse_canonical_id(pair.1);
}

/// Reading the canonical text of the reversal of a pair gives the same pair, where the
/// second identifier holds no `'$'` and both types hold no `"::"` and do not end in `':'`.
pub proof fn lemma_parse_canonical_reversed(pair: PairKey)
    requires
        splits_after(pair.0.0),
        splits_after(pair.1.0),
        !pair.1.0.contains('$'),
        !pair.1.1.contains('$'),
    ensures
        parse_pair(canonical_pair((pair.1, pair.0))) is Ok,
        same_pair(parse_pair(canonical_pair((pair.1, pair.0)))->Ok_0, pair),
{
    lemma_parse_canonical_pair((pair.1, pair.0));
    lemma_pair_is_unordered(pair.0, pair.1, pair.0);
}

/// A pair is the same pair as its reversal; it holds its two endpoints and no third identifier.
pub proof fn lemma_pair_is_unordered(a: IdKey, b: IdKey, c: IdKey)
    ensures
        same_pair((a, b), (b, a)),
        endpoints((a, b)).contains(a),
        endpoints((a, b)).contains(b),
        c != a && c != b ==> !endpoints((a, b)).contains(c),
{
    assert(endpoints((a, b)) =~= endpoints((b, a)));
}

/// Two pairs are the same pair exactly if their endpoints agree, straight or crossed.
pub proof fn lemma_same_pair(left: PairKey, right: PairKey)
    ensures
        same_pair(left, right) <==> (left.0 == right.0 && left.1 == right.1) || (left.0 == right.1
            && left.1 == right.0),
{
    if same_pair(left, right) {
        assert(endpoints(left).contains(left.0));
        assert(endpoints(left).contains(left.1));
        assert(endpoints(right).contains(right.0));
        assert(endpoints(right).contains(right.1));
    } else {
        if (left.0 == right.0 && left.1 == right.1) || (left.0 == right.1 && left.1 == right.0) {
            assert(endpoints(left) =~= endpoints(right));
        }
    }
}

/// Of a pair of two different identifiers, each endpoint lies opposite to the other; of
/// a pair of one identifier with itself, the identifier lies opposite to itself.
pub proof fn lemma_other_endpoint(a: IdKey, b: IdKey)
    ensures
        a != b ==> other_endpoint((a, b), a) == b && other_endpoint((a, b), b) == a,
        other_endpoint((a, a), a) == a,
        endpoints((a, b)).contains(other_endpoint((a, b), a)),
        endpoints((a, b)).contains(other_endpoint((a, b), b)),
{
}

} // verus!
