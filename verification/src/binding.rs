//! The values that are handed to a caller in another language: an identifier, a pair,
//! and the grouping of a list of pairs. Each wraps the value of the library that it names.

use crate::error::{MalformedIdentifier, MalformedPair};
use crate::group::{
    group_id_pairs_core, groups_are_components, in_discovery_order, is_partition_of_endpoints,
};
use crate::id_node::{canonical_id, parse_id, IdKey, IdNode};
use crate::id_pair::{canonical_pair, parse_pair, IdPair, PairKey};
use vstd::prelude::*;

verus! {

/// An identifier, as a caller in another language holds it.
#[derive(Debug, Hash)]
pub struct PyIdNode {
    inner: IdNode,
}

impl View for PyIdNode {
    type V = IdKey;

    closed spec fn view(&self) -> IdKey {
        self.inner@
    }
}

impl DeepView for PyIdNode {
    type V = IdKey;

    open spec fn deep_view(&self) -> IdKey {
        self@
    }
}

impl Clone for PyIdNode {
    fn clone(&self) -> (r: Self)
        ensures
            r@ == self@,
    {
        PyIdNode { inner: self.inner.clone() }
    }
}

impl PartialEq for PyIdNode {
    fn eq(&self, other: &Self) -> (r: bool) {
        self.inner.eq(&other.inner)
    }
}

impl vstd::std_specs::cmp::PartialEqSpecImpl for PyIdNode {
    open spec fn obeys_eq_spec() -> bool {
        true
    }

    open spec fn eq_spec(&self, other: &Self) -> bool {
        self@ == other@
    }
}

impl Eq for PyIdNode {

}

impl PyIdNode {
    /// The identifier with the given type and name.
    pub fn new(id_type: String, id_name: String) -> (r: Self)
        ensures
            r@ == (id_type@, id_name@),
    {
        PyIdNode { inner: IdNode::new(id_type, id_name) }
    }

    /// Reads an identifier from its canonical text.
    pub fn from_string(id_str: &str) -> (r: Result<PyIdNode, MalformedIdentifier>)
        ensures
            match r {
                Ok(node) => parse_id(id_str@) == Some(node@),
                Err(_) => parse_id(id_str@) is None,
            },
    {
        match IdNode::parse(id_str) {
            Ok(inner) => Ok(PyIdNode { inner }),
            Err(e) => Err(e),
        }
    }

    /// The identifier of the library that this value wraps.
    pub fn from_node(inner: IdNode) -> (r: Self)
        ensures
            r@ == inner@,
    {
        PyIdNode { inner }
    }

    /// The identifier of the library that this value wraps.
    pub fn into_node(self) -> (r: IdNode)
        ensures
            r@ == self@,
    {
        self.inner
    }

    /// The name.
    pub fn id_name(&self) -> (r: &str)
        ensures
            r@ == self@.1,
    {
        self.inner.get_id_name()
    }

    /// The type.
    pub fn id_type(&self) -> (r: &str)
        ensures
            r@ == self@.0,
    {
        self.inner.get_id_type()
    }

    /// The canonical text: type, `"::"`, name.
    pub fn as_string(&self) -> (r: String)
        ensures
            r@ == canonical_id(self@),
    {
        self.inner.to_string()
    }

    /// Replaces the name. The identifier then stands for another entity.
    pub fn set_id_name(&mut self, id_name: String)
        ensures
            final(self)@ == (old(self)@.0, id_name@),
    {
        self.inner.set_id_name(id_name);
    }

    /// Replaces the type. The identifier then stands for another entity.
    pub fn set_id_type(&mut self, id_type: String)
        ensures
            final(self)@ == (id_type@, old(self)@.1),
    {
        self.inner.set_id_type(id_type);
    }
}

/// A pair, as a caller in another language holds it.
#[derive(Debug)]
pub struct PyIdPair {
    inner: IdPair,
}

impl View for PyIdPair {
    type V = PairKey;

    closed spec fn view(&self) -> PairKey {
        self.inner@
    }
}

impl DeepView for PyIdPair {
    type V = PairKey;

    open spec fn deep_view(&self) -> PairKey {
        self@
    }
}

impl Clone for PyIdPair {
    fn clone(&self) -> (r: Self)
        ensures
            r@ == self@,
    {
        PyIdPair { inner: self.inner.clone() }
    }
}

impl PyIdPair {
    /// The pair of `id_node1` and `id_node2`, which are copied.
    pub fn new(id_node1: &PyIdNode, id_node2: &PyIdNode) -> (r: Self)
        ensures
            r@ == (id_node1@, id_node2@),
    {
        PyIdPair { inner: IdPair::create(id_node1.inner.clone(), id_node2.inner.clone()) }
    }

    /// Reads a pair from its canonical text.
    pub fn from_string(id_pair_str: &str) -> (r: Result<PyIdPair, MalformedPair>)
        ensures
            match r {
                Ok(pair) => parse_pair(id_pair_str@) == Ok::<PairKey, MalformedPair>(pair@),
                Err(e) => parse_pair(id_pair_str@) == Err::<PairKey, MalformedPair>(e),
            },
    {
        match IdPair::parse(id_pair_str) {
            Ok(inner) => Ok(PyIdPair { inner }),
            Err(e) => Err(e),
        }
    }

    /// The pair of the library that this value wraps.
    pub fn from_pair(inner: IdPair) -> (r: Self)
        ensures
            r@ == inner@,
    {
        PyIdPair { inner }
    }

    /// The pair of the library that this value wraps.
    pub fn into_pair(self) -> (r: IdPair)
        ensures
            r@ == self@,
    {
        self.inner
    }

    /// The canonical text: first identifier, `"$"`, second identifier.
    pub fn as_string(&self) -> (r: String)
        ensures
            r@ == canonical_pair(self@),
    {
        self.inner.to_pair_string()
    }

    /// A copy of the first endpoint.
    pub fn node1(&self) -> (r: PyIdNode)
        ensures
            r@ == self@.0,
    {
        PyIdNode { inner: self.inner.id_node1().clone() }
    }

    /// A copy of the second endpoint.
    pub fn node2(&self) -> (r: PyIdNode)
        ensures
            r@ == self@.1,
    {
        PyIdNode { inner: self.inner.id_node2().clone() }
    }
}

fn unwrap_pairs(id_pairs: Vec<PyIdPair>) -> (pairs: Vec<IdPair>)
    ensures
        pairs.deep_view() == id_pairs.deep_view(),
{
    let ghost wrapped = id_pairs@;
    let ghost all = id_pairs.deep_view();
    let mut pairs: Vec<IdPair> = Vec::new();
    proof {
        assert(pairs.deep_view() =~= all.take(0));
    }
    for pair in it: id_pairs.into_iter()
        invariant
            it.seq() == wrapped,
            all.len() == wrapped.len(),
            forall|i: int| 0 <= i < wrapped.len() ==> all[i] == (#[trigger] wrapped[i])@,
            pairs.deep_view() == all.take(it.index() as int),
    {
        let ghost taken = pairs.deep_view();
        pairs.push(pair.inner);
        proof {
            assert(pairs.deep_view() =~= taken.push(all[it.index() as int]));
            assert(all.take(it.index() + 1) =~= all.take(it.index() as int).push(
                all[it.index() as int],
            ));
        }
    }
    proof {
        assert(all.take(all.len() as int) =~= all);
    }
    pairs
}

fn wrap_group(group: &Vec<IdNode>) -> (r: Vec<PyIdNode>)
    ensures
        r.deep_view() == group.deep_view(),
{
    let mut out: Vec<PyIdNode> = Vec::new();
    let mut i: usize = 0;
    proof {
        assert(out.deep_view() =~= group.deep_view().take(0));
    }
    while i < group.len()
        invariant
            i <= group.len(),
            out.deep_view() == group.deep_view().take(i as int),
        decreases group.len() - i,
    {
        let ghost taken = out.deep_view();
        out.push(PyIdNode { inner: group[i].clone() });
        proof {
            assert(out.deep_view() =~= taken.push(group.deep_view()[i as int]));
            assert(group.deep_view().take(i + 1) =~= group.deep_view().take(i as int).push(
                group.deep_view()[i as int],
            ));
        }
        i += 1;
    }
    proof {
        assert(group.deep_view().take(i as int) =~= group.deep_view());
    }
    out
}

/// Groups the identifiers of `id_pairs`: two identifiers fall into the same group exactly
/// if a chain of pairs leads from one to the other.
pub fn group_id_pairs(id_pairs: Vec<PyIdPair>) -> (groups: Vec<Vec<PyIdNode>>)
    ensures
        is_partition_of_endpoints(id_pairs.deep_view(), groups.deep_view()),
        groups_are_components(id_pairs.deep_view(), groups.deep_view()),
        in_discovery_order(id_pairs.deep_view(), groups.deep_view()),
        id_pairs.len() == 0 ==> groups.len() == 0,
{
    let ghost all = id_pairs.deep_view();
    let pairs = unwrap_pairs(id_pairs);
    assert(pairs.len() == all.len());
    let found = group_id_pairs_core(pairs);
    let mut groups: Vec<Vec<PyIdNode>> = Vec::new();
    let mut g: usize = 0;
    proof {
        assert(groups.deep_view() =~= found.deep_view().take(0));
    }
    while g < found.len()
        invariant
            g <= found.len(),
            groups.deep_view() == found.deep_view().take(g as int),
        decreases found.len() - g,
    {
        let ghost taken = groups.deep_view();
        let group = wrap_group(&found[g]);
        groups.push(group);
        proof {
            assert(groups.deep_view() =~= taken.push(found.deep_view()[g as int]));
            assert(found.deep_view().take(g + 1) =~= found.deep_view().take(g as int).push(
                found.deep_view()[g as int],
            ));
        }
        g += 1;
    }
    proof {
        assert(found.deep_view().take(g as int) =~= found.deep_view());
        assert(groups.len() == groups.deep_view().len());
    }
    groups
}

} // verus!
