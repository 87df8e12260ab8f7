//! A table of identifiers in the order in which they were first seen, each held once.
//!
//! The identifiers are filed under their hash numbers, so that one is found again
//! without reading the whole table.

use crate::id_node::{hash_of, IdKey, IdNode};
use std::collections::HashMap;
use vstd::prelude::*;
use vstd::std_specs::hash::*;

verus! {

broadcast use group_hash_axioms;

/// `keys`, with `key` added at the end where it does not stand in `keys`.
pub open spec fn with_key(keys: Seq<IdKey>, key: IdKey) -> Seq<IdKey> {
    if keys.contains(key) {
        keys
    } else {
        keys.push(key)
    }
}

/// The number `at` stands in the bucket of `key`.
spec fn filed(buckets: Map<u64, Vec<usize>>, key: IdKey, at: int) -> bool {
    &&& buckets.contains_key(hash_of(key))
    &&& exists|k: int| 0 <= k < buckets[hash_of(key)]@.len() && #[trigger] buckets[hash_of(key)]@[k] == at
}

/// Every identifier of `keys` is filed under its hash number, and the buckets hold
/// numbers of identifiers only.
spec fn buckets_fit(buckets: Map<u64, Vec<usize>>, keys: Seq<IdKey>) -> bool {
    &&& forall|i: int| 0 <= i < keys.len() ==> #[trigger] filed(buckets, keys[i], i)
    &&& forall|h: u64, k: int|
        buckets.contains_key(h) && 0 <= k < buckets[h]@.len() ==> (#[trigger] buckets[h]@[k])
            < keys.len()
}

proof fn lemma_file(buckets: Map<u64, Vec<usize>>, keys: Seq<IdKey>, key: IdKey, bucket: Vec<usize>)
    requires
        buckets_fit(buckets, keys),
        keys.len() <= usize::MAX,
        if buckets.contains_key(hash_of(key)) {
            bucket@ == buckets[hash_of(key)]@.push(keys.len() as usize)
        } else {
            bucket@ == seq![keys.len() as usize]
        },
    ensures
        buckets_fit(buckets.insert(hash_of(key), bucket), keys.push(key)),
{
    let h = hash_of(key);
    let last = keys.len() as int;
    let filled = buckets.insert(h, bucket);
    let more = keys.push(key);
    assert forall|i: int| 0 <= i < more.len() implies #[trigger] filed(filled, more[i], i) by {
        if i < last {
            assert(filed(buckets, keys[i], i));
            let k = choose|k: int|
                0 <= k < buckets[hash_of(keys[i])]@.len() && #[trigger] buckets[hash_of(
                    keys[i],
                )]@[k] == i;
            if hash_of(keys[i]) == h {
                assert(bucket@[k] == i);
            } else {
                assert(filled[hash_of(keys[i])]@[k] == i);
            }
        } else {
            assert(bucket@[bucket@.len() - 1] == last);
        }
    }
    assert forall|g: u64, k: int| filled.contains_key(g) && 0 <= k < filled[g]@.len() implies (
    #[trigger] filled[g]@[k]) < more.len() by {
        if g == h {
            if buckets.contains_key(h) && k < buckets[h]@.len() {
                assert(buckets[h]@[k] < keys.len());
            }
        } else {
            assert(buckets[g]@[k] < keys.len());
        }
    }
}

/// Identifiers numbered in the order in which they were added, none of them twice.
#[derive(Debug)]
pub struct NodeTable {
    nodes: Vec<IdNode>,
    buckets: HashMap<u64, Vec<usize>>,
}

impl View for NodeTable {
    type V = Seq<IdKey>;

    closed spec fn view(&self) -> Seq<IdKey> {
        Seq::new(self.nodes@.len(), |i: int| self.nodes@[i]@)
    }
}

impl NodeTable {
    /// No identifier stands twice in the table, and each is filed under its hash number.
    pub closed spec fn wf(&self) -> bool {
        &&& self@.no_duplicates()
        &&& buckets_fit(self.buckets@, self@)
    }

    /// What it means that a table is well formed.
    pub proof fn lemma_wf(self)
        requires
            self.wf(),
        ensures
            self@.no_duplicates(),
    {
    }

    /// The empty table.
    pub fn new() -> (r: Self)
        ensures
            r.wf(),
            r@ == Seq::<IdKey>::empty(),
    {
        let r = NodeTable { nodes: Vec::new(), buckets: HashMap::new() };
        assert(r@ =~= Seq::<IdKey>::empty());
        r
    }

    /// The number of identifiers in the table.
    pub fn len(&self) -> (r: usize)
        ensures
            r == self@.len(),
    {
        self.nodes.len()
    }

    /// The identifier with the number `at`.
    pub fn get(&self, at: usize) -> (r: &IdNode)
        requires
            at < self@.len(),
        ensures
            r@ == self@[at as int],
    {
        &self.nodes[at]
    }

    /// The identifiers of the table, in order.
    pub fn nodes(&self) -> (r: &Vec<IdNode>)
        ensures
            r.deep_view() == self@,
    {
        assert(self.nodes.deep_view() =~= self@);
        &self.nodes
    }

    /// The number of `id` in the table, if it has one.
    pub fn find(&self, id: &IdNode) -> (r: Option<usize>)
        requires
            self.wf(),
        ensures
            match r {
                Some(at) => at < self@.len() && self@[at as int] == id@,
                None => !self@.contains(id@),
            },
    {
        let h = id.hash_code();
        match self.buckets.get(&h) {
            None => {
                assert forall|i: int| 0 <= i < self@.len() implies self@[i] != id@ by {
                    assert(filed(self.buckets@, self@[i], i));
                }
                None
            },
            Some(bucket) => {
                let mut k: usize = 0;
                while k < bucket.len()
                    invariant
                        k <= bucket.len(),
                        self.wf(),
                        self.buckets@.contains_key(h),
                        bucket@ == self.buckets@[h]@,
                        forall|j: int| 0 <= j < k ==> self@[(#[trigger] bucket@[j]) as int] != id@,
                    decreases bucket.len() - k,
                {
                    let at = bucket[k];
                    assert(self.buckets@[h]@[k as int] < self@.len());
                    if self.nodes[at].eq(id) {
                        return Some(at);
                    }
                    k += 1;
                }
                assert forall|i: int| 0 <= i < self@.len() implies self@[i] != id@ by {
                    assert(filed(self.buckets@, self@[i], i));
                }
                None
            },
        }
    }

    /// The number of `id` in the table; `id` is added at the end where it had none.
    pub fn intern(&mut self, id: &IdNode) -> (at: usize)
        requires
            old(self).wf(),
        ensures
            final(self).wf(),
            final(self)@ == with_key(old(self)@, id@),
            at < final(self)@.len(),
            final(self)@[at as int] == id@,
            old(self)@.contains(id@) <==> at < old(self)@.len(),
    {
        match self.find(id) {
            Some(at) => at,
            None => {
                let at = self.nodes.len();
                let ghost keys = self@;
                let ghost filled = self.buckets@;
                let h = id.hash_code();
                let mut bucket = match self.buckets.remove(&h) {
                    Some(bucket) => bucket,
                    None => Vec::new(),
                };
                bucket.push(at);
                self.nodes.push(id.clone());
                proof {
                    assert(self@ =~= keys.push(id@));
                    lemma_file(filled, keys, id@, bucket);
                    assert(self.buckets@.insert(h, bucket) =~= filled.insert(h, bucket));
                }
                self.buckets.insert(h, bucket);
                at
            },
        }
    }
}

} // verus!
