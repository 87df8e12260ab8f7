//! Identifiers: an entity named by its type and its name.

use crate::error::MalformedIdentifier;
use crate::text::{
    first_at, first_occurrence, has_occurrence, lemma_first_exists, lemma_first_is_unique, occurs_at,
    split_at_first, split_first,
};
use std::collections::hash_map::DefaultHasher;
use std::hash::Hasher;
use vstd::prelude::*;
use vstd::std_specs::hash::*;
use vstd::string::*;
use vstd::utf8::encode_utf8;

verus! {

/// What an identifier stands for: its type, then its name.
pub type IdKey = (Seq<char>, Seq<char>);

/// The separator between type and name in the canonical text: `"::"`.
pub open spec fn id_separator() -> Seq<char> {
    seq![':', ':']
}

/// The identifier that a text denotes: the text is split at its first `"::"`,
/// the type stands before it and the name after it. `None` where the text holds no `"::"`.
pub open spec fn parse_id(text: Seq<char>) -> Option<IdKey> {
    split_first(text, id_separator())
}

/// The canonical text of an identifier: type, `"::"`, name.
pub open spec fn canonical_id(key: IdKey) -> Seq<char> {
    key.0 + id_separator() + key.1
}

/// The number under which a table files an identifier: equal identifiers have the same.
pub closed spec fn hash_of(key: IdKey) -> u64 {
    DefaultHasher::spec_finish(seq![encode_utf8(key.0), encode_utf8("::"@), encode_utf8(key.1)])
}

/// A type after which the canonical text is split again: it holds no `"::"` and does not
/// end in `':'`.
pub open spec fn splits_after(id_type: Seq<char>) -> bool {
    &&& !has_occurrence(id_type, id_separator())
    &&& id_type.len() > 0 ==> id_type.last() != ':'
}

/// Reading the canonical text of an identifier gives the identifier back exactly if the
/// first `"::"` of the text is the one that was put between type and name: if the type
/// holds no `"::"` and does not end in `':'`. The name may hold anything.
pub proof fn lemma_parse_canonical_id(key: IdKey)
    ensures
        parse_id(canonical_id(key)) == Some(key) <==> splits_after(key.0),
{
    let sep = id_separator();
    let text = canonical_id(key);
    let n = key.0.len() as int;
    assert(sep[0] == ':' && sep[1] == ':');
    assert(occurs_at(text, sep, n)) by {
        assert forall|k: int| 0 <= k < sep.len() implies text[n + k] == #[trigger] sep[k] by {}
    }
    if splits_after(key.0) {
        assert forall|j: int| 0 <= j < n implies !occurs_at(text, sep, j) by {
            if occurs_at(text, sep, j) {
                assert(text[j + 0] == sep[0]);
                assert(text[j + 1] == sep[1]);
                if j + 1 < n {
                    assert forall|k: int| 0 <= k < sep.len() implies key.0[j + k] == #[trigger] sep[k] by {
                        assert(key.0[j + k] == text[j + k]);
                    }
                    assert(occurs_at(key.0, sep, j));
                } else {
                    assert(key.0.last() == text[j]);
                }
            }
        }
        assert(first_at(text, sep, n));
        lemma_first_is_unique(text, sep, n);
        assert(text.subrange(0, n) =~= key.0);
        assert(text.subrange(n + sep.len(), text.len() as int) =~= key.1);
    }
    if parse_id(text) == Some(key) {
        lemma_first_exists(text, sep);
        let first = first_occurrence(text, sep);
        assert(occurs_at(text, sep, first));
        assert(text.subrange(0, first) == key.0);
        assert(text.subrange(0, first).len() == first);
        assert(first == n);
        if has_occurrence(key.0, sep) {
            let j = choose|j: int| occurs_at(key.0, sep, j);
            assert forall|k: int| 0 <= k < sep.len() implies text[j + k] == #[trigger] sep[k] by {
                assert(key.0[j + k] == text[j + k]);
            }
            assert(occurs_at(text, sep, j));
        }
        if key.0.len() > 0 && key.0.last() == ':' {
            assert forall|k: int| 0 <= k < sep.len() implies text[n - 1 + k] == #[trigger] sep[k] by {
                if k == 0 {
                    assert(text[n - 1] == key.0.last());
                } else {
                    assert(text[n] == sep[0]);
                }
            }
            assert(occurs_at(text, sep, n - 1));
        }
    }
}

/// An identifier of an entity, made of a type and a name.
#[derive(Debug, Hash)]
pub struct IdNode {
    id_name: String,
    id_type: String,
}

impl View for IdNode {
    type V = IdKey;

    closed spec fn view(&self) -> IdKey {
        (self.id_type@, self.id_name@)
    }
}

impl DeepView for IdNode {
    type V = IdKey;

    open spec fn deep_view(&self) -> IdKey {
        self@
    }
}

impl Clone for IdNode {
    fn clone(&self) -> (r: Self)
        ensures
            r@ == self@,
    {
        IdNode { id_name: self.id_name.clone(), id_type: self.id_type.clone() }
    }
}

impl PartialEq for IdNode {
    fn eq(&self, other: &Self) -> (r: bool) {
        self.id_type == other.id_type && self.id_name == other.id_name
    }
}

impl vstd::std_specs::cmp::PartialEqSpecImpl for IdNode {
    open spec fn obeys_eq_spec() -> bool {
        true
    }

    open spec fn eq_spec(&self, other: &Self) -> bool {
        self@ == other@
    }
}

impl Eq for IdNode {

}

impl IdNode {
    /// The identifier with the given type and name.
    pub fn new(id_type: String, id_name: String) -> (r: Self)
        ensures
            r@ == (id_type@, id_name@),
    {
        IdNode { id_name, id_type }
    }

    /// Reads an identifier from its canonical text.
    pub fn parse(id_str: &str) -> (r: Result<IdNode, MalformedIdentifier>)
        ensures
            match r {
                Ok(node) => parse_id(id_str@) == Some(node@),
                Err(_) => parse_id(id_str@) is None,
            },
    {
        proof {
            reveal_strlit("::");
            assert("::"@ =~= id_separator());
        }
        match split_at_first(id_str, "::") {
            Some((id_type, id_name)) => Ok(IdNode { id_name, id_type }),
            None => Err(MalformedIdentifier),
        }
    }

    /// The name.
    pub fn get_id_name(&self) -> (r: &str)
        ensures
            r@ == self@.1,
    {
        self.id_name.as_str()
    }

    /// The type.
    pub fn get_id_type(&self) -> (r: &str)
        ensures
            r@ == self@.0,
    {
        self.id_type.as_str()
    }

    /// Replaces the name. The identifier then stands for another entity.
    pub fn set_id_name(&mut self, id_name: String)
        ensures
            final(self)@ == (old(self)@.0, id_name@),
    {
        self.id_name = id_name;
    }

    /// Replaces the type. The identifier then stands for another entity.
    pub fn set_id_type(&mut self, id_type: String)
        ensures
            final(self)@ == (id_type@, old(self)@.1),
    {
        self.id_type = id_type;
    }

    /// The number under which a table files the identifier.
    pub fn hash_code(&self) -> (r: u64)
        ensures
            r == hash_of(self@),
    {
        let mut hasher = DefaultHasher::new();
        hasher.write(self.id_type.as_str().as_bytes());
        hasher.write("::".as_bytes());
        hasher.write(self.id_name.as_str().as_bytes());
        assert(hasher@ =~= seq![
            encode_utf8(self.id_type@),
            encode_utf8("::"@),
            encode_utf8(self.id_name@),
        ]);
        hasher.finish()
    }

    /// The canonical text: type, `"::"`, name.
    pub fn to_string(&self) -> (r: String)
        ensures
            r@ == canonical_id(self@),
    {
        proof {
            reveal_strlit("::");
            assert("::"@ =~= id_separator());
        }
        let mut out = self.id_type.clone();
        out.append("::");
        out.append(self.id_name.as_str());
        out
    }
}

} // verus!
