//! Splitting a text at the first occurrence of a separator.

use vstd::prelude::*;
use vstd::string::*;

verus! {

/// `pattern` stands in `text` at position `at`.
pub open spec fn occurs_at(text: Seq<char>, pattern: Seq<char>, at: int) -> bool {
    &&& 0 <= at
    &&& at + pattern.len() <= text.len()
    &&& forall|k: int| 0 <= k < pattern.len() ==> text[at + k] == #[trigger] pattern[k]
}

/// `pattern` stands in `text` at position `at` and nowhere before it.
pub open spec fn first_at(text: Seq<char>, pattern: Seq<char>, at: int) -> bool {
    &&& occurs_at(text, pattern, at)
    &&& forall|j: int| 0 <= j < at ==> !occurs_at(text, pattern, j)
}

/// `pattern` stands somewhere in `text`.
pub open spec fn has_occurrence(text: Seq<char>, pattern: Seq<char>) -> bool {
    exists|at: int| occurs_at(text, pattern, at)
}

/// The least position at which `pattern` stands in `text`, where there is one.
pub open spec fn first_occurrence(text: Seq<char>, pattern: Seq<char>) -> int {
    choose|at: int| first_at(text, pattern, at)
}

/// The parts of `text` before and after the first occurrence of `pattern`;
/// `None` where `pattern` does not occur.
pub open spec fn split_first(text: Seq<char>, pattern: Seq<char>) -> Option<(Seq<char>, Seq<char>)> {
    if has_occurrence(text, pattern) {
        let at = first_occurrence(text, pattern);
        Some((text.subrange(0, at), text.subrange(at + pattern.len(), text.len() as int)))
    } else {
        None
    }
}

/// A first occurrence is the first occurrence.
pub proof fn lemma_first_is_unique(text: Seq<char>, pattern: Seq<char>, at: int)
    requires
        first_at(text, pattern, at),
    ensures
        has_occurrence(text, pattern),
        first_occurrence(text, pattern) == at,
{
    let chosen = first_occurrence(text, pattern);
    assert(first_at(text, pattern, chosen));
    if chosen < at {
        assert(!occurs_at(text, pattern, chosen));
    }
    if at < chosen {
        assert(!occurs_at(text, pattern, at));
    }
}

/// Where a pattern occurs, it has a first occurrence.
pub proof fn lemma_first_exists(text: Seq<char>, pattern: Seq<char>)
    requires
        has_occurrence(text, pattern),
    ensures
        first_at(text, pattern, first_occurrence(text, pattern)),
{
    let at = choose|at: int| occurs_at(text, pattern, at);
    lemma_first_not_after(text, pattern, at);
}

proof fn lemma_first_not_after(text: Seq<char>, pattern: Seq<char>, at: int)
    requires
        occurs_at(text, pattern, at),
    ensures
        exists|first: int| first_at(text, pattern, first),
    decreases at,
{
    if exists|j: int| 0 <= j < at && occurs_at(text, pattern, j) {
        let j = choose|j: int| 0 <= j < at && occurs_at(text, pattern, j);
        lemma_first_not_after(text, pattern, j);
    } else {
        assert(first_at(text, pattern, at));
    }
}

/// The characters of `text`, in order.
pub fn chars_of(text: &str) -> (r: Vec<char>)
    ensures
        r@ == text@,
{
    let mut out: Vec<char> = Vec::new();
    for c in iter: text.chars()
        invariant
            iter.seq() == text@,
            out@ == text@.take(iter.index() as int),
    {
        out.push(c);
    }
    out
}

fn matches_at(text: &Vec<char>, pattern: &Vec<char>, at: usize) -> (r: bool)
    requires
        at + pattern.len() <= text.len(),
    ensures
        r == occurs_at(text@, pattern@, at as int),
{
    let mut k: usize = 0;
    while k < pattern.len()
        invariant
            k <= pattern.len(),
            at + pattern.len() <= text.len(),
            forall|j: int| 0 <= j < k ==> text@[at + j] == #[trigger] pattern@[j],
        decreases pattern.len() - k,
    {
        if text[at + k] != pattern[k] {
            return false;
        }
        k += 1;
    }
    true
}

/// The least position at which `pattern` stands in `text`.
pub fn find_first(text: &Vec<char>, pattern: &Vec<char>) -> (r: Option<usize>)
    ensures
        match r {
            Some(at) => first_at(text@, pattern@, at as int),
            None => !has_occurrence(text@, pattern@),
        },
{
    if pattern.len() > text.len() {
        return None;
    }
    let last: usize = text.len() - pattern.len();
    let mut at: usize = 0;
    while at < last
        invariant
            at <= last,
            last == text.len() - pattern.len(),
            forall|j: int| 0 <= j < at ==> !occurs_at(text@, pattern@, j),
        decreases last - at,
    {
        if matches_at(text, pattern, at) {
            return Some(at);
        }
        at += 1;
    }
    if matches_at(text, pattern, last) {
        Some(last)
    } else {
        None
    }
}

/// Splits `text` at the first occurrence of `pattern`.
pub fn split_at_first(text: &str, pattern: &str) -> (r: Option<(String, String)>)
    ensures
        match r {
            Some((head, tail)) => split_first(text@, pattern@) == Some((head@, tail@)),
            None => split_first(text@, pattern@) is None,
        },
{
    let text_chars = chars_of(text);
    let pattern_chars = chars_of(pattern);
    match find_first(&text_chars, &pattern_chars) {
        None => None,
        Some(at) => {
            proof {
                assert(occurs_at(text_chars@, pattern_chars@, at as int));
                assert(at + pattern_chars.len() <= text_chars.len());
                lemma_first_is_unique(text@, pattern@, at as int);
            }
            let head = text.substring_char(0, at);
            let tail = text.substring_char(at + pattern_chars.len(), text_chars.len());
            Some((head.to_owned(), tail.to_owned()))
        },
    }
}

} // verus!
