//! What parsing reports when a text is not in canonical form.

use vstd::prelude::*;
use vstd::string::*;

verus! {

/// The text of an identifier holds no `"::"`.
#[derive(Debug, Clone, Copy, PartialEq, Eq, Structural)]
pub struct MalformedIdentifier;

/// The text of a pair holds no `"$"`, or one of its halves is no identifier.
#[derive(Debug, Clone, Copy, PartialEq, Eq, Structural)]
pub enum MalformedPair {
    /// No `"$"` stands in the text.
    MissingSeparator,
    /// The part before the first `"$"` is no identifier.
    First(MalformedIdentifier),
    /// The part after the first `"$"` is no identifier, while the part before it is one.
    Second(MalformedIdentifier),
}

impl MalformedIdentifier {
    /// Says which separator was expected.
    pub fn message(&self) -> (r: String)
        ensures
            r@ == "malformed identifier: the separator \"::\" is missing"@,
    {
        String::from_str("malformed identifier: the separator \"::\" is missing")
    }
}

impl MalformedPair {
    /// Says which separator was expected, and in which part of the text.
    pub fn message(&self) -> (r: String)
        ensures
            r@ == match *self {
                MalformedPair::MissingSeparator => "malformed pair: the separator \"$\" is missing"@,
                MalformedPair::First(_) => "malformed pair: the separator \"::\" is missing in the first identifier"@,
                MalformedPair::Second(_) => "malformed pair: the separator \"::\" is missing in the second identifier"@,
            },
    {
        match self {
            MalformedPair::MissingSeparator => String::from_str(
                "malformed pair: the separator \"$\" is missing",
            ),
            MalformedPair::First(_) => String::from_str(
                "malformed pair: the separator \"::\" is missing in the first identifier",
            ),
            MalformedPair::Second(_) => String::from_str(
                "malformed pair: the separator \"::\" is missing in the second identifier",
            ),
        }
    }
}

} // verus!
