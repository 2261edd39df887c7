//! Identifiers for `$id` and vocabularies, kept as opaque text.
use vstd::prelude::*;

verus! {

/// Why text is not a URI. No text is refused at present, so no value of
/// this type is ever made.
#[derive(Clone, Debug, PartialEq)]
pub enum UriParseError {
    Invalid,
}

/// A URI as it was written; equality is character-wise.
#[derive(Clone, Debug, PartialEq, Eq, Hash)]
pub struct Uri {
    normalized: bool,
    value: String,
}

impl Uri {
    /// The text of the URI.
    pub closed spec fn text(&self) -> Seq<char> {
        self.value@
    }

    /// Whether the URI was normalised.
    pub closed spec fn is_normalized(&self) -> bool {
        self.normalized
    }

    pub fn from_string(input: String) -> (r: Result<Uri, UriParseError>)
        ensures
            r is Ok,
            r->Ok_0.text() == input@,
            !r->Ok_0.is_normalized(),
    {
        Ok(Uri { normalized: false, value: input })
    }

    pub fn value(&self) -> (r: &String)
        ensures
            r@ == self.text(),
    {
        &self.value
    }

    pub fn normalized(&self) -> (r: bool)
        ensures
            r == self.is_normalized(),
    {
        self.normalized
    }
}

} // verus!
