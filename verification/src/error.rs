//! Failure kinds of the LEEF parsing pipeline.

use vstd::prelude::*;

verus! {

/// Why a line could not be parsed: it is not recognizable as LEEF at all,
/// it is recognizable but its header is incomplete, or an ad hoc failure
/// carrying a message (reserved for extensions; the parser itself never
/// produces it).
#[derive(Debug, PartialEq, Eq, Clone)]
pub enum Error {
    NotLeef,
    MalformedLeef,
    Generic(String),
}

impl Error {
    /// A short description of the failure, one line per kind.
    pub fn message(&self) -> (r: String)
        ensures
            self is NotLeef ==> r@ == "Not a LEEF String"@,
            self is MalformedLeef ==> r@ == "Could be a malformed LEEF string"@,
            forall|m: String| *self == Error::Generic(m) ==> r@ == "Generic Error: "@ + m@,
    {
        match self {
            Error::NotLeef => String::from_str("Not a LEEF String"),
            Error::MalformedLeef => String::from_str("Could be a malformed LEEF string"),
            Error::Generic(m) => {
                let mut s = String::from_str("Generic Error: ");
                s.append(m.as_str());
                s
            },
        }
    }
}

impl From<&str> for Error {
    fn from(err: &str) -> (r: Error) {
        Error::Generic(String::from_str(err))
    }
}

impl vstd::std_specs::convert::FromSpecImpl<&str> for Error {
    // A `String` value with a given view cannot be named in spec code, so
    // `from` carries no claim; `Error::from` is only API surface, the parser
    // never constructs `Generic`.
    open spec fn obeys_from_spec() -> bool {
        false
    }

    open spec fn from_spec(err: &str) -> Error {
        Error::NotLeef
    }
}

} // verus!
