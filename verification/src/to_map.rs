//! The conversion trait: any string-like value parses itself into the flat
//! mapping.

use vstd::prelude::*;
use crate::error::Error;
use crate::fields::{Fields, LeefMap};
use crate::parse::{leef_to_map, parse_spec};

verus! {

/// A simple LEEF parser into a standardised flat mapping.
pub trait LeefToHashMap: View<V = Seq<char>> {
    /// Converts a LEEF `&str` or `String` into a mapping of field names to
    /// values. Syslog-wrapped strings are accepted too; `preserve_orig`
    /// keeps the trimmed original line under `rawEvent`.
    fn to_hashmap(&self, preserve_orig: bool) -> (r: Result<LeefMap, Error>)
        ensures
            match r {
                Ok(m) => parse_spec(self@, preserve_orig) == Ok::<Fields, Error>(m@) && m.wf(),
                Err(e) => parse_spec(self@, preserve_orig) == Err::<Fields, Error>(e),
            },
    ;
}

impl LeefToHashMap for str {
    fn to_hashmap(&self, preserve_orig: bool) -> (r: Result<LeefMap, Error>) {
        leef_to_map(self, preserve_orig)
    }
}

impl LeefToHashMap for String {
    fn to_hashmap(&self, preserve_orig: bool) -> (r: Result<LeefMap, Error>) {
        leef_to_map(self.as_str(), preserve_orig)
    }
}

} // verus!
