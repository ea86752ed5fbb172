//! Parser for single LEEF (Log Event Extended Format) log lines, optionally
//! wrapped in a syslog envelope, into a flat mapping of field names to values.

pub mod attrs;
pub mod chars;
pub mod error;
pub mod fields;
pub mod laws;
pub mod num;
pub mod parse;
pub mod split;
pub mod to_map;

pub use attrs::parse_leef_event_attributes;
pub use error::Error;
pub use fields::LeefMap;
pub use parse::{is_datetime_str, leef_to_map, parse_leef_line, LeefLine};
pub use split::split_with_escaped;
pub use to_map::LeefToHashMap;
