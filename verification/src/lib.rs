//! A parser for a small textual message format: quoted strings,
//! space-separated bracketed arrays and brace-delimited key/value maps.
//!
//! The grammar is stated once, as spec functions over sequences of
//! characters, and the executable parsers are proved to agree with it.

use vstd::prelude::*;

pub mod grammar;
pub mod laws;
pub mod matchers;
pub mod parsers;
pub mod value;

pub use matchers::{parse_digits, parse_key, tag_basic, NoMatch};
pub use parsers::{
    parse_array, parse_key_value, parse_map, parse_message, parse_pair, parse_string, parse_value,
};
pub use value::Value;

verus! {

/// The constant one.
pub fn zap() -> (r: i32)
    ensures
        r == 1,
{
    1
}

} // verus!
