//! A structural-type compiler core: declarations of a union-rich source type system are
//! resolved from a root name, classified (records, literal enums, tagged unions) and turned
//! into target definitions under a strict or lenient policy for undeclared members; with
//! the decoding rules for records under that policy, a JSON value model, and the logic of
//! the round-trip test driver.
use vstd::prelude::*;

pub mod classify;
pub mod codec;
pub mod discriminant;
pub mod emit;
pub mod fixture;
pub mod harness;
pub mod json;
pub mod resolve;
pub mod schema;
pub mod table;
pub mod text;

verus! {

/// Sum of two unsigned integers; the sum must fit in a `u64`.
pub fn add(left: u64, right: u64) -> (r: u64)
    requires
        left + right <= u64::MAX,
    ensures
        r == left + right,
{
    left + right
}

} // verus!
