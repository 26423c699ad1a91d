//! The schema's version.
use vstd::prelude::*;

verus! {

/// How many migrations there are, which is what the schema version counts up
/// to.
pub const COUNT: usize = 8;

} // verus!
