//! The lexers, and the literal scanners they share.

use vstd::prelude::*;

pub mod common;
pub mod ifcondition;
pub mod tag;

verus! {

/// Length in bytes of the `{%` that opens a tag.
pub const START_TAG_LEN: usize = 2;

/// Length in bytes of the `%}` that closes a tag.
pub const END_TAG_LEN: usize = 2;

} // verus!
