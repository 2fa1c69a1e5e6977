//! Property-binding resolution for a component compiler: which declared variable, read
//! through which index steps, stands behind each property of each embedded instance.
use vstd::prelude::*;

pub mod lemmas;
pub mod properties_resolver;
pub mod recipe;
pub mod resolution;
pub mod types;

verus! {

} // verus!
