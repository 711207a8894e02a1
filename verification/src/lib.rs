use vstd::prelude::*;

pub mod behaviour_laws;
pub mod collector;
pub mod definition;
pub mod develop;
pub mod installed;
pub mod launch;
pub mod laws;
pub mod layout;
pub mod packing;
pub mod paths;
pub mod placement_laws;
pub mod reader;
pub mod report;
pub mod sizes;
pub mod text;
pub mod tools;

verus! {

} // verus!
