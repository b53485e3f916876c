use vstd::prelude::*;

pub mod graph;
pub mod laws;
pub mod op;
pub mod ops;
pub mod runtime;

verus! {

} // verus!
