use vstd::prelude::*;

pub mod topology;
pub mod engine;
pub mod bmm;
pub mod vc3;
pub mod counter;
pub mod correctness;

verus! {

} // verus!
