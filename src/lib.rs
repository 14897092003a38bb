use vstd::prelude::*;

pub mod checkpoint;
pub mod duration;
pub mod reference;
pub mod registration;
pub mod schedule;
pub mod session;
pub mod text;

verus! {

} // verus!
