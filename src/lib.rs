use vstd::prelude::*;

pub mod catalog;
pub mod part;
pub mod skills;
pub mod solver;
pub mod text;

verus! {

} // verus!
