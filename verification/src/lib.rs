use vstd::prelude::*;

pub mod population;
pub mod removal;
pub mod capture;
pub mod encounters;
pub mod simulation;
pub mod grid;
pub mod mesh;
pub mod draw;
pub mod trails;
pub mod input;
pub mod laws;

verus! {

} // verus!
