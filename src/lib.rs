use vstd::prelude::*;

pub mod text;
pub mod game;
pub mod bots;
pub mod protocol;

verus! {

} // verus!
