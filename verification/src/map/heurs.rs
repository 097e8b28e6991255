use vstd::prelude::*;

pub mod game_threats;
pub mod heuristic;

pub use game_threats::GameThreats;

verus! {

/// The measure of a position that the search uses.
pub type GameMeasure = GameThreats;

} // verus!
