pub mod heuristic;
pub mod game_threats;
