pub mod map;
pub mod search;
pub mod heurs;
pub mod game_map;
pub mod game_threats;
