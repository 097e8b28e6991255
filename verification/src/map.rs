pub mod params;
pub mod tile;
pub mod chunk;
pub mod quad_node;
pub mod quad_root;
pub mod heurs;
pub mod game_map;
pub mod neighbours;
