pub mod adjacency;
pub mod arcade;
pub mod cell;
pub mod error;
pub mod field;
pub mod grid;
pub mod infinite_grid;
pub mod names;
pub mod sector;
pub mod tile;
pub mod tileset;
