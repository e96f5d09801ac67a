//! Verified core of the clrs territory game: tile colours, the grid, the
//! reach of buildings and abilities, colour conflicts and the end of a game.

pub mod color;
pub mod grid;
pub mod pathfinding;
pub mod objects;
pub mod tile_lists;
pub mod random;
pub mod points;
pub mod conflicts;
pub mod resolve;
pub mod buildings;
pub mod abilities;
pub mod end_game;
pub mod settings;
pub mod actions;
pub mod ai;
pub mod draw;
pub mod flow;
pub mod game;
