//! Map core of a grid-based dungeon game: the tile grid, the room-and-corridor
//! generator, and the spatial queries used by field of view and path finding.

pub mod rect;
pub mod map;
pub mod dungeon;
pub mod spatial;
pub mod player;
mod random;

pub use rect::Rect;
pub use map::{TileMap, TileType};
