//! A simplified Wave Function Collapse engine: a rectangular grid of cells,
//! each a superposition of candidate tiles, narrowed by weighted random
//! collapse and constraint propagation over tile edge sockets.

pub mod direction;
pub mod tile_data;
pub mod tile_grid;

pub use direction::Direction;
pub use tile_data::{Matches, Socket, SocketMap, TileData, TileEntry};
pub use tile_grid::{Cell, ContradictionError, TileGrid};
