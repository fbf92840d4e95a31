//! A verified Minesweeper board engine.
//!
//! The crate covers the grid logic of the game: bomb placement and
//! neighbor-count computation, the covered/marked/revealed bookkeeping,
//! the cascading reveal (flood fill), and the mapping from a pointer
//! position to a board cell.  Rendering and input polling live outside
//! the crate and talk to it through plain values; the cells they draw
//! are denoted by opaque numeric handles that the board never interprets.

mod board;
mod bounds;
mod coordinate;
mod events;
mod options;
mod render;
mod states;
mod uncover;
mod tile;
mod tile_map;

pub use board::Board;
pub use events::{GameCompletedEvent, TileMarkEvent, TileTriggerEvent};
pub use options::{create_board, BoardOptions, BoardPosition, TileSize};
pub use states::AppState;
pub use uncover::{uncover_tiles, RevealReport};
pub use bounds::{Bounds2, IVec2};
pub use coordinate::Coordinate;
pub use tile::Tile;
pub use tile_map::TileMap;
