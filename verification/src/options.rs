use vstd::prelude::*;

use crate::board::{Board, MAX_POSITION_ABS, MAX_TILE_SIZE};
use crate::board::lemma_board_extent_bound;
use crate::bounds::{Bounds2, IVec2};
use crate::coordinate::Coordinate;
use crate::tile_map::TileMap;

verus! {

/// Largest accepted magnitude for a configured board offset or custom
/// position, leaving room for the centering shift.
pub const MAX_OFFSET_ABS: i64 = 0x80_0000_0000;

/// How the cell edge length is chosen: a fixed value, or one adapted to
/// the viewport and clamped to a `[min, max]` range.
#[derive(Debug, Clone, Copy, PartialEq, Eq, Structural)]
pub enum TileSize {
    Fixed(i64),
    Adaptive { min: i64, max: i64 },
}

/// Where the board sits in board space: centered on the viewport (plus
/// an offset) or at an absolute position.
#[derive(Debug, Clone, Copy, PartialEq, Eq, Structural)]
pub enum BoardPosition {
    Centered { offset: IVec2 },
    Custom(IVec2),
}

/// Board configuration, supplied once per game session.
#[derive(Debug, Clone, Copy)]
pub struct BoardOptions {
    pub map_size: (u16, u16),
    pub bomb_count: u16,
    pub position: BoardPosition,
    pub tile_size: TileSize,
    pub tile_padding: i64,
    pub safe_start: bool,
}

/// `v` forced into `[lo, hi]`.
pub open spec fn clamp_to(v: int, lo: int, hi: int) -> int {
    if v < lo {
        lo
    } else if v > hi {
        hi
    } else {
        v
    }
}

/// The largest cell edge that still fits the whole grid in the viewport,
/// clamped to `[min, max]`.
pub open spec fn spec_adaptive_tile_size(
    window_width: int,
    window_height: int,
    min: int,
    max: int,
    width: int,
    height: int,
) -> int {
    let horizontal = window_width / width;
    let vertical = window_height / height;
    clamp_to(
        if horizontal <= vertical {
            horizontal
        } else {
            vertical
        },
        min,
        max,
    )
}

impl BoardOptions {
    /// The configured sizes and counts make sense for a playable board.
    pub open spec fn wf(self) -> bool {
        &&& 1 <= self.map_size.0
        &&& 1 <= self.map_size.1
        &&& self.bomb_count as int <= self.map_size.0 as int * self.map_size.1 as int
        &&& match self.tile_size {
            TileSize::Fixed(v) => 1 <= v <= MAX_TILE_SIZE,
            TileSize::Adaptive { min, max } => 1 <= min <= max <= MAX_TILE_SIZE,
        }
        &&& match self.position {
            BoardPosition::Centered { offset } => -MAX_OFFSET_ABS <= offset.x <= MAX_OFFSET_ABS
                && -MAX_OFFSET_ABS <= offset.y <= MAX_OFFSET_ABS,
            BoardPosition::Custom(p) => -MAX_OFFSET_ABS <= p.x <= MAX_OFFSET_ABS
                && -MAX_OFFSET_ABS <= p.y <= MAX_OFFSET_ABS,
        }
    }

    /// The cell edge length the configuration yields on the given
    /// viewport.
    pub open spec fn spec_tile_size(self, window_width: int, window_height: int) -> int {
        match self.tile_size {
            TileSize::Fixed(v) => v as int,
            TileSize::Adaptive { min, max } => spec_adaptive_tile_size(
                window_width,
                window_height,
                min as int,
                max as int,
                self.map_size.0 as int,
                self.map_size.1 as int,
            ),
        }
    }

    /// The board rectangle's origin for a board of the given extent.
    pub open spec fn spec_position(self, size_x: int, size_y: int) -> (int, int) {
        match self.position {
            BoardPosition::Centered { offset } => (
                -(size_x / 2) + offset.x,
                -(size_y / 2) + offset.y,
            ),
            BoardPosition::Custom(p) => (p.x as int, p.y as int),
        }
    }
}

impl Default for BoardOptions {
    /// A medium board: 15 by 15 cells, 30 bombs, centered, adaptive cell
    /// size, no padding.
    fn default() -> (r: BoardOptions)
        ensures
            r.map_size == (15u16, 15u16),
            r.bomb_count == 30,
            r.position == (BoardPosition::Centered { offset: IVec2 { x: 0, y: 0 } }),
            r.tile_size == (TileSize::Adaptive { min: 10, max: 50 }),
            r.tile_padding == 0,
            r.safe_start == false,
            r.wf(),
    {
        BoardOptions {
            map_size: (15, 15),
            bomb_count: 30,
            position: BoardPosition::Centered { offset: IVec2 { x: 0, y: 0 } },
            tile_size: TileSize::Adaptive { min: 10, max: 50 },
            tile_padding: 0,
            safe_start: false,
        }
    }
}

/// The largest cell edge that still fits the whole grid in the viewport,
/// clamped to `[min, max]`.
pub fn adaptive_tile_size(
    window_width: i64,
    window_height: i64,
    min: i64,
    max: i64,
    width: u16,
    height: u16,
) -> (r: i64)
    requires
        0 <= window_width <= MAX_POSITION_ABS,
        0 <= window_height <= MAX_POSITION_ABS,
        1 <= min <= max <= MAX_TILE_SIZE,
        1 <= width,
        1 <= height,
    ensures
        r == spec_adaptive_tile_size(
            window_width as int,
            window_height as int,
            min as int,
            max as int,
            width as int,
            height as int,
        ),
        min <= r <= max,
{
    let horizontal: i64 = ((window_width as u64) / (width as u64)) as i64;
    let vertical: i64 = ((window_height as u64) / (height as u64)) as i64;
    let candidate: i64 = if horizontal <= vertical {
        horizontal
    } else {
        vertical
    };
    if candidate < min {
        min
    } else if candidate > max {
        max
    } else {
        candidate
    }
}

/// Builds the per-session state from a configuration: generates the map,
/// places the configured number of bombs at random, sizes the cells
/// (fixed or adapted to the viewport), positions the board rectangle,
/// and covers every cell with the collaborator's handle for it
/// (`handles[y * width + x]`).
pub fn create_board(
    options: &BoardOptions,
    window_width: i64,
    window_height: i64,
    handles: &Vec<u64>,
    board_entity: u64,
) -> (r: Board)
    requires
        options.wf(),
        0 <= window_width <= MAX_POSITION_ABS,
        0 <= window_height <= MAX_POSITION_ABS,
        handles@.len() == options.map_size.0 as int * options.map_size.1 as int,
    ensures
        r.inv(),
        r.tile_map.width == options.map_size.0,
        r.tile_map.height == options.map_size.1,
        r.tile_map.bomb_count == options.bomb_count,
        r.entity == board_entity,
        r.tile_size == options.spec_tile_size(window_width as int, window_height as int),
        r.bounds.size.x == options.map_size.0 as int * r.tile_size,
        r.bounds.size.y == options.map_size.1 as int * r.tile_size,
        (r.bounds.position.x as int, r.bounds.position.y as int) == options.spec_position(
            r.bounds.size.x as int,
            r.bounds.size.y as int,
        ),
        r.marked_tiles@ == Seq::<Coordinate>::empty(),
        r.covered_tiles@.len() == options.map_size.0 as int * options.map_size.1 as int,
        forall|c: Coordinate| #[trigger]
            r.covered_tiles@.contains_key(crate::board::spec_key(c)) <==> r.tile_map.in_grid(
                c.x as int,
                c.y as int,
            ),
{
    let width = options.map_size.0;
    let height = options.map_size.1;
    let mut tile_map = TileMap::create(width, height);
    tile_map.set_bombs(options.bomb_count);
    let tile_size: i64 = match options.tile_size {
        TileSize::Fixed(v) => v,
        TileSize::Adaptive { min, max } => adaptive_tile_size(
            window_width,
            window_height,
            min,
            max,
            width,
            height,
        ),
    };
    proof {
        lemma_board_extent_bound(width as int, tile_size as int);
        lemma_board_extent_bound(height as int, tile_size as int);
    }
    let board_size = IVec2 { x: (width as i64) * tile_size, y: (height as i64) * tile_size };
    let position: IVec2 = match options.position {
        BoardPosition::Centered { offset } => {
            let half_x: i64 = ((board_size.x as u64) / 2) as i64;
            let half_y: i64 = ((board_size.y as u64) / 2) as i64;
            IVec2 { x: -half_x + offset.x, y: -half_y + offset.y }
        },
        BoardPosition::Custom(p) => p,
    };
    let bounds = Bounds2 { position, size: board_size };
    Board::new(tile_map, bounds, tile_size, handles, board_entity)
}

} // verus!
