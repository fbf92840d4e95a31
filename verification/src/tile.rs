use vstd::prelude::*;

verus! {

/// The logical content of one grid cell: a safe cell with no adjacent
/// bombs, a mine, or a safe cell with `n` bombs in its 8-neighborhood
/// (`1 <= n <= 8`).
#[derive(Debug, Clone, Copy, PartialEq, Eq, Structural)]
pub enum Tile {
    Empty,
    Bomb,
    BombNeighbor(u8),
}

impl Tile {
    pub fn is_bomb(&self) -> (r: bool)
        ensures
            r == (*self is Bomb),
    {
        matches!(self, Tile::Bomb)
    }
}

} // verus!
