use vstd::prelude::*;

verus! {

/// An integer point or extent in board-local space.  Board space uses
/// whole units (pixels), so the pointer mapping is exact.
#[derive(Debug, Clone, Copy, PartialEq, Eq, Structural)]
pub struct IVec2 {
    pub x: i64,
    pub y: i64,
}

/// The axis-aligned rectangle a board occupies in board-local space:
/// its origin corner plus its extent.
#[derive(Debug, Clone, Copy, PartialEq, Eq, Structural)]
pub struct Bounds2 {
    pub position: IVec2,
    pub size: IVec2,
}

impl Bounds2 {
    /// Containment, inclusive on all four sides.
    pub open spec fn contains(self, p: IVec2) -> bool {
        &&& self.position.x <= p.x <= self.position.x + self.size.x
        &&& self.position.y <= p.y <= self.position.y + self.size.y
    }

    /// Tests whether a point lies in the rectangle, inclusive on all four
    /// sides.
    pub fn in_bounds(&self, coord: IVec2) -> (r: bool)
        requires
            i64::MIN <= self.position.x + self.size.x <= i64::MAX,
            i64::MIN <= self.position.y + self.size.y <= i64::MAX,
        ensures
            r == self.contains(coord),
    {
        coord.x >= self.position.x && coord.y >= self.position.y && coord.x <= self.position.x
            + self.size.x && coord.y <= self.position.y + self.size.y
    }
}

} // verus!
