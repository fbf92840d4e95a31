use vstd::prelude::*;

verus! {

/// Zero-based (x, y) address of a grid cell.  `x` grows to the right,
/// `y` grows upward; both are bounded by the grid dimensions wherever a
/// coordinate denotes an actual cell.
#[derive(Debug, Clone, Copy, PartialEq, Eq, Hash, Structural)]
pub struct Coordinate {
    pub x: u16,
    pub y: u16,
}

impl Coordinate {
    /// Component-wise addition.
    pub fn add(self, rh: Coordinate) -> (r: Coordinate)
        requires
            self.x + rh.x <= u16::MAX,
            self.y + rh.y <= u16::MAX,
        ensures
            r.x == self.x + rh.x,
            r.y == self.y + rh.y,
    {
        Coordinate { x: self.x + rh.x, y: self.y + rh.y }
    }

    /// Component-wise subtraction, saturating at zero.
    pub fn sub(self, rh: Coordinate) -> (r: Coordinate)
        ensures
            r.x == if self.x >= rh.x { self.x - rh.x } else { 0 },
            r.y == if self.y >= rh.y { self.y - rh.y } else { 0 },
    {
        let x = if self.x >= rh.x { self.x - rh.x } else { 0 };
        let y = if self.y >= rh.y { self.y - rh.y } else { 0 };
        Coordinate { x, y }
    }

    /// Addition of a signed unit offset.  A result with a component that
    /// would fall below zero or above `u16::MAX` is discarded rather than
    /// wrapped, so a caller never sees a silently wrapped coordinate; the
    /// boundary-safe grid queries treat a discarded result as out of range.
    pub fn offset(self, dx: i8, dy: i8) -> (r: Option<Coordinate>)
        ensures
            ({
                let nx = self.x + dx;
                let ny = self.y + dy;
                if 0 <= nx <= u16::MAX && 0 <= ny <= u16::MAX {
                    r == Some(Coordinate { x: nx as u16, y: ny as u16 })
                } else {
                    r is None
                }
            }),
    {
        let nx: i32 = self.x as i32 + dx as i32;
        let ny: i32 = self.y as i32 + dy as i32;
        if 0 <= nx && nx <= u16::MAX as i32 && 0 <= ny && ny <= u16::MAX as i32 {
            Some(Coordinate { x: nx as u16, y: ny as u16 })
        } else {
            None
        }
    }
}

} // verus!
