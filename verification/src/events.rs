use vstd::prelude::*;

use crate::coordinate::Coordinate;

verus! {

/// Raised when the primary button selects a cell: a reveal trigger.
#[derive(Debug, Clone, Copy, PartialEq, Eq, Structural)]
pub struct TileTriggerEvent(pub Coordinate);

/// Raised when a game ends: `true` for a win (every safe cell revealed),
/// `false` for a loss (a bomb was revealed).
#[derive(Debug, Clone, Copy, PartialEq, Eq, Structural)]
pub struct GameCompletedEvent(pub bool);

/// Raised when the secondary button selects a cell: a mark trigger.
#[derive(Debug, Clone, Copy, PartialEq, Eq, Structural)]
pub struct TileMarkEvent(pub Coordinate);

} // verus!
