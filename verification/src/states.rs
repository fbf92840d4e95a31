use vstd::prelude::*;

verus! {

/// Which phase a session is in: playing the board, or out of the game
/// (showing the end screen).
#[derive(Debug, Clone, Copy, PartialEq, Eq, Hash, Structural)]
pub enum AppState {
    InGame,
    Out,
}

} // verus!
