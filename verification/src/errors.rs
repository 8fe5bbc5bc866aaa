use vstd::prelude::*;

verus! {

/// Everything a core operation can report.
///
/// `ConfigurationError` is fatal and can only arise at setup (a room count
/// that is not a perfect square, or an empty entity list); `NotFound` and
/// `CannotGo` are recoverable and leave the game state unchanged.
#[derive(Debug, Clone, Copy, PartialEq, Eq, Structural)]
pub enum GameError {
    ConfigurationError,
    NotFound,
    CannotGo,
}

} // verus!
