//! Why the engine turns a request down.

use vstd::prelude::*;

verus! {

#[derive(Clone, Copy, PartialEq, Eq, Structural, Debug)]
pub enum EngineError {
    /// The board cannot be built, or the mines do not fit beside the safe
    /// zone of the first move.
    InvalidConfiguration,
    /// The coordinate names no cell of the board.
    OutOfBoundsCoordinate,
}

} // verus!
