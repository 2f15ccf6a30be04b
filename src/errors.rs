use vstd::prelude::*;

verus! {

/// The failures that the library reports to its callers.
#[derive(Clone, Copy, PartialEq, Eq, Structural, Debug)]
pub enum Error {
    /// A text could not be read as a board, disk, player or position.
    ParseError,
    /// A board mutation was asked for on a cell that does not allow it.
    InvalidArgument,
    /// The agent was asked to move from a state where it has no legal action.
    NoActionsAvailable,
}

} // verus!
