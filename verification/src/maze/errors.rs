//! Why a grid induces no maze.

use vstd::prelude::*;
use vstd::string::*;

verus! {

/// The two ways in which construction fails.  Both are decided by the border
/// rows alone.
#[derive(Debug, Clone, Copy, PartialEq, Eq, Structural)]
pub enum MazeError {
    /// No passable pixel on the top border.
    NoStartError,
    /// No passable pixel on the bottom border.
    NoExitError,
}

impl MazeError {
    /// The text shown to a user for this error.
    pub fn message(&self) -> (text: String)
        ensures
            *self == MazeError::NoStartError ==> text@ == "image does not contain a starting point"@,
            *self == MazeError::NoExitError ==> text@ == "image does not contain a exit ponit"@,
    {
        match self {
            MazeError::NoStartError => String::from_str("image does not contain a starting point"),
            MazeError::NoExitError => String::from_str("image does not contain a exit ponit"),
        }
    }
}

} // verus!
