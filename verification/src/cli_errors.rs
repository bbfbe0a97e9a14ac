//! What a caller gets for the name of a search that does not exist.

use vstd::prelude::*;
use vstd::string::*;

verus! {

/// The name that was asked for and is not the name of a search.
#[derive(Debug, Clone)]
pub struct InvalidAlgorithmError(pub String);

impl InvalidAlgorithmError {
    /// The text shown to a user for this error.
    pub fn message(&self) -> (text: String)
        ensures
            text@ == self.0@ + " is not a valid algorithm."@,
    {
        let mut text = self.0.clone();
        text.append(" is not a valid algorithm.");
        text
    }
}

} // verus!
