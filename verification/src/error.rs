//! The one error a traversal can report.

use vstd::prelude::*;

verus! {

/// Signals that the nodes still waiting to be sorted depend on one another in a circle,
/// so that no order can place each of them after its dependencies.
#[derive(Clone, Copy, Debug, PartialEq, Eq, Structural)]
pub struct CycleError;

impl CycleError {
    /// The text that names this error.
    pub fn to_string(&self) -> (text: String)
        ensures
            text@ == "CycleError"@,
    {
        "CycleError".to_owned()
    }
}

} // verus!
