//! The unit of work that the engine runs.

use vstd::prelude::*;
use crate::error::Error;

verus! {

/// A named unit of work.  The engine promises nothing about what either
/// method answers, and proves what it does for every answer.
pub trait Task {
    /// Would running the task now do anything meaningful, leaving its
    /// dependencies aside?
    fn needs_execution(&self) -> bool;

    /// Performs the task's effect.
    fn execute(&self) -> Result<(), Error>;
}

} // verus!
