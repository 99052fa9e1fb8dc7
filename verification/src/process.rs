//! How a command of the system, or a step of some work, ended.
use vstd::prelude::*;

verus! {

/// What came of a command: the reason for which it could not be started, or
/// what it printed and whether it reported success.
#[derive(Debug, Clone, PartialEq)]
pub enum Outcome {
    NotStarted(String),
    Ended { success: bool, stdout: String, stderr: String },
}

/// How something went that has no result but the reason for a failure.
pub open spec fn result_view(result: Result<(), String>) -> Result<(), Seq<char>> {
    match result {
        Ok(_) => Ok(()),
        Err(e) => Err(e@),
    }
}

} // verus!
