//! How a run can end, and the exit code that tells it.

use vstd::prelude::*;

verus! {

/// Exit code of a run in which nothing failed.
pub const EXIT_SUCCESS: i32 = 0;

/// Exit code of a run that was ended by a failure.
pub const EXIT_FAILURE: i32 = 1;

/// Why a run ends without success.  Every failure is fatal: nothing is tried
/// again, and nothing that was left to do is done.
#[derive(Debug, Clone, Copy, PartialEq, Eq, Structural)]
pub enum Failure {
    /// The root rule file could not be read.
    RootFileMissing,
    /// A local source named in an inclusion list could not be read.
    IncludeFileMissing,
    /// A remote source named in an inclusion list is not a URL.
    InvalidIncludeUrl,
    /// A remote source could not be fetched or decoded.
    IncludeFetchFailure,
    /// A command could not be started.
    CommandSpawnFailure,
    /// A command ended with a status other than zero.
    CommandNonZeroExit,
}

/// The exit code of a run that ended with `outcome`: zero after a run in which
/// nothing failed, one after any failure.
pub fn exit_code(outcome: &Result<(), Failure>) -> (code: i32)
    ensures
        code == (if outcome is Ok {
            EXIT_SUCCESS
        } else {
            EXIT_FAILURE
        }),
        (code == 0) == (outcome is Ok),
{
    match outcome {
        Ok(_) => EXIT_SUCCESS,
        Err(_) => EXIT_FAILURE,
    }
}

} // verus!
