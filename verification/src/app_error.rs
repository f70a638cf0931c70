//! The error that the tools around the engine report.

use vstd::prelude::*;

verus! {

/// A line number that the source file does not have.
pub const ERROR_NO_SUCH_SOURCE_LINE: usize = 20_000;

/// A source location that lacks one of its parts.
pub const ERROR_SOURCE_INFO: usize = 20_001;

/// A file name that is not an absolute path.
pub const ERROR_FILENAME_FORMAT: usize = 20_002;

/// An error code with a message for the reader.
#[derive(Clone, Debug, PartialEq, Eq)]
pub struct AppError {
    pub code: usize,
    pub message: String,
}

impl AppError {
    /// The error carries the given code and message.
    pub open spec fn says(self, code: usize, message: Seq<char>) -> bool {
        self.code == code && self.message@ == message
    }
}

/// The error with the given code and message.
pub fn build_error(code: usize, message: String) -> (e: AppError)
    ensures
        e.says(code, message@),
{
    AppError { code, message }
}

} // verus!
