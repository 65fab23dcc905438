//! The failure value raised when a transform handed to `replace_with`
//! fails, and the diagnostic detail a caller may attach at the call site.

use vstd::prelude::*;

verus! {

/// An opaque failure value: it carries no structured kind, so callers can
/// only detect failure or success, not cause.
#[derive(Debug, Clone, PartialEq, Eq, Structural)]
pub struct Error;

impl Error {
    /// The fixed human-readable message of every failure.
    pub fn message(&self) -> (r: &'static str)
        ensures
            r@ == "Unexpected error in HTML Editor"@,
    {
        "Unexpected error in HTML Editor"
    }
}

/// Diagnostic call-site metadata: the originating location of a failure.
#[derive(Debug, Clone, PartialEq)]
pub struct ErrorDetail {
    pub line: u32,
    pub column: u32,
    pub file: String,
}

impl ErrorDetail {
    /// Records the originating location handed in by the caller.
    pub fn new(line: u32, column: u32, file: String) -> (r: ErrorDetail)
        ensures
            r.line == line,
            r.column == column,
            r.file@ == file@,
    {
        ErrorDetail { line, column, file }
    }

    /// The recorded line.
    pub fn line(&self) -> (r: u32)
        ensures
            r == self.line,
    {
        self.line
    }

    /// The recorded column.
    pub fn column(&self) -> (r: u32)
        ensures
            r == self.column,
    {
        self.column
    }

    /// The recorded file.
    pub fn file(&self) -> (r: &String)
        ensures
            r@ == self.file@,
    {
        &self.file
    }
}

} // verus!
