//! Failures of a read, reported to the sink of the path they concern.
use vstd::prelude::*;

verus! {

/// What went wrong while reading a watched file; each carries the description of the
/// underlying I/O error.
#[derive(Debug, Clone, PartialEq, Eq)]
pub enum ErrorKind {
    /// The file could not be opened.
    FileOpenError(String),
    /// The file could not be positioned at the stored offset.
    FileSeekError(String),
}

impl ErrorKind {
    /// The description of the underlying I/O error.
    pub open spec fn detail(&self) -> Seq<char> {
        match self {
            ErrorKind::FileOpenError(d) => d@,
            ErrorKind::FileSeekError(d) => d@,
        }
    }
}

/// A failed read of the file at `path`.
#[derive(Debug, Clone, PartialEq, Eq)]
pub struct LogError {
    pub kind: ErrorKind,
    pub path: String,
}

impl LogError {
    /// The message of this error: the I/O error's description, then ` - `, then the path.
    pub open spec fn message(&self) -> Seq<char> {
        self.kind.detail() + " - "@ + self.path@
    }

    /// The message of this error, as `message` states it.
    pub fn display_error(&self) -> (r: String)
        ensures
            r@ == self.message(),
    {
        let mut r = match &self.kind {
            ErrorKind::FileOpenError(d) => d.clone(),
            ErrorKind::FileSeekError(d) => d.clone(),
        };
        r.append(" - ");
        r.append(self.path.as_str());
        r
    }
}

} // verus!
