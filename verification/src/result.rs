//! Error values carried out of scene building, job execution and frame runs.
use vstd::prelude::*;

verus! {

/// Where an error was raised: a source file position or a path inside a
/// scene document.
#[derive(Debug)]
pub enum SourceLocation {
    TextFile { filename: String, line: u32 },
    JobFile { filename: String, path: String },
}

/// A human-readable message together with where it came from.
#[derive(Debug)]
pub struct Error {
    message: String,
    source: SourceLocation,
}

impl Error {
    /// The message, as a character sequence.
    pub closed spec fn spec_message(self) -> Seq<char> {
        self.message@
    }

    /// The recorded origin.
    pub closed spec fn spec_source(self) -> SourceLocation {
        self.source
    }

    /// Wraps a message and its origin.
    pub fn new(message: String, source: SourceLocation) -> (r: Self)
        ensures
            r.spec_message() == message@,
            r.spec_source() == source,
    {
        Self { message, source }
    }

    /// The message.
    pub fn message(&self) -> (r: &str)
        ensures
            r@ == self.spec_message(),
    {
        self.message.as_str()
    }

    /// The recorded origin.
    pub fn source(&self) -> (r: &SourceLocation)
        ensures
            *r == self.spec_source(),
    {
        &self.source
    }
}

} // verus!
