use vstd::prelude::*;

verus! {

/// The error surface of a read. `EOF` marks a stream that is closed and
/// fully drained; `Unknown` is a reserved catch-all that no operation of
/// this crate produces.
#[derive(Debug, PartialEq, Eq)]
pub enum Error {
    EOF,
    Unknown,
}

impl Error {
    /// A human-readable description of the error.
    pub fn message(&self) -> (s: String)
        ensures
            self is EOF ==> s@ == "end of file"@,
            self is Unknown ==> s@ == "unknown data store error"@,
    {
        match self {
            Error::EOF => "end of file".to_owned(),
            Error::Unknown => "unknown data store error".to_owned(),
        }
    }
}

} // verus!
