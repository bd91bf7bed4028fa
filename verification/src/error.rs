use vstd::prelude::*;

verus! {

/// Failure taxonomy of the collision log.
///
/// Absence of a key or of a log file is reported through `Option`, never
/// through this type: it is a valid outcome, not an error.
#[derive(Clone, Copy, Debug, PartialEq, Eq, Structural)]
pub enum Error {
    /// A log file already exists where a fresh one was to be created;
    /// creating over it would silently merge with old data.
    AlreadyExists,
    /// The byte stream ended in the middle of a record. A clean end exactly
    /// at a record boundary is the normal end of a log; anything shorter is
    /// this hard error.
    UnexpectedEof,
    /// The index pointed at a position that decodes to a tombstone or to a
    /// different key: an internal-invariant violation, never an ordinary
    /// miss.
    CorruptIndex,
}

impl Error {
    /// Short description of the error, for callers that report it.
    pub fn describe(&self) -> (s: &'static str)
        ensures
            s@ =~= match *self {
                Error::AlreadyExists => "collision log already exists"@,
                Error::UnexpectedEof => "unexpected end of collision log"@,
                Error::CorruptIndex => "collision log index is corrupt"@,
            },
    {
        match *self {
            Error::AlreadyExists => "collision log already exists",
            Error::UnexpectedEof => "unexpected end of collision log",
            Error::CorruptIndex => "collision log index is corrupt",
        }
    }
}

} // verus!
