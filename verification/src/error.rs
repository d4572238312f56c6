//! What makes reading or stripping fail as a whole. Local damage inside a known
//! format is reported as a warning instead.
use vstd::prelude::*;

verus! {

#[derive(Debug, Clone, Copy, PartialEq, Eq, Structural)]
pub enum Error {
    /// The container format is not known.
    UnrecognizedFormat,
    /// The source or the sink failed.
    Io,
    /// The format is known, but this operation does not support it.
    Unsupported,
}

impl Error {
    /// The error in words.
    pub fn message(&self) -> (r: String)
        ensures
            r@ == (match *self {
                Error::UnrecognizedFormat => "unrecognized file format"@,
                Error::Io => "i/o error"@,
                Error::Unsupported => "unsupported file format"@,
            }),
    {
        match self {
            Error::UnrecognizedFormat => "unrecognized file format".to_owned(),
            Error::Io => "i/o error".to_owned(),
            Error::Unsupported => "unsupported file format".to_owned(),
        }
    }
}

} // verus!
