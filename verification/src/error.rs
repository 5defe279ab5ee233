use vstd::prelude::*;

verus! {

/// What can go wrong while coding.
#[derive(Debug, Clone, Copy, PartialEq, Eq, Structural)]
pub enum CodingError {
    /// The underlying byte sink reported a failure.
    Io,
    /// The input is not something the encoder can have produced.
    CorruptInput,
}

impl CodingError {
    /// A short human-readable description.
    pub fn message(&self) -> (s: &'static str)
        ensures
            s@ == (match *self {
                CodingError::Io => "i/o failure"@,
                CodingError::CorruptInput => "corrupt input"@,
            }),
    {
        match self {
            CodingError::Io => "i/o failure",
            CodingError::CorruptInput => "corrupt input",
        }
    }
}

} // verus!
