use vstd::prelude::*;

verus! {

/// The single error kind of the codec: a decode step met a value whose shape
/// or content did not match the expected one.  The payload is a
/// human-readable description of the mismatch.
#[derive(Debug)]
pub enum Error {
    WrongType(String),
}

impl Error {
    /// The diagnostic text carried by this error.
    pub fn message(&self) -> (r: &String)
        ensures
            self matches Error::WrongType(m) && r@ == m@,
    {
        match self {
            Error::WrongType(m) => m,
        }
    }
}

} // verus!
