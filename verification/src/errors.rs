use vstd::prelude::*;

verus! {

/// The two ways a parse can fail.
#[derive(Clone, Copy, PartialEq, Eq, Debug)]
pub enum ErrorKind {
    /// An option alias that the schema does not declare, or a positional
    /// token with no declared positional slot left to receive it.
    InvalidArgument,
    /// An option that consumes a value had no following token, or a declared
    /// positional argument was never supplied.
    MissingArgument,
}

/// A parse failure: its kind, and the alias or name it concerns.
#[derive(Debug)]
pub struct Error {
    pub kind: ErrorKind,
    pub arg: String,
}

impl Error {
    pub fn new(kind: ErrorKind, arg: String) -> (e: Error)
        ensures
            e.kind == kind,
            e.arg == arg,
    {
        Error { kind, arg }
    }
}

} // verus!
