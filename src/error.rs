use vstd::prelude::*;

verus! {

/// The ways a decode, an encode or a conversion can fail.
#[derive(Clone, Copy, Debug, PartialEq, Eq, Structural)]
pub enum ErrorKind {
    /// An unrecognized tag byte, or one that is not valid where it stands.
    MalformedTag,
    /// The input ended in the middle of a value or of a chunk.
    TruncatedInput,
    /// A reference to an index that was not registered yet.
    DanglingReference,
    /// A construct that the value model cannot represent.
    UnsupportedValue,
    /// A nested conversion failed.
    AdapterFailure,
}

/// An error of the codec: its kind and a human-readable message.
#[derive(Clone, Debug, PartialEq)]
pub struct Error {
    pub kind: ErrorKind,
    pub message: String,
}

/// The result is an error of kind `k`.
pub open spec fn fails_with<T>(r: Result<T, Error>, k: ErrorKind) -> bool {
    r matches Err(e) && e.kind == k
}

impl Error {
    pub fn new(kind: ErrorKind, message: &str) -> (r: Error)
        ensures
            r.kind == kind,
            r.message@ == message@,
    {
        Error { kind, message: message.to_owned() }
    }
}

} // verus!
