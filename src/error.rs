use vstd::prelude::*;

verus! {

/// The two families of failure an operation can end in.
#[derive(Clone, Copy, Debug, PartialEq, Eq, Structural)]
pub enum ErrorKind {
    /// Opening, reading or writing failed, or moved fewer bytes than asked.
    Io,
    /// A seek failed or did not land on the requested offset.
    Seek,
}

/// An error with a numeric code that names the step that failed.
#[derive(Debug)]
pub struct Error {
    pub kind: ErrorKind,
    pub code: i32,
    pub message: String,
}

impl Error {
    pub fn new(kind: ErrorKind, code: i32, message: &str) -> (r: Error)
        ensures
            r.kind == kind,
            r.code == code,
            r.message@ == message@,
    {
        Error { kind, code, message: message.to_string() }
    }
}

} // verus!
