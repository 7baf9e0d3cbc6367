use vstd::prelude::*;
use crate::error::{Error, ErrorKind};

verus! {

/// The two file handles an engine works through.
#[derive(Clone, Copy, Debug, PartialEq, Eq, Structural)]
pub enum Handle {
    Reader,
    Writer,
}

/// One call the engine asks its driver to make on the storage file.
#[derive(Debug)]
pub enum Request {
    /// Seek the handle to an absolute byte offset.
    Seek(Handle, u64),
    /// One read call on the reader into a buffer of this many bytes.
    Read(usize),
    /// One write call of these bytes on the writer.
    Write(Vec<u8>),
}

/// What the driver saw when it made the call last asked for.
#[derive(Debug)]
pub enum Reply {
    /// A seek succeeded; the handle now stands at this offset.
    Position(u64),
    /// A read succeeded and produced these bytes.
    Bytes(Vec<u8>),
    /// A write succeeded and took this many bytes.
    Count(usize),
    /// The call returned an error.
    Failed,
}

/// What a finished operation hands back: the cursor it left, and for a read
/// the payload.
#[derive(Debug)]
pub struct Outcome {
    pub cursor: u64,
    pub payload: Vec<u8>,
}

/// The engine's answer to the start of an operation or to a reply.
#[derive(Debug)]
pub enum Step {
    /// Make this call and hand the reply back.
    Perform(Request),
    /// The operation is over.
    Done(Result<Outcome, Error>),
}

pub open spec fn landed_at(reply: Reply, pos: nat) -> bool {
    reply matches Reply::Position(p) && p == pos
}

pub open spec fn wrote(reply: Reply, n: nat) -> bool {
    reply matches Reply::Count(c) && c == n
}

pub open spec fn delivered(reply: Reply, n: nat) -> bool {
    reply matches Reply::Bytes(b) && b@.len() == n
}

/// The bytes a read produced.
pub open spec fn bytes_of(reply: Reply) -> Seq<u8> {
    match reply {
        Reply::Bytes(b) => b@,
        _ => seq![],
    }
}

pub open spec fn asks_seek(r: Step, h: Handle, pos: nat) -> bool {
    r matches Step::Perform(Request::Seek(h2, p)) && h2 == h && p == pos
}

pub open spec fn asks_read(r: Step, n: nat) -> bool {
    r matches Step::Perform(Request::Read(k)) && k == n
}

pub open spec fn asks_write(r: Step, bytes: Seq<u8>) -> bool {
    r matches Step::Perform(Request::Write(b)) && b@ == bytes
}

pub open spec fn finishes(r: Step, cursor: int, payload: Seq<u8>) -> bool {
    r matches Step::Done(Ok(o)) && o.cursor == cursor && o.payload@ == payload
}

pub open spec fn fails_with(r: Step, kind: ErrorKind, code: i32) -> bool {
    r matches Step::Done(Err(e)) && e.kind == kind && e.code == code
}

} // verus!
