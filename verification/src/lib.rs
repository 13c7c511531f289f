//! Request/response framing for a small key-value server.
//!
//! A connection fills a bounded read buffer, cuts length-prefixed frames out
//! of it, decodes each into a list of arguments, runs the command against the
//! store and queues the framed reply in a bounded write buffer. Every step is
//! a function from plain values to plain values, so the socket itself stays
//! with the caller.

use vstd::prelude::*;

pub mod buffer;
pub mod connection;
pub mod database;
pub mod delivery;
pub mod dispatch;
pub mod frame;
pub mod request;
pub mod wire;

verus! {

/// Outcome of one command, as it travels in a reply frame.
#[derive(Clone, Copy, Debug, PartialEq, Eq, Structural)]
pub enum ResponseStatus {
    /// The command was carried out.
    StatusOk,
    /// The request was malformed, unknown or had the wrong number of
    /// arguments. This ends the connection.
    StatusErr,
    /// The key is absent. This is a normal answer, not a failure.
    StatusNx,
}

impl ResponseStatus {
    /// The number that stands for this status on the wire.
    pub open spec fn code(self) -> u32 {
        match self {
            ResponseStatus::StatusOk => 0,
            ResponseStatus::StatusErr => 1,
            ResponseStatus::StatusNx => 2,
        }
    }

    /// The number that stands for this status on the wire.
    pub fn to_code(self) -> (c: u32)
        ensures
            c == self.code(),
    {
        match self {
            ResponseStatus::StatusOk => 0,
            ResponseStatus::StatusErr => 1,
            ResponseStatus::StatusNx => 2,
        }
    }

    /// The status that a wire number stands for, if any.
    pub fn from_code(c: u32) -> (s: Option<ResponseStatus>)
        ensures
            c > 2 <==> s is None,
            s matches Some(v) ==> v.code() == c,
    {
        if c == 0 {
            Some(ResponseStatus::StatusOk)
        } else if c == 1 {
            Some(ResponseStatus::StatusErr)
        } else if c == 2 {
            Some(ResponseStatus::StatusNx)
        } else {
            None
        }
    }
}

} // verus!
