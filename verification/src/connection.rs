//! Connections: how many there may be, and when one is closed.

use vstd::prelude::*;

use crate::http;
use crate::http::{IoKind, ReadError};
use crate::response;
use crate::response::{error_reply, Reply};

verus! {

/// How many connections are open. Each has a worker of its own, so there is a limit.
pub struct Connections {
    pub live: usize,
}

impl Connections {
    /// No connections.
    pub fn new() -> (r: Connections)
        ensures
            r.live == 0,
    {
        Connections { live: 0 }
    }

    /// Takes a slot for a connection, unless there are `max` already.
    pub fn acquire(&mut self, max: usize) -> (r: bool)
        ensures
            r == (old(self).live < max),
            final(self).live == (if r {
                old(self).live + 1
            } else {
                old(self).live as int
            }),
            old(self).live <= max ==> final(self).live <= max,
    {
        if self.live >= max {
            return false;
        }
        self.live = self.live + 1;
        true
    }

    /// Gives the slot of a connection back.
    pub fn release(&mut self)
        requires
            old(self).live > 0,
        ensures
            final(self).live == old(self).live - 1,
    {
        self.live = self.live - 1;
    }
}

/// What goes out on a connection for which there is no slot.
pub fn busy_response() -> (r: &'static str)
    ensures
        r@ == "HTTP/1.1 503 Service Unavailable\r\nContent-Length: 0\r\nConnection: close\r\n\r\n"@,
{
    "HTTP/1.1 503 Service Unavailable\r\nContent-Length: 0\r\nConnection: close\r\n\r\n"
}

/// The status with which a request that could not be read is refused; none when there is
/// nobody left to tell.
pub open spec fn refusal_status(kind: IoKind) -> Option<u16> {
    match kind {
        IoKind::InvalidData => Some(400),
        IoKind::TimedOut => Some(408),
        IoKind::WouldBlock => Some(408),
        _ => None,
    }
}

/// The reply to a request that could not be read, given the message of the input error
/// where it was one. The connection is closed either way, but a client can tell a request
/// that was refused from a server that is gone.
pub fn refuse(error: ReadError, io_message: &str) -> (r: Option<Reply>)
    ensures
        match r {
            Some(reply) => refusal_status(error.kind_of()) is Some && reply@ == response::error_view(
                refusal_status(error.kind_of())->0,
                match error.text() {
                    Some(m) => m,
                    None => io_message@,
                },
            ),
            None => refusal_status(error.kind_of()) is None,
        },
{
    let status: u16 = match error.kind() {
        IoKind::InvalidData => 400,
        IoKind::TimedOut => 408,
        IoKind::WouldBlock => 408,
        _ => return None,
    };
    match error.message() {
        Some(m) => Some(error_reply(status, m)),
        None => Some(error_reply(status, io_message)),
    }
}

/// Whether a connection takes another request: nobody took it over, the response went out
/// whole, what was left of the body was read, and the client wants to go on.
pub fn goes_on(hijacked: bool, finished: bool, drained: bool, keep_alive: bool) -> (r: bool)
    ensures
        r == (!hijacked && finished && drained && keep_alive),
{
    !hijacked && finished && drained && keep_alive
}

/// Every head that is refused is answered with 400.
pub proof fn law_refused_head_is_answered(e: http::HeadError)
    ensures
        refusal_status(ReadError::Head(e).kind_of()) == Some(400u16),
        refusal_status(ReadError::TooLarge.kind_of()) == Some(400u16),
        refusal_status(ReadError::TimedOut.kind_of()) == Some(408u16),
{
}

/// What is told of each kind of input error: what cannot be understood is answered with 400,
/// what came too late with 408, and a peer that is gone with nothing.
pub proof fn law_each_input_error_has_its_status()
    ensures
        refusal_status(IoKind::InvalidData) == Some(400u16),
        refusal_status(IoKind::TimedOut) == Some(408u16),
        refusal_status(IoKind::WouldBlock) == Some(408u16),
        refusal_status(IoKind::UnexpectedEof) is None,
        refusal_status(IoKind::Other) is None,
        refusal_status(ReadError::EofInHead.kind_of()) is None,
{
}

} // verus!
