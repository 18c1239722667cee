//! Readiness events, and which of them are watched for.
use vstd::prelude::*;

verus! {

pub const EPOLLIN: u32 = 0x001;

pub const EPOLLOUT: u32 = 0x004;

pub const EPOLLERR: u32 = 0x008;

pub const EPOLLHUP: u32 = 0x010;

pub const EPOLLRDHUP: u32 = 0x2000;

/// What a client is watched for while its request is read.
pub const CLIENT_READ_EVENTS: u32 = EPOLLIN | EPOLLERR | EPOLLHUP | EPOLLRDHUP;

/// What a client is watched for while it is sent a response.
pub const CLIENT_READ_WRITE_EVENTS: u32 = EPOLLIN | EPOLLOUT | EPOLLERR | EPOLLHUP | EPOLLRDHUP;

/// What a client is watched for while a script runs for it.
pub const CLIENT_WAIT_EVENTS: u32 = EPOLLERR | EPOLLHUP | EPOLLRDHUP;

/// What a listener is watched for.
pub const LISTENER_EVENTS: u32 = EPOLLIN | EPOLLERR | EPOLLHUP;

/// What the output of a script is watched for.
pub const CGI_STDOUT_EVENTS: u32 = EPOLLIN | EPOLLERR | EPOLLHUP | EPOLLRDHUP;

/// What the input of a script is watched for.
pub const CGI_STDIN_EVENTS: u32 = EPOLLOUT | EPOLLERR | EPOLLHUP | EPOLLRDHUP;

/// A readiness event: what happened, and the data given when the watch was set.
#[derive(Clone, Copy, Debug)]
pub struct EpollEvent {
    pub events: u32,
    pub data: u64,
}

impl EpollEvent {
    pub fn new(events: u32, data: u64) -> (r: Self)
        ensures
            r == (EpollEvent { events, data }),
    {
        EpollEvent { events, data }
    }

    pub fn empty() -> (r: Self)
        ensures
            r == (EpollEvent { events: 0, data: 0 }),
    {
        EpollEvent { events: 0, data: 0 }
    }
}

/// Whether any of the events happened.
pub open spec fn any_of(events: u32, mask: u32) -> bool {
    events & mask != 0
}

/// The one transfer that an event on a client leads to.
#[derive(Clone, Copy, Debug, PartialEq, Eq, Structural)]
pub enum ClientIo {
    Nothing,
    Read,
    Write,
}

/// What an event on a client leads to.
#[derive(Clone, Copy, Debug, PartialEq, Eq, Structural)]
pub enum ClientStep {
    /// The client is dropped.
    Close,
    /// A transfer, after which the client is dropped if it has hung up.
    Transfer { io: ClientIo, hung_up: bool },
}

/// What an event on a client leads to: at most one transfer, a write where a response is
/// on its way and a read where none is.
pub open spec fn client_step_for(events: u32, has_response: bool) -> ClientStep {
    if any_of(events, EPOLLERR | EPOLLHUP) {
        ClientStep::Close
    } else {
        ClientStep::Transfer {
            io: if has_response && any_of(events, EPOLLOUT) {
                ClientIo::Write
            } else if !has_response && any_of(events, EPOLLIN) {
                ClientIo::Read
            } else {
                ClientIo::Nothing
            },
            hung_up: any_of(events, EPOLLRDHUP),
        }
    }
}

/// What an event on a client leads to.
pub fn client_step(events: u32, has_response: bool) -> (step: ClientStep)
    ensures
        step == client_step_for(events, has_response),
{
    if events & (EPOLLERR | EPOLLHUP) != 0 {
        return ClientStep::Close;
    }
    let io = if has_response {
        if events & EPOLLOUT != 0 {
            ClientIo::Write
        } else {
            ClientIo::Nothing
        }
    } else if events & EPOLLIN != 0 {
        ClientIo::Read
    } else {
        ClientIo::Nothing
    };
    ClientStep::Transfer { io, hung_up: events & EPOLLRDHUP != 0 }
}

/// What an event on a pipe of a script leads to.
#[derive(Clone, Copy, Debug, PartialEq, Eq, Structural)]
pub enum PipeStep {
    /// The input of the script is closed.
    CloseInput,
    /// More of the body is written.
    Write,
    /// More of the output is read.
    Read,
    /// Nothing, but the script may have ended.
    Poll,
    Ignore,
}

/// What an event on the input or the output of a script leads to.
pub open spec fn pipe_step_for(events: u32, is_input: bool) -> PipeStep {
    if is_input {
        if any_of(events, EPOLLERR | EPOLLHUP | EPOLLRDHUP) {
            PipeStep::CloseInput
        } else if any_of(events, EPOLLOUT) {
            PipeStep::Write
        } else {
            PipeStep::Poll
        }
    } else if any_of(events, CGI_STDOUT_EVENTS) {
        PipeStep::Read
    } else {
        PipeStep::Ignore
    }
}

/// What an event on the input or the output of a script leads to.
pub fn pipe_step(events: u32, is_input: bool) -> (step: PipeStep)
    ensures
        step == pipe_step_for(events, is_input),
{
    if is_input {
        if events & (EPOLLERR | EPOLLHUP | EPOLLRDHUP) != 0 {
            PipeStep::CloseInput
        } else if events & EPOLLOUT != 0 {
            PipeStep::Write
        } else {
            PipeStep::Poll
        }
    } else if events & CGI_STDOUT_EVENTS != 0 {
        PipeStep::Read
    } else {
        PipeStep::Ignore
    }
}

} // verus!
