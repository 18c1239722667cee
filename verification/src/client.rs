//! One connection: the bytes received and to be sent, and when it was last active.
use vstd::prelude::*;
use vstd::slice::*;

use crate::cgi::NANOS_PER_SECOND;
use crate::http;
use crate::http::{parse_request, ParseResult, ParseView, Response, ResponseView};
use crate::transfer;
use crate::transfer::{advance, ReadEvent, ReadView, WriteEvent, WriteView};

verus! {

/// What a read from a client leads to.
#[derive(Clone, Copy, Debug, PartialEq, Eq, Structural)]
pub enum ReadStep {
    /// The client is dropped.
    Close,
    /// There may be a request.
    Parse,
    Wait,
}

/// What a write to a client leads to.
#[derive(Clone, Copy, Debug, PartialEq, Eq, Structural)]
pub enum WriteStep {
    /// The client is dropped.
    Close,
    /// There was nothing to write; only reads are watched for.
    Rest,
    /// The response is out; only reads are watched for, and there may be a further request.
    Next,
    Wait,
}

/// One connection.
#[derive(Debug)]
pub struct Client {
    listen_fd: i32,
    read_buffer: Vec<u8>,
    write_buffer: Vec<u8>,
    write_position: usize,
    close_after_write: bool,
    max_body_size: usize,
    last_active: u64,
    waiting_cgi: Option<u64>,
}

pub struct ClientView {
    /// The listener that the client came by.
    pub listen_fd: i32,
    /// The bytes received that no request has been made of.
    pub read_buffer: Seq<u8>,
    /// The response on its way, if any.
    pub write_buffer: Seq<u8>,
    /// The number of its bytes that are out.
    pub write_position: int,
    /// Whether the connection ends with the response.
    pub close_after_write: bool,
    pub max_body_size: usize,
    /// When the client was last active, in nanoseconds.
    pub last_active: u64,
    /// The script that runs for the client.
    pub waiting_cgi: Option<u64>,
}

impl View for Client {
    type V = ClientView;

    closed spec fn view(&self) -> ClientView {
        ClientView {
            listen_fd: self.listen_fd,
            read_buffer: self.read_buffer@,
            write_buffer: self.write_buffer@,
            write_position: self.write_position as int,
            close_after_write: self.close_after_write,
            max_body_size: self.max_body_size,
            last_active: self.last_active,
            waiting_cgi: self.waiting_cgi,
        }
    }
}

impl ClientView {
    /// A client that has just come by the listener.
    pub open spec fn new(listen_fd: i32, max_body_size: usize, now: u64) -> ClientView {
        ClientView {
            listen_fd,
            read_buffer: seq![],
            write_buffer: seq![],
            write_position: 0,
            close_after_write: false,
            max_body_size,
            last_active: now,
            waiting_cgi: None,
        }
    }

    /// No more of the response is out than there is.
    pub open spec fn wf(self) -> bool {
        0 <= self.write_position <= self.write_buffer.len()
    }

    /// Whether a response is on its way.
    pub open spec fn has_response(self) -> bool {
        self.write_buffer.len() > 0
    }

    /// The client after a read from it, and what that leads to.
    pub open spec fn after_read(self, event: ReadView, now: u64) -> (ClientView, ReadStep) {
        let client = ClientView { last_active: now, ..self };
        match event {
            ReadView::Bytes(bytes) => if bytes.len() == 0 {
                (client, ReadStep::Close)
            } else {
                (
                    ClientView { read_buffer: self.read_buffer + bytes, ..client },
                    ReadStep::Parse,
                )
            },
            ReadView::Retry => (client, ReadStep::Wait),
            ReadView::Failed(_) => (client, ReadStep::Close),
        }
    }

    /// What the bytes received amount to.
    pub open spec fn parsed(self) -> ParseView {
        http::parsed_request(self.read_buffer, self.max_body_size as int)
    }

    /// The client after its request was taken from the bytes received.
    pub open spec fn after_parse(self) -> ClientView {
        match self.parsed() {
            ParseView::Complete(_, consumed) => ClientView {
                read_buffer: self.read_buffer.skip(consumed),
                ..self
            },
            _ => self,
        }
    }

    /// The client with the response on its way.
    pub open spec fn with_response(self, response: ResponseView, close: bool, now: u64) -> ClientView {
        ClientView {
            write_buffer: response.bytes(close),
            write_position: 0,
            close_after_write: close,
            last_active: now,
            ..self
        }
    }

    /// The client after a write to it, and what that leads to.
    pub open spec fn after_write(self, event: WriteView, now: u64) -> (ClientView, WriteStep) {
        if self.write_position >= self.write_buffer.len() {
            (self, WriteStep::Rest)
        } else {
            let client = ClientView { last_active: now, ..self };
            match event {
                WriteView::Bytes(n) => {
                    let position = transfer::advanced(
                        self.write_position,
                        n as int,
                        self.write_buffer.len() as int,
                    );
                    if n == 0 {
                        (client, WriteStep::Close)
                    } else if position < self.write_buffer.len() {
                        (ClientView { write_position: position, ..client }, WriteStep::Wait)
                    } else {
                        (
                            ClientView {
                                write_buffer: seq![],
                                write_position: 0,
                                close_after_write: false,
                                ..client
                            },
                            if self.close_after_write {
                                WriteStep::Close
                            } else {
                                WriteStep::Next
                            },
                        )
                    }
                },
                WriteView::Retry => (client, WriteStep::Wait),
                WriteView::Failed(_) => (client, WriteStep::Close),
            }
        }
    }

    /// Whether the client has been idle for the number of seconds, and no script runs for it.
    pub open spec fn is_timed_out(self, now: u64, timeout: u64) -> bool {
        self.waiting_cgi is None && idle(self.last_active, now) >= timeout * NANOS_PER_SECOND
    }

    /// The client with the response on its way for the last one.
    pub open spec fn closing(self) -> ClientView {
        ClientView { close_after_write: true, ..self }
    }
}

/// The time since the client was last active.
pub open spec fn idle(last_active: u64, now: u64) -> int {
    if last_active <= now {
        now - last_active
    } else {
        0
    }
}

impl Client {
    pub fn new(listen_fd: i32, max_body_size: usize, now: u64) -> (r: Self)
        ensures
            r@ == ClientView::new(listen_fd, max_body_size, now),
            r@.wf(),
    {
        Client {
            listen_fd,
            read_buffer: Vec::new(),
            write_buffer: Vec::new(),
            write_position: 0,
            close_after_write: false,
            max_body_size,
            last_active: now,
            waiting_cgi: None,
        }
    }

    pub fn listen_fd(&self) -> (fd: i32)
        ensures
            fd == self@.listen_fd,
    {
        self.listen_fd
    }

    pub fn waiting_cgi(&self) -> (job: Option<u64>)
        ensures
            job == self@.waiting_cgi,
    {
        self.waiting_cgi
    }

    /// Whether a response is on its way.
    pub fn has_response(&self) -> (b: bool)
        ensures
            b == self@.has_response(),
    {
        self.write_buffer.len() > 0
    }

    /// The part of the response that is still to be sent.
    pub fn unsent(&self) -> (r: &[u8])
        requires
            self@.wf(),
        ensures
            r@ == self@.write_buffer.skip(self@.write_position),
    {
        slice_subrange(self.write_buffer.as_slice(), self.write_position, self.write_buffer.len())
    }

    /// Takes note of a read from the client.
    pub fn read_client(&mut self, event: ReadEvent, now: u64) -> (step: ReadStep)
        ensures
            (final(self)@, step) == old(self)@.after_read(event@, now),
    {
        self.last_active = now;
        match event {
            ReadEvent::Bytes(bytes) => if bytes.len() == 0 {
                ReadStep::Close
            } else {
                self.read_buffer.extend_from_slice(bytes.as_slice());
                assert(self@.read_buffer == old(self)@.read_buffer + bytes@);
                ReadStep::Parse
            },
            ReadEvent::Retry => ReadStep::Wait,
            ReadEvent::Failed(_) => ReadStep::Close,
        }
    }

    /// Takes the next request from the bytes received.
    pub fn take_request(&mut self) -> (r: ParseResult)
        ensures
            r@ == old(self)@.parsed(),
            final(self)@ == old(self)@.after_parse(),
    {
        let result = parse_request(self.read_buffer.as_slice(), self.max_body_size);
        match &result {
            ParseResult::Complete(_, consumed) => {
                self.read_buffer = slice_to_vec(
                    slice_subrange(self.read_buffer.as_slice(), *consumed, self.read_buffer.len()),
                );
                assert(self@.read_buffer == old(self)@.read_buffer.skip(*consumed as int));
            },
            _ => {},
        }
        result
    }

    /// Puts a response on its way.
    pub fn queue_response(&mut self, response: &Response, close_after_write: bool, now: u64)
        ensures
            final(self)@ == old(self)@.with_response(response@, close_after_write, now),
            final(self)@.wf(),
    {
        self.write_buffer = response.to_bytes(close_after_write);
        self.write_position = 0;
        self.close_after_write = close_after_write;
        self.last_active = now;
    }

    /// Takes note of a write to the client.
    pub fn write_client(&mut self, event: WriteEvent, now: u64) -> (step: WriteStep)
        requires
            old(self)@.wf(),
        ensures
            final(self)@.wf(),
            (final(self)@, step) == old(self)@.after_write(event@, now),
    {
        if self.write_position >= self.write_buffer.len() {
            return WriteStep::Rest;
        }
        self.last_active = now;
        match event {
            WriteEvent::Bytes(n) => {
                if n == 0 {
                    return WriteStep::Close;
                }
                self.write_position = advance(self.write_position, n, self.write_buffer.len());
                if self.write_position < self.write_buffer.len() {
                    return WriteStep::Wait;
                }
                let close = self.close_after_write;
                self.write_buffer = Vec::new();
                self.write_position = 0;
                self.close_after_write = false;
                if close {
                    WriteStep::Close
                } else {
                    WriteStep::Next
                }
            },
            WriteEvent::Retry => WriteStep::Wait,
            WriteEvent::Failed(_) => WriteStep::Close,
        }
    }

    /// Whether the client has been idle for the number of seconds, and no script runs for it.
    pub fn is_timed_out(&self, now: u64, timeout: u64) -> (b: bool)
        ensures
            b == self@.is_timed_out(now, timeout),
    {
        let idle: u64 = if self.last_active <= now {
            now - self.last_active
        } else {
            0
        };
        assert(timeout * NANOS_PER_SECOND <= 18446744073709551615 * 1000000000)
            by (nonlinear_arith)
            requires
                0 <= timeout <= 18446744073709551615,
                NANOS_PER_SECOND == 1000000000,
        ;
        self.waiting_cgi.is_none() && idle as u128 >= timeout as u128 * NANOS_PER_SECOND as u128
    }

    /// Makes the response on its way the last one.
    pub fn close_after_response(&mut self)
        ensures
            final(self)@ == old(self)@.closing(),
    {
        self.close_after_write = true;
    }

    /// Takes note that a script runs for the client.
    pub fn wait_for(&mut self, job: u64, now: u64)
        ensures
            final(self)@ == (ClientView {
                waiting_cgi: Some(job),
                last_active: now,
                ..old(self)@
            }),
    {
        self.waiting_cgi = Some(job);
        self.last_active = now;
    }

    /// Takes note that no script runs for the client.
    pub fn stop_waiting(&mut self)
        ensures
            final(self)@ == (ClientView { waiting_cgi: None, ..old(self)@ }),
    {
        self.waiting_cgi = None;
    }
}

} // verus!
