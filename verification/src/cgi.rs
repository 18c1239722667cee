//! CGI scripts: the environment that they run in, the exchange with a running script, and
//! the response that its output stands for.
use vstd::prelude::*;
use vstd::slice::*;
use vstd::string::*;
use vstd::utf8::*;

use crate::bytes;
use crate::bytes::find_header_end;
use crate::http;
use crate::http::{Fields, Request, RequestView, Response, ResponseView};
use crate::text;
use crate::text::{
    append_number, chars_of, is_text, lower, parse_number, split_at_char, split_lines, split_words,
    string_of, to_upper, trim, utf8_text_lossy,
};
use crate::transfer;
use crate::transfer::{advance, ReadEvent, ReadView, WriteEvent, WriteView};

verus! {

/// The number of nanoseconds in a second.
pub const NANOS_PER_SECOND: u64 = 1000000000;

/// Why a script gave no response.
#[derive(Debug)]
pub enum CgiError {
    /// Reading from it, writing to it or waiting for it failed, with that message.
    Io(String),
    Timeout,
    InvalidOutput,
}

pub enum CgiErrorView {
    Io(Seq<char>),
    Timeout,
    InvalidOutput,
}

impl View for CgiError {
    type V = CgiErrorView;

    open spec fn view(&self) -> CgiErrorView {
        match self {
            CgiError::Io(message) => CgiErrorView::Io(message@),
            CgiError::Timeout => CgiErrorView::Timeout,
            CgiError::InvalidOutput => CgiErrorView::InvalidOutput,
        }
    }
}

/// The name of a header as variables are named: in upper case, with underscores in place
/// of hyphens.
pub open spec fn variable_tail(name: Seq<char>) -> Seq<char> {
    name.map_values(
        |c: char|
            if c == '-' {
                '_'
            } else {
                text::upper_char(c)
            },
    )
}

/// The name of the variable for a request header.
pub open spec fn variable_name(name: Seq<char>) -> Seq<char> {
    "HTTP_"@ + variable_tail(name)
}

/// Names of variables, and the bytes of their values.
pub type Variables = Seq<(Seq<char>, Seq<u8>)>;

/// The variables of a list.
pub open spec fn variables_of(list: Seq<(String, Vec<u8>)>) -> Variables {
    list.map_values(|variable: (String, Vec<u8>)| (variable.0@, variable.1@))
}

/// The variables for the headers of a request.
pub open spec fn header_variables(headers: Fields) -> Variables {
    headers.map_values(
        |field: (Seq<char>, Seq<char>)| (variable_name(field.0), encode_utf8(field.1)),
    )
}

/// The variables that a script runs with. One that stands in the list again takes the
/// place of the one before.
pub open spec fn environment_of(request: RequestView, script: Seq<u8>) -> Variables {
    seq![
        ("GATEWAY_INTERFACE"@, encode_utf8("CGI/1.1"@)),
        ("REQUEST_METHOD"@, encode_utf8(request.method.token())),
        ("SCRIPT_FILENAME"@, script),
        ("SCRIPT_NAME"@, encode_utf8(request.path)),
        ("PATH_INFO"@, script),
        ("REQUEST_URI"@, encode_utf8(request.target)),
        ("QUERY_STRING"@, encode_utf8(request.query)),
        ("SERVER_PROTOCOL"@, encode_utf8(request.version)),
        ("CONTENT_LENGTH"@, encode_utf8(text::decimal(request.body.len()))),
    ] + (match request.header("content-type"@) {
        Some(value) => seq![("CONTENT_TYPE"@, encode_utf8(value))],
        None => seq![],
    }) + header_variables(request.headers)
}

/// Whether a header of the output is one that the server sets itself.
pub open spec fn is_reserved(name: Seq<char>) -> bool {
    let name = text::lowered(name);
    name == "connection"@ || name == "content-length"@ || name == "server"@ || name
        == "transfer-encoding"@
}

/// The status that the value of the header `Status` gives.
pub open spec fn status_value(value: Seq<char>) -> Option<int> {
    let words = text::words(value);
    if words.len() > 0 {
        text::number_up_to(words[0], 10, u16::MAX as int)
    } else {
        None
    }
}

/// The response after one header line of the output.
pub open spec fn with_output_line(response: ResponseView, line: Seq<char>) -> ResponseView {
    match text::split_once(line, ':') {
        None => response,
        Some(parts) => {
            let name = text::trimmed(parts.0);
            let value = text::trimmed(parts.1);
            if text::lowered(name) == "status"@ {
                match status_value(value) {
                    Some(status) => ResponseView { status: status as u16, ..response },
                    None => response,
                }
            } else if is_reserved(name) {
                response
            } else {
                response.with(name, value)
            }
        },
    }
}

/// The response after the header lines of the output.
pub open spec fn with_output_lines(response: ResponseView, lines: Seq<Seq<char>>) -> ResponseView
    decreases lines.len(),
{
    if lines.len() == 0 {
        response
    } else {
        with_output_line(with_output_lines(response, lines.drop_last()), lines.last())
    }
}

/// The response as plain text, where it has no content type.
pub open spec fn with_plain_type(response: ResponseView) -> ResponseView {
    if response.has("Content-Type"@) {
        response
    } else {
        response.with("Content-Type"@, "text/plain; charset=utf-8"@)
    }
}

/// The response that the output of a script stands for: header lines, a blank line and the
/// body, or the body alone where there is no blank line.
pub open spec fn output_response(output: Seq<u8>) -> ResponseView {
    match bytes::header_end(output) {
        None => with_plain_type(ResponseView::new(200, output)),
        Some(end) => with_plain_type(
            with_output_lines(
                ResponseView::new(200, output.skip(end.0 + end.1)),
                text::lines(text::lossy_utf8(output.take(end.0))),
            ),
        ),
    }
}

/// The name of the variable for a request header.
fn environment_name(name: &str) -> (r: String)
    ensures
        r@ == variable_name(name@),
{
    let chars = chars_of(name);
    let mut r = "HTTP_".to_owned();
    let ghost front = r@;
    for i in 0..chars.len()
        invariant
            chars@ == name@,
            r@ == front + variable_tail(name@).take(i as int),
    {
        let c = if chars[i] == '-' {
            '_'
        } else {
            to_upper(chars[i])
        };
        r.push(c);
        assert(variable_tail(name@).take(i + 1) == variable_tail(name@).take(i as int).push(c));
    }
    assert(variable_tail(name@).take(chars@.len() as int) == variable_tail(name@));
    r
}

/// Appends a variable.
fn push_variable(list: &mut Vec<(String, Vec<u8>)>, name: &str, value: &[u8])
    ensures
        variables_of(final(list)@) == variables_of(old(list)@).push((name@, value@)),
{
    list.push((name.to_owned(), slice_to_vec(value)));
    assert(variables_of(list@) == variables_of(old(list)@).push((name@, value@)));
}

/// The variables that a script runs with, in the order in which they are set.
pub fn environment(request: &Request, script: &[u8]) -> (r: Vec<(String, Vec<u8>)>)
    ensures
        variables_of(r@) == environment_of(request@, script@),
{
    let mut length = String::new();
    append_number(&mut length, request.body.len() as u64, 10);
    assert(length@ == text::decimal(request@.body.len()));
    let method = request.method.name();
    let mut list: Vec<(String, Vec<u8>)> = Vec::new();
    push_variable(&mut list, "GATEWAY_INTERFACE", "CGI/1.1".as_bytes());
    push_variable(&mut list, "REQUEST_METHOD", method.as_str().as_bytes());
    push_variable(&mut list, "SCRIPT_FILENAME", script);
    push_variable(&mut list, "SCRIPT_NAME", request.path.as_str().as_bytes());
    push_variable(&mut list, "PATH_INFO", script);
    push_variable(&mut list, "REQUEST_URI", request.target.as_str().as_bytes());
    push_variable(&mut list, "QUERY_STRING", request.query.as_str().as_bytes());
    push_variable(&mut list, "SERVER_PROTOCOL", request.version.as_str().as_bytes());
    push_variable(&mut list, "CONTENT_LENGTH", length.as_str().as_bytes());
    match request.header("content-type") {
        Some(value) => {
            push_variable(&mut list, "CONTENT_TYPE", value.as_bytes());
        },
        None => {},
    }
    let ghost front = variables_of(list@);
    let ghost all = header_variables(request@.headers);
    let n: usize = request.headers.len();
    for i in 0..n
        invariant
            n == request@.headers.len(),
            all == header_variables(request@.headers),
            variables_of(list@) == front + all.take(i as int),
    {
        let (name, value) = request.headers.at(i);
        let variable = environment_name(name);
        push_variable(&mut list, variable.as_str(), value.as_bytes());
        assert(all.take(i + 1) == all.take(i as int).push((variable@, encode_utf8(value@))));
    }
    assert(all.take(all.len() as int) == all);
    assert(variables_of(list@) == environment_of(request@, script@));
    list
}

fn reserved(name: &[char]) -> (b: bool)
    ensures
        b == is_reserved(name@),
{
    let low = lower(name);
    let low = low.as_slice();
    is_text(low, "connection") || is_text(low, "content-length") || is_text(low, "server")
        || is_text(low, "transfer-encoding")
}

/// Takes one header line of the output over into the response.
fn add_output_line(response: &mut Response, line: &[char])
    ensures
        final(response)@ == with_output_line(old(response)@, line@),
{
    let (name, value) = match split_at_char(line, ':') {
        Some(parts) => parts,
        None => {
            return;
        },
    };
    let name = trim(name);
    let value = trim(value);
    let low = lower(name);
    if is_text(low.as_slice(), "status") {
        let words = split_words(value);
        if words.len() > 0 {
            assert(text::texts(words@)[0] == words@[0]@);
            match parse_number(words[0], 10, u16::MAX as u64) {
                Some(status) => {
                    response.status = status as u16;
                },
                None => {},
            }
        }
    } else if !reserved(name) {
        let name = string_of(name);
        let value = string_of(value);
        response.set_header(name.as_str(), value.as_str());
    }
}

/// The response that the output of a script stands for.
pub fn parse_output(output: &[u8]) -> (r: Response)
    ensures
        r@ == output_response(output@),
{
    let mut response = match find_header_end(output) {
        Some((end, blank)) => {
            let body = slice_subrange(output, end + blank, output.len());
            let mut response = Response::new(200, slice_to_vec(body));
            let ghost start = response@;
            let block = slice_subrange(output, 0, end);
            assert(block@ == output@.take(end as int));
            assert(body@ == output@.skip(end + blank));
            let head = utf8_text_lossy(block);
            let chars = chars_of(head.as_str());
            let lines = split_lines(chars.as_slice());
            let ghost all = text::texts(lines@);
            for i in 0..lines.len()
                invariant
                    all == text::texts(lines@),
                    response@ == with_output_lines(start, all.take(i as int)),
            {
                assert(all.take(i + 1).drop_last() == all.take(i as int));
                assert(all.take(i + 1).last() == lines@[i as int]@);
                add_output_line(&mut response, lines[i]);
            }
            assert(all.take(all.len() as int) == all);
            response
        },
        None => Response::new(200, slice_to_vec(output)),
    };
    if !response.has_header("Content-Type") {
        response.set_header("Content-Type", "text/plain; charset=utf-8");
    }
    response
}

/// What is known of whether a script still runs.
#[derive(Debug)]
pub enum ExitEvent {
    Running,
    /// It ended, successfully or not.
    Exited(bool),
    /// It cannot be told, with that message.
    Failed(String),
}

/// The exchange with a running script.
#[derive(Debug)]
pub struct CgiProcess {
    stdin_open: bool,
    stdout_open: bool,
    body: Vec<u8>,
    written: usize,
    output: Vec<u8>,
    deadline: u128,
    exit: Option<bool>,
}

pub struct CgiView {
    pub stdin_open: bool,
    pub stdout_open: bool,
    pub body: Seq<u8>,
    /// The number of bytes of the body that the script has been given.
    pub written: int,
    /// What the script has put out.
    pub output: Seq<u8>,
    /// When the script has to be done, in nanoseconds.
    pub deadline: int,
    /// Whether the script ended successfully, once it ended.
    pub exit: Option<bool>,
}

impl View for CgiProcess {
    type V = CgiView;

    closed spec fn view(&self) -> CgiView {
        CgiView {
            stdin_open: self.stdin_open,
            stdout_open: self.stdout_open,
            body: self.body@,
            written: self.written as int,
            output: self.output@,
            deadline: self.deadline as int,
            exit: self.exit,
        }
    }
}

impl CgiView {
    /// A script that has just been started with the body to read.
    pub open spec fn new(body: Seq<u8>, now: u64, timeout: u64) -> CgiView {
        CgiView {
            stdin_open: body.len() > 0,
            stdout_open: true,
            body,
            written: 0,
            output: seq![],
            deadline: now + timeout * NANOS_PER_SECOND,
            exit: None,
        }
    }

    /// No more of the body has been written than there is.
    pub open spec fn wf(self) -> bool {
        0 <= self.written <= self.body.len()
    }

    /// The exchange after a write to the script, and whether its input is closed, or what
    /// went wrong.
    pub open spec fn after_write(self, event: WriteView) -> (CgiView, Result<bool, CgiErrorView>) {
        if !self.stdin_open {
            (self, Ok(true))
        } else {
            match event {
                WriteView::Bytes(n) => {
                    let written = transfer::advanced(
                        self.written,
                        n as int,
                        self.body.len() as int,
                    );
                    if n == 0 || written < self.body.len() {
                        (CgiView { written, ..self }, Ok(false))
                    } else {
                        (CgiView { written, stdin_open: false, ..self }, Ok(true))
                    }
                },
                WriteView::Retry => (self, Ok(false)),
                WriteView::Failed(message) => (self, Err(CgiErrorView::Io(message))),
            }
        }
    }

    /// The exchange after a read from the script, and whether its output has ended, or what
    /// went wrong.
    pub open spec fn after_read(self, event: ReadView) -> (CgiView, Result<bool, CgiErrorView>) {
        if !self.stdout_open {
            (self, Ok(true))
        } else {
            match event {
                ReadView::Bytes(bytes) => if bytes.len() == 0 {
                    (CgiView { stdout_open: false, ..self }, Ok(true))
                } else {
                    (CgiView { output: self.output + bytes, ..self }, Ok(false))
                },
                ReadView::Retry => (self, Ok(false)),
                ReadView::Failed(message) => (self, Err(CgiErrorView::Io(message))),
            }
        }
    }

    /// Whether the script ended, given what is known of it now.
    pub open spec fn exit_after(self, event: ExitEvent) -> Option<bool> {
        match self.exit {
            Some(success) => Some(success),
            None => exit_of(event),
        }
    }

    /// Whether the time of the script is over.
    pub open spec fn is_late(self, now: u64) -> bool {
        now >= self.deadline
    }

    /// The exchange after it was asked what it has come to. Of a script whose time is over
    /// only counts how it ended once it was stopped.
    pub open spec fn polled(self, now: u64, event: ExitEvent) -> CgiView {
        CgiView {
            exit: if self.is_late(now) {
                exit_of(event)
            } else {
                self.exit_after(event)
            },
            ..self
        }
    }

    /// What the exchange has come to: nothing yet, a response, or an error.
    pub open spec fn outcome(self, now: u64, event: ExitEvent) -> Option<
        Result<ResponseView, CgiErrorView>,
    > {
        if self.is_late(now) {
            Some(Err(CgiErrorView::Timeout))
        } else if self.exit is None && event is Failed {
            Some(Err(CgiErrorView::Io(event->Failed_0@)))
        } else {
            match self.exit_after(event) {
                Some(success) if !self.stdout_open => Some(
                    if success {
                        Ok(output_response(self.output))
                    } else {
                        Err(CgiErrorView::InvalidOutput)
                    },
                ),
                _ => None,
            }
        }
    }
}

/// Whether a script ended successfully, where it is known to have ended.
pub open spec fn exit_of(event: ExitEvent) -> Option<bool> {
    match event {
        ExitEvent::Exited(success) => Some(success),
        _ => None,
    }
}

/// What a result of an exchange is.
pub open spec fn result_view(result: Result<Response, CgiError>) -> Result<
    ResponseView,
    CgiErrorView,
> {
    match result {
        Ok(response) => Ok(response@),
        Err(error) => Err(error@),
    }
}

impl CgiProcess {
    /// An exchange with a script that has just been started, with the body to read and the
    /// number of seconds that it has.
    pub fn new(body: Vec<u8>, now: u64, timeout: u64) -> (r: Self)
        ensures
            r@ == CgiView::new(body@, now, timeout),
            r@.wf(),
    {
        proof {
            assert(timeout * NANOS_PER_SECOND <= 18446744073709551615 * 1000000000)
                by (nonlinear_arith)
                requires
                    0 <= timeout <= 18446744073709551615,
                    NANOS_PER_SECOND == 1000000000,
            ;
        }
        CgiProcess {
            stdin_open: body.len() > 0,
            stdout_open: true,
            body,
            written: 0,
            output: Vec::new(),
            deadline: now as u128 + timeout as u128 * NANOS_PER_SECOND as u128,
            exit: None,
        }
    }

    /// Whether the script takes more input.
    pub fn takes_input(&self) -> (b: bool)
        ensures
            b == self@.stdin_open,
    {
        self.stdin_open
    }

    /// Whether the script may put out more.
    pub fn gives_output(&self) -> (b: bool)
        ensures
            b == self@.stdout_open,
    {
        self.stdout_open
    }

    /// The part of the body that the script has not been given.
    pub fn pending_input(&self) -> (r: &[u8])
        requires
            self@.wf(),
        ensures
            r@ == self@.body.skip(self@.written),
    {
        slice_subrange(self.body.as_slice(), self.written, self.body.len())
    }

    /// Takes note of a write to the script; says whether its input is closed.
    pub fn write_stdin_once(&mut self, event: WriteEvent) -> (r: Result<bool, CgiError>)
        requires
            old(self)@.wf(),
        ensures
            final(self)@.wf(),
            final(self)@ == old(self)@.after_write(event@).0,
            match r {
                Ok(closed) => old(self)@.after_write(event@).1 == Ok::<bool, CgiErrorView>(closed),
                Err(error) => error is Io && old(self)@.after_write(event@).1 == Err::<
                    bool,
                    CgiErrorView,
                >(error@),
            },
    {
        if !self.stdin_open {
            return Ok(true);
        }
        match event {
            WriteEvent::Bytes(n) => {
                self.written = advance(self.written, n, self.body.len());
                if n > 0 && self.written >= self.body.len() {
                    self.stdin_open = false;
                    Ok(true)
                } else {
                    Ok(false)
                }
            },
            WriteEvent::Retry => Ok(false),
            WriteEvent::Failed(message) => Err(CgiError::Io(message)),
        }
    }

    /// Closes the input of the script.
    pub fn close_stdin(&mut self)
        ensures
            final(self)@ == (CgiView { stdin_open: false, ..old(self)@ }),
    {
        self.stdin_open = false;
    }

    /// Takes note of a read from the script; says whether its output has ended.
    pub fn read_stdout_once(&mut self, event: ReadEvent) -> (r: Result<bool, CgiError>)
        ensures
            final(self)@ == old(self)@.after_read(event@).0,
            match r {
                Ok(ended) => old(self)@.after_read(event@).1 == Ok::<bool, CgiErrorView>(ended),
                Err(error) => error is Io && old(self)@.after_read(event@).1 == Err::<
                    bool,
                    CgiErrorView,
                >(error@),
            },
    {
        if !self.stdout_open {
            return Ok(true);
        }
        match event {
            ReadEvent::Bytes(bytes) => if bytes.len() == 0 {
                self.stdout_open = false;
                Ok(true)
            } else {
                self.output.extend_from_slice(bytes.as_slice());
                assert(self@.output == old(self)@.output + bytes@);
                Ok(false)
            },
            ReadEvent::Retry => Ok(false),
            ReadEvent::Failed(message) => Err(CgiError::Io(message)),
        }
    }

    /// Whether the time of the script is over, so that it has to be stopped.
    pub fn is_late(&self, now: u64) -> (b: bool)
        ensures
            b == self@.is_late(now),
    {
        now as u128 >= self.deadline
    }

    /// What the exchange has come to, given whether the script still runs; one whose time is
    /// over was stopped before.
    pub fn poll(&mut self, now: u64, event: ExitEvent) -> (r: Option<Result<Response, CgiError>>)
        ensures
            final(self)@ == old(self)@.polled(now, event),
            match r {
                Some(result) => old(self)@.outcome(now, event) == Some(result_view(result)),
                None => old(self)@.outcome(now, event) is None,
            },
    {
        if self.is_late(now) {
            self.exit = match event {
                ExitEvent::Exited(success) => Some(success),
                _ => None,
            };
            return Some(Err(CgiError::Timeout));
        }
        if self.exit.is_none() {
            match event {
                ExitEvent::Running => {},
                ExitEvent::Exited(success) => {
                    self.exit = Some(success);
                },
                ExitEvent::Failed(message) => {
                    return Some(Err(CgiError::Io(message)));
                },
            }
        }
        if self.stdout_open {
            return None;
        }
        match self.exit {
            Some(true) => Some(Ok(parse_output(self.output.as_slice()))),
            Some(false) => Some(Err(CgiError::InvalidOutput)),
            None => None,
        }
    }
}

} // verus!
