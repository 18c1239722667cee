//! HTTP messages: requests read from bytes, responses written as bytes.
use vstd::prelude::*;
use vstd::slice::*;
use vstd::string::*;
use vstd::utf8::*;

use crate::bytes;
use crate::bytes::{find_header_end, find_line_end, leading_newline};
use crate::text;
use crate::text::{
    append_chars, append_number, chars_of, find, is_text, list_has, lower, parse_number, same,
    same_str, split_at_char, split_lines, split_words, string_of, strip_prefix, trim, trim_end,
    utf8_text, Pattern,
};
use crate::util;
use crate::util::{host_without_port, percent_decode};

verus! {

/// The number of bytes without a blank line after which a request is given up.
pub const MAX_HEADER_BYTES: usize = 16384;

/// A list of names and values.
pub type Fields = Seq<(Seq<char>, Seq<char>)>;

/// The method of a request.
#[derive(Debug, PartialEq, Eq, Hash)]
pub enum Method {
    Get,
    Post,
    Delete,
    Other(String),
}

pub enum MethodView {
    Get,
    Post,
    Delete,
    Other(Seq<char>),
}

impl View for Method {
    type V = MethodView;

    open spec fn view(&self) -> MethodView {
        match self {
            Method::Get => MethodView::Get,
            Method::Post => MethodView::Post,
            Method::Delete => MethodView::Delete,
            Method::Other(token) => MethodView::Other(token@),
        }
    }
}

impl MethodView {
    /// The method that a token of a request line names.
    pub open spec fn of(token: Seq<char>) -> MethodView {
        if token == "GET"@ {
            MethodView::Get
        } else if token == "POST"@ {
            MethodView::Post
        } else if token == "DELETE"@ {
            MethodView::Delete
        } else {
            MethodView::Other(token)
        }
    }

    /// The token that names the method.
    pub open spec fn token(self) -> Seq<char> {
        match self {
            MethodView::Get => "GET"@,
            MethodView::Post => "POST"@,
            MethodView::Delete => "DELETE"@,
            MethodView::Other(token) => token,
        }
    }
}

impl Clone for Method {
    fn clone(&self) -> (r: Self)
        ensures
            r@ == self@,
    {
        match self {
            Method::Get => Method::Get,
            Method::Post => Method::Post,
            Method::Delete => Method::Delete,
            Method::Other(token) => Method::Other(token.clone()),
        }
    }
}

impl Method {
    /// The method that a token of a request line names.
    pub fn from_token(token: &str) -> (r: Self)
        ensures
            r@ == MethodView::of(token@),
    {
        if same_str(token, "GET") {
            Method::Get
        } else if same_str(token, "POST") {
            Method::Post
        } else if same_str(token, "DELETE") {
            Method::Delete
        } else {
            Method::Other(token.to_owned())
        }
    }

    /// The token that names the method.
    pub fn name(&self) -> (r: String)
        ensures
            r@ == self@.token(),
    {
        match self {
            Method::Get => "GET".to_owned(),
            Method::Post => "POST".to_owned(),
            Method::Delete => "DELETE".to_owned(),
            Method::Other(token) => token.clone(),
        }
    }

    /// Whether the two are the same method.
    pub fn same(&self, other: &Method) -> (b: bool)
        ensures
            b == (self@ == other@),
    {
        match (self, other) {
            (Method::Get, Method::Get) => true,
            (Method::Post, Method::Post) => true,
            (Method::Delete, Method::Delete) => true,
            (Method::Other(a), Method::Other(b)) => same_str(a.as_str(), b.as_str()),
            _ => false,
        }
    }
}

/// The index of the first field of the name, or the length where there is none.
pub open spec fn field_index(fields: Fields, name: Seq<char>) -> int
    decreases fields.len(),
{
    if fields.len() == 0 || fields[0].0 == name {
        0
    } else {
        1 + field_index(fields.drop_first(), name)
    }
}

/// The value of the field of the name.
pub open spec fn field_value(fields: Fields, name: Seq<char>) -> Option<Seq<char>> {
    let i = field_index(fields, name);
    if i < fields.len() {
        Some(fields[i].1)
    } else {
        None
    }
}

/// The fields after one more line of the name: a further value goes behind the ones
/// before it, with a comma between.
pub open spec fn with_line(fields: Fields, name: Seq<char>, value: Seq<char>) -> Fields {
    let i = field_index(fields, name);
    if i < fields.len() {
        fields.update(i, (fields[i].0, fields[i].1 + ", "@ + value))
    } else {
        fields.push((name, value))
    }
}

/// No two fields have the same name.
pub open spec fn names_distinct(fields: Fields) -> bool {
    forall|i: int, j: int|
        0 <= i < j < fields.len() ==> (#[trigger] fields[i]).0 != (#[trigger] fields[j]).0
}

/// The texts of a list of names and values.
pub open spec fn fields_of(list: Seq<(String, String)>) -> Fields {
    list.map_values(|field: (String, String)| (field.0@, field.1@))
}

pub proof fn lemma_field_index_is(fields: Fields, name: Seq<char>, i: int)
    requires
        0 <= i <= fields.len(),
        forall|j: int| 0 <= j < i ==> (#[trigger] fields[j]).0 != name,
        i < fields.len() ==> fields[i].0 == name,
    ensures
        field_index(fields, name) == i,
    decreases fields.len(),
{
    if i > 0 {
        assert(fields[0].0 != name);
        let rest = fields.drop_first();
        assert forall|j: int| 0 <= j < i - 1 implies (#[trigger] rest[j]).0 != name by {
            assert(rest[j] == fields[j + 1]);
        }
        lemma_field_index_is(rest, name, i - 1);
    }
}

pub proof fn lemma_field_index(fields: Fields, name: Seq<char>)
    ensures
        0 <= field_index(fields, name) <= fields.len(),
        forall|j: int| 0 <= j < field_index(fields, name) ==> (#[trigger] fields[j]).0 != name,
        field_index(fields, name) < fields.len() ==> fields[field_index(fields, name)].0 == name,
    decreases fields.len(),
{
    if fields.len() > 0 && fields[0].0 != name {
        let rest = fields.drop_first();
        lemma_field_index(rest, name);
        assert forall|j: int| 0 <= j < field_index(fields, name) implies (
        #[trigger] fields[j]).0 != name by {
            if j > 0 {
                assert(fields[j] == rest[j - 1]);
            }
        }
    }
}

/// The header fields of a request, each under its own name.
#[derive(Debug)]
pub struct HeaderMap {
    fields: Vec<(String, String)>,
}

impl View for HeaderMap {
    type V = Fields;

    closed spec fn view(&self) -> Fields {
        fields_of(self.fields@)
    }
}

impl HeaderMap {
    /// No two fields have the same name.
    pub open spec fn wf(&self) -> bool {
        names_distinct(self@)
    }

    pub fn new() -> (r: Self)
        ensures
            r@ == Fields::empty(),
            r.wf(),
    {
        let r = HeaderMap { fields: Vec::new() };
        assert(r@ == Fields::empty());
        r
    }

    fn index_of(&self, name: &[char]) -> (i: usize)
        ensures
            i == field_index(self@, name@),
            i <= self.fields@.len(),
    {
        for i in 0..self.fields.len()
            invariant
                forall|j: int| 0 <= j < i ==> (#[trigger] self@[j]).0 != name@,
        {
            let key = chars_of(self.fields[i].0.as_str());
            assert(self@[i as int].0 == key@);
            if same(key.as_slice(), name) {
                proof {
                    lemma_field_index_is(self@, name@, i as int);
                }
                return i;
            }
        }
        proof {
            lemma_field_index_is(self@, name@, self@.len() as int);
        }
        self.fields.len()
    }

    /// The value of the field of the name.
    pub fn get(&self, name: &[char]) -> (r: Option<&str>)
        ensures
            match r {
                Some(value) => field_value(self@, name@) == Some(value@),
                None => field_value(self@, name@) is None,
            },
    {
        let i: usize = self.index_of(name);
        if i < self.fields.len() {
            assert(self@[i as int].1 == self.fields@[i as int].1@);
            Some(self.fields[i].1.as_str())
        } else {
            None
        }
    }

    /// Adds one more line of the name.
    pub fn append(&mut self, name: &[char], value: &[char])
        ensures
            final(self)@ == with_line(old(self)@, name@, value@),
            old(self).wf() ==> final(self).wf(),
    {
        let i: usize = self.index_of(name);
        let ghost before = self@;
        proof {
            lemma_field_index(before, name@);
        }
        if i < self.fields.len() {
            let mut joined = self.fields[i].1.clone();
            joined.append(", ");
            append_chars(&mut joined, value);
            let key = self.fields[i].0.clone();
            self.fields.set(i, (key, joined));
            assert(self@ == with_line(before, name@, value@));
        } else {
            self.fields.push((string_of(name), string_of(value)));
            assert(self@ == with_line(before, name@, value@));
        }
    }

    /// The number of fields.
    pub fn len(&self) -> (n: usize)
        ensures
            n == self@.len(),
    {
        self.fields.len()
    }

    /// The field at the index: its name and its value.
    pub fn at(&self, i: usize) -> (r: (&str, &str))
        requires
            i < self@.len(),
        ensures
            self@[i as int] == (r.0@, r.1@),
    {
        (self.fields[i].0.as_str(), self.fields[i].1.as_str())
    }
}

/// A request.
#[derive(Debug)]
pub struct Request {
    pub method: Method,
    pub target: String,
    pub path: String,
    pub query: String,
    pub version: String,
    pub headers: HeaderMap,
    pub body: Vec<u8>,
}

pub struct RequestView {
    pub method: MethodView,
    pub target: Seq<char>,
    pub path: Seq<char>,
    pub query: Seq<char>,
    pub version: Seq<char>,
    pub headers: Fields,
    pub body: Seq<u8>,
}

impl View for Request {
    type V = RequestView;

    open spec fn view(&self) -> RequestView {
        RequestView {
            method: self.method@,
            target: self.target@,
            path: self.path@,
            query: self.query@,
            version: self.version@,
            headers: self.headers@,
            body: self.body@,
        }
    }
}

impl RequestView {
    /// The value of a header, whatever the case of the letters of its name.
    pub open spec fn header(self, name: Seq<char>) -> Option<Seq<char>> {
        field_value(self.headers, text::lowered(name))
    }

    /// The host that the request asks for, without the port.
    pub open spec fn host(self) -> Option<Seq<char>> {
        match self.header("host"@) {
            Some(value) => Some(util::hostname(value)),
            None => None,
        }
    }

    /// Whether the header `Connection` lists the token.
    pub open spec fn connection_lists(self, token: Seq<char>) -> bool {
        match self.header("connection"@) {
            Some(value) => text::lists(text::lowered(value), token),
            None => false,
        }
    }

    /// Whether the connection ends with the answer to this request: in HTTP/1.0 unless
    /// the request asks to keep it, in HTTP/1.1 if the request asks to close it.
    pub open spec fn should_close(self) -> bool {
        if self.version == "HTTP/1.0"@ {
            !self.connection_lists("keep-alive"@)
        } else {
            self.connection_lists("close"@)
        }
    }
}

impl Request {
    /// The value of a header, whatever the case of the letters of its name.
    pub fn header(&self, name: &str) -> (r: Option<&str>)
        ensures
            match r {
                Some(value) => self@.header(name@) == Some(value@),
                None => self@.header(name@) is None,
            },
    {
        let chars = chars_of(name);
        let key = lower(chars.as_slice());
        self.headers.get(key.as_slice())
    }

    /// The host that the request asks for, without the port.
    pub fn host(&self) -> (r: Option<String>)
        ensures
            match r {
                Some(host) => self@.host() == Some(host@),
                None => self@.host() is None,
            },
    {
        match self.header("host") {
            Some(value) => Some(host_without_port(value)),
            None => None,
        }
    }

    fn connection_has(&self, token: &str) -> (b: bool)
        ensures
            b == self@.connection_lists(token@),
    {
        match self.header("connection") {
            Some(value) => {
                let chars = chars_of(value);
                let low = lower(chars.as_slice());
                list_has(low.as_slice(), token)
            },
            None => false,
        }
    }

    /// Whether the connection ends with the answer to this request.
    pub fn should_close_connection(&self) -> (b: bool)
        ensures
            b == self@.should_close(),
    {
        if same_str(self.version.as_str(), "HTTP/1.0") {
            !self.connection_has("keep-alive")
        } else {
            self.connection_has("close")
        }
    }
}

/// What the bytes received so far amount to.
pub enum ParseResult {
    /// A request, and the number of bytes that it took.
    Complete(Request, usize),
    Incomplete,
    BadRequest(String),
    TooLarge,
}

pub enum ParseView {
    Complete(RequestView, int),
    Incomplete,
    BadRequest(Seq<char>),
    TooLarge,
}

impl View for ParseResult {
    type V = ParseView;

    open spec fn view(&self) -> ParseView {
        match self {
            ParseResult::Complete(request, n) => ParseView::Complete(request@, *n as int),
            ParseResult::Incomplete => ParseView::Incomplete,
            ParseResult::BadRequest(message) => ParseView::BadRequest(message@),
            ParseResult::TooLarge => ParseView::TooLarge,
        }
    }
}

/// What a header line says.
pub enum LineView {
    Blank,
    Field(Seq<char>, Seq<char>),
    Invalid(Seq<char>),
}

/// What a header line says: a name and a value, with a colon between.
pub open spec fn header_line(line: Seq<char>) -> LineView {
    if line.len() == 0 {
        LineView::Blank
    } else {
        match text::split_once(line, ':') {
            Some(parts) => {
                let name = text::lowered(text::trimmed(parts.0));
                if name.len() == 0 {
                    LineView::Invalid("empty header name"@)
                } else {
                    LineView::Field(name, text::trimmed(parts.1))
                }
            },
            None => LineView::Invalid("invalid header line "@ + line),
        }
    }
}

/// The fields of header lines, or what is wrong with the first bad line.
pub open spec fn header_fields(lines: Seq<Seq<char>>) -> Result<Fields, Seq<char>>
    decreases lines.len(),
{
    if lines.len() == 0 {
        Ok(Fields::empty())
    } else {
        match header_fields(lines.drop_last()) {
            Ok(fields) => match header_line(lines.last()) {
                LineView::Blank => Ok(fields),
                LineView::Field(name, value) => Ok(with_line(fields, name, value)),
                LineView::Invalid(message) => Err(message),
            },
            Err(message) => Err(message),
        }
    }
}

/// The lines of the header block, each without the whitespace at its end.
pub open spec fn head_lines(block: Seq<char>) -> Seq<Seq<char>> {
    text::lines(block).map_values(
        |line: Seq<char>| text::trimmed_end(line, Pattern::Whitespace),
    )
}

/// The request line and the header fields.
pub struct HeadView {
    pub method: MethodView,
    pub target: Seq<char>,
    pub version: Seq<char>,
    pub headers: Fields,
}

/// What a request line says, given the fields of the lines after it.
pub open spec fn parsed_start(words: Seq<Seq<char>>, rest: Result<Fields, Seq<char>>) -> Result<
    HeadView,
    Seq<char>,
> {
    if words.len() == 0 {
        Err("missing method"@)
    } else if words.len() == 1 {
        Err("missing target"@)
    } else if words.len() == 2 {
        Err("missing HTTP version"@)
    } else if words[2] != "HTTP/1.0"@ && words[2] != "HTTP/1.1"@ {
        Err("unsupported HTTP version "@ + words[2])
    } else if words.len() > 3 {
        Err("request line has too many fields"@)
    } else {
        match rest {
            Ok(headers) => if words[2] == "HTTP/1.1"@ && field_value(headers, "host"@) is None {
                Err("HTTP/1.1 requests require a Host header"@)
            } else {
                Ok(
                    HeadView {
                        method: MethodView::of(words[0]),
                        target: words[1],
                        version: words[2],
                        headers,
                    },
                )
            },
            Err(message) => Err(message),
        }
    }
}

/// The request line and the header fields of a header block, or what is wrong with it.
pub open spec fn parsed_head(block: Seq<u8>) -> Result<HeadView, Seq<char>> {
    if !valid_utf8(block) {
        Err("headers are not valid UTF-8"@)
    } else {
        let lines = head_lines(decode_utf8(block));
        if lines.len() == 0 || lines[0].len() == 0 {
            Err("missing request line"@)
        } else {
            parsed_start(text::words(lines[0]), header_fields(lines.drop_first()))
        }
    }
}

/// What the bytes after the header block amount to.
pub enum BodyView {
    /// The body, and the number of bytes that it took.
    Complete(Seq<u8>, int),
    Incomplete,
    BadRequest(Seq<char>),
    TooLarge,
}

impl BodyView {
    /// The same after more of the body, and more bytes, in front.
    pub open spec fn after(self, body: Seq<u8>, n: int) -> BodyView {
        match self {
            BodyView::Complete(rest, m) => BodyView::Complete(body + rest, n + m),
            _ => self,
        }
    }
}

/// The size that a chunk line gives, in hexadecimal before any semicolon.
pub open spec fn chunk_size(line: Seq<u8>) -> Option<int> {
    if valid_utf8(line) {
        let all = decode_utf8(line);
        text::number_up_to(
            text::trimmed(all.take(text::position(all, Pattern::Char(';')))),
            16,
            usize::MAX as int,
        )
    } else {
        None
    }
}

/// The number of bytes from the line of the last chunk to the end of the body: a line
/// ending, or trailer lines and the blank line after them.
pub open spec fn trailer_len(s: Seq<u8>) -> Option<int> {
    if bytes::newline_len(s) > 0 {
        Some(bytes::newline_len(s))
    } else {
        match bytes::header_end(s) {
            Some(end) => Some(end.0 + end.1),
            None => None,
        }
    }
}

/// Whether a body of `have` bytes and `size` more is over the limit. The sum saturates,
/// so the largest limit of all is never exceeded.
pub open spec fn over_limit(have: int, size: int, max: int) -> bool {
    have + size > max && max < usize::MAX
}

/// What the bytes of a chunked body amount to, after `have` bytes of body.
pub open spec fn chunked_body(s: Seq<u8>, have: int, max: int) -> BodyView
    decreases s.len(),
    via chunked_body_decreases
{
    match bytes::line_end(s) {
        None => BodyView::Incomplete,
        Some(end) => {
            let start = end.0 + end.1;
            let rest = s.skip(start);
            match chunk_size(s.take(end.0)) {
                None => BodyView::BadRequest("invalid chunk size"@),
                Some(size) => if size == 0 {
                    match trailer_len(rest) {
                        Some(n) => BodyView::Complete(seq![], start + n),
                        None => BodyView::Incomplete,
                    }
                } else if over_limit(have, size, max) {
                    BodyView::TooLarge
                } else if rest.len() <= size {
                    BodyView::Incomplete
                } else {
                    let n = bytes::newline_len(rest.skip(size));
                    if n == 0 {
                        BodyView::BadRequest("chunk data is not followed by a newline"@)
                    } else {
                        chunked_body(rest.skip(size + n), have + size, max).after(
                            rest.take(size),
                            start + size + n,
                        )
                    }
                },
            }
        },
    }
}

#[via_fn]
proof fn chunked_body_decreases(s: Seq<u8>, have: int, max: int) {
    bytes::lemma_line_end(s);
    if let Some(end) = bytes::line_end(s) {
        if let Some(size) = chunk_size(s.take(end.0)) {
            lemma_chunk_size(s.take(end.0));
        }
    }
}

pub proof fn lemma_chunk_size(line: Seq<u8>)
    ensures
        chunk_size(line) matches Some(size) ==> 0 <= size <= usize::MAX,
{
    if valid_utf8(line) {
        let all = decode_utf8(line);
        text::lemma_number(
            text::trimmed(all.take(text::position(all, Pattern::Char(';')))),
            16,
        );
    }
}

/// Whether the header `Transfer-Encoding` lists `chunked`.
pub open spec fn is_chunked(headers: Fields) -> bool {
    match field_value(headers, "transfer-encoding"@) {
        Some(value) => text::lists(text::lowered(value), "chunked"@),
        None => false,
    }
}

/// What the bytes after the header block amount to.
pub open spec fn framed_body(headers: Fields, s: Seq<u8>, max: int) -> BodyView {
    if is_chunked(headers) {
        chunked_body(s, 0, max)
    } else {
        let length = match field_value(headers, "content-length"@) {
            Some(value) => text::number_up_to(value, 10, usize::MAX as int),
            None => Some(0),
        };
        match length {
            None => BodyView::BadRequest("invalid Content-Length"@),
            Some(n) => if n > max {
                BodyView::TooLarge
            } else if s.len() < n {
                BodyView::Incomplete
            } else {
                BodyView::Complete(s.take(n), n)
            },
        }
    }
}

/// A request target without the scheme and the host that may stand before its path.
pub open spec fn origin_form(target: Seq<char>) -> Seq<char> {
    if "http://"@.is_prefix_of(target) {
        let rest = target.skip("http://"@.len() as int);
        let i = text::position(rest, Pattern::Char('/'));
        if i < rest.len() {
            rest.skip(i)
        } else {
            "/"@
        }
    } else {
        target
    }
}

/// The decoded path and the query of a request target, or what is wrong with it.
pub open spec fn parsed_target(target: Seq<char>) -> Result<(Seq<char>, Seq<char>), Seq<char>> {
    let origin = origin_form(target);
    let parts = match text::split_once(origin, '?') {
        Some(parts) => parts,
        None => (origin, seq![]),
    };
    if parts.0.len() == 0 || parts.0[0] != '/' {
        Err("request target must be an absolute path"@)
    } else {
        match util::percent_decoded(parts.0) {
            Some(path) => Ok((path, parts.1)),
            None => Err("request target contains invalid percent encoding"@),
        }
    }
}

/// Why a chunked body is refused.
pub enum ChunkError {
    BadRequest(String),
    TooLarge,
}

/// The outcome of decoding a chunked body.
pub open spec fn chunk_outcome(r: Result<Option<(Vec<u8>, usize)>, ChunkError>) -> BodyView {
    match r {
        Ok(Some(done)) => BodyView::Complete(done.0@, done.1 as int),
        Ok(None) => BodyView::Incomplete,
        Err(ChunkError::BadRequest(message)) => BodyView::BadRequest(message@),
        Err(ChunkError::TooLarge) => BodyView::TooLarge,
    }
}

/// What the bytes received so far amount to, with a limit on the size of the body.
pub open spec fn parsed_request(buffer: Seq<u8>, max: int) -> ParseView {
    match bytes::header_end(buffer) {
        None => if buffer.len() > MAX_HEADER_BYTES {
            ParseView::BadRequest("request headers are too large"@)
        } else {
            ParseView::Incomplete
        },
        Some(end) => {
            let start = end.0 + end.1;
            match parsed_head(buffer.take(end.0)) {
                Err(message) => ParseView::BadRequest(message),
                Ok(head) => match framed_body(head.headers, buffer.skip(start), max) {
                    BodyView::Incomplete => ParseView::Incomplete,
                    BodyView::BadRequest(message) => ParseView::BadRequest(message),
                    BodyView::TooLarge => ParseView::TooLarge,
                    BodyView::Complete(body, n) => match parsed_target(head.target) {
                        Err(message) => ParseView::BadRequest(message),
                        Ok(parts) => ParseView::Complete(
                            RequestView {
                                method: head.method,
                                target: head.target,
                                path: parts.0,
                                query: parts.1,
                                version: head.version,
                                headers: head.headers,
                                body,
                            },
                            start + n,
                        ),
                    },
                },
            }
        },
    }
}

/// A bad line stays the outcome, whatever lines follow it.
proof fn lemma_header_fields_err(lines: Seq<Seq<char>>, n: int)
    requires
        0 <= n <= lines.len(),
        header_fields(lines.take(n)) is Err,
    ensures
        header_fields(lines) == header_fields(lines.take(n)),
    decreases lines.len(),
{
    if n < lines.len() {
        assert(lines.drop_last().take(n) == lines.take(n));
        lemma_header_fields_err(lines.drop_last(), n);
    } else {
        assert(lines.take(n) == lines);
    }
}

/// The fields of the header lines after the first line.
fn parse_headers(lines: &Vec<&[char]>) -> (r: Result<HeaderMap, String>)
    requires
        lines@.len() > 0,
    ensures
        match r {
            Ok(map) => header_fields(text::texts(lines@).drop_first()) == Ok::<Fields, Seq<char>>(
                map@,
            ) && map.wf(),
            Err(message) => header_fields(text::texts(lines@).drop_first()) == Err::<
                Fields,
                Seq<char>,
            >(message@),
        },
{
    let ghost all = text::texts(lines@).drop_first();
    let mut map = HeaderMap::new();
    assert(all.take(0) == Seq::<Seq<char>>::empty());
    let mut i: usize = 1;
    while i < lines.len()
        invariant
            1 <= i <= lines@.len(),
            all == text::texts(lines@).drop_first(),
            header_fields(all.take(i - 1)) == Ok::<Fields, Seq<char>>(map@),
            map.wf(),
        decreases lines@.len() - i,
    {
        let line = lines[i];
        proof {
            assert(all[i - 1] == line@);
            assert(all.take(i as int).drop_last() == all.take(i - 1));
            assert(all.take(i as int).last() == line@);
        }
        if line.len() > 0 {
            match split_at_char(line, ':') {
                Some((name, value)) => {
                    let name = lower(trim(name));
                    if name.len() == 0 {
                        proof {
                            lemma_header_fields_err(all, i as int);
                        }
                        return Err("empty header name".to_owned());
                    }
                    map.append(name.as_slice(), trim(value));
                },
                None => {
                    let mut message = "invalid header line ".to_owned();
                    append_chars(&mut message, line);
                    proof {
                        lemma_header_fields_err(all, i as int);
                    }
                    return Err(message);
                },
            }
        }
        i += 1;
    }
    assert(all.take(all.len() as int) == all);
    Ok(map)
}

/// The request line and the header fields.
struct Head {
    method: Method,
    target: String,
    version: String,
    headers: HeaderMap,
}

impl View for Head {
    type V = HeadView;

    closed spec fn view(&self) -> HeadView {
        HeadView {
            method: self.method@,
            target: self.target@,
            version: self.version@,
            headers: self.headers@,
        }
    }
}

/// The request line and the header fields of a header block, or what is wrong with it.
fn parse_head(block: &[u8]) -> (r: Result<Head, String>)
    ensures
        match r {
            Ok(head) => parsed_head(block@) == Ok::<HeadView, Seq<char>>(head@)
                && head.headers.wf(),
            Err(message) => parsed_head(block@) == Err::<HeadView, Seq<char>>(message@),
        },
{
    let block_text = match utf8_text(block) {
        Some(block_text) => block_text,
        None => {
            return Err("headers are not valid UTF-8".to_owned());
        },
    };
    let chars = chars_of(block_text);
    let raw = split_lines(chars.as_slice());
    let mut lines: Vec<&[char]> = Vec::new();
    let ghost cut = |line: Seq<char>| text::trimmed_end(line, Pattern::Whitespace);
    for i in 0..raw.len()
        invariant
            cut == (|line: Seq<char>| text::trimmed_end(line, Pattern::Whitespace)),
            text::texts(lines@) == text::texts(raw@).take(i as int).map_values(cut),
    {
        let ghost before = lines@;
        lines.push(trim_end(raw[i], Pattern::Whitespace));
        assert(text::texts(lines@) == text::texts(before).push(cut(text::texts(raw@)[i as int])));
        assert(text::texts(raw@).take(i + 1).map_values(cut) == text::texts(raw@).take(
            i as int,
        ).map_values(cut).push(cut(text::texts(raw@)[i as int])));
    }
    assert(text::texts(raw@).take(raw@.len() as int) == text::texts(raw@));
    assert(text::texts(lines@) == head_lines(decode_utf8(block@)));
    if lines.len() == 0 {
        return Err("missing request line".to_owned());
    }
    assert(text::texts(lines@)[0] == lines@[0]@);
    if lines[0].len() == 0 {
        return Err("missing request line".to_owned());
    }
    let words = split_words(lines[0]);
    let ghost all = text::words(lines@[0]@);
    assert(all == text::texts(words@));
    if words.len() == 0 {
        return Err("missing method".to_owned());
    }
    assert(all[0] == words@[0]@);
    if words.len() == 1 {
        return Err("missing target".to_owned());
    }
    assert(all[1] == words@[1]@);
    if words.len() == 2 {
        return Err("missing HTTP version".to_owned());
    }
    assert(all[2] == words@[2]@);
    let modern = is_text(words[2], "HTTP/1.1");
    if !modern && !is_text(words[2], "HTTP/1.0") {
        let mut message = "unsupported HTTP version ".to_owned();
        append_chars(&mut message, words[2]);
        return Err(message);
    }
    if words.len() > 3 {
        return Err("request line has too many fields".to_owned());
    }
    let headers = match parse_headers(&lines) {
        Ok(headers) => headers,
        Err(message) => {
            return Err(message);
        },
    };
    if modern {
        let host = chars_of("host");
        if headers.get(host.as_slice()).is_none() {
            return Err("HTTP/1.1 requests require a Host header".to_owned());
        }
    }
    let method = string_of(words[0]);
    Ok(
        Head {
            method: Method::from_token(method.as_str()),
            target: string_of(words[1]),
            version: string_of(words[2]),
            headers,
        },
    )
}

/// The size that a chunk line gives.
fn parse_chunk_size(line: &[u8]) -> (r: Option<usize>)
    ensures
        match r {
            Some(size) => chunk_size(line@) == Some(size as int),
            None => chunk_size(line@) is None,
        },
{
    match utf8_text(line) {
        Some(line_text) => {
            let chars = chars_of(line_text);
            let end: usize = find(chars.as_slice(), Pattern::Char(';'));
            let token = trim(slice_subrange(chars.as_slice(), 0, end));
            match parse_number(token, 16, usize::MAX as u64) {
                Some(size) => Some(size as usize),
                None => None,
            }
        },
        None => None,
    }
}

/// The number of bytes from the line of the last chunk to the end of the body.
fn find_trailer_end(s: &[u8]) -> (r: Option<usize>)
    ensures
        match r {
            Some(n) => trailer_len(s@) == Some(n as int) && n <= s@.len(),
            None => trailer_len(s@) is None,
        },
{
    let n: usize = leading_newline(s);
    if n > 0 {
        Some(n)
    } else {
        match find_header_end(s) {
            Some((end, separator)) => Some(end + separator),
            None => None,
        }
    }
}

/// Decodes a chunked body: the body and the number of bytes that it took, or nothing
/// where more bytes are needed.
pub fn decode_chunked(buffer: &[u8], max_body_size: usize) -> (r: Result<
    Option<(Vec<u8>, usize)>,
    ChunkError,
>)
    ensures
        chunk_outcome(r) == chunked_body(buffer@, 0, max_body_size as int),
        r matches Ok(Some(done)) ==> done.1 <= buffer@.len(),
{
    let mut position: usize = 0;
    let mut body: Vec<u8> = Vec::new();
    let ghost whole = chunked_body(buffer@, 0, max_body_size as int);
    assert(buffer@.skip(0) == buffer@);
    assert(forall|b: Seq<u8>| #[trigger] (Seq::<u8>::empty() + b) == b);
    loop
        invariant
            position <= buffer@.len(),
            body@.len() <= position,
            whole == chunked_body(buffer@, 0, max_body_size as int),
            whole == chunked_body(
                buffer@.skip(position as int),
                body@.len() as int,
                max_body_size as int,
            ).after(body@, position as int),
        decreases buffer@.len() - position,
    {
        let ghost s = buffer@.skip(position as int);
        let rest = slice_subrange(buffer, position, buffer.len());
        assert(rest@ == s);
        let (end, separator) = match find_line_end(rest) {
            Some(found) => found,
            None => {
                return Ok(None);
            },
        };
        let start: usize = end + separator;
        let line = slice_subrange(rest, 0, end);
        assert(line@ == s.take(end as int));
        let size: usize = match parse_chunk_size(line) {
            Some(size) => size,
            None => {
                return Err(ChunkError::BadRequest("invalid chunk size".to_owned()));
            },
        };
        let data = slice_subrange(rest, start, rest.len());
        assert(data@ == s.skip(start as int));
        if size == 0 {
            match find_trailer_end(data) {
                Some(n) => {
                    assert(body@ + Seq::<u8>::empty() == body@);
                    return Ok(Some((body, position + (start + n))));
                },
                None => {
                    return Ok(None);
                },
            }
        }
        if body.len().saturating_add(size) > max_body_size {
            return Err(ChunkError::TooLarge);
        }
        if data.len() <= size {
            return Ok(None);
        }
        let after = slice_subrange(data, size, data.len());
        assert(after@ == data@.skip(size as int));
        let newline: usize = leading_newline(after);
        if newline == 0 {
            return Err(
                ChunkError::BadRequest("chunk data is not followed by a newline".to_owned()),
            );
        }
        let chunk = slice_subrange(data, 0, size);
        let ghost before = body@;
        let ghost before_position = position as int;
        body.extend_from_slice(chunk);
        assert(body@ == before + chunk@);
        position = position + (start + size + newline);
        proof {
            assert(chunk@ == data@.take(size as int));
            assert(data@.skip(size + newline) == buffer@.skip(position as int));
            let tail = chunked_body(
                buffer@.skip(position as int),
                body@.len() as int,
                max_body_size as int,
            );
            assert(tail.after(chunk@, start + size + newline).after(before, before_position)
                == tail.after(body@, position as int)) by {
                if let BodyView::Complete(b, n) = tail {
                    assert(before + (chunk@ + b) == before + chunk@ + b);
                }
            }
        }
    }
}

/// The decoded path and the query of a request target, or what is wrong with it.
pub fn parse_target(target: &str) -> (r: Result<(String, String), String>)
    ensures
        match r {
            Ok(parts) => parsed_target(target@) == Ok::<(Seq<char>, Seq<char>), Seq<char>>(
                (parts.0@, parts.1@),
            ),
            Err(message) => parsed_target(target@) == Err::<(Seq<char>, Seq<char>), Seq<char>>(
                message@,
            ),
        },
{
    let chars = chars_of(target);
    let slash = chars_of("/");
    let origin: &[char] = match strip_prefix(chars.as_slice(), "http://") {
        Some(rest) => {
            let i: usize = find(rest, Pattern::Char('/'));
            if i < rest.len() {
                slice_subrange(rest, i, rest.len())
            } else {
                slash.as_slice()
            }
        },
        None => chars.as_slice(),
    };
    assert(origin@ == origin_form(target@));
    let none = slice_subrange(origin, 0, 0);
    assert(none@ == Seq::<char>::empty());
    let (raw_path, query) = match split_at_char(origin, '?') {
        Some(parts) => parts,
        None => (origin, none),
    };
    if raw_path.len() == 0 || raw_path[0] != '/' {
        return Err("request target must be an absolute path".to_owned());
    }
    let raw = string_of(raw_path);
    match percent_decode(raw.as_str()) {
        Some(path) => Ok((path, string_of(query))),
        None => Err("request target contains invalid percent encoding".to_owned()),
    }
}

/// Reads a request from the bytes received so far.
pub fn parse_request(buffer: &[u8], max_body_size: usize) -> (r: ParseResult)
    ensures
        r@ == parsed_request(buffer@, max_body_size as int),
        r matches ParseResult::Complete(request, n) ==> n <= buffer@.len()
            && request.headers.wf(),
{
    let (end, separator) = match find_header_end(buffer) {
        Some(found) => found,
        None => {
            if buffer.len() > MAX_HEADER_BYTES {
                return ParseResult::BadRequest("request headers are too large".to_owned());
            }
            return ParseResult::Incomplete;
        },
    };
    let start: usize = end + separator;
    let block = slice_subrange(buffer, 0, end);
    assert(block@ == buffer@.take(end as int));
    let head = match parse_head(block) {
        Ok(head) => head,
        Err(message) => {
            return ParseResult::BadRequest(message);
        },
    };
    let rest = slice_subrange(buffer, start, buffer.len());
    assert(rest@ == buffer@.skip(start as int));
    let encoding_name = chars_of("transfer-encoding");
    let chunked = match head.headers.get(encoding_name.as_slice()) {
        Some(value) => {
            let value = chars_of(value);
            let value = lower(value.as_slice());
            list_has(value.as_slice(), "chunked")
        },
        None => false,
    };
    let (body, consumed) = if chunked {
        match decode_chunked(rest, max_body_size) {
            Ok(Some(done)) => done,
            Ok(None) => {
                return ParseResult::Incomplete;
            },
            Err(ChunkError::BadRequest(message)) => {
                return ParseResult::BadRequest(message);
            },
            Err(ChunkError::TooLarge) => {
                return ParseResult::TooLarge;
            },
        }
    } else {
        let length_name = chars_of("content-length");
        let length: usize = match head.headers.get(length_name.as_slice()) {
            Some(value) => {
                let value = chars_of(value);
                match parse_number(value.as_slice(), 10, usize::MAX as u64) {
                    Some(length) => length as usize,
                    None => {
                        return ParseResult::BadRequest("invalid Content-Length".to_owned());
                    },
                }
            },
            None => 0,
        };
        if length > max_body_size {
            return ParseResult::TooLarge;
        }
        if rest.len() < length {
            return ParseResult::Incomplete;
        }
        (slice_to_vec(slice_subrange(rest, 0, length)), length)
    };
    let ghost framed = framed_body(head.headers@, rest@, max_body_size as int);
    assert(framed == BodyView::Complete(body@, consumed as int));
    match parse_target(head.target.as_str()) {
        Ok((path, query)) => ParseResult::Complete(
            Request {
                method: head.method,
                target: head.target,
                path,
                query,
                version: head.version,
                headers: head.headers,
                body,
            },
            start + consumed,
        ),
        Err(message) => ParseResult::BadRequest(message),
    }
}

/// A response.
#[derive(Debug)]
pub struct Response {
    pub status: u16,
    pub headers: Vec<(String, String)>,
    pub body: Vec<u8>,
}

pub struct ResponseView {
    pub status: u16,
    pub headers: Fields,
    pub body: Seq<u8>,
}

impl View for Response {
    type V = ResponseView;

    open spec fn view(&self) -> ResponseView {
        ResponseView {
            status: self.status,
            headers: fields_of(self.headers@),
            body: self.body@,
        }
    }
}

/// The index of the first header of the name, whatever the case of its letters, or the
/// length where there is none.
pub open spec fn header_index(headers: Fields, name: Seq<char>) -> int
    decreases headers.len(),
{
    if headers.len() == 0 || text::lowered(headers[0].0) == text::lowered(name) {
        0
    } else {
        1 + header_index(headers.drop_first(), name)
    }
}

/// The headers with one set: its value replaced where it stands, added at the end
/// where it does not.
pub open spec fn with_header(headers: Fields, name: Seq<char>, value: Seq<char>) -> Fields {
    let i = header_index(headers, name);
    if i < headers.len() {
        headers.update(i, (headers[i].0, value))
    } else {
        headers.push((name, value))
    }
}

/// The header lines of a response, each with its ending.
pub open spec fn header_block(headers: Fields) -> Seq<char>
    decreases headers.len(),
{
    if headers.len() == 0 {
        seq![]
    } else {
        header_block(headers.drop_last()) + headers.last().0 + ": "@ + headers.last().1 + "\r\n"@
    }
}

impl ResponseView {
    pub open spec fn new(status: u16, body: Seq<u8>) -> ResponseView {
        ResponseView { status, headers: Fields::empty(), body }
    }

    /// A response with a text and its content type.
    pub open spec fn typed(status: u16, body: Seq<char>, content_type: Seq<char>) -> ResponseView {
        ResponseView::new(status, encode_utf8(body)).with("Content-Type"@, content_type)
    }

    pub open spec fn text(status: u16, body: Seq<char>) -> ResponseView {
        ResponseView::typed(status, body, "text/plain; charset=utf-8"@)
    }

    pub open spec fn html(status: u16, body: Seq<char>) -> ResponseView {
        ResponseView::typed(status, body, "text/html; charset=utf-8"@)
    }

    /// The response with a header set.
    pub open spec fn with(self, name: Seq<char>, value: Seq<char>) -> ResponseView {
        ResponseView { headers: with_header(self.headers, name, value), ..self }
    }

    /// Whether a header is set, whatever the case of the letters of its name.
    pub open spec fn has(self, name: Seq<char>) -> bool {
        header_index(self.headers, name) < self.headers.len()
    }

    /// The text before the body: the status line, the headers that every response has,
    /// the headers of this one, and a blank line.
    pub open spec fn head(self, close: bool) -> Seq<char> {
        "HTTP/1.1 "@ + text::decimal(self.status as nat) + " "@ + reason(self.status) + "\r\n"@
            + "Server: localhost-rust\r\n"@ + "Content-Length: "@ + text::decimal(self.body.len())
            + "\r\n"@ + (if !self.has("Content-Type"@) && self.status != 204 {
            "Content-Type: application/octet-stream\r\n"@
        } else {
            Seq::empty()
        }) + (if close {
            "Connection: close\r\n"@
        } else {
            "Connection: keep-alive\r\n"@
        }) + header_block(self.headers) + "\r\n"@
    }

    /// The bytes that go over the connection.
    pub open spec fn bytes(self, close: bool) -> Seq<u8> {
        encode_utf8(self.head(close)) + self.body
    }
}

pub proof fn lemma_header_index(headers: Fields, name: Seq<char>)
    ensures
        0 <= header_index(headers, name) <= headers.len(),
        forall|j: int|
            0 <= j < header_index(headers, name) ==> text::lowered((#[trigger] headers[j]).0)
                != text::lowered(name),
        header_index(headers, name) < headers.len() ==> text::lowered(
            headers[header_index(headers, name)].0,
        ) == text::lowered(name),
    decreases headers.len(),
{
    if headers.len() > 0 && text::lowered(headers[0].0) != text::lowered(name) {
        let rest = headers.drop_first();
        lemma_header_index(rest, name);
        assert forall|j: int| 0 <= j < header_index(headers, name) implies text::lowered(
            (#[trigger] headers[j]).0,
        ) != text::lowered(name) by {
            if j > 0 {
                assert(headers[j] == rest[j - 1]);
            }
        }
    }
}

pub proof fn lemma_header_index_is(headers: Fields, name: Seq<char>, i: int)
    requires
        0 <= i <= headers.len(),
        forall|j: int|
            0 <= j < i ==> text::lowered((#[trigger] headers[j]).0) != text::lowered(name),
        i < headers.len() ==> text::lowered(headers[i].0) == text::lowered(name),
    ensures
        header_index(headers, name) == i,
    decreases headers.len(),
{
    if i > 0 {
        assert(text::lowered(headers[0].0) != text::lowered(name));
        let rest = headers.drop_first();
        assert forall|j: int| 0 <= j < i - 1 implies text::lowered((#[trigger] rest[j]).0)
            != text::lowered(name) by {
            assert(rest[j] == headers[j + 1]);
        }
        lemma_header_index_is(rest, name, i - 1);
    }
}

impl Response {
    pub fn new(status: u16, body: Vec<u8>) -> (r: Self)
        ensures
            r@ == ResponseView::new(status, body@),
    {
        let r = Response { status, headers: Vec::new(), body };
        assert(fields_of(r.headers@) == Fields::empty());
        r
    }

    fn typed(status: u16, body: &str, content_type: &str) -> (r: Self)
        ensures
            r@ == ResponseView::typed(status, body@, content_type@),
    {
        let mut r = Response::new(status, slice_to_vec(body.as_bytes()));
        r.set_header("Content-Type", content_type);
        r
    }

    /// A response of plain text.
    pub fn text(status: u16, body: &str) -> (r: Self)
        ensures
            r@ == ResponseView::text(status, body@),
    {
        Response::typed(status, body, "text/plain; charset=utf-8")
    }

    /// A response of HTML.
    pub fn html(status: u16, body: &str) -> (r: Self)
        ensures
            r@ == ResponseView::html(status, body@),
    {
        Response::typed(status, body, "text/html; charset=utf-8")
    }

    /// A response without a body.
    pub fn empty(status: u16) -> (r: Self)
        ensures
            r@ == ResponseView::new(status, Seq::empty()),
    {
        Response::new(status, Vec::new())
    }

    fn index_of(&self, name: &str) -> (i: usize)
        ensures
            i == header_index(self@.headers, name@),
            i <= self.headers@.len(),
    {
        let chars = chars_of(name);
        let wanted = lower(chars.as_slice());
        for i in 0..self.headers.len()
            invariant
                wanted@ == text::lowered(name@),
                forall|j: int|
                    0 <= j < i ==> text::lowered((#[trigger] self@.headers[j]).0) != wanted@,
        {
            let key = chars_of(self.headers[i].0.as_str());
            let key = lower(key.as_slice());
            assert(text::lowered(self@.headers[i as int].0) == key@);
            if same(key.as_slice(), wanted.as_slice()) {
                proof {
                    lemma_header_index_is(self@.headers, name@, i as int);
                }
                return i;
            }
        }
        proof {
            lemma_header_index_is(self@.headers, name@, self@.headers.len() as int);
        }
        self.headers.len()
    }

    /// Sets a header: replaces its value where it stands, adds it at the end where it
    /// does not.
    pub fn set_header(&mut self, name: &str, value: &str)
        ensures
            final(self)@ == old(self)@.with(name@, value@),
    {
        let ghost before = self@;
        let i: usize = self.index_of(name);
        if i < self.headers.len() {
            let key = self.headers[i].0.clone();
            self.headers.set(i, (key, value.to_owned()));
        } else {
            self.headers.push((name.to_owned(), value.to_owned()));
        }
        assert(self@.headers == with_header(before.headers, name@, value@));
    }

    /// Whether a header is set, whatever the case of the letters of its name.
    pub fn has_header(&self, name: &str) -> (b: bool)
        ensures
            b == self@.has(name@),
    {
        self.index_of(name) < self.headers.len()
    }

    /// The bytes that go over the connection.
    pub fn to_bytes(&self, close_connection: bool) -> (r: Vec<u8>)
        ensures
            r@ == self@.bytes(close_connection),
    {
        let mut head = String::new();
        head.append("HTTP/1.1 ");
        append_number(&mut head, self.status as u64, 10);
        head.append(" ");
        head.append(status_text(self.status));
        head.append("\r\n");
        head.append("Server: localhost-rust\r\n");
        head.append("Content-Length: ");
        append_number(&mut head, self.body.len() as u64, 10);
        head.append("\r\n");
        if !self.has_header("Content-Type") && self.status != 204 {
            head.append("Content-Type: application/octet-stream\r\n");
        }
        if close_connection {
            head.append("Connection: close\r\n");
        } else {
            head.append("Connection: keep-alive\r\n");
        }
        let ghost before = head@;
        let ghost fields = self@.headers;
        assert(header_block(fields.take(0)) == Seq::<char>::empty());
        for i in 0..self.headers.len()
            invariant
                fields == self@.headers,
                head@ == before + header_block(fields.take(i as int)),
        {
            let ghost done = header_block(fields.take(i as int));
            head.append(self.headers[i].0.as_str());
            head.append(": ");
            head.append(self.headers[i].1.as_str());
            head.append("\r\n");
            proof {
                assert(fields.take(i + 1).drop_last() == fields.take(i as int));
                assert(fields.take(i + 1).last() == fields[i as int]);
                assert(head@ == before + (done + fields[i as int].0 + ": "@ + fields[i as int].1
                    + "\r\n"@));
            }
        }
        assert(fields.take(fields.len() as int) == fields);
        head.append("\r\n");
        assert(head@ == self@.head(close_connection));
        let mut out = slice_to_vec(head.as_str().as_bytes());
        out.extend_from_slice(self.body.as_slice());
        assert(out@ == self@.bytes(close_connection));
        out
    }
}

/// The reason phrase of a status.
pub open spec fn reason(status: u16) -> Seq<char> {
    if status == 200 {
        "OK"@
    } else if status == 201 {
        "Created"@
    } else if status == 204 {
        "No Content"@
    } else if status == 301 {
        "Moved Permanently"@
    } else if status == 302 {
        "Found"@
    } else if status == 303 {
        "See Other"@
    } else if status == 307 {
        "Temporary Redirect"@
    } else if status == 308 {
        "Permanent Redirect"@
    } else if status == 400 {
        "Bad Request"@
    } else if status == 403 {
        "Forbidden"@
    } else if status == 404 {
        "Not Found"@
    } else if status == 405 {
        "Method Not Allowed"@
    } else if status == 408 {
        "Request Timeout"@
    } else if status == 413 {
        "Payload Too Large"@
    } else if status == 500 {
        "Internal Server Error"@
    } else if status == 504 {
        "Gateway Timeout"@
    } else {
        "Unknown"@
    }
}

/// The reason phrase of a status.
pub fn status_text(status: u16) -> (r: &'static str)
    ensures
        r@ == reason(status),
{
    match status {
        200 => "OK",
        201 => "Created",
        204 => "No Content",
        301 => "Moved Permanently",
        302 => "Found",
        303 => "See Other",
        307 => "Temporary Redirect",
        308 => "Permanent Redirect",
        400 => "Bad Request",
        403 => "Forbidden",
        404 => "Not Found",
        405 => "Method Not Allowed",
        408 => "Request Timeout",
        413 => "Payload Too Large",
        500 => "Internal Server Error",
        504 => "Gateway Timeout",
        _ => "Unknown",
    }
}

} // verus!
