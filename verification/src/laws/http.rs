//! What holds of requests as they are read, and of responses as they are written.
use vstd::prelude::*;
use vstd::utf8::*;

use crate::bytes;
use crate::http;
use crate::http::{BodyView, Fields, ParseView, RequestView, ResponseView};
use crate::text;
use crate::text::Pattern;
use crate::util;

verus! {

pub proof fn lemma_body_bounds(s: Seq<u8>, have: int, max: int)
    requires
        have >= 0,
    ensures
        http::chunked_body(s, have, max) matches BodyView::Complete(body, n) ==> 0 < n <= s.len()
            && (max < usize::MAX && have <= max ==> have + body.len() <= max),
    decreases s.len(),
{
    bytes::lemma_line_end(s);
    if let Some(end) = bytes::line_end(s) {
        let start = end.0 + end.1;
        let rest = s.skip(start);
        if let Some(size) = http::chunk_size(s.take(end.0)) {
            http::lemma_chunk_size(s.take(end.0));
            if size == 0 {
                bytes::lemma_header_end(rest);
            } else if !http::over_limit(have, size, max) && rest.len() > size {
                let n = bytes::newline_len(rest.skip(size));
                if n > 0 {
                    lemma_body_bounds(rest.skip(size + n), have + size, max);
                }
            }
        }
    }
}

proof fn lemma_fields_distinct(lines: Seq<Seq<char>>)
    ensures
        http::header_fields(lines) matches Ok(fields) ==> http::names_distinct(fields),
    decreases lines.len(),
{
    if lines.len() > 0 {
        lemma_fields_distinct(lines.drop_last());
        if let Ok(fields) = http::header_fields(lines.drop_last()) {
            if let http::LineView::Field(name, value) = http::header_line(lines.last()) {
                http::lemma_field_index(fields, name);
            }
        }
    }
}

/// A request that was read took some of the bytes and no more than there are, its body is
/// within the limit, no two of its headers have the same name, and it is one of the two
/// versions, with the header `Host` in the later one.
pub proof fn law_request_is_sound(s: Seq<u8>, max: int)
    requires
        0 <= max < usize::MAX,
    ensures
        http::parsed_request(s, max) matches ParseView::Complete(request, n) ==> {
            &&& 0 < n <= s.len()
            &&& request.body.len() <= max
            &&& http::names_distinct(request.headers)
            &&& request.version == "HTTP/1.0"@ || request.version == "HTTP/1.1"@
            &&& request.version == "HTTP/1.1"@ ==> request.header("host"@) is Some
        },
{
    bytes::lemma_header_end(s);
    if let Some(end) = bytes::header_end(s) {
        let start = end.0 + end.1;
        lemma_body_bounds(s.skip(start), 0, max);
        let block = s.take(end.0);
        if valid_utf8(block) {
            let lines = http::head_lines(decode_utf8(block));
            lemma_fields_distinct(lines.drop_first());
        }
        if let Ok(head) = http::parsed_head(block) {
            assert(text::lowered("host"@) == "host"@) by {
                reveal_strlit("host");
                assert(text::lowered("host"@) =~= "host"@);
            }
            if let Some(value) = http::field_value(head.headers, "content-length"@) {
                text::lemma_number(value, 10);
            }
        }
    }
}

pub proof fn lemma_occurs_in_front(s: Seq<u8>, t: Seq<u8>, pattern: Seq<u8>)
    ensures
        bytes::first_occurrence(s, pattern) matches Some(i) ==> bytes::first_occurrence(
            s + t,
            pattern,
        ) == Some(i),
{
    bytes::lemma_first_occurrence(s, pattern);
    if let Some(i) = bytes::first_occurrence(s, pattern) {
        assert forall|j: int| 0 <= j <= i implies #[trigger] bytes::occurs_at(s + t, pattern, j)
            == bytes::occurs_at(s, pattern, j) by {
            if j + pattern.len() <= s.len() {
                assert((s + t).subrange(j, j + pattern.len()) == s.subrange(
                    j,
                    j + pattern.len(),
                ));
            }
        }
        assert(bytes::occurs_at(s + t, pattern, i));
        bytes::lemma_first_occurrence_is(s + t, pattern, i);
    }
}

pub proof fn lemma_newline(s: Seq<u8>)
    ensures
        bytes::newline_len(s) == (if s.len() >= 2 && s[0] == 13 && s[1] == 10 {
            2int
        } else if s.len() >= 1 && s[0] == 10 {
            1
        } else {
            0
        }),
{
    if s.len() >= 2 && s[0] == 13 && s[1] == 10 {
        assert(s.subrange(0, 2) == bytes::crlf());
    } else if s.len() >= 2 {
        assert(s.subrange(0, 2)[0] == s[0] && s.subrange(0, 2)[1] == s[1]);
    }
    if s.len() >= 1 && s[0] == 10 {
        assert(s.subrange(0, 1) == bytes::lf());
    } else if s.len() >= 1 {
        assert(s.subrange(0, 1)[0] == s[0]);
    }
}

/// Whether the blank line that ends a block of header lines is CRLF CRLF.
pub open spec fn ends_with_crlf(s: Seq<u8>) -> bool {
    bytes::header_end(s) matches Some(end) && end.1 == 4
}

/// Whether a chunked body ends with a line ending behind the last chunk, or with trailer
/// lines and CRLF CRLF.
pub open spec fn chunks_end_with_crlf(s: Seq<u8>) -> bool
    decreases s.len(),
    via chunks_end_decreases
{
    match bytes::line_end(s) {
        None => false,
        Some(end) => {
            let rest = s.skip(end.0 + end.1);
            match http::chunk_size(s.take(end.0)) {
                None => false,
                Some(size) => if size == 0 {
                    bytes::newline_len(rest) > 0 || ends_with_crlf(rest)
                } else if 0 < size < rest.len() {
                    chunks_end_with_crlf(
                        rest.skip(size + bytes::newline_len(rest.skip(size))),
                    )
                } else {
                    false
                },
            }
        },
    }
}

#[via_fn]
proof fn chunks_end_decreases(s: Seq<u8>) {
    bytes::lemma_line_end(s);
}

proof fn lemma_chunks_in_front(s: Seq<u8>, t: Seq<u8>, have: int, max: int)
    requires
        chunks_end_with_crlf(s),
    ensures
        http::chunked_body(s, have, max) is Complete ==> http::chunked_body(s + t, have, max)
            == http::chunked_body(s, have, max),
    decreases s.len(),
{
    bytes::lemma_line_end(s);
    lemma_occurs_in_front(s, t, bytes::lf());
    if let Some(end) = bytes::line_end(s) {
        assert(bytes::line_end(s + t) == bytes::line_end(s));
        let start = end.0 + end.1;
        let rest = s.skip(start);
        assert((s + t).take(end.0) == s.take(end.0));
        assert((s + t).skip(start) == rest + t);
        if let Some(size) = http::chunk_size(s.take(end.0)) {
            http::lemma_chunk_size(s.take(end.0));
            if size == 0 {
                lemma_occurs_in_front(rest, t, bytes::crlf_crlf());
                lemma_newline(rest);
                lemma_newline(rest + t);
                assert(bytes::newline_len(rest) > 0 ==> bytes::newline_len(rest + t)
                    == bytes::newline_len(rest));
                if bytes::newline_len(rest) == 0 {
                    bytes::lemma_header_end(rest);
                    bytes::lemma_first_occurrence(rest, bytes::crlf_crlf());
                    assert(rest.len() >= 4);
                    assert(bytes::newline_len(rest + t) == 0);
                }
            } else if !http::over_limit(have, size, max) && rest.len() > size {
                let tail = rest.skip(size);
                let n = bytes::newline_len(tail);
                assert((rest + t).skip(size) == tail + t);
                if n > 0 {
                    lemma_newline(tail);
                    lemma_newline(tail + t);
                    assert(bytes::newline_len(tail + t) == n);
                    assert((rest + t).take(size) == rest.take(size));
                    assert((rest + t).skip(size + n) == rest.skip(size + n) + t);
                    lemma_chunks_in_front(rest.skip(size + n), t, have + size, max);
                }
            }
        }
    }
}

/// Whether the request at the start of the bytes is framed by CRLF throughout.
pub open spec fn is_crlf_framed(s: Seq<u8>) -> bool {
    &&& ends_with_crlf(s)
    &&& bytes::header_end(s) matches Some(end) && (http::parsed_head(s.take(end.0)) matches Ok(head)
        && (http::is_chunked(head.headers) ==> chunks_end_with_crlf(s.skip(end.0 + end.1))))
}

/// A request that is there in full is read the same whatever bytes follow it, so that the
/// bytes behind it are the start of the next one.
pub proof fn law_pipelined_requests(s: Seq<u8>, t: Seq<u8>, max: int)
    requires
        is_crlf_framed(s),
        http::parsed_request(s, max) is Complete,
    ensures
        http::parsed_request(s + t, max) == http::parsed_request(s, max),
        http::parsed_request(s, max) matches ParseView::Complete(_, n) ==> (n == s.len() ==> (s
            + t).skip(n) == t),
{
    let end = bytes::header_end(s).unwrap();
    let start = end.0 + end.1;
    bytes::lemma_header_end(s);
    lemma_occurs_in_front(s, t, bytes::crlf_crlf());
    assert(bytes::header_end(s + t) == Some(end));
    assert((s + t).take(end.0) == s.take(end.0));
    assert((s + t).skip(start) == s.skip(start) + t);
    let head = http::parsed_head(s.take(end.0))->Ok_0;
    let rest = s.skip(start);
    if http::is_chunked(head.headers) {
        lemma_chunks_in_front(rest, t, 0, max);
    } else if let Some(value) = http::field_value(head.headers, "content-length"@) {
        if let Some(n) = text::number_up_to(value, 10, usize::MAX as int) {
            text::lemma_number(value, 10);
            if n <= rest.len() {
                assert((rest + t).take(n) == rest.take(n));
            }
        }
    } else {
        assert((rest + t).take(0) == rest.take(0));
    }
    assert((s + t).skip(s.len() as int) == t);
}

/// A header that comes again is one header, with the values behind each other.
pub proof fn law_repeated_headers(fields: Fields, name: Seq<char>, value: Seq<char>, other: Seq<char>)
    requires
        other != name,
    ensures
        http::field_value(http::with_line(fields, name, value), name) == Some(
            match http::field_value(fields, name) {
                Some(before) => before + ", "@ + value,
                None => value,
            },
        ),
        http::field_value(http::with_line(fields, name, value), other) == http::field_value(
            fields,
            other,
        ),
{
    let after = http::with_line(fields, name, value);
    http::lemma_field_index(fields, name);
    http::lemma_field_index(fields, other);
    let i = http::field_index(fields, name);
    let k = http::field_index(fields, other);
    assert forall|j: int| 0 <= j < i implies (#[trigger] after[j]).0 != name by {
        assert(after[j] == fields[j]);
    }
    http::lemma_field_index_is(after, name, i);
    assert forall|j: int| 0 <= j < k implies (#[trigger] after[j]).0 != other by {
        assert(after[j].0 == fields[j].0);
    }
    if k < fields.len() {
        http::lemma_field_index_is(after, other, k);
    } else {
        http::lemma_field_index_is(after, other, after.len() as int);
    }
}

/// The value of a header of a response.
pub open spec fn header_value(headers: Fields, name: Seq<char>) -> Option<Seq<char>> {
    let i = http::header_index(headers, name);
    if i < headers.len() {
        Some(headers[i].1)
    } else {
        None
    }
}

/// A header that was set has the value that was set last, whatever the case of its name;
/// no other header changes, nor the status or the body.
pub proof fn law_set_header(
    response: ResponseView,
    name: Seq<char>,
    value: Seq<char>,
    other: Seq<char>,
)
    ensures
        response.with(name, value).has(name),
        response.with(name, value).status == response.status,
        response.with(name, value).body == response.body,
        header_value(response.with(name, value).headers, other) == (if text::lowered(other)
            == text::lowered(name) {
            Some(value)
        } else {
            header_value(response.headers, other)
        }),
{
    let headers = response.headers;
    let after = response.with(name, value).headers;
    http::lemma_header_index(headers, name);
    http::lemma_header_index(headers, other);
    let i = http::header_index(headers, name);
    let k = http::header_index(headers, other);
    let same = text::lowered(other) == text::lowered(name);
    if same {
        http::lemma_header_index_is(headers, other, i);
    }
    assert forall|j: int| 0 <= j < i implies text::lowered((#[trigger] after[j]).0)
        != text::lowered(name) by {
        assert(after[j] == headers[j]);
    }
    http::lemma_header_index_is(after, name, i);
    if same {
        http::lemma_header_index_is(after, other, i);
    } else {
        assert forall|j: int| 0 <= j < k implies text::lowered((#[trigger] after[j]).0)
            != text::lowered(other) by {
            assert(after[j].0 == headers[j].0);
        }
        if k < headers.len() {
            http::lemma_header_index_is(after, other, k);
        } else {
            http::lemma_header_index_is(after, other, after.len() as int);
        }
    }
}

/// A connection goes on after a request of HTTP/1.1 and ends after one of HTTP/1.0, unless
/// the header `Connection` says otherwise.
pub proof fn law_keep_alive(request: RequestView)
    ensures
        request.version == "HTTP/1.1"@ ==> request.should_close() == request.connection_lists(
            "close"@,
        ),
        request.version == "HTTP/1.0"@ ==> request.should_close() == !request.connection_lists(
            "keep-alive"@,
        ),
        request.header("connection"@) is None ==> request.should_close() == (request.version
            == "HTTP/1.0"@),
{
    assert("HTTP/1.1"@ != "HTTP/1.0"@) by {
        reveal_strlit("HTTP/1.1");
        reveal_strlit("HTTP/1.0");
        assert("HTTP/1.1"@[7] == '1');
        assert("HTTP/1.0"@[7] == '0');
    }
}

/// The text of two texts behind each other is encoded one after the other.
pub proof fn lemma_encode_concat(a: Seq<char>, b: Seq<char>)
    ensures
        encode_utf8(a + b) == encode_utf8(a) + encode_utf8(b),
    decreases a.len(),
{
    if a.len() == 0 {
        assert(a + b == b);
    } else {
        assert((a + b).drop_first() == a.drop_first() + b);
        lemma_encode_concat(a.drop_first(), b);
        assert(encode_utf8(a + b) == encode_utf8(a) + encode_utf8(b));
    }
}

proof fn lemma_scalar_plain(c: char)
    requires
        c != '\n',
        c != '\r',
    ensures
        encode_scalar(c as u32).len() > 0,
        forall|i: int|
            0 <= i < encode_scalar(c as u32).len() ==> (#[trigger] encode_scalar(c as u32)[i]) != 10
                && encode_scalar(c as u32)[i] != 13,
{
    let v = c as u32;
    char_is_scalar(c);
    assert(v != 10 && v != 13);
    assert(v <= 0x7f ==> (v & 0x7F) as u8 == v) by (bit_vector);
    assert((0xC0u8 | ((v >> 6) & 0x1F) as u8) >= 0x80) by (bit_vector);
    assert((0xE0u8 | ((v >> 12) & 0x0F) as u8) >= 0x80) by (bit_vector);
    assert((0xF0u8 | ((v >> 18) & 0x7) as u8) >= 0x80) by (bit_vector);
    assert((0x80u8 | (v & 0x3F) as u8) >= 0x80) by (bit_vector);
    assert((0x80u8 | ((v >> 6) & 0x3F) as u8) >= 0x80) by (bit_vector);
    assert((0x80u8 | ((v >> 12) & 0x3F) as u8) >= 0x80) by (bit_vector);
}

/// Whether a text holds no line ending.
pub open spec fn is_one_line(s: Seq<char>) -> bool {
    forall|i: int| 0 <= i < s.len() ==> (#[trigger] s[i]) != '\n' && s[i] != '\r'
}

/// Whether bytes hold no line ending.
pub open spec fn is_one_line_bytes(s: Seq<u8>) -> bool {
    forall|i: int| 0 <= i < s.len() ==> (#[trigger] s[i]) != 10 && s[i] != 13
}

pub proof fn lemma_encode_one_line(s: Seq<char>)
    requires
        is_one_line(s),
    ensures
        is_one_line_bytes(encode_utf8(s)),
        s.len() > 0 ==> encode_utf8(s).len() > 0,
    decreases s.len(),
{
    if s.len() > 0 {
        lemma_scalar_plain(s[0]);
        let rest = s.drop_first();
        assert forall|i: int| 0 <= i < rest.len() implies (#[trigger] rest[i]) != '\n' && rest[i]
            != '\r' by {
            assert(rest[i] == s[i + 1]);
        }
        lemma_encode_one_line(rest);
        let first = encode_scalar(s[0] as u32);
        let all = encode_utf8(s);
        assert forall|i: int| 0 <= i < all.len() implies (#[trigger] all[i]) != 10 && all[i]
            != 13 by {
            if i < first.len() {
                assert(all[i] == first[i]);
            } else {
                assert(all[i] == encode_utf8(rest)[i - first.len()]);
            }
        }
    }
}

/// One chunk of a body: its size in hexadecimal digits, and its bytes, each with a line
/// ending behind.
pub open spec fn chunk(data: Seq<u8>) -> Seq<u8> {
    encode_utf8(text::digits(data.len(), 16)) + bytes::crlf() + data + bytes::crlf()
}

/// A body in chunks: the chunks, and the empty one that ends them.
pub open spec fn chunks(parts: Seq<Seq<u8>>) -> Seq<u8>
    decreases parts.len(),
{
    if parts.len() == 0 {
        chunk(seq![])
    } else {
        chunk(parts[0]) + chunks(parts.drop_first())
    }
}

/// The parts of a body behind each other.
pub open spec fn whole(parts: Seq<Seq<u8>>) -> Seq<u8>
    decreases parts.len(),
{
    if parts.len() == 0 {
        seq![]
    } else {
        parts[0] + whole(parts.drop_first())
    }
}

proof fn lemma_hex_digits(n: nat)
    ensures
        is_one_line(text::digits(n, 16)),
        forall|i: int|
            0 <= i < text::digits(n, 16).len() ==> !text::is_whitespace(
                #[trigger] text::digits(n, 16)[i],
            ) && text::digits(n, 16)[i] != ';' && text::digits(n, 16)[i] != '=' && text::digits(
                n,
                16,
            )[i] != '+',
        text::digits(n, 16).len() > 0,
{
    text::lemma_digits_read_back(n, 16);
}

pub proof fn lemma_trimmed_same(s: Seq<char>, p: Pattern)
    requires
        s.len() > 0 ==> !p.has(s[0]) && !p.has(s.last()),
    ensures
        text::trimmed_matches(s, p) == s,
{
    if s.len() > 0 {
        text::lemma_leading_is(s, p, 0);
        assert(text::trimmed_start(s, p) == s);
        text::lemma_end_position_is(s, p, s.len() as int);
        assert(text::trimmed_end(s, p) == s);
    } else {
        assert(text::trimmed_start(s, p) == s);
        assert(text::trimmed_end(s, p) == s);
    }
}

proof fn lemma_size_line(n: nat, tail: Seq<u8>)
    requires
        n <= usize::MAX,
    ensures
        ({
            let line = encode_utf8(text::digits(n, 16));
            let s = line + bytes::crlf() + tail;
            &&& bytes::line_end(s) == Some((line.len() as int, 2int))
            &&& s.take(line.len() as int) == line
            &&& s.skip(line.len() + 2int) == tail
            &&& http::chunk_size(line) == Some(n as int)
        }),
{
    let digits = text::digits(n, 16);
    let line = encode_utf8(digits);
    let s = line + bytes::crlf() + tail;
    lemma_hex_digits(n);
    lemma_encode_one_line(digits);
    encode_utf8_valid_utf8(digits);
    encode_utf8_decode_utf8(digits);
    assert forall|j: int| 0 <= j < line.len() + 1 implies !(#[trigger] bytes::occurs_at(
        s,
        bytes::lf(),
        j,
    )) by {
        if bytes::occurs_at(s, bytes::lf(), j) {
            assert(s.subrange(j, j + 1)[0] == 10);
            assert(s[j] == 10);
            if j < line.len() {
                assert(s[j] == line[j]);
            }
        }
    }
    assert(s.subrange(line.len() + 1int, line.len() + 2int) == bytes::lf());
    bytes::lemma_first_occurrence_is(s, bytes::lf(), line.len() + 1int);
    assert(s[line.len() as int] == 13);
    assert(s.take(line.len() as int) == line);
    assert(s.skip(line.len() + 2int) == tail);
    text::lemma_position_is(digits, Pattern::Char(';'), digits.len() as int);
    assert(digits.take(digits.len() as int) == digits);
    lemma_trimmed_same(digits, Pattern::Whitespace);
    text::lemma_digits_read_back(n, 16);
}

/// The empty chunk ends a body.
proof fn lemma_last_chunk(t: Seq<u8>, have: int, max: int)
    ensures
        http::chunked_body(chunk(seq![]) + t, have, max) == BodyView::Complete(
            seq![],
            chunk(seq![]).len() as int,
        ),
{
    let line = encode_utf8(text::digits(0, 16));
    let tail = bytes::crlf() + t;
    lemma_size_line(0, tail);
    assert(chunk(seq![]) + t == line + bytes::crlf() + tail);
    lemma_newline(tail);
}

/// A chunk is read, and the rest follows.
proof fn lemma_first_chunk(data: Seq<u8>, t: Seq<u8>, have: int, max: int)
    requires
        data.len() > 0,
        0 <= have,
        have + data.len() <= max <= usize::MAX,
    ensures
        http::chunked_body(chunk(data) + t, have, max) == http::chunked_body(
            t,
            have + data.len(),
            max,
        ).after(data, chunk(data).len() as int),
{
    let n = data.len();
    let line = encode_utf8(text::digits(n, 16));
    let tail = data + (bytes::crlf() + t);
    lemma_size_line(n, tail);
    assert(chunk(data) + t == line + bytes::crlf() + tail);
    assert(tail.skip(n as int) == bytes::crlf() + t);
    lemma_newline(tail.skip(n as int));
    assert(tail.skip(n + 2int) == t);
    assert(tail.take(n as int) == data);
}

/// A body in chunks is read back as the whole, whatever bytes follow it, as long as it is
/// within the limit.
pub proof fn law_chunks_read_back(parts: Seq<Seq<u8>>, t: Seq<u8>, have: int, max: int)
    requires
        forall|i: int| 0 <= i < parts.len() ==> (#[trigger] parts[i]).len() > 0,
        0 <= have,
        have + whole(parts).len() <= max <= usize::MAX,
    ensures
        http::chunked_body(chunks(parts) + t, have, max) == BodyView::Complete(
            whole(parts),
            chunks(parts).len() as int,
        ),
    decreases parts.len(),
{
    if parts.len() == 0 {
        lemma_last_chunk(t, have, max);
    } else {
        let data = parts[0];
        let rest = parts.drop_first();
        assert forall|i: int| 0 <= i < rest.len() implies (#[trigger] rest[i]).len() > 0 by {
            assert(rest[i] == parts[i + 1]);
        }
        law_chunks_read_back(rest, t, have + data.len(), max);
        assert(chunks(parts) + t == chunk(data) + (chunks(rest) + t));
        lemma_first_chunk(data, chunks(rest) + t, have, max);
    }
}

/// Lines with their endings behind each other.
pub open spec fn line_block(lines: Seq<Seq<char>>) -> Seq<char>
    decreases lines.len(),
{
    if lines.len() == 0 {
        seq![]
    } else {
        line_block(lines.drop_last()) + lines.last() + "\r\n"@
    }
}

/// Whether the lines are lines: not empty, and without an ending within.
pub open spec fn are_lines(lines: Seq<Seq<char>>) -> bool {
    forall|i: int|
        0 <= i < lines.len() ==> is_one_line(#[trigger] lines[i]) && lines[i].len() > 0
}

pub proof fn lemma_crlf_bytes()
    ensures
        "\r\n"@ == seq!['\r', '\n'],
        encode_utf8("\r\n"@) == bytes::crlf(),
{
    reveal_strlit("\r\n");
    assert("\r\n"@ =~= seq!['\r', '\n']);
    assert(is_ascii_chars("\r\n"@));
    is_ascii_chars_encode_utf8("\r\n"@);
    assert(encode_utf8("\r\n"@) =~= bytes::crlf());
}

/// Behind a line block, the first blank line is the one that ends it.
pub proof fn lemma_block_end(lines: Seq<Seq<char>>, tail: Seq<u8>)
    requires
        are_lines(lines),
        lines.len() > 0,
        tail.len() > 0,
        tail[0] != 10,
    ensures
        ({
            let block = encode_utf8(line_block(lines));
            let first = bytes::first_occurrence(block + tail, bytes::crlf_crlf());
            &&& block.len() >= 2
            &&& block[block.len() - 2] == 13
            &&& block[block.len() - 1] == 10
            &&& tail.len() >= 2 && tail[0] == 13 && tail[1] == 10 ==> first == Some(block.len() - 2)
            &&& forall|j: int|
                0 <= j < block.len() - 2 ==> !(#[trigger] bytes::occurs_at(
                    block + tail,
                    bytes::crlf_crlf(),
                    j,
                ))
        }),
    decreases lines.len(),
{
    let front = lines.drop_last();
    let line = lines.last();
    lemma_crlf_bytes();
    lemma_encode_concat(line_block(front) + line, "\r\n"@);
    lemma_encode_concat(line_block(front), line);
    lemma_encode_one_line(line);
    let a = encode_utf8(line_block(front));
    let b = encode_utf8(line);
    let block = encode_utf8(line_block(lines));
    assert(block == a + b + bytes::crlf());
    let s = block + tail;
    if front.len() > 0 {
        assert forall|i: int| 0 <= i < front.len() implies is_one_line(#[trigger] front[i])
            && front[i].len() > 0 by {
            assert(front[i] == lines[i]);
        }
        let rest = b + bytes::crlf() + tail;
        lemma_block_end(front, rest);
        assert(s == a + rest);
    } else {
        assert(line_block(front) == Seq::<char>::empty());
        assert(a.len() == 0);
    }
    let pattern = bytes::crlf_crlf();
    assert forall|j: int| 0 <= j < block.len() - 2 implies !(#[trigger] bytes::occurs_at(
        s,
        pattern,
        j,
    )) by {
        if bytes::occurs_at(s, pattern, j) {
            let found = s.subrange(j, j + 4);
            assert(found[0] == s[j] && found[1] == s[j + 1] && found[2] == s[j + 2] && found[3]
                == s[j + 3]);
            if j >= a.len() {
                assert(s[j] == b[j - a.len()]);
            } else if j == a.len() - 2 {
                assert(s[j + 2] == b[0]);
            } else if j == a.len() - 1 {
                assert(s[j] == 10);
            } else {
                assert(0 <= j < a.len() - 2);
            }
        }
    }
    if tail.len() >= 2 && tail[0] == 13 && tail[1] == 10 {
        let k = block.len() - 2;
        assert(s.subrange(k, k + 4) == pattern);
        bytes::lemma_first_occurrence_is(s, pattern, k);
    }
}

/// The lines of the head of a response.
pub open spec fn response_lines(response: ResponseView, close: bool) -> Seq<Seq<char>> {
    seq![
        "HTTP/1.1 "@ + text::decimal(response.status as nat) + " "@ + http::reason(response.status),
        "Server: localhost-rust"@,
        "Content-Length: "@ + text::decimal(response.body.len()),
    ] + (if !response.has("Content-Type"@) && response.status != 204 {
        seq!["Content-Type: application/octet-stream"@]
    } else {
        seq![]
    }) + seq![
        if close {
            "Connection: close"@
        } else {
            "Connection: keep-alive"@
        },
    ] + header_lines(response.headers)
}

/// The lines of the headers of a response.
pub open spec fn header_lines(headers: Fields) -> Seq<Seq<char>> {
    headers.map_values(|header: (Seq<char>, Seq<char>)| header.0 + ": "@ + header.1)
}

/// Whether the headers are such as can stand in a line each.
pub open spec fn headers_fit(headers: Fields) -> bool {
    forall|i: int|
        0 <= i < headers.len() ==> is_one_line((#[trigger] headers[i]).0) && is_one_line(
            headers[i].1,
        )
}

proof fn lemma_line_block_push(lines: Seq<Seq<char>>, line: Seq<char>)
    ensures
        line_block(lines.push(line)) == line_block(lines) + line + "\r\n"@,
{
    assert(lines.push(line).drop_last() == lines);
}

proof fn lemma_header_block(lines: Seq<Seq<char>>, headers: Fields)
    ensures
        line_block(lines + header_lines(headers)) == line_block(lines) + http::header_block(
            headers,
        ),
    decreases headers.len(),
{
    if headers.len() == 0 {
        assert(lines + header_lines(headers) == lines);
    } else {
        let front = headers.drop_last();
        let line = headers.last().0 + ": "@ + headers.last().1;
        lemma_header_block(lines, front);
        assert(lines + header_lines(headers) == (lines + header_lines(front)).push(line));
        lemma_line_block_push(lines + header_lines(front), line);
        assert(line_block(lines) + http::header_block(front) + line + "\r\n"@ == line_block(lines)
            + (http::header_block(front) + headers.last().0 + ": "@ + headers.last().1 + "\r\n"@));
    }
}

proof fn lemma_reason_is_one_line(status: u16)
    ensures
        is_one_line(http::reason(status)),
{
    reveal_strlit("OK");
    reveal_strlit("Created");
    reveal_strlit("No Content");
    reveal_strlit("Moved Permanently");
    reveal_strlit("Found");
    reveal_strlit("See Other");
    reveal_strlit("Temporary Redirect");
    reveal_strlit("Permanent Redirect");
    reveal_strlit("Bad Request");
    reveal_strlit("Forbidden");
    reveal_strlit("Not Found");
    reveal_strlit("Method Not Allowed");
    reveal_strlit("Request Timeout");
    reveal_strlit("Payload Too Large");
    reveal_strlit("Internal Server Error");
    reveal_strlit("Gateway Timeout");
    reveal_strlit("Unknown");
}

pub proof fn lemma_one_line_concat(a: Seq<char>, b: Seq<char>)
    requires
        is_one_line(a),
        is_one_line(b),
    ensures
        is_one_line(a + b),
{
    assert forall|i: int| 0 <= i < (a + b).len() implies (#[trigger] (a + b)[i]) != '\n' && (a
        + b)[i] != '\r' by {
        if i < a.len() {
            assert((a + b)[i] == a[i]);
        } else {
            assert((a + b)[i] == b[i - a.len()]);
        }
    }
}

proof fn lemma_decimal_is_one_line(n: nat)
    ensures
        is_one_line(text::decimal(n)),
        text::decimal(n).len() > 0,
{
    text::lemma_digits_read_back(n, 10);
}

#[verifier::rlimit(50)]
proof fn lemma_response_lines(response: ResponseView, close: bool)
    requires
        headers_fit(response.headers),
    ensures
        are_lines(response_lines(response, close)),
        response.head(close) == line_block(response_lines(response, close)) + "\r\n"@,
{
    let status = "HTTP/1.1 "@ + text::decimal(response.status as nat) + " "@ + http::reason(
        response.status,
    );
    let length = "Content-Length: "@ + text::decimal(response.body.len());
    let typed = !response.has("Content-Type"@) && response.status != 204;
    let first = Seq::<Seq<char>>::empty().push(status);
    let second = first.push("Server: localhost-rust"@);
    let third = second.push(length);
    let fourth = if typed {
        third.push("Content-Type: application/octet-stream"@)
    } else {
        third
    };
    let connection = if close {
        "Connection: close"@
    } else {
        "Connection: keep-alive"@
    };
    let fifth = fourth.push(connection);
    assert(response_lines(response, close) == fifth + header_lines(response.headers));
    assert(are_lines(fifth)) by {
        reveal_strlit("HTTP/1.1 ");
        reveal_strlit(" ");
        reveal_strlit("Server: localhost-rust");
        reveal_strlit("Content-Length: ");
        reveal_strlit("Content-Type: application/octet-stream");
        reveal_strlit("Connection: close");
        reveal_strlit("Connection: keep-alive");
        lemma_reason_is_one_line(response.status);
        lemma_decimal_is_one_line(response.status as nat);
        lemma_decimal_is_one_line(response.body.len());
        lemma_one_line_concat("HTTP/1.1 "@, text::decimal(response.status as nat));
        lemma_one_line_concat("HTTP/1.1 "@ + text::decimal(response.status as nat), " "@);
        lemma_one_line_concat(
            "HTTP/1.1 "@ + text::decimal(response.status as nat) + " "@,
            http::reason(response.status),
        );
        lemma_one_line_concat("Content-Length: "@, text::decimal(response.body.len()));
    }
    assert(are_lines(response_lines(response, close))) by {
        let headers = response.headers;
        assert forall|i: int| 0 <= i < headers.len() implies is_one_line(
            #[trigger] header_lines(headers)[i],
        ) && header_lines(headers)[i].len() > 0 by {
            reveal_strlit(": ");
            assert(is_one_line(headers[i].0));
            lemma_one_line_concat(headers[i].0, ": "@);
            lemma_one_line_concat(headers[i].0 + ": "@, headers[i].1);
        }
        let all = fifth + header_lines(headers);
        assert forall|i: int| 0 <= i < all.len() implies is_one_line(#[trigger] all[i])
            && all[i].len() > 0 by {
            if i < fifth.len() {
                assert(all[i] == fifth[i]);
            } else {
                assert(all[i] == header_lines(headers)[i - fifth.len()]);
            }
        }
    }
    lemma_line_block_push(Seq::empty(), status);
    lemma_line_block_push(first, "Server: localhost-rust"@);
    lemma_line_block_push(second, length);
    lemma_line_block_push(third, "Content-Type: application/octet-stream"@);
    lemma_line_block_push(fourth, connection);
    lemma_header_block(fifth, response.headers);
    lemma_crlf_bytes();
    assert("Server: localhost-rust\r\n"@ == "Server: localhost-rust"@ + "\r\n"@) by {
        reveal_strlit("Server: localhost-rust\r\n");
        reveal_strlit("Server: localhost-rust");
    }
    assert("Content-Type: application/octet-stream\r\n"@
        == "Content-Type: application/octet-stream"@ + "\r\n"@) by {
        reveal_strlit("Content-Type: application/octet-stream\r\n");
        reveal_strlit("Content-Type: application/octet-stream");
    }
    assert("Connection: close\r\n"@ == "Connection: close"@ + "\r\n"@) by {
        reveal_strlit("Connection: close\r\n");
        reveal_strlit("Connection: close");
    }
    assert("Connection: keep-alive\r\n"@ == "Connection: keep-alive"@ + "\r\n"@) by {
        reveal_strlit("Connection: keep-alive\r\n");
        reveal_strlit("Connection: keep-alive");
    }
    assert(response.head(close) == line_block(fifth) + http::header_block(response.headers)
        + "\r\n"@);
}

/// The bytes of a response are its lines, a blank line, and the body: the first blank line
/// in them is the one before the body, whatever the body holds.
pub proof fn law_response_is_framed(response: ResponseView, close: bool)
    requires
        headers_fit(response.headers),
    ensures
        are_lines(response_lines(response, close)),
        bytes::header_end(response.bytes(close)) matches Some(end) && {
            &&& end.1 == 4
            &&& response.bytes(close).take(end.0 + 2) == encode_utf8(
                line_block(response_lines(response, close)),
            )
            &&& response.bytes(close).skip(end.0 + end.1) == response.body
        },
{
    let lines = response_lines(response, close);
    lemma_response_lines(response, close);
    lemma_crlf_bytes();
    lemma_encode_concat(line_block(lines), "\r\n"@);
    let block = encode_utf8(line_block(lines));
    let tail = bytes::crlf() + response.body;
    lemma_block_end(lines, tail);
    let all = response.bytes(close);
    assert(all == block + tail);
    assert(all.take(block.len() as int) == block);
    assert(all.skip(block.len() + 2int) == response.body);
}

/// No response is empty.
pub proof fn lemma_bytes_of_response(response: ResponseView, close: bool)
    ensures
        response.bytes(close).len() > 0,
{
    let head = response.head(close);
    reveal_strlit("\r\n");
    assert(head.len() > 0);
    assert(encode_scalar(head[0] as u32).len() > 0);
}

/// The hexadecimal digit that stands for a value.
pub open spec fn hex_byte(v: int) -> u8 {
    if v < 10 {
        (v + 48) as u8
    } else {
        (v + 55) as u8
    }
}

/// Bytes with each of them written as a percent sign and two hexadecimal digits.
pub open spec fn percent_encoded(s: Seq<u8>) -> Seq<u8>
    decreases s.len(),
{
    if s.len() == 0 {
        seq![]
    } else {
        seq![37u8, hex_byte(s[0] as int / 16), hex_byte(s[0] as int % 16)] + percent_encoded(
            s.skip(1),
        )
    }
}

/// Bytes that are percent-encoded are read back, and bytes without a percent sign stand for
/// themselves.
pub proof fn law_percent_encoding(s: Seq<u8>)
    ensures
        util::percent_bytes(percent_encoded(s)) == Some(s),
        (forall|i: int| 0 <= i < s.len() ==> (#[trigger] s[i]) != 37) ==> util::percent_bytes(s)
            == Some(s),
    decreases s.len(),
{
    if s.len() == 0 {
        assert(s == Seq::<u8>::empty());
        assert(percent_encoded(s) == s);
    } else {
        let rest = s.skip(1);
        law_percent_encoding(rest);
        let all = percent_encoded(s);
        let b = s[0] as int;
        assert(all[0] == 37 && all[1] == hex_byte(b / 16) && all[2] == hex_byte(b % 16));
        assert(all.skip(3) == percent_encoded(rest));
        assert(util::hex_value(hex_byte(b / 16)) == Some(b / 16));
        assert(util::hex_value(hex_byte(b % 16)) == Some(b % 16));
        assert(b / 16 * 16 + b % 16 == b);
        assert(seq![s[0]] + rest == s);
        if forall|i: int| 0 <= i < s.len() ==> (#[trigger] s[i]) != 37 {
            assert forall|i: int| 0 <= i < rest.len() implies (#[trigger] rest[i]) != 37 by {
                assert(rest[i] == s[i + 1]);
            }
        }
    }
}

} // verus!
