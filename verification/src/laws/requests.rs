//! How a request in its usual form is read.
use vstd::prelude::*;
use vstd::utf8::*;

use crate::bytes;
use crate::http;
use crate::http::{BodyView, Fields, HeadView, LineView, MethodView, ParseView, RequestView};
use crate::http::MAX_HEADER_BYTES;
use crate::laws;
use crate::text;
use crate::text::Pattern;

verus! {

/// Whether a text can stand at either end of a line without whitespace around it: it is not
/// empty, and neither starts nor ends with whitespace.
pub open spec fn is_trim(s: Seq<char>) -> bool {
    s.len() > 0 && !text::is_whitespace(s[0]) && !text::is_whitespace(s.last())
}

/// Whether a text is a word: not empty, and without whitespace.
pub open spec fn is_word(s: Seq<char>) -> bool {
    s.len() > 0 && forall|i: int| 0 <= i < s.len() ==> !text::is_whitespace(#[trigger] s[i])
}

/// Lines with an ending between each and the next.
pub open spec fn between(lines: Seq<Seq<char>>) -> Seq<char> {
    laws::http::line_block(lines.drop_last()) + lines.last()
}

proof fn lemma_ended_lines(lines: Seq<Seq<char>>)
    requires
        laws::http::are_lines(lines),
        lines.len() > 0,
    ensures
        text::split(between(lines).push('\r'), Pattern::Char('\n')) == lines.map_values(
            |line: Seq<char>| line.push('\r'),
        ),
    decreases lines.len(),
{
    let p = Pattern::Char('\n');
    let end = |line: Seq<char>| line.push('\r');
    let last = lines.last();
    assert(laws::http::is_one_line(lines[lines.len() - 1]));
    let tail = last.push('\r');
    assert forall|i: int| 0 <= i < tail.len() implies !p.has(#[trigger] tail[i]) by {
        if i < last.len() {
            assert(tail[i] == last[i]);
        }
    }
    laws::texts::lemma_split_whole(tail, p);
    let front = lines.drop_last();
    if front.len() == 0 {
        assert(laws::http::line_block(front) == Seq::<char>::empty());
        assert(between(lines).push('\r') == tail);
        assert(lines.map_values(end) == seq![tail]);
    } else {
        assert forall|i: int| 0 <= i < front.len() implies laws::http::is_one_line(
            #[trigger] front[i],
        ) && front[i].len() > 0 by {
            assert(front[i] == lines[i]);
        }
        lemma_ended_lines(front);
        laws::http::lemma_crlf_bytes();
        let before = between(front).push('\r');
        assert(laws::http::line_block(front) == before.push('\n'));
        assert(between(lines).push('\r') == before.push('\n') + tail);
        laws::texts::lemma_split_concat(before, '\n', tail, p);
        assert(lines.map_values(end) == front.map_values(end) + seq![tail]);
    }
}

pub proof fn lemma_lines(lines: Seq<Seq<char>>)
    requires
        laws::http::are_lines(lines),
        lines.len() > 0,
    ensures
        text::lines(between(lines)) == lines,
{
    let p = Pattern::Char('\n');
    let end = |line: Seq<char>| line.push('\r');
    let strip = |line: Seq<char>| text::without_cr(line);
    let front = lines.drop_last();
    let last = lines.last();
    assert(laws::http::is_one_line(lines[lines.len() - 1]) && last.len() > 0);
    assert forall|i: int| 0 <= i < last.len() implies !p.has(#[trigger] last[i]) by {}
    laws::texts::lemma_split_whole(last, p);
    let parts = text::split(between(lines), p);
    if front.len() == 0 {
        assert(laws::http::line_block(front) == Seq::<char>::empty());
        assert(between(lines) == last);
        assert(parts == front.map_values(end) + seq![last]);
    } else {
        assert forall|i: int| 0 <= i < front.len() implies laws::http::is_one_line(
            #[trigger] front[i],
        ) && front[i].len() > 0 by {
            assert(front[i] == lines[i]);
        }
        lemma_ended_lines(front);
        laws::http::lemma_crlf_bytes();
        let before = between(front).push('\r');
        assert(laws::http::line_block(front) == before.push('\n'));
        assert(between(lines) == before.push('\n') + last);
        laws::texts::lemma_split_concat(before, '\n', last, p);
    }
    assert(parts.drop_last() == front.map_values(end));
    assert(parts.last() == last);
    assert forall|i: int| 0 <= i < front.len() implies text::without_cr(
        #[trigger] front.map_values(end)[i],
    ) == front[i] by {
        assert(front[i].push('\r').drop_last() == front[i]);
    }
    assert(parts.drop_last().map_values(strip) == front);
    assert(text::lines(between(lines)) == lines);
}

/// The head of a request is its lines: what is made of it depends on the words of the first
/// and on the fields of the others.
pub proof fn law_heads_are_lines(lines: Seq<Seq<char>>)
    requires
        laws::http::are_lines(lines),
        lines.len() > 0,
        forall|i: int| 0 <= i < lines.len() ==> !text::is_whitespace((#[trigger] lines[i]).last()),
    ensures
        http::parsed_head(encode_utf8(between(lines))) == http::parsed_start(
            text::words(lines[0]),
            http::header_fields(lines.drop_first()),
        ),
{
    let block = between(lines);
    encode_utf8_valid_utf8(block);
    encode_utf8_decode_utf8(block);
    lemma_lines(lines);
    let trim = |line: Seq<char>| text::trimmed_end(line, Pattern::Whitespace);
    assert forall|i: int| 0 <= i < lines.len() implies text::trimmed_end(
        #[trigger] lines[i],
        Pattern::Whitespace,
    ) == lines[i] by {
        let line = lines[i];
        text::lemma_end_position_is(line, Pattern::Whitespace, line.len() as int);
        assert(line.take(line.len() as int) == line);
    }
    assert(lines.map_values(trim) == lines);
    assert(laws::http::is_one_line(lines[0]) && lines[0].len() > 0);
}

pub proof fn lemma_three_words(a: Seq<char>, b: Seq<char>, c: Seq<char>)
    requires
        is_word(a),
        is_word(b),
        is_word(c),
    ensures
        text::words(a.push(' ') + (b.push(' ') + c)) == seq![a, b, c],
{
    let p = Pattern::Whitespace;
    assert(text::is_whitespace(' '));
    laws::texts::lemma_split_concat(a, ' ', b.push(' ') + c, p);
    laws::texts::lemma_split_concat(b, ' ', c, p);
    laws::texts::lemma_split_whole(a, p);
    laws::texts::lemma_split_whole(b, p);
    laws::texts::lemma_split_whole(c, p);
    let all = seq![a, b, c];
    assert(seq![a] + (seq![b] + seq![c]) == all);
    let pred = |w: Seq<char>| w.len() > 0;
    laws::config::lemma_filter_all(all, pred);
}

/// Whether a header can stand in a request: its name in lower case and without a colon, and
/// neither part with whitespace at its ends or a line ending within.
pub open spec fn header_fits(header: (Seq<char>, Seq<char>)) -> bool {
    &&& is_trim(header.0)
    &&& is_trim(header.1)
    &&& laws::http::is_one_line(header.0)
    &&& laws::http::is_one_line(header.1)
    &&& laws::config::is_lower(header.0)
    &&& forall|i: int| 0 <= i < header.0.len() ==> (#[trigger] header.0[i]) != ':'
}

proof fn lemma_header_line(header: (Seq<char>, Seq<char>))
    requires
        header_fits(header),
    ensures
        http::header_line(header.0 + ": "@ + header.1) == LineView::Field(header.0, header.1),
{
    let (name, value) = header;
    reveal_strlit(": ");
    let line = name + ": "@ + value;
    let n = name.len() as int;
    assert forall|i: int| 0 <= i < n implies !Pattern::Char(':').has(#[trigger] line[i]) by {
        assert(line[i] == name[i]);
    }
    assert(line[n] == ':');
    text::lemma_position_is(line, Pattern::Char(':'), n);
    assert(line.take(n) == name);
    let rest = line.skip(n + 1);
    assert(rest == seq![' '] + value);
    laws::http::lemma_trimmed_same(name, Pattern::Whitespace);
    assert(text::is_whitespace(' '));
    assert(rest[1] == value[0]);
    text::lemma_leading_is(rest, Pattern::Whitespace, 1);
    assert(rest.skip(1) == value);
    text::lemma_end_position_is(value, Pattern::Whitespace, value.len() as int);
    assert(value.take(value.len() as int) == value);
}

proof fn lemma_header_fields(headers: Fields)
    requires
        forall|i: int| 0 <= i < headers.len() ==> header_fits(#[trigger] headers[i]),
        http::names_distinct(headers),
    ensures
        http::header_fields(laws::http::header_lines(headers)) == Ok::<Fields, Seq<char>>(headers),
    decreases headers.len(),
{
    let lines = laws::http::header_lines(headers);
    if headers.len() == 0 {
        assert(headers == Fields::empty());
    } else {
        let front = headers.drop_last();
        let last = headers.last();
        assert forall|i: int| 0 <= i < front.len() implies header_fits(#[trigger] front[i]) by {
            assert(front[i] == headers[i]);
        }
        assert forall|i: int, j: int| 0 <= i < j < front.len() implies (#[trigger] front[i]).0 != (
        #[trigger] front[j]).0 by {
            assert(headers[i].0 != headers[j].0);
        }
        lemma_header_fields(front);
        assert(lines.drop_last() == laws::http::header_lines(front));
        assert(header_fits(headers[headers.len() - 1]));
        lemma_header_line(last);
        assert forall|j: int| 0 <= j < front.len() implies (#[trigger] front[j]).0 != last.0 by {
            assert(headers[j].0 != headers[headers.len() - 1].0);
        }
        http::lemma_field_index_is(front, last.0, front.len() as int);
        assert(front.push(last) == headers);
    }
}

/// The lines of a request: the method, the target and the version, and the headers.
pub open spec fn request_lines(
    method: Seq<char>,
    target: Seq<char>,
    version: Seq<char>,
    headers: Fields,
) -> Seq<Seq<char>> {
    seq![method.push(' ') + (target.push(' ') + version)] + laws::http::header_lines(headers)
}

/// A request in bytes: its lines, a blank line, and its body.
pub open spec fn request_bytes(
    method: Seq<char>,
    target: Seq<char>,
    version: Seq<char>,
    headers: Fields,
    body: Seq<u8>,
) -> Seq<u8> {
    encode_utf8(laws::http::line_block(request_lines(method, target, version, headers)))
        + bytes::crlf() + body
}

proof fn lemma_word_is_one_line(s: Seq<char>)
    requires
        is_word(s),
    ensures
        laws::http::is_one_line(s),
{
    assert(text::is_whitespace('\n') && text::is_whitespace('\r'));
    assert forall|i: int| 0 <= i < s.len() implies (#[trigger] s[i]) != '\n' && s[i] != '\r' by {
        assert(!text::is_whitespace(s[i]));
    }
}

proof fn lemma_request_lines(
    method: Seq<char>,
    target: Seq<char>,
    version: Seq<char>,
    headers: Fields,
)
    requires
        is_word(method),
        is_word(target),
        is_word(version),
        forall|i: int| 0 <= i < headers.len() ==> header_fits(#[trigger] headers[i]),
    ensures
        laws::http::are_lines(request_lines(method, target, version, headers)),
        forall|i: int|
            0 <= i < request_lines(method, target, version, headers).len() ==> !text::is_whitespace(
                (#[trigger] request_lines(method, target, version, headers)[i]).last(),
            ),
{
    let lines = request_lines(method, target, version, headers);
    let first = method.push(' ') + (target.push(' ') + version);
    lemma_word_is_one_line(method);
    lemma_word_is_one_line(target);
    lemma_word_is_one_line(version);
    reveal_strlit(": ");
    assert(method.push(' ') == method + seq![' ']);
    assert(target.push(' ') == target + seq![' ']);
    laws::http::lemma_one_line_concat(method, seq![' ']);
    laws::http::lemma_one_line_concat(target, seq![' ']);
    laws::http::lemma_one_line_concat(target.push(' '), version);
    laws::http::lemma_one_line_concat(method.push(' '), target.push(' ') + version);
    assert(first.last() == version.last());
    assert(!text::is_whitespace(version[version.len() - 1]));
    assert forall|i: int| 0 <= i < lines.len() implies laws::http::is_one_line(#[trigger] lines[i])
        && lines[i].len() > 0 && !text::is_whitespace(lines[i].last()) by {
        if i > 0 {
            let header = headers[i - 1];
            assert(header_fits(header));
            assert(lines[i] == header.0 + ": "@ + header.1);
            laws::http::lemma_one_line_concat(header.0, ": "@);
            laws::http::lemma_one_line_concat(header.0 + ": "@, header.1);
            assert(lines[i].last() == header.1.last());
        } else {
            assert(lines[0] == first);
        }
    }
}

/// What a request says.
pub open spec fn request_view(
    method: Seq<char>,
    target: Seq<char>,
    version: Seq<char>,
    headers: Fields,
    body: Seq<u8>,
) -> Result<RequestView, Seq<char>> {
    match http::parsed_target(target) {
        Ok(parts) => Ok(
            RequestView {
                method: MethodView::of(method),
                target,
                path: parts.0,
                query: parts.1,
                version,
                headers,
                body,
            },
        ),
        Err(message) => Err(message),
    }
}

/// Whether the parts of a request can stand in its usual form.
pub open spec fn request_fits(
    method: Seq<char>,
    target: Seq<char>,
    version: Seq<char>,
    headers: Fields,
) -> bool {
    &&& is_word(method)
    &&& is_word(target)
    &&& version == "HTTP/1.0"@ || version == "HTTP/1.1"@
    &&& http::parsed_target(target) is Ok
    &&& forall|i: int| 0 <= i < headers.len() ==> header_fits(#[trigger] headers[i])
    &&& http::names_distinct(headers)
    &&& version == "HTTP/1.1"@ ==> http::field_value(headers, "host"@) is Some
}

/// The head of a request is read as what it says, whatever bytes follow it.
pub proof fn lemma_head_is_read(
    method: Seq<char>,
    target: Seq<char>,
    version: Seq<char>,
    headers: Fields,
    tail: Seq<u8>,
)
    requires
        request_fits(method, target, version, headers),
    ensures
        ({
            let block = encode_utf8(
                laws::http::line_block(request_lines(method, target, version, headers)),
            );
            let s = block + (bytes::crlf() + tail);
            let end = block.len() - 2;
            &&& end >= 0
            &&& bytes::header_end(s) == Some((end, 4int))
            &&& http::parsed_head(s.take(end)) == Ok::<HeadView, Seq<char>>(
                HeadView { method: MethodView::of(method), target, version, headers },
            )
            &&& s.skip(end + 4) == tail
        }),
{
    assert(is_word(version)) by {
        reveal_strlit("HTTP/1.0");
        reveal_strlit("HTTP/1.1");
    }
    let lines = request_lines(method, target, version, headers);
    let block = encode_utf8(laws::http::line_block(lines));
    let s = block + (bytes::crlf() + tail);
    lemma_request_lines(method, target, version, headers);
    laws::http::lemma_block_end(lines, bytes::crlf() + tail);
    let end = block.len() - 2;
    laws::http::lemma_crlf_bytes();
    laws::http::lemma_encode_concat(between(lines), "\r\n"@);
    assert(laws::http::line_block(lines) == between(lines) + "\r\n"@);
    assert(s.take(end) == encode_utf8(between(lines)));
    law_heads_are_lines(lines);
    lemma_three_words(method, target, version);
    assert(lines[0] == method.push(' ') + (target.push(' ') + version));
    assert(lines.drop_first() == laws::http::header_lines(headers));
    lemma_header_fields(headers);
    let words = seq![method, target, version];
    assert(words[0] == method && words[1] == target && words[2] == version);
    assert(s.skip(end + 4) == tail);
}

proof fn lemma_request_is_read(
    method: Seq<char>,
    target: Seq<char>,
    version: Seq<char>,
    headers: Fields,
    body: Seq<u8>,
    wire: Seq<u8>,
    t: Seq<u8>,
    max: int,
)
    requires
        request_fits(method, target, version, headers),
        http::framed_body(headers, wire + t, max) == BodyView::Complete(body, wire.len() as int),
    ensures
        request_view(method, target, version, headers, body) matches Ok(request)
            && http::parsed_request(
            request_bytes(method, target, version, headers, wire) + t,
            max,
        ) == ParseView::Complete(
            request,
            request_bytes(method, target, version, headers, wire).len() as int,
        ),
{
    let lines = request_lines(method, target, version, headers);
    let block = encode_utf8(laws::http::line_block(lines));
    let all = request_bytes(method, target, version, headers, wire) + t;
    assert(all == block + (bytes::crlf() + (wire + t)));
    lemma_head_is_read(method, target, version, headers, wire + t);
}

/// Whether a request has its target taken apart: where that is a path that starts with a
/// slash and holds neither a percent sign nor a question mark, the path is that, character
/// for character; and where a question mark and a query stand behind it, the query is that.
pub open spec fn is_taken_apart(request: RequestView, target: Seq<char>) -> bool {
    forall|path: Seq<char>, query: Option<Seq<char>>|
        target == #[trigger] laws::targets::target_of(path, query) && path.len() > 0 && path[0]
            == '/' && (forall|i: int|
            0 <= i < path.len() ==> (#[trigger] path[i]) != '?' && path[i] != '%') ==> request.path
            == path && request.query == (match query {
            Some(query) => query,
            None => Seq::empty(),
        })
}

proof fn lemma_taken_apart(request: RequestView, target: Seq<char>)
    requires
        http::parsed_target(target) == Ok::<(Seq<char>, Seq<char>), Seq<char>>(
            (request.path, request.query),
        ),
    ensures
        is_taken_apart(request, target),
{
    assert forall|path: Seq<char>, query: Option<Seq<char>>|
        target == #[trigger] laws::targets::target_of(path, query) && path.len() > 0 && path[0]
            == '/' && (forall|i: int|
            0 <= i < path.len() ==> (#[trigger] path[i]) != '?' && path[i] != '%') implies
        request.path == path && request.query == (match query {
        Some(query) => query,
        None => Seq::empty(),
    }) by {
        laws::targets::law_plain_targets(path, query);
    }
}

/// A request in its usual form is read as what it says, whatever bytes follow it: its
/// method, its target taken apart, its version, its headers, and the body of the length that
/// it gives.
pub proof fn law_requests_are_read(
    method: Seq<char>,
    target: Seq<char>,
    version: Seq<char>,
    headers: Fields,
    body: Seq<u8>,
    t: Seq<u8>,
    max: int,
)
    requires
        request_fits(method, target, version, headers),
        http::field_value(headers, "transfer-encoding"@) is None,
        match http::field_value(headers, "content-length"@) {
            Some(value) => value == text::decimal(body.len()),
            None => body.len() == 0,
        },
        body.len() <= max <= usize::MAX,
    ensures
        request_view(method, target, version, headers, body) matches Ok(request)
            && http::parsed_request(
            request_bytes(method, target, version, headers, body) + t,
            max,
        ) == ParseView::Complete(
            request,
            request_bytes(method, target, version, headers, body).len() as int,
        ) && is_taken_apart(request, target),
{
    text::lemma_digits_read_back(body.len(), 10);
    assert((body + t).take(body.len() as int) == body);
    lemma_request_is_read(method, target, version, headers, body, body, t, max);
    lemma_taken_apart(request_view(method, target, version, headers, body)->Ok_0, target);
}

/// A request whose body is in chunks is read as one with the whole body.
pub proof fn law_chunked_requests_are_read(
    method: Seq<char>,
    target: Seq<char>,
    version: Seq<char>,
    headers: Fields,
    parts: Seq<Seq<u8>>,
    t: Seq<u8>,
    max: int,
)
    requires
        request_fits(method, target, version, headers),
        http::is_chunked(headers),
        forall|i: int| 0 <= i < parts.len() ==> (#[trigger] parts[i]).len() > 0,
        laws::http::whole(parts).len() <= max <= usize::MAX,
    ensures
        request_view(method, target, version, headers, laws::http::whole(parts)) matches Ok(request)
            && http::parsed_request(
            request_bytes(method, target, version, headers, laws::http::chunks(parts)) + t,
            max,
        ) == ParseView::Complete(
            request,
            request_bytes(
                method,
                target,
                version,
                headers,
                laws::http::chunks(parts),
            ).len() as int,
        ) && is_taken_apart(request, target),
{
    let body = laws::http::whole(parts);
    let wire = laws::http::chunks(parts);
    laws::http::law_chunks_read_back(parts, t, 0, max);
    lemma_request_is_read(method, target, version, headers, body, wire, t, max);
    lemma_taken_apart(request_view(method, target, version, headers, body)->Ok_0, target);
}

proof fn lemma_no_lf_lf(lines: Seq<Seq<char>>)
    requires
        laws::http::are_lines(lines),
        lines.len() > 0,
    ensures
        ({
            let block = encode_utf8(laws::http::line_block(lines));
            &&& block.len() >= 2
            &&& block[block.len() - 2] == 13
            &&& forall|j: int|
                0 <= j < block.len() - 1 ==> (#[trigger] block[j]) != 10 || block[j + 1] != 10
        }),
    decreases lines.len(),
{
    let front = lines.drop_last();
    let line = lines.last();
    assert(laws::http::is_one_line(lines[lines.len() - 1]) && line.len() > 0);
    laws::http::lemma_crlf_bytes();
    laws::http::lemma_encode_concat(laws::http::line_block(front) + line, "\r\n"@);
    laws::http::lemma_encode_concat(laws::http::line_block(front), line);
    laws::http::lemma_encode_one_line(line);
    let a = encode_utf8(laws::http::line_block(front));
    let b = encode_utf8(line);
    let block = encode_utf8(laws::http::line_block(lines));
    assert(block == a + b + bytes::crlf());
    if front.len() > 0 {
        assert forall|i: int| 0 <= i < front.len() implies laws::http::is_one_line(
            #[trigger] front[i],
        ) && front[i].len() > 0 by {
            assert(front[i] == lines[i]);
        }
        lemma_no_lf_lf(front);
    } else {
        assert(laws::http::line_block(front) == Seq::<char>::empty());
        assert(a.len() == 0);
    }
    assert forall|j: int| 0 <= j < block.len() - 1 implies (#[trigger] block[j]) != 10 || block[j
        + 1] != 10 by {
        if j < a.len() - 1 {
            assert(block[j] == a[j] && block[j + 1] == a[j + 1]);
        } else if j < a.len() {
            assert(block[j + 1] == b[0]);
        } else if j < a.len() + b.len() {
            assert(block[j] == b[j - a.len()]);
        }
    }
}

/// A request in its usual form can come in pieces: as long as it is not there in full, it is
/// waited for.
pub proof fn law_written_requests_come_in_pieces(
    method: Seq<char>,
    target: Seq<char>,
    version: Seq<char>,
    headers: Fields,
    body: Seq<u8>,
    max: int,
    k: int,
)
    requires
        request_fits(method, target, version, headers),
        http::field_value(headers, "transfer-encoding"@) is None,
        match http::field_value(headers, "content-length"@) {
            Some(value) => value == text::decimal(body.len()),
            None => body.len() == 0,
        },
        body.len() <= max <= usize::MAX,
        encode_utf8(
            laws::http::line_block(request_lines(method, target, version, headers)),
        ).len() < MAX_HEADER_BYTES,
        0 <= k < request_bytes(method, target, version, headers, body).len(),
    ensures
        http::parsed_request(
            request_bytes(method, target, version, headers, body).take(k),
            max,
        ) is Incomplete,
{
    let lines = request_lines(method, target, version, headers);
    let block = encode_utf8(laws::http::line_block(lines));
    let all = request_bytes(method, target, version, headers, body);
    assert(is_word(version)) by {
        reveal_strlit("HTTP/1.0");
        reveal_strlit("HTTP/1.1");
    }
    lemma_request_lines(method, target, version, headers);
    assert(all == block + (bytes::crlf() + body));
    lemma_head_is_read(method, target, version, headers, body);
    law_requests_are_read(method, target, version, headers, body, Seq::empty(), max);
    assert(all + Seq::<u8>::empty() == all);
    assert(laws::pieces::is_plain_block(all)) by {
        let front = all.take(block.len() - 2);
        lemma_no_lf_lf(lines);
        assert forall|j: int| 0 <= j && j + 2 <= front.len() implies !(#[trigger] bytes::occurs_at(
            front,
            bytes::lf_lf(),
            j,
        )) by {
            if bytes::occurs_at(front, bytes::lf_lf(), j) {
                let found = front.subrange(j, j + 2);
                assert(found[0] == 10 && found[1] == 10);
                assert(block[j] == 10 && block[j + 1] == 10);
            }
        }
        bytes::lemma_first_occurrence_none(front, bytes::lf_lf());
    }
    laws::pieces::law_requests_come_in_pieces(all, max, k);
}

} // verus!
