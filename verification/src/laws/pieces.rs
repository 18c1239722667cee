//! How a request is read while it comes in, and what it is read from.
use vstd::prelude::*;

use crate::bytes;
use crate::http;
use crate::http::{BodyView, ParseView, MAX_HEADER_BYTES};
use crate::laws;
use crate::text;

verus! {

/// What is found within the first bytes is found in them alone, and what is not found in all
/// of the bytes is not found in the first ones.
proof fn lemma_occurs_in_take(s: Seq<u8>, m: int, pattern: Seq<u8>)
    requires
        0 <= m <= s.len(),
    ensures
        match bytes::first_occurrence(s, pattern) {
            Some(i) => if i + pattern.len() <= m {
                bytes::first_occurrence(s.take(m), pattern) == Some(i)
            } else {
                bytes::first_occurrence(s.take(m), pattern) is None
            },
            None => bytes::first_occurrence(s.take(m), pattern) is None,
        },
{
    let front = s.take(m);
    bytes::lemma_first_occurrence(s, pattern);
    assert forall|j: int| #[trigger] bytes::occurs_at(front, pattern, j) implies bytes::occurs_at(
        s,
        pattern,
        j,
    ) by {
        assert(front.subrange(j, j + pattern.len()) == s.subrange(j, j + pattern.len()));
    }
    match bytes::first_occurrence(s, pattern) {
        Some(i) if i + pattern.len() <= m => {
            assert(front.subrange(i, i + pattern.len()) == s.subrange(i, i + pattern.len()));
            assert(bytes::occurs_at(front, pattern, i));
            bytes::lemma_first_occurrence_is(front, pattern, i);
        },
        _ => {
            assert forall|j: int| 0 <= j && j + pattern.len() <= front.len() implies !(
            #[trigger] bytes::occurs_at(front, pattern, j)) by {
                if bytes::occurs_at(front, pattern, j) {
                    assert(bytes::occurs_at(s, pattern, j));
                }
            }
            bytes::lemma_first_occurrence_none(front, pattern);
        },
    }
}

proof fn lemma_header_end_in_take(s: Seq<u8>, m: int)
    requires
        0 <= m <= s.len(),
        bytes::header_end(s) matches Some(end) && end.0 + end.1 <= m,
    ensures
        bytes::header_end(s.take(m)) == bytes::header_end(s),
{
    lemma_occurs_in_take(s, m, bytes::crlf_crlf());
    lemma_occurs_in_take(s, m, bytes::lf_lf());
}

proof fn lemma_line_end_in_take(s: Seq<u8>, m: int)
    requires
        0 <= m <= s.len(),
    ensures
        bytes::line_end(s) matches Some(end) ==> bytes::line_end(s.take(m)) == (if end.0 + end.1
            <= m {
            Some(end)
        } else {
            None
        }),
        bytes::line_end(s) is None ==> bytes::line_end(s.take(m)) is None,
{
    lemma_occurs_in_take(s, m, bytes::lf());
    bytes::lemma_first_occurrence(s, bytes::lf());
}

/// The size that the first line of a chunked body gives, and where the line ends.
spec fn first_line(s: Seq<u8>) -> Option<(int, int)> {
    match bytes::line_end(s) {
        Some(end) => match http::chunk_size(s.take(end.0)) {
            Some(size) => Some((end.0 + end.1, size)),
            None => None,
        },
        None => None,
    }
}

proof fn lemma_first_line(s: Seq<u8>)
    ensures
        first_line(s) matches Some(line) ==> 0 < line.0 <= s.len() && 0 <= line.1 <= usize::MAX,
{
    bytes::lemma_line_end(s);
    if let Some(end) = bytes::line_end(s) {
        http::lemma_chunk_size(s.take(end.0));
    }
}

/// The first line is found in the first bytes as soon as it is there in full.
proof fn lemma_first_line_in_take(s: Seq<u8>, m: int)
    requires
        0 <= m <= s.len(),
        first_line(s) is Some,
    ensures
        first_line(s) matches Some(line) && (if line.0 <= m {
            first_line(s.take(m)) == first_line(s)
        } else {
            bytes::line_end(s.take(m)) is None
        }),
{
    let end = bytes::line_end(s)->Some_0;
    bytes::lemma_line_end(s);
    lemma_line_end_in_take(s, m);
    if end.0 + end.1 <= m {
        assert(s.take(m).take(end.0) == s.take(end.0));
    }
}

/// A chunked body starts with its last chunk.
proof fn lemma_last_chunk(s: Seq<u8>, have: int, max: int)
    requires
        first_line(s) matches Some(line) && line.1 == 0,
    ensures
        first_line(s) matches Some(line) && http::chunked_body(s, have, max) == (
        match http::trailer_len(s.skip(line.0)) {
            Some(n) => BodyView::Complete(seq![], line.0 + n),
            None => BodyView::Incomplete,
        }),
{
}

/// A chunked body starts with a chunk that holds data.
proof fn lemma_data_chunk(s: Seq<u8>, have: int, max: int)
    requires
        first_line(s) matches Some(line) && line.1 > 0,
    ensures
        first_line(s) matches Some(line) && ({
            let rest = s.skip(line.0);
            let size = line.1;
            let n = bytes::newline_len(rest.skip(size));
            &&& http::over_limit(have, size, max) ==> http::chunked_body(
                s,
                have,
                max,
            ) is TooLarge
            &&& !http::over_limit(have, size, max) && rest.len() <= size ==> http::chunked_body(
                s,
                have,
                max,
            ) is Incomplete
            &&& !http::over_limit(have, size, max) && rest.len() > size && n == 0
                ==> http::chunked_body(s, have, max) is BadRequest
            &&& !http::over_limit(have, size, max) && rest.len() > size && n > 0
                ==> http::chunked_body(s, have, max) == http::chunked_body(
                rest.skip(size + n),
                have + size,
                max,
            ).after(rest.take(size), line.0 + size + n)
        }),
{
    lemma_first_line(s);
}

#[verifier::rlimit(30)]
proof fn lemma_chunks_in_take(s: Seq<u8>, have: int, max: int)
    requires
        have >= 0,
    ensures
        http::chunked_body(s, have, max) matches BodyView::Complete(_, n) ==> 0 < n <= s.len()
            && http::chunked_body(s.take(n), have, max) == http::chunked_body(s, have, max),
    decreases s.len(),
{
    if let BodyView::Complete(_, n) = http::chunked_body(s, have, max) {
        laws::http::lemma_body_bounds(s, have, max);
        assert(first_line(s) is Some);
        lemma_first_line(s);
        let line = first_line(s)->Some_0;
        let rest = s.skip(line.0);
        let size = line.1;
        let front = s.take(n);
        if size == 0 {
            let m = n - line.0;
            lemma_last_chunk(s, have, max);
            bytes::lemma_header_end(rest);
            lemma_first_line_in_take(s, n);
            assert(front.skip(line.0) == rest.take(m));
            laws::http::lemma_newline(rest);
            laws::http::lemma_newline(rest.take(m));
            if bytes::newline_len(rest) == 0 {
                lemma_header_end_in_take(rest, m);
            }
            lemma_last_chunk(front, have, max);
        } else {
            lemma_data_chunk(s, have, max);
            let k = bytes::newline_len(rest.skip(size));
            let more = rest.skip(size + k);
            let m = n - line.0 - size - k;
            laws::http::lemma_newline(rest.skip(size));
            lemma_chunks_in_take(more, have + size, max);
            lemma_first_line_in_take(s, n);
            let left = rest.take(n - line.0);
            assert(front.skip(line.0) == left);
            assert(left.take(size) == rest.take(size));
            assert(left.skip(size) == rest.skip(size).take(k + m));
            laws::http::lemma_newline(left.skip(size));
            assert(left.skip(size + k) == more.take(m));
            lemma_data_chunk(front, have, max);
        }
    }
}

/// A request is read from the bytes that it took alone.
pub proof fn law_only_its_bytes_count(s: Seq<u8>, max: int)
    ensures
        http::parsed_request(s, max) matches ParseView::Complete(_, n) ==> 0 < n <= s.len()
            && http::parsed_request(s.take(n), max) == http::parsed_request(s, max),
{
    if let ParseView::Complete(_, n) = http::parsed_request(s, max) {
        let end = bytes::header_end(s)->Some_0;
        let start = end.0 + end.1;
        let rest = s.skip(start);
        let front = s.take(n);
        bytes::lemma_header_end(s);
        let head = http::parsed_head(s.take(end.0))->Ok_0;
        if http::is_chunked(head.headers) {
            lemma_chunks_in_take(rest, 0, max);
        } else if let Some(value) = http::field_value(head.headers, "content-length"@) {
            text::lemma_number(value, 10);
        }
        lemma_header_end_in_take(s, n);
        assert(front.take(end.0) == s.take(end.0));
        assert(front.skip(start) == rest.take(n - start));
        assert(rest.take(n - start).take(n - start) == rest.take(n - start));
    }
}

/// Whether no LF LF stands before the blank line that ends a block of header lines.
pub open spec fn is_plain_block(s: Seq<u8>) -> bool {
    bytes::header_end(s) matches Some(end) && bytes::first_occurrence(
        s.take(end.0),
        bytes::lf_lf(),
    ) is None
}

/// A plain block is not seen to end before it does.
proof fn lemma_block_is_awaited(s: Seq<u8>, k: int)
    requires
        is_plain_block(s),
        bytes::header_end(s) matches Some(end) && 0 <= k < end.0 + end.1,
    ensures
        bytes::header_end(s.take(k)) is None,
{
    let end = bytes::header_end(s)->Some_0;
    let part = s.take(k);
    bytes::lemma_header_end(s);
    lemma_occurs_in_take(s, k, bytes::crlf_crlf());
    lemma_occurs_in_take(s, k, bytes::lf_lf());
    bytes::lemma_first_occurrence(s, bytes::crlf_crlf());
    if end.1 == 4 {
        assert(s.subrange(end.0, end.0 + 4) == bytes::crlf_crlf());
        assert(s[end.0] == s.subrange(end.0, end.0 + 4)[0]);
        assert(s[end.0 + 2] == s.subrange(end.0, end.0 + 4)[2]);
        bytes::lemma_first_occurrence(s.take(end.0), bytes::lf_lf());
        assert forall|j: int| 0 <= j && j + 2 <= part.len() implies !(#[trigger] bytes::occurs_at(
            part,
            bytes::lf_lf(),
            j,
        )) by {
            if bytes::occurs_at(part, bytes::lf_lf(), j) {
                let found = part.subrange(j, j + 2);
                assert(found[0] == 10 && found[1] == 10);
                assert(s[j] == 10 && s[j + 1] == 10);
                if j + 2 <= end.0 {
                    assert(s.take(end.0).subrange(j, j + 2) == found);
                    assert(bytes::occurs_at(s.take(end.0), bytes::lf_lf(), j));
                }
            }
        }
        bytes::lemma_first_occurrence_none(part, bytes::lf_lf());
    }
}

/// Whether `k` bytes of a chunked body end between the CR and the LF behind the data of a
/// chunk.
pub open spec fn parts_an_ending(s: Seq<u8>, k: int) -> bool
    decreases s.len(),
    via parts_an_ending_decreases
{
    match bytes::line_end(s) {
        None => false,
        Some(end) => {
            let start = end.0 + end.1;
            let rest = s.skip(start);
            match http::chunk_size(s.take(end.0)) {
                Some(size) if 0 < size < rest.len() => {
                    let n = bytes::newline_len(rest.skip(size));
                    if k <= start + size + n {
                        n == 2 && k == start + size + 1
                    } else {
                        parts_an_ending(rest.skip(size + n), k - start - size - n)
                    }
                },
                _ => false,
            }
        },
    }
}

#[via_fn]
proof fn parts_an_ending_decreases(s: Seq<u8>, k: int) {
    bytes::lemma_line_end(s);
}

/// Whether the trailer lines of a chunked body, where it has any, are a plain block.
pub open spec fn has_plain_trailer(s: Seq<u8>) -> bool
    decreases s.len(),
    via has_plain_trailer_decreases
{
    match bytes::line_end(s) {
        None => false,
        Some(end) => {
            let rest = s.skip(end.0 + end.1);
            match http::chunk_size(s.take(end.0)) {
                Some(size) => if size == 0 {
                    bytes::newline_len(rest) > 0 || is_plain_block(rest)
                } else if 0 < size < rest.len() {
                    has_plain_trailer(rest.skip(size + bytes::newline_len(rest.skip(size))))
                } else {
                    false
                },
                None => false,
            }
        },
    }
}

#[via_fn]
proof fn has_plain_trailer_decreases(s: Seq<u8>) {
    bytes::lemma_line_end(s);
}

/// The end of a body is not seen before it is there.
proof fn lemma_trailer_is_awaited(rest: Seq<u8>, k: int)
    requires
        bytes::newline_len(rest) > 0 || is_plain_block(rest),
        http::trailer_len(rest) matches Some(n) && 0 <= k < n,
    ensures
        http::trailer_len(rest.take(k)) is None,
{
    let left = rest.take(k);
    bytes::lemma_header_end(rest);
    bytes::lemma_header_end(left);
    laws::http::lemma_newline(rest);
    laws::http::lemma_newline(left);
    if bytes::newline_len(rest) == 0 {
        lemma_block_is_awaited(rest, k);
    }
}

proof fn lemma_chunks_are_awaited(s: Seq<u8>, have: int, max: int, k: int)
    requires
        have >= 0,
        http::chunked_body(s, have, max) matches BodyView::Complete(_, n) && 0 <= k < n,
        has_plain_trailer(s),
        !parts_an_ending(s, k),
    ensures
        http::chunked_body(s.take(k), have, max) is Incomplete,
    decreases s.len(),
{
    laws::http::lemma_body_bounds(s, have, max);
    assert(first_line(s) is Some);
    lemma_first_line(s);
    lemma_first_line_in_take(s, k);
    let part = s.take(k);
    let line = first_line(s)->Some_0;
    let rest = s.skip(line.0);
    let size = line.1;
    if line.0 <= k {
        let left = rest.take(k - line.0);
        assert(part.skip(line.0) == left);
        if size == 0 {
            lemma_last_chunk(s, have, max);
            lemma_last_chunk(part, have, max);
            lemma_trailer_is_awaited(rest, k - line.0);
        } else {
            lemma_data_chunk(s, have, max);
            lemma_data_chunk(part, have, max);
            if k > line.0 + size {
                let n = bytes::newline_len(rest.skip(size));
                laws::http::lemma_newline(rest.skip(size));
                assert(left.skip(size) == rest.skip(size).take(k - line.0 - size));
                laws::http::lemma_newline(left.skip(size));
                let more = rest.skip(size + n);
                let m = k - line.0 - size - n;
                assert(m >= 0);
                assert(bytes::newline_len(left.skip(size)) == n);
                assert(left.skip(size + n) == more.take(m));
                if m == 0 {
                    bytes::lemma_line_end(more.take(0));
                    assert(bytes::line_end(more.take(0)) is None);
                } else {
                    lemma_chunks_are_awaited(more, have + size, max, m);
                }
            }
        }
    }
}

/// A request can come in pieces: as long as it is not there in full, it is waited for. This
/// is not said of a piece that holds more than header lines may take and no end of them, nor
/// where LF LF stands before the end of the header lines or of the trailer lines, nor where
/// the piece ends between the CR and the LF behind the data of a chunk.
pub proof fn law_requests_come_in_pieces(raw: Seq<u8>, max: int, k: int)
    requires
        http::parsed_request(raw, max) matches ParseView::Complete(_, n) && 0 <= k < n,
        is_plain_block(raw),
        bytes::header_end(raw) matches Some(end) && {
            let start = end.0 + end.1;
            &&& k < start ==> k <= MAX_HEADER_BYTES
            &&& http::parsed_head(raw.take(end.0)) matches Ok(head) && (http::is_chunked(
                head.headers,
            ) && k >= start ==> has_plain_trailer(raw.skip(start)) && !parts_an_ending(
                raw.skip(start),
                k - start,
            ))
        },
    ensures
        http::parsed_request(raw.take(k), max) is Incomplete,
{
    law_only_its_bytes_count(raw, max);
    bytes::lemma_header_end(raw);
    let end = bytes::header_end(raw)->Some_0;
    let start = end.0 + end.1;
    let rest = raw.skip(start);
    let part = raw.take(k);
    if k < start {
        lemma_block_is_awaited(raw, k);
    } else {
        lemma_header_end_in_take(raw, k);
        assert(part.take(end.0) == raw.take(end.0));
        assert(part.skip(start) == rest.take(k - start));
        let head = http::parsed_head(raw.take(end.0))->Ok_0;
        if http::is_chunked(head.headers) {
            lemma_chunks_are_awaited(rest, 0, max, k - start);
        } else if let Some(value) = http::field_value(head.headers, "content-length"@) {
            text::lemma_number(value, 10);
        }
    }
}

} // verus!
