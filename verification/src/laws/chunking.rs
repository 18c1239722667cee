//! What holds of line endings, of blank lines, and of bodies that come in chunks or in parts.
use vstd::prelude::*;

use crate::bytes;
use crate::http;
use crate::http::BodyView;
use crate::router;

verus! {

/// Whether bytes are a line without its ending: none of them is a line feed, and the last is
/// no carriage return.
pub open spec fn is_bare(line: Seq<u8>) -> bool {
    &&& forall|i: int| 0 <= i < line.len() ==> (#[trigger] line[i]) != 10
    &&& line.len() > 0 ==> line.last() != 13
}

/// The ending of a line: a line feed, with a carriage return before it or without.
pub open spec fn ending(long: bool) -> Seq<u8> {
    if long {
        seq![13u8, 10u8]
    } else {
        seq![10u8]
    }
}

/// The first line of bytes ends where its ending stands, whichever it is; bytes without a
/// line feed have no line that ended.
pub proof fn law_line_endings(line: Seq<u8>, long: bool, rest: Seq<u8>)
    requires
        is_bare(line),
    ensures
        bytes::line_end(line + ending(long) + rest) == Some(
            (line.len() as int, ending(long).len() as int),
        ),
        bytes::line_end(line) is None,
        bytes::newline_len(ending(long) + rest) == ending(long).len(),
        rest.len() > 0 && rest[0] != 10 && rest[0] != 13 ==> bytes::newline_len(rest) == 0,
        rest.len() > 1 && rest[0] == 13 && rest[1] != 10 ==> bytes::newline_len(rest) == 0,
        bytes::newline_len(Seq::empty()) == 0,
{
    let s = line + ending(long) + rest;
    let n = line.len() + ending(long).len() - 1;
    let lf = bytes::lf();
    assert forall|j: int| 0 <= j < n implies !(#[trigger] bytes::occurs_at(s, lf, j)) by {
        if bytes::occurs_at(s, lf, j) {
            assert(s.subrange(j, j + 1)[0] == lf[0]);
            assert(s[j] == 10);
            if j < line.len() {
                assert(s[j] == line[j]);
            }
        }
    }
    assert(s.subrange(n, n + 1) == lf);
    bytes::lemma_first_occurrence_is(s, lf, n);
    if n > 0 && !long {
        assert(s[n - 1] == line.last());
    }
    bytes::lemma_first_occurrence(line, lf);
    if let Some(i) = bytes::first_occurrence(line, lf) {
        assert(line.subrange(i, i + 1)[0] == lf[0]);
        assert(line[i] == 10);
    }
    let t = ending(long) + rest;
    if long {
        assert(t.subrange(0, 2) == bytes::crlf());
    } else {
        assert(t[0] == 10);
        assert(t.subrange(0, 1) == lf);
        if bytes::crlf().is_prefix_of(t) {
            assert(t.subrange(0, 2)[0] == bytes::crlf()[0]);
        }
    }
    if rest.len() > 0 && rest[0] != 10 {
        if lf.is_prefix_of(rest) {
            assert(rest.subrange(0, 1)[0] == lf[0]);
        }
        if bytes::crlf().is_prefix_of(rest) {
            assert(rest.subrange(0, 2)[0] == bytes::crlf()[0]);
            assert(rest.subrange(0, 2)[1] == bytes::crlf()[1]);
        }
    }
}

/// Whether a blank line of that kind stands at the index, behind the ending of a line.
pub open spec fn is_blank_at(s: Seq<u8>, long: bool, i: int) -> bool {
    if long {
        0 <= i && i + 4 <= s.len() && s[i] == 13 && s[i + 1] == 10 && s[i + 2] == 13 && s[i + 3]
            == 10
    } else {
        0 <= i && i + 2 <= s.len() && s[i] == 10 && s[i + 1] == 10
    }
}

proof fn lemma_blank_at(s: Seq<u8>, i: int)
    ensures
        bytes::occurs_at(s, bytes::crlf_crlf(), i) <==> is_blank_at(s, true, i),
        bytes::occurs_at(s, bytes::lf_lf(), i) <==> is_blank_at(s, false, i),
{
    let a = bytes::crlf_crlf();
    let b = bytes::lf_lf();
    if bytes::occurs_at(s, a, i) {
        let t = s.subrange(i, i + 4);
        assert(t[0] == a[0] && t[1] == a[1] && t[2] == a[2] && t[3] == a[3]);
    }
    if is_blank_at(s, true, i) {
        assert(s.subrange(i, i + 4) == a);
    }
    if bytes::occurs_at(s, b, i) {
        let t = s.subrange(i, i + 2);
        assert(t[0] == b[0] && t[1] == b[1]);
    }
    if is_blank_at(s, false, i) {
        assert(s.subrange(i, i + 2) == b);
    }
}

/// A head ends at its first blank line: the first with carriage returns, and where there is
/// none of these, the first without.
pub proof fn law_blank_lines(s: Seq<u8>, i: int)
    ensures
        is_blank_at(s, true, i) && (forall|j: int|
            0 <= j < i ==> !(#[trigger] is_blank_at(s, true, j))) ==> bytes::header_end(s) == Some(
            (i, 4int),
        ),
        (forall|j: int| !(#[trigger] is_blank_at(s, true, j))) && is_blank_at(s, false, i) && (
        forall|j: int| 0 <= j < i ==> !(#[trigger] is_blank_at(s, false, j))) ==> bytes::header_end(s)
            == Some((i, 2int)),
        (forall|j: int| !(#[trigger] is_blank_at(s, true, j))) && (forall|j: int|
            !(#[trigger] is_blank_at(s, false, j))) ==> bytes::header_end(s) is None,
{
    let a = bytes::crlf_crlf();
    let b = bytes::lf_lf();
    assert forall|j: int| #[trigger] bytes::occurs_at(s, a, j) <==> is_blank_at(s, true, j) by {
        lemma_blank_at(s, j);
    }
    assert forall|j: int| #[trigger] bytes::occurs_at(s, b, j) <==> is_blank_at(s, false, j) by {
        lemma_blank_at(s, j);
    }
    bytes::lemma_first_occurrence(s, a);
    bytes::lemma_first_occurrence(s, b);
    if let Some(k) = bytes::first_occurrence(s, a) {
        assert(bytes::occurs_at(s, a, k));
        assert(is_blank_at(s, true, k));
        if is_blank_at(s, true, i) && k > i {
            assert(bytes::occurs_at(s, a, i));
        }
        if is_blank_at(s, true, i) && k < i {
            assert(is_blank_at(s, true, k));
        }
    } else {
        if is_blank_at(s, true, i) {
            assert(bytes::occurs_at(s, a, i));
        }
    }
    if let Some(k) = bytes::first_occurrence(s, b) {
        assert(bytes::occurs_at(s, b, k));
        assert(is_blank_at(s, false, k));
        if is_blank_at(s, false, i) && k > i {
            assert(bytes::occurs_at(s, b, i));
        }
    } else {
        if is_blank_at(s, false, i) {
            assert(bytes::occurs_at(s, b, i));
        }
    }
}

/// What comes after a chunk goes behind it.
pub open spec fn behind(body: BodyView, data: Seq<u8>, n: int) -> BodyView {
    match body {
        BodyView::Complete(rest, m) => BodyView::Complete(data + rest, n + m),
        _ => body,
    }
}

/// A chunk is its line, as many bytes as the line says, and a line ending; the body goes on
/// behind it. A chunk that takes the body over the limit is refused, and so is one whose line
/// says no size or whose bytes end in something else; one that is not there in full is
/// awaited.
#[verifier::rlimit(30)]
pub proof fn law_chunks(
    line: Seq<u8>,
    long: bool,
    data: Seq<u8>,
    other: bool,
    more: Seq<u8>,
    have: int,
    max: int,
)
    requires
        is_bare(line),
    ensures
        ({
            let head = line + ending(long);
            let tail = data + ending(other) + more;
            match http::chunk_size(line) {
                None => http::chunked_body(head + more, have, max) is BadRequest,
                Some(size) => {
                    &&& size > 0 && have + size > max && max < usize::MAX ==> http::chunked_body(
                        head + more,
                        have,
                        max,
                    ) is TooLarge
                    &&& size > 0 && (have + size <= max || max >= usize::MAX) ==> {
                        &&& data.len() == size ==> http::chunked_body(head + tail, have, max)
                            == behind(
                            http::chunked_body(more, have + size, max),
                            data,
                            (head.len() + size + ending(other).len()) as int,
                        )
                        &&& more.len() <= size ==> http::chunked_body(
                            head + more,
                            have,
                            max,
                        ) is Incomplete
                        &&& more.len() > size && more[size] != 10 && more[size] != 13
                            ==> http::chunked_body(head + more, have, max) is BadRequest
                    }
                },
            }
        }),
        http::chunked_body(line, have, max) is Incomplete,
{
    let head = line + ending(long);
    let tail = data + ending(other) + more;
    law_line_endings(line, long, more);
    law_line_endings(line, long, tail);
    http::lemma_chunk_size(line);
    let n = head.len() as int;
    assert(head + more == line + ending(long) + more);
    assert(head + tail == line + ending(long) + tail);
    assert((head + more).take(line.len() as int) == line);
    assert((head + tail).take(line.len() as int) == line);
    assert((head + more).skip(n) == more);
    assert((head + tail).skip(n) == tail);
    if let Some(size) = http::chunk_size(line) {
        if size > 0 && data.len() == size {
            law_line_endings(Seq::empty(), other, more);
            assert(tail.skip(size) == ending(other) + more);
            assert(tail.take(size) == data);
            assert(tail.skip(size + ending(other).len()) == more);
        }
        if size > 0 && more.len() > size && more[size] != 10 && more[size] != 13 {
            assert(more.skip(size)[0] == more[size]);
            law_line_endings(Seq::empty(), other, more.skip(size));
        }
    }
}

/// The empty chunk ends the body: with a line ending behind it, or with further lines up to
/// a blank one. Without either the end is awaited.
pub proof fn law_last_chunks(line: Seq<u8>, long: bool, other: bool, more: Seq<u8>, have: int, max: int)
    requires
        is_bare(line),
        http::chunk_size(line) == Some(0int),
    ensures
        ({
            let head = line + ending(long);
            &&& http::chunked_body(head + (ending(other) + more), have, max) == BodyView::Complete(
                Seq::empty(),
                (head.len() + ending(other).len()) as int,
            )
            &&& more.len() > 0 && more[0] != 10 && more[0] != 13 ==> http::chunked_body(
                head + more,
                have,
                max,
            ) == (match bytes::header_end(more) {
                Some(end) => BodyView::Complete(Seq::empty(), head.len() + end.0 + end.1),
                None => BodyView::Incomplete,
            })
            &&& http::chunked_body(head, have, max) is Incomplete
        }),
{
    let head = line + ending(long);
    let tail = ending(other) + more;
    let none = Seq::<u8>::empty();
    law_line_endings(line, long, more);
    law_line_endings(line, long, tail);
    law_line_endings(line, long, none);
    law_line_endings(none, other, more);
    let n = head.len() as int;
    assert(head + tail == line + ending(long) + tail);
    assert(head + more == line + ending(long) + more);
    assert(head == line + ending(long) + none);
    assert((head + tail).take(line.len() as int) == line);
    assert((head + more).take(line.len() as int) == line);
    assert(head.take(line.len() as int) == line);
    assert((head + tail).skip(n) == tail);
    assert((head + more).skip(n) == more);
    assert(head.skip(n) == none);
    bytes::lemma_first_occurrence(none, bytes::crlf_crlf());
    bytes::lemma_first_occurrence(none, bytes::lf_lf());
    assert(bytes::header_end(none) is None);
}

/// The line ending at the end of a file in a body belongs to the marker behind it: one is
/// taken away, and no more.
pub proof fn law_endings_of_files(data: Seq<u8>, long: bool)
    ensures
        long || data.len() == 0 || data.last() != 13 ==> router::without_newline(
            data + ending(long),
        ) == data,
        data.len() > 0 && data.last() != 10 ==> router::without_newline(data) == data,
        router::without_newline(Seq::empty()) == Seq::<u8>::empty(),
{
    let s = data + ending(long);
    let n = s.len() as int;
    let crlf = bytes::crlf();
    let lf = bytes::lf();
    if long {
        assert(s.subrange(n - 2, n) == crlf);
        assert(s.take(n - 2) == data);
    } else {
        assert(s.subrange(n - 1, n) == lf);
        assert(s.take(n - 1) == data);
        if crlf.is_suffix_of(s) {
            assert(s.subrange(n - 2, n)[0] == crlf[0]);
            assert(s[n - 2] == 13);
            assert(data.last() == s[n - 2]);
        }
    }
    let m = data.len() as int;
    if m > 0 && data.last() != 10 {
        if crlf.is_suffix_of(data) {
            assert(data.subrange(m - 2, m)[1] == crlf[1]);
        }
        if lf.is_suffix_of(data) {
            assert(data.subrange(m - 1, m)[0] == lf[0]);
        }
    }
}

/// The pieces of a body in parts: what stands before a marker, the line ending behind it, the
/// block of a part, the blank line, the contents, the line ending that belongs to the next
/// marker, and what follows that marker.
pub struct PartPieces {
    pub before: Seq<u8>,
    pub first: Seq<u8>,
    pub block: Seq<u8>,
    pub blank: Seq<u8>,
    pub contents: Seq<u8>,
    pub last: Seq<u8>,
    pub more: Seq<u8>,
}

impl PartPieces {
    pub open spec fn tail(self, marker: Seq<u8>) -> Seq<u8> {
        self.contents + self.last + (marker + self.more)
    }

    pub open spec fn inner(self, marker: Seq<u8>) -> Seq<u8> {
        self.block + self.blank + self.tail(marker)
    }

    pub open spec fn bytes(self, marker: Seq<u8>) -> Seq<u8> {
        self.before + marker + (self.first + self.inner(marker))
    }

    /// Whether the pieces are the ones that are found: each marker and the blank line is the
    /// first where it is looked for, the marker is not the last one, and the line endings are
    /// line endings.
    pub open spec fn fits(self, marker: Seq<u8>) -> bool {
        &&& marker.len() > 0
        &&& bytes::first_occurrence(self.bytes(marker), marker) == Some(self.before.len() as int)
        &&& self.first == ending(true) || self.first == ending(false)
        &&& bytes::header_end(self.inner(marker)) == Some(
            (self.block.len() as int, self.blank.len() as int),
        )
        &&& bytes::first_occurrence(self.tail(marker), marker) == Some(
            (self.contents.len() + self.last.len()) as int,
        )
        &&& self.last == ending(true) || self.last == ending(false) && (self.contents.len() == 0
            || self.contents.last() != 13)
    }
}

/// A body in parts is read one part after the other: what stands before the first marker does
/// not count, a part with a name is a file with the contents between its blank line and the
/// line ending before the next marker, and the rest follows from that marker on.
pub proof fn law_parts_are_read_in_turn(part: PartPieces, marker: Seq<u8>)
    requires
        part.fits(marker),
    ensures
        router::multipart_files(part.bytes(marker), marker) == (match router::part_name(
            part.block,
        ) {
            Some(name) => seq![(name, part.contents)],
            None => Seq::empty(),
        }) + router::multipart_files(marker + part.more, marker),
{
    let s = part.bytes(marker);
    let inner = part.inner(marker);
    let tail = part.tail(marker);
    let after = part.first + inner;
    let n = part.before.len() + marker.len();
    let long = part.first == ending(true);
    law_line_endings(Seq::empty(), long, inner);
    assert(s.skip(n as int) == after);
    assert(after[0] == 13 || after[0] == 10);
    assert(!bytes::occurs_at(after, router::dashes(), 0)) by {
        if bytes::occurs_at(after, router::dashes(), 0) {
            assert(after.subrange(0, 2)[0] == router::dashes()[0]);
        }
    }
    assert(after.skip(part.first.len() as int) == inner);
    assert(inner.skip((part.block.len() + part.blank.len()) as int) == tail);
    assert(inner.take(part.block.len() as int) == part.block);
    let length = (part.contents.len() + part.last.len()) as int;
    assert(tail.take(length) == part.contents + part.last);
    assert(tail.skip(length) == marker + part.more);
    law_endings_of_files(part.contents, part.last == ending(true));
    let more = router::multipart_files(marker + part.more, marker);
    assert(Seq::<(Seq<char>, Seq<u8>)>::empty() + more == more);
}

/// A body in parts ends with the marker that two dashes follow; without a marker it holds no
/// file.
pub proof fn law_last_markers(before: Seq<u8>, marker: Seq<u8>, more: Seq<u8>, s: Seq<u8>)
    ensures
        bytes::first_occurrence(before + marker + (seq![45u8, 45u8] + more), marker) == Some(
            before.len() as int,
        ) ==> router::multipart_files(before + marker + (seq![45u8, 45u8] + more), marker).len()
            == 0,
        bytes::first_occurrence(s, marker) is None ==> router::multipart_files(s, marker).len() == 0,
{
    let all = before + marker + (seq![45u8, 45u8] + more);
    let after = all.skip((before.len() + marker.len()) as int);
    assert(after == seq![45u8, 45u8] + more);
    assert(after.subrange(0, 2) == router::dashes());
    assert(bytes::occurs_at(after, router::dashes(), 0));
}

} // verus!
