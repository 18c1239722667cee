//! What holds of the way from an uploaded body to the files in the store.
use vstd::prelude::*;
use vstd::utf8::*;

use crate::config::ServerView;
use crate::http;
use crate::http::{Fields, RequestView};
use crate::laws;
use crate::laws::uploads::PartBytes;
use crate::path;
use crate::router;
use crate::router::{
    ActionView, HandlerView, InfoView, IoFailure, PendingView, ReplyView, StepView, UploadView,
};
use crate::text;
use crate::text::Pattern;
use crate::util;

verus! {

/// The value that the first header of a name has, where there is one.
pub open spec fn says(headers: Fields, name: Seq<char>, value: Option<Seq<char>>) -> bool {
    match value {
        Some(value) => exists|i: int|
            {
                &&& 0 <= i < headers.len()
                &&& #[trigger] headers[i] == (name, value)
                &&& forall|j: int| 0 <= j < i ==> (#[trigger] headers[j]).0 != name
            },
        None => forall|i: int| 0 <= i < headers.len() ==> (#[trigger] headers[i]).0 != name,
    }
}

/// A header is found by its name, whatever the case of the letters that it is asked for by;
/// the first one of the name counts.
pub proof fn law_headers_are_found(
    request: RequestView,
    name: Seq<char>,
    asked: Seq<char>,
    value: Option<Seq<char>>,
)
    requires
        says(request.headers, name, value),
        name.len() == asked.len(),
        forall|i: int|
            0 <= i < name.len() ==> #[trigger] name[i] == asked[i] && !('A' <= name[i] <= 'Z') || (
            'A' <= asked[i] <= 'Z' && name[i] as int == asked[i] as int + 32),
    ensures
        request.header(asked) == value,
{
    let headers = request.headers;
    assert forall|i: int| 0 <= i < name.len() implies #[trigger] text::lowered(asked)[i]
        == name[i] by {
        laws::words::law_lower_case(asked, i);
        assert(name[i] == name[i]);
    }
    assert(text::lowered(asked) == name);
    match value {
        Some(value) => {
            let i = choose|i: int|
                {
                    &&& 0 <= i < headers.len()
                    &&& #[trigger] headers[i] == (name, value)
                    &&& forall|j: int| 0 <= j < i ==> (#[trigger] headers[j]).0 != name
                };
            http::lemma_field_index_is(headers, name, i);
        },
        None => {
            http::lemma_field_index_is(headers, name, headers.len() as int);
        },
    }
}

/// The parts of a header value with semicolons between.
pub open spec fn parted(parts: Seq<Seq<char>>) -> Seq<char>
    decreases parts.len(),
{
    if parts.len() == 0 {
        seq![]
    } else if parts.len() == 1 {
        parts[0]
    } else {
        parts[0].push(';') + parted(parts.drop_first())
    }
}

/// Whether a text starts with another, whitespace aside.
pub open spec fn opens(part: Seq<char>, key: Seq<char>) -> bool {
    exists|front: Seq<char>, rest: Seq<char>|
        laws::words::is_blank(front) && part == #[trigger] led(front, key, rest)
}

pub open spec fn led(front: Seq<char>, key: Seq<char>, rest: Seq<char>) -> Seq<char> {
    front + key + rest
}

pub proof fn lemma_opens(part: Seq<char>, key: Seq<char>)
    requires
        key.len() > 0,
        !text::is_whitespace(key[0]),
        key.is_prefix_of(text::trimmed(part)),
    ensures
        opens(part, key),
{
    let p = Pattern::Whitespace;
    lemma_leading(part, p);
    let n = text::leading(part, p);
    let rest = text::trimmed_start(part, p);
    lemma_end(rest, p);
    let whole = text::trimmed(part);
    let front = part.take(n);
    let tail = rest.skip(key.len() as int);
    assert(whole == rest.take(text::end_position(rest, p)));
    assert(whole.subrange(0, key.len() as int) == key);
    assert forall|i: int| 0 <= i < key.len() implies key[i] == rest[i] by {
        assert(whole.subrange(0, key.len() as int)[i] == whole[i]);
    }
    assert(rest == key + tail);
    assert(part == front + rest);
    assert(part == led(front, key, tail));
    assert(laws::words::is_blank(front)) by {
        assert forall|i: int| 0 <= i < front.len() implies text::is_whitespace(
            #[trigger] front[i],
        ) by {
            assert(p.has(part[i]));
        }
    }
}

proof fn lemma_leading(s: Seq<char>, p: Pattern)
    ensures
        0 <= text::leading(s, p) <= s.len(),
        forall|i: int| 0 <= i < text::leading(s, p) ==> p.has(#[trigger] s[i]),
    decreases s.len(),
{
    if s.len() > 0 && p.has(s[0]) {
        let rest = s.drop_first();
        lemma_leading(rest, p);
        assert forall|i: int| 0 <= i < text::leading(s, p) implies p.has(#[trigger] s[i]) by {
            if i > 0 {
                assert(s[i] == rest[i - 1]);
            }
        }
    }
}

proof fn lemma_end(s: Seq<char>, p: Pattern)
    ensures
        0 <= text::end_position(s, p) <= s.len(),
    decreases s.len(),
{
    if s.len() > 0 && p.has(s.last()) {
        lemma_end(s.drop_last(), p);
    }
}

/// Whether a part gives a value for the key: it is the key and the value, with quotes around
/// the value or none, and whitespace around the whole.
pub open spec fn gives(
    part: Seq<char>,
    key: Seq<char>,
    value: Seq<char>,
    front: Seq<char>,
    quotes: Seq<char>,
    back: Seq<char>,
) -> bool {
    &&& part == front + (key + quotes + value + quotes) + back
    &&& laws::words::is_blank(front)
    &&& laws::words::is_blank(back)
    &&& forall|i: int| 0 <= i < quotes.len() ==> (#[trigger] quotes[i]) == '"'
    &&& value.len() > 0
    &&& value[0] != '"' && value.last() != '"'
    &&& !text::is_whitespace(value.last())
}

proof fn lemma_gives(
    part: Seq<char>,
    key: Seq<char>,
    value: Seq<char>,
    front: Seq<char>,
    quotes: Seq<char>,
    back: Seq<char>,
)
    requires
        gives(part, key, value, front, quotes, back),
        key.len() > 0,
        !text::is_whitespace(key[0]),
    ensures
        router::attribute(part, key) == Some(value),
{
    let p = Pattern::Char('"');
    let whole = key + quotes + value + quotes;
    if quotes.len() > 0 {
        assert(whole.last() == quotes[quotes.len() - 1]);
    } else {
        assert(whole.last() == value.last());
    }
    assert(!text::is_whitespace('"'));
    laws::words::law_trimming(front, whole, back);
    assert(whole.subrange(0, key.len() as int) == key);
    let rest = whole.skip(key.len() as int);
    let q = quotes.len() as int;
    assert(rest == quotes + value + quotes);
    assert forall|j: int| 0 <= j < q implies p.has(#[trigger] rest[j]) by {
        assert(rest[j] == quotes[j]);
    }
    assert(rest[q] == value[0]);
    text::lemma_leading_is(rest, p, q);
    let tail = rest.skip(q);
    assert(tail == value + quotes);
    let n = value.len() as int;
    assert forall|j: int| n <= j < tail.len() implies p.has(#[trigger] tail[j]) by {
        assert(tail[j] == quotes[j - n]);
    }
    assert(tail[n - 1] == value.last());
    text::lemma_end_position_is(tail, p, n);
    assert(tail.take(n) == value);
}

proof fn lemma_first_attribute(parts: Seq<Seq<char>>, key: Seq<char>, k: int)
    requires
        0 <= k <= parts.len(),
        forall|j: int| 0 <= j < k ==> router::attribute(#[trigger] parts[j], key) is None,
        k < parts.len() ==> router::attribute(parts[k], key) is Some,
    ensures
        router::first_attribute(parts, key) == (if k < parts.len() {
            router::attribute(parts[k], key)
        } else {
            None
        }),
    decreases parts.len(),
{
    if k > 0 {
        let rest = parts.drop_first();
        assert(router::attribute(parts[0], key) is None);
        assert forall|j: int| 0 <= j < k - 1 implies router::attribute(
            #[trigger] rest[j],
            key,
        ) is None by {
            assert(rest[j] == parts[j + 1]);
        }
        lemma_first_attribute(rest, key, k - 1);
    }
}

pub proof fn lemma_split_parted(parts: Seq<Seq<char>>)
    requires
        parts.len() > 0,
        laws::words::parts_without(parts, ';'),
    ensures
        text::split(parted(parts), Pattern::Char(';')) == parts,
    decreases parts.len(),
{
    let p = Pattern::Char(';');
    let first = parts[0];
    assert forall|j: int| 0 <= j < first.len() implies !p.has(#[trigger] first[j]) by {
        assert(parts[0][j] != ';');
    }
    laws::texts::lemma_split_whole(first, p);
    if parts.len() == 1 {
        assert(seq![first] == parts);
    } else {
        let rest = parts.drop_first();
        assert forall|i: int, j: int|
            0 <= i < rest.len() && 0 <= j < rest[i].len() implies #[trigger] rest[i][j] != ';' by {
            assert(rest[i] == parts[i + 1]);
            assert(parts[i + 1][j] != ';');
        }
        lemma_split_parted(rest);
        laws::texts::lemma_split_concat(first, ';', parted(rest), p);
        assert(seq![first] + rest == parts);
    }
}

proof fn lemma_value_of(parts: Seq<Seq<char>>, key: Seq<char>, k: int)
    requires
        parts.len() > 0,
        laws::words::parts_without(parts, ';'),
        key.len() > 0,
        !text::is_whitespace(key[0]),
        0 <= k <= parts.len(),
        forall|j: int| 0 <= j < k ==> !opens(#[trigger] parts[j], key),
        k < parts.len() ==> router::attribute(parts[k], key) is Some,
    ensures
        router::first_attribute(text::split(parted(parts), Pattern::Char(';')), key) == (if k
            < parts.len() {
            router::attribute(parts[k], key)
        } else {
            None
        }),
{
    lemma_split_parted(parts);
    assert forall|j: int| 0 <= j < k implies router::attribute(#[trigger] parts[j], key) is None by {
        if key.is_prefix_of(text::trimmed(parts[j])) {
            lemma_opens(parts[j], key);
        }
    }
    lemma_first_attribute(parts, key, k);
}

/// Whether the parts of a header value give a boundary in the part of that index, and in
/// none before it.
pub open spec fn gives_boundary(
    parts: Seq<Seq<char>>,
    k: int,
    boundary: Seq<char>,
    front: Seq<char>,
    quotes: Seq<char>,
    back: Seq<char>,
) -> bool {
    &&& laws::words::parts_without(parts, ';')
    &&& 0 <= k < parts.len()
    &&& forall|j: int| 0 <= j < k ==> !opens(#[trigger] parts[j], "boundary="@)
    &&& gives(parts[k], "boundary="@, boundary, front, quotes, back)
}

/// Whether no part of a header value gives a boundary.
pub open spec fn gives_none(parts: Seq<Seq<char>>) -> bool {
    &&& parts.len() > 0
    &&& laws::words::parts_without(parts, ';')
    &&& forall|j: int| 0 <= j < parts.len() ==> !opens(#[trigger] parts[j], "boundary="@)
}

/// The boundary of a body is what the first part of its type that starts with the key gives,
/// without the quotes around it.
pub proof fn law_boundaries(
    parts: Seq<Seq<char>>,
    k: int,
    boundary: Seq<char>,
    front: Seq<char>,
    quotes: Seq<char>,
    back: Seq<char>,
)
    ensures
        gives_boundary(parts, k, boundary, front, quotes, back) ==> router::boundary_of(
            parted(parts),
        ) == Some(boundary),
        gives_none(parts) ==> router::boundary_of(parted(parts)) is None,
{
    let key = "boundary="@;
    reveal_strlit("boundary=");
    if gives_boundary(parts, k, boundary, front, quotes, back) {
        lemma_gives(parts[k], key, boundary, front, quotes, back);
        lemma_value_of(parts, key, k);
    }
    if gives_none(parts) {
        lemma_value_of(parts, key, parts.len() as int);
    }
}

/// Whether a character may stand in the name of a stored file.
pub open spec fn is_allowed(c: char) -> bool {
    'a' <= c <= 'z' || 'A' <= c <= 'Z' || '0' <= c <= '9' || c == '.' || c == '-' || c == '_'
}

proof fn lemma_base_start(dir: Seq<char>, base: Seq<char>)
    requires
        dir.len() == 0 || dir.last() == '/' || dir.last() == '\\',
        forall|i: int| 0 <= i < base.len() ==> (#[trigger] base[i]) != '/' && base[i] != '\\',
    ensures
        util::base_name_start(dir + base) == dir.len(),
        (dir + base).skip(dir.len() as int) == base,
    decreases base.len(),
{
    let all = dir + base;
    assert(all.skip(dir.len() as int) == base);
    if base.len() > 0 {
        let front = base.drop_last();
        assert forall|i: int| 0 <= i < front.len() implies (#[trigger] front[i]) != '/' && front[i]
            != '\\' by {
            assert(front[i] == base[i]);
        }
        assert(all.drop_last() == dir + front);
        assert(base[base.len() - 1] != '/');
        assert(all.last() == base[base.len() - 1]);
        lemma_base_start(dir, front);
    } else {
        assert(all == dir);
    }
}

/// The name of a stored file is what stands behind the last slash or backslash of the name
/// that was asked for, without the whitespace around it; a character that may not stand in
/// it gives way to an underscore. There is none where nothing but dots is left.
pub proof fn law_names_of_files(
    dir: Seq<char>,
    front: Seq<char>,
    base: Seq<char>,
    back: Seq<char>,
)
    requires
        dir.len() == 0 || dir.last() == '/' || dir.last() == '\\',
        laws::words::is_blank(front),
        laws::words::is_blank(back),
        laws::words::is_tight(base),
        forall|i: int| 0 <= i < base.len() ==> (#[trigger] base[i]) != '/' && base[i] != '\\',
    ensures
        match util::safe_file_name(dir + (front + base + back)) {
            Some(name) => {
                &&& name.len() == base.len()
                &&& forall|i: int|
                    0 <= i < base.len() ==> #[trigger] name[i] == (if is_allowed(base[i]) {
                        base[i]
                    } else {
                        '_'
                    })
                &&& exists|i: int| 0 <= i < base.len() && (#[trigger] base[i]) != '.'
            },
            None => forall|i: int| 0 <= i < base.len() ==> (#[trigger] base[i]) == '.',
        },
{
    let all = front + base + back;
    assert(!text::is_whitespace('/') && !text::is_whitespace('\\'));
    assert forall|i: int| 0 <= i < all.len() implies (#[trigger] all[i]) != '/' && all[i]
        != '\\' by {
        if i < front.len() {
            assert(all[i] == front[i]);
        } else if i < front.len() + base.len() {
            assert(all[i] == base[i - front.len()]);
        } else {
            assert(all[i] == back[i - front.len() - base.len()]);
        }
    }
    lemma_base_start(dir, all);
    laws::words::law_trimming(front, base, back);
    let safe = base.map_values(|c: char| util::safe_char(c));
    assert forall|i: int| 0 <= i < base.len() implies #[trigger] safe[i] == (if is_allowed(
        base[i],
    ) {
        base[i]
    } else {
        '_'
    }) by {}
    if util::all_dots(safe) {
        assert forall|i: int| 0 <= i < base.len() implies (#[trigger] base[i]) == '.' by {
            assert(safe[i] == '.');
        }
    } else {
        let i = choose|i: int| 0 <= i < safe.len() && safe[i] != '.';
        assert(base[i] != '.');
    }
}

/// A name that is fit for a stored file is kept as it is, with or without a directory
/// before it.
pub proof fn law_fit_names_are_kept(dir: Seq<char>, name: Seq<char>, k: int)
    requires
        dir.len() == 0 || dir.last() == '/' || dir.last() == '\\',
        forall|i: int| 0 <= i < name.len() ==> is_allowed(#[trigger] name[i]),
        0 <= k < name.len(),
        name[k] != '.',
    ensures
        util::safe_file_name(dir + name) == Some(name),
{
    let none = Seq::<char>::empty();
    assert(is_allowed(name[0]) && is_allowed(name[name.len() - 1]));
    assert forall|i: int| 0 <= i < name.len() implies (#[trigger] name[i]) != '/' && name[i]
        != '\\' by {
        assert(is_allowed(name[i]));
    }
    law_names_of_files(dir, none, name, none);
    assert(none + name + none == name);
    assert(util::safe_file_name(dir + name) is Some);
    assert(util::safe_file_name(dir + name)->Some_0 == name);
}

/// Whether a line of a part is the one that gives its name: in any case of the letters, and
/// with whitespace around it.
pub open spec fn is_disposition(title: Seq<char>) -> bool {
    let name = text::trimmed(title);
    name.len() == 19 && text::lowered(name) == "content-disposition"@
}

/// The name of a part is the file name that the first line of its block gives that says how
/// it is disposed and has one. (How the bytes of the block are read as text is left to the
/// reading of UTF-8.)
pub proof fn law_names_of_parts(
    block: Seq<u8>,
    lines: Seq<Seq<char>>,
    n: int,
    title: Seq<char>,
    parts: Seq<Seq<char>>,
    k: int,
    name: Seq<char>,
    front: Seq<char>,
    quotes: Seq<char>,
    back: Seq<char>,
)
    requires
        laws::http::are_lines(lines),
        0 <= n < lines.len(),
        forall|i: int, j: int|
            0 <= i < n && 0 <= j < lines[i].len() && #[trigger] lines[i][j] == ':'
                ==> !is_disposition(lines[i].take(j)),
        lines[n] == title.push(':') + parted(parts),
        forall|i: int| 0 <= i < title.len() ==> (#[trigger] title[i]) != ':',
        is_disposition(title),
        laws::words::parts_without(parts, ';'),
        0 <= k < parts.len(),
        forall|j: int| 0 <= j < k ==> !opens(#[trigger] parts[j], "filename="@),
        gives(parts[k], "filename="@, name, front, quotes, back),
    ensures
        text::lossy_utf8(block) == laws::requests::between(lines) ==> router::part_name(block)
            == util::safe_file_name(name),
{
    let key = "filename="@;
    reveal_strlit("filename=");
    laws::requests::lemma_lines(lines);
    lemma_gives(parts[k], key, name, front, quotes, back);
    lemma_value_of(parts, key, k);
    let line = lines[n];
    let p = Pattern::Char(':');
    assert forall|j: int| 0 <= j < title.len() implies !p.has(#[trigger] line[j]) by {
        assert(line[j] == title[j]);
    }
    assert(line[title.len() as int] == ':');
    text::lemma_position_is(line, p, title.len() as int);
    assert(line.take(title.len() as int) == title);
    assert(line.skip(title.len() + 1int) == parted(parts));
    assert(router::line_file_name(line) == Some(name));
    assert forall|i: int| 0 <= i < n implies router::line_file_name(#[trigger] lines[i]) is None by {
        text::lemma_position_bounds(lines[i], p);
        let j = text::position(lines[i], p);
        if j < lines[i].len() {
            assert(lines[i][j] == ':');
            reveal_strlit("content-disposition");
            let other = text::trimmed(lines[i].take(j));
            assert(text::lowered(other).len() == other.len());
        }
    }
    lemma_first_file_name(lines, n);
}

/// A part whose block has no line that says how it is disposed has no name, and neither has
/// one whose line for that gives no file name.
pub proof fn law_parts_without_names(
    block: Seq<u8>,
    lines: Seq<Seq<char>>,
    title: Seq<char>,
    parts: Seq<Seq<char>>,
)
    requires
        laws::http::are_lines(lines),
        lines.len() > 0,
        forall|i: int| 0 <= i < title.len() ==> (#[trigger] title[i]) != ':',
        laws::words::parts_without(parts, ';'),
        parts.len() > 0,
        forall|j: int| 0 <= j < parts.len() ==> !opens(#[trigger] parts[j], "filename="@),
        forall|i: int, j: int|
            0 <= i < lines.len() && 0 <= j < lines[i].len() && #[trigger] lines[i][j] == ':'
                ==> !is_disposition(lines[i].take(j)) || lines[i] == title.push(':') + parted(parts),
    ensures
        text::lossy_utf8(block) == laws::requests::between(lines) ==> router::part_name(
            block,
        ) is None,
{
    let key = "filename="@;
    let p = Pattern::Char(':');
    reveal_strlit("filename=");
    reveal_strlit("content-disposition");
    laws::requests::lemma_lines(lines);
    lemma_value_of(parts, key, parts.len() as int);
    assert forall|i: int| 0 <= i < lines.len() implies router::line_file_name(
        #[trigger] lines[i],
    ) is None by {
        let line = lines[i];
        text::lemma_position_bounds(line, p);
        let j = text::position(line, p);
        if j < line.len() {
            assert(lines[i][j] == ':');
            let other = text::trimmed(line.take(j));
            assert(text::lowered(other).len() == other.len());
            if line == title.push(':') + parted(parts) {
                assert forall|k: int| 0 <= k < title.len() implies !p.has(#[trigger] line[k]) by {
                    assert(line[k] == title[k]);
                }
                assert(line[title.len() as int] == ':');
                text::lemma_position_is(line, p, title.len() as int);
                assert(line.skip(title.len() + 1int) == parted(parts));
            }
        }
    }
    lemma_no_file_name(lines);
}

proof fn lemma_no_file_name(lines: Seq<Seq<char>>)
    requires
        forall|i: int| 0 <= i < lines.len() ==> router::line_file_name(#[trigger] lines[i]) is None,
    ensures
        router::first_file_name(lines) is None,
    decreases lines.len(),
{
    if lines.len() > 0 {
        let rest = lines.drop_first();
        assert(router::line_file_name(lines[0]) is None);
        assert forall|i: int| 0 <= i < rest.len() implies router::line_file_name(
            #[trigger] rest[i],
        ) is None by {
            assert(rest[i] == lines[i + 1]);
        }
        lemma_no_file_name(rest);
    }
}

proof fn lemma_first_file_name(lines: Seq<Seq<char>>, n: int)
    requires
        0 <= n < lines.len(),
        forall|i: int| 0 <= i < n ==> router::line_file_name(#[trigger] lines[i]) is None,
        router::line_file_name(lines[n]) is Some,
    ensures
        router::first_file_name(lines) == router::line_file_name(lines[n]),
    decreases lines.len(),
{
    if n > 0 {
        let rest = lines.drop_first();
        assert(router::line_file_name(lines[0]) is None);
        assert forall|i: int| 0 <= i < n - 1 implies router::line_file_name(
            #[trigger] rest[i],
        ) is None by {
            assert(rest[i] == lines[i + 1]);
        }
        lemma_first_file_name(rest, n - 1);
    }
}

/// The path of a file in the store.
pub open spec fn in_store(store: Seq<char>, name: Seq<char>) -> Seq<char> {
    if store.len() == 0 || store.last() == '/' {
        store + name
    } else {
        store.push('/') + name
    }
}

proof fn lemma_in_store(store: Seq<char>, name: Seq<char>)
    requires
        name.len() > 0 ==> name[0] != '/',
    ensures
        path::joined(store, name) == in_store(store, name),
{
    reveal_strlit("/");
    assert("/"@ == seq!['/']);
    if store.len() == 0 {
        assert(store + name == name);
    } else {
        assert(store + "/"@ + name == store.push('/') + name);
    }
}

proof fn lemma_safe_start(name: Seq<char>)
    requires
        util::safe_file_name(name) is Some,
    ensures
        util::safe_file_name(name)->Some_0.len() > 0,
        util::safe_file_name(name)->Some_0[0] != '/',
{
    laws::uploads::law_stored_names_are_safe(name);
    let safe = util::safe_file_name(name)->Some_0;
    if safe.len() == 0 {
        assert(util::all_dots(safe));
    } else {
        assert(util::is_name_char(safe[0]));
    }
}

/// Whether a step starts to store one file: it looks at the place for it.
pub open spec fn stores(
    step: StepView,
    store: Seq<char>,
    name: Seq<char>,
    files: Seq<(Seq<char>, Seq<u8>)>,
    failure: u16,
) -> bool {
    let path = in_store(store, name);
    step == StepView::Ask(
        ActionView::Inspect(encode_utf8(path)),
        PendingView::Candidate {
            upload: UploadView { store, left: files, saved: Seq::empty(), attempt: 0, failure },
            path,
        },
    )
}

/// The name of a file that is named after the time.
pub open spec fn after_time(millis: u64) -> Seq<char> {
    "upload-"@ + text::decimal(millis as nat) + ".bin"@
}

proof fn lemma_after_time(millis: u64)
    ensures
        after_time(millis).len() > 0,
        after_time(millis)[0] != '/',
{
    reveal_strlit("upload-");
    assert(after_time(millis)[0] == "upload-"@[0]);
}

/// Once the store is there, a body whose type gives no boundary is stored as it is and as a
/// whole, whatever its type is: under the name that the request gives, where that can be made
/// a name of a file, and else under one after the time.
pub proof fn law_whole_bodies_are_stored(
    request: RequestView,
    server: ServerView,
    store: Seq<char>,
    kind: Option<Seq<char>>,
    parts: Seq<Seq<char>>,
    asked: Option<Seq<char>>,
    millis: u64,
)
    requires
        says(request.headers, "content-type"@, kind),
        kind matches Some(value) ==> value == parted(parts) && gives_none(parts),
        says(request.headers, "x-filename"@, asked),
    ensures
        ({
            let step = router::resumed(
                request,
                server,
                PendingView::Store { store },
                ReplyView::Done(Ok(())),
            );
            let name = match asked {
                Some(asked) => util::safe_file_name(asked),
                None => None,
            };
            match name {
                Some(name) => stores(step, store, name, seq![(name, request.body)], 500),
                None => {
                    &&& step == StepView::Ask(ActionView::Clock, PendingView::RawName { store })
                    &&& stores(
                        router::resumed(
                            request,
                            server,
                            PendingView::RawName { store },
                            ReplyView::Millis(millis),
                        ),
                        store,
                        after_time(millis),
                        seq![(after_time(millis), request.body)],
                        500,
                    )
                },
            }
        }),
{
    lemma_names_of_headers(request, kind, asked);
    if kind is Some {
        law_boundaries(parts, 0, Seq::empty(), Seq::empty(), Seq::empty(), Seq::empty());
    }
    let left = match asked {
        Some(asked) => util::safe_file_name(asked),
        None => None,
    };
    if let Some(name) = left {
        lemma_safe_start(asked->Some_0);
        lemma_in_store(store, name);
    } else {
        lemma_after_time(millis);
        lemma_in_store(store, after_time(millis));
        assert(router::timed_name(millis) == after_time(millis));
    }
}

proof fn lemma_names_of_headers(
    request: RequestView,
    kind: Option<Seq<char>>,
    asked: Option<Seq<char>>,
)
    requires
        says(request.headers, "content-type"@, kind),
        says(request.headers, "x-filename"@, asked),
    ensures
        request.header("content-type"@) == kind,
        request.header("x-filename"@) == asked,
{
    reveal_strlit("content-type");
    reveal_strlit("x-filename");
    law_headers_are_found(request, "content-type"@, "content-type"@, kind);
    law_headers_are_found(request, "x-filename"@, "x-filename"@, asked);
}

/// Once the store is there, a body whose type gives a boundary is stored file by file: the
/// first file of its parts comes first, and all of them are kept with their bytes. A body
/// without files is refused.
pub proof fn law_files_of_bodies_are_stored(
    request: RequestView,
    server: ServerView,
    store: Seq<char>,
    parts: Seq<Seq<char>>,
    k: int,
    boundary: Seq<char>,
    front: Seq<char>,
    quotes: Seq<char>,
    back: Seq<char>,
    list: Seq<PartBytes>,
    t: Seq<u8>,
)
    requires
        says(request.headers, "content-type"@, Some(parted(parts))),
        gives_boundary(parts, k, boundary, front, quotes, back),
        request.body == laws::uploads::multipart_body(
            list,
            encode_utf8(seq!['-', '-'] + boundary),
            t,
        ),
        forall|i: int|
            0 <= i < list.len() ==> laws::uploads::part_fits(
                #[trigger] list[i],
                encode_utf8(seq!['-', '-'] + boundary),
            ),
    ensures
        ({
            let step = router::resumed(
                request,
                server,
                PendingView::Store { store },
                ReplyView::Done(Ok(())),
            );
            let files = laws::uploads::files_of(list);
            if files.len() == 0 {
                step matches StepView::Done(HandlerView::Response(response)) && response.status
                    == 400 && response.body == encode_utf8(
                    "multipart request did not contain files\n"@,
                )
            } else {
                stores(step, store, files[0].0, files, 400)
            }
        }),
{
    lemma_boundary_of_request(request, parts, k, boundary, front, quotes, back);
    lemma_files_of_body(boundary, list, t);
    lemma_step_of_files(request, server, store, boundary, laws::uploads::files_of(list));
    if laws::uploads::files_of(list).len() > 0 {
        lemma_files_are_named(list);
        lemma_in_store(store, laws::uploads::files_of(list)[0].0);
    }
}

proof fn lemma_boundary_of_request(
    request: RequestView,
    parts: Seq<Seq<char>>,
    k: int,
    boundary: Seq<char>,
    front: Seq<char>,
    quotes: Seq<char>,
    back: Seq<char>,
)
    requires
        says(request.headers, "content-type"@, Some(parted(parts))),
        gives_boundary(parts, k, boundary, front, quotes, back),
    ensures
        router::request_boundary(request) == Some(boundary),
{
    reveal_strlit("content-type");
    law_headers_are_found(request, "content-type"@, "content-type"@, Some(parted(parts)));
    law_boundaries(parts, k, boundary, front, quotes, back);
}

proof fn lemma_files_of_body(boundary: Seq<char>, list: Seq<PartBytes>, t: Seq<u8>)
    requires
        forall|i: int|
            0 <= i < list.len() ==> laws::uploads::part_fits(
                #[trigger] list[i],
                encode_utf8(seq!['-', '-'] + boundary),
            ),
    ensures
        "--"@ == seq!['-', '-'],
        router::multipart_files(
            laws::uploads::multipart_body(list, encode_utf8(seq!['-', '-'] + boundary), t),
            encode_utf8(seq!['-', '-'] + boundary),
        ) == laws::uploads::files_of(list),
{
    reveal_strlit("--");
    assert("--"@ == seq!['-', '-']);
    let marker = encode_utf8("--"@ + boundary);
    assert(marker.len() > 0) by {
        assert(is_ascii_chars("--"@));
        is_ascii_chars_encode_utf8("--"@);
        laws::http::lemma_encode_concat("--"@, boundary);
    }
    laws::uploads::law_multipart_reads_back(list, marker, t);
}

proof fn lemma_step_of_files(
    request: RequestView,
    server: ServerView,
    store: Seq<char>,
    boundary: Seq<char>,
    files: Seq<(Seq<char>, Seq<u8>)>,
)
    requires
        router::request_boundary(request) == Some(boundary),
        router::multipart_files(request.body, encode_utf8("--"@ + boundary)) == files,
    ensures
        ({
            let step = router::resumed(
                request,
                server,
                PendingView::Store { store },
                ReplyView::Done(Ok(())),
            );
            if files.len() == 0 {
                step matches StepView::Done(HandlerView::Response(response)) && response.status
                    == 400 && response.body == encode_utf8(
                    "multipart request did not contain files\n"@,
                )
            } else {
                let path = path::joined(store, files[0].0);
                step == StepView::Ask(
                    ActionView::Inspect(encode_utf8(path)),
                    PendingView::Candidate {
                        upload: UploadView {
                            store,
                            left: files,
                            saved: Seq::empty(),
                            attempt: 0,
                            failure: 400,
                        },
                        path,
                    },
                )
            }
        }),
{
}

proof fn lemma_files_are_named(list: Seq<PartBytes>)
    ensures
        forall|i: int|
            0 <= i < laws::uploads::files_of(list).len() ==> (
            #[trigger] laws::uploads::files_of(list)[i]).0.len() > 0 && laws::uploads::files_of(
                list,
            )[i].0[0] != '/',
    decreases list.len(),
{
    if list.len() > 0 {
        let files = laws::uploads::files_of(list);
        let more = laws::uploads::files_of(list.drop_first());
        lemma_files_are_named(list.drop_first());
        assert forall|i: int| 0 <= i < files.len() implies (#[trigger] files[i]).0.len() > 0
            && files[i].0[0] != '/' by {
            if let Some(name) = router::part_name(list[0].0) {
                assert(files == seq![(name, list[0].1)] + more);
                if i > 0 {
                    assert(files[i] == more[i - 1]);
                }
            } else {
                assert(files[i] == more[i]);
            }
            lemma_part_is_named(list[0].0);
        }
    }
}

proof fn lemma_part_is_named(block: Seq<u8>)
    ensures
        router::part_name(block) matches Some(name) ==> name.len() > 0 && name[0] != '/',
{
    if router::part_name(block) is Some {
        if let Some(name) = router::first_file_name(text::lines(text::lossy_utf8(block))) {
            if util::safe_file_name(name) is Some {
                lemma_safe_start(name);
            }
        }
    }
}

/// A store that cannot be made, and a file that cannot be written, are told as failures: the
/// one of a body stored as a whole as one of the server, that of a file of a body as one of
/// the request.
pub proof fn law_failures_to_store(
    request: RequestView,
    server: ServerView,
    store: Seq<char>,
    upload: UploadView,
    path: Seq<char>,
    failure: IoFailure,
)
    ensures
        laws::handling::refuses(
            router::resumed(
                request,
                server,
                PendingView::Store { store },
                ReplyView::Done(Err(failure)),
            ),
            server,
            500,
            None,
        ),
        laws::handling::refuses(
            router::resumed(
                request,
                server,
                PendingView::Saving { upload, path },
                ReplyView::Done(Err(failure)),
            ),
            server,
            upload.failure,
            None,
        ),
{
    laws::handling::lemma_refuses(server, 500, None);
    laws::handling::lemma_refuses(server, upload.failure, None);
}

/// The name that is tried after others: the number of those goes behind the name, before the
/// ending where there is one.
pub open spec fn is_numbered(
    tried: Seq<char>,
    name: Seq<char>,
    stem: Seq<char>,
    ending: Seq<char>,
    attempt: u64,
) -> bool {
    if attempt == 0 {
        tried == name
    } else if stem.len() > 0 && name == stem.push('.') + ending && forall|i: int|
        0 <= i < ending.len() ==> (#[trigger] ending[i]) != '.' {
        tried == stem.push('-') + text::decimal(attempt as nat) + seq!['.'] + ending
    } else {
        tried == name.push('-') + text::decimal(attempt as nat)
    }
}

/// Whether a name has the stem and the ending, or has no ending.
pub open spec fn is_divided(name: Seq<char>, stem: Seq<char>, ending: Seq<char>) -> bool {
    ||| stem.len() > 0 && name == stem.push('.') + ending && forall|i: int|
        0 <= i < ending.len() ==> (#[trigger] ending[i]) != '.'
    ||| stem.len() == 0 && forall|i: int| 0 < i < name.len() ==> (#[trigger] name[i]) != '.'
}

proof fn lemma_numbered(name: Seq<char>, stem: Seq<char>, ending: Seq<char>, attempt: u64)
    requires
        laws::uploads::is_safe_name(name),
        is_divided(name, stem, ending),
    ensures
        is_numbered(router::candidate_name(name, attempt), name, stem, ending, attempt),
        router::candidate_name(name, attempt).len() > 0,
        router::candidate_name(name, attempt)[0] != '/',
{
    laws::uploads::lemma_safe_name(name);
    assert(name.len() > 0 && name[0] != '/') by {
        if name.len() == 0 {
            assert(util::all_dots(name));
        } else {
            assert(util::is_name_char(name[0]));
        }
    }
    laws::paths::lemma_last_dot(name);
    reveal_strlit("-");
    reveal_strlit(".");
    assert("-"@ == seq!['-'] && "."@ == seq!['.']);
    let number = text::decimal(attempt as nat);
    let dot = path::last_dot(name);
    if attempt > 0 {
        if stem.len() > 0 {
            let n = stem.len() as int;
            assert(name[n] == '.');
            assert forall|j: int| n < j < name.len() implies (#[trigger] name[j]) != '.' by {
                assert(name[j] == ending[j - n - 1]);
            }
            assert(dot == n);
            assert(name.take(dot) == stem);
            assert(name.skip(dot + 1) == ending);
            assert(stem + "-"@ + number + "."@ + ending == stem.push('-') + number + seq!['.']
                + ending);
            assert(router::candidate_name(name, attempt)[0] == name[0]);
        } else {
            if dot > 0 {
                assert(name[dot] != '.');
            }
            assert(name + "-"@ + number == name.push('-') + number);
            assert(router::candidate_name(name, attempt)[0] == name[0]);
        }
    }
}

/// The next file of an upload is written under the first name that nothing stands under:
/// its own, and then its own with a number; each is looked at before.
pub proof fn law_names_are_tried_in_turn(
    request: RequestView,
    server: ServerView,
    upload: UploadView,
    path: Seq<char>,
    info: InfoView,
    stem: Seq<char>,
    ending: Seq<char>,
    tried: Seq<char>,
)
    requires
        upload.left.len() > 0,
        laws::uploads::is_safe_name(upload.left[0].0),
        is_divided(upload.left[0].0, stem, ending),
        upload.attempt < 9999,
        is_numbered(tried, upload.left[0].0, stem, ending, (upload.attempt + 1) as u64),
    ensures
        ({
            let step = router::resumed(
                request,
                server,
                PendingView::Candidate { upload, path },
                ReplyView::Info(info),
            );
            &&& !info.exists ==> step == StepView::Ask(
                ActionView::Write(encode_utf8(path), upload.left[0].1),
                PendingView::Saving {
                    upload: UploadView { left: upload.left.drop_first(), ..upload },
                    path,
                },
            )
            &&& info.exists ==> step == StepView::Ask(
                ActionView::Inspect(encode_utf8(in_store(upload.store, tried))),
                PendingView::Candidate {
                    upload: UploadView { attempt: (upload.attempt + 1) as u64, ..upload },
                    path: in_store(upload.store, tried),
                },
            )
        }),
{
    let name = upload.left[0].0;
    let attempt = (upload.attempt + 1) as u64;
    lemma_numbered(name, stem, ending, attempt);
    assert(tried == router::candidate_name(name, attempt));
    lemma_in_store(upload.store, tried);
}

/// Once as many names were tried as there are to be, the file is named after the time.
pub proof fn law_last_names(
    request: RequestView,
    server: ServerView,
    upload: UploadView,
    path: Seq<char>,
    info: InfoView,
    millis: u64,
)
    requires
        upload.left.len() > 0,
        upload.attempt >= 9999,
        upload.attempt <= 10000,
        info.exists,
    ensures
        ({
            let last = UploadView { attempt: 10000, ..upload };
            let place = in_store(upload.store, after_time(millis));
            &&& router::resumed(
                request,
                server,
                PendingView::Candidate { upload, path },
                ReplyView::Info(info),
            ) == StepView::Ask(ActionView::Clock, PendingView::LastName { upload: last })
            &&& router::resumed(
                request,
                server,
                PendingView::LastName { upload: last },
                ReplyView::Millis(millis),
            ) == StepView::Ask(
                ActionView::Write(encode_utf8(place), upload.left[0].1),
                PendingView::Saving {
                    upload: UploadView { left: upload.left.drop_first(), ..last },
                    path: place,
                },
            )
        }),
{
    lemma_after_time(millis);
    lemma_in_store(upload.store, after_time(millis));
    assert(router::timed_name(millis) == after_time(millis));
    assert(UploadView { attempt: 10000, ..upload } == UploadView {
        attempt: if upload.attempt < 10000 {
            (upload.attempt + 1) as u64
        } else {
            upload.attempt
        },
        ..upload
    });
}

/// A list item for each of the names.
pub open spec fn items(names: Seq<Seq<char>>) -> Seq<char>
    decreases names.len(),
{
    if names.len() == 0 {
        seq![]
    } else {
        items(names.drop_last()) + ("<li>"@ + util::escaped(names.last()) + "</li>"@)
    }
}

proof fn lemma_items(store: Seq<char>, names: Seq<Seq<char>>, paths: Seq<Seq<char>>)
    requires
        names.len() == paths.len(),
        forall|i: int|
            0 <= i < names.len() ==> laws::uploads::is_safe_name(#[trigger] names[i]) && paths[i]
                == in_store(store, names[i]),
    ensures
        router::name_items(paths) == items(names),
    decreases names.len(),
{
    if names.len() > 0 {
        let front = names.drop_last();
        let before = paths.drop_last();
        assert forall|i: int| 0 <= i < front.len() implies laws::uploads::is_safe_name(
            #[trigger] front[i],
        ) && before[i] == in_store(store, front[i]) by {
            assert(front[i] == names[i]);
        }
        lemma_items(store, front, before);
        let name = names.last();
        assert(laws::uploads::is_safe_name(names[names.len() - 1]));
        laws::uploads::lemma_safe_name(name);
        assert(name.len() > 0 && name[0] != '/');
        lemma_in_store(store, name);
        laws::uploads::law_uploads_stay_in_the_store(store, name, 0);
        reveal_strlit(".");
        reveal_strlit("..");
        reveal_strlit("/");
        assert(util::all_dots("."@) && util::all_dots(".."@));
        if name == "/"@ {
            assert(name[0] == '/');
        }
        let all = path::components(paths.last());
        assert(all == path::components(store).push(name));
        assert(path::file_name(paths.last()) == Some(name));
        assert(items(front) + "<li>"@ + util::escaped(name) + "</li>"@ == items(names));
    }
}

/// Once a file is written, the next one follows under its own name; after the last one, the
/// answer names all of the files by the names that they were stored under.
pub proof fn law_uploads_go_on(
    request: RequestView,
    server: ServerView,
    upload: UploadView,
    name: Seq<char>,
    names: Seq<Seq<char>>,
)
    requires
        laws::uploads::is_safe_name(name),
        names.len() == upload.saved.len(),
        forall|i: int|
            0 <= i < names.len() ==> laws::uploads::is_safe_name(#[trigger] names[i])
                && upload.saved[i] == in_store(upload.store, names[i]),
        upload.left.len() > 0 ==> laws::uploads::is_safe_name(upload.left[0].0),
    ensures
        ({
            let path = in_store(upload.store, name);
            let step = router::resumed(
                request,
                server,
                PendingView::Saving { upload, path },
                ReplyView::Done(Ok(())),
            );
            if upload.left.len() == 0 {
                laws::handling::shows(
                    step,
                    201,
                    "<!doctype html><html><body><h1>Uploaded</h1><ul>"@ + items(names.push(name))
                        + "</ul></body></html>"@,
                )
            } else {
                let next = in_store(upload.store, upload.left[0].0);
                step == StepView::Ask(
                    ActionView::Inspect(encode_utf8(next)),
                    PendingView::Candidate {
                        upload: UploadView { saved: upload.saved.push(path), attempt: 0, ..upload },
                        path: next,
                    },
                )
            }
        }),
{
    let path = in_store(upload.store, name);
    let all = names.push(name);
    let paths = upload.saved.push(path);
    if upload.left.len() == 0 {
        assert forall|i: int| 0 <= i < all.len() implies laws::uploads::is_safe_name(
            #[trigger] all[i],
        ) && paths[i] == in_store(upload.store, all[i]) by {
            if i < names.len() {
                assert(all[i] == names[i]);
            }
        }
        lemma_items(upload.store, all, paths);
        laws::handling::lemma_html(
            201,
            "<!doctype html><html><body><h1>Uploaded</h1><ul>"@ + items(all)
                + "</ul></body></html>"@,
        );
    } else {
        let next = upload.left[0].0;
        laws::uploads::lemma_safe_name(next);
        assert(next.len() > 0 && next[0] != '/');
        lemma_in_store(upload.store, next);
    }
}

} // verus!
