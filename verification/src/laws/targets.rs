//! What the target of a request asks for, and what a request that is written down says.
use vstd::prelude::*;
use vstd::utf8::*;

use crate::bytes;
use crate::http;
use crate::http::{Fields, MethodView, ParseView, RequestView};
use crate::laws;
use crate::text;
use crate::text::Pattern;
use crate::util;

verus! {

/// A byte of a path as it is spelled: as itself, or by a percent sign and two digits.
pub enum Unit {
    Plain(u8),
    Coded { value: u8, high: u8, low: u8 },
}

/// Whether a byte is a hexadecimal digit for a value, in either case.
pub open spec fn is_digit_for(digit: u8, value: int) -> bool {
    ||| 0 <= value < 10 && digit == 48 + value
    ||| 10 <= value < 16 && (digit == 65 + (value - 10) || digit == 97 + (value - 10))
}

impl Unit {
    /// The byte that is meant.
    pub open spec fn meant(self) -> u8 {
        match self {
            Unit::Plain(b) => b,
            Unit::Coded { value, .. } => value,
        }
    }

    /// The bytes that spell it.
    pub open spec fn spelled(self) -> Seq<u8> {
        match self {
            Unit::Plain(b) => seq![b],
            Unit::Coded { high, low, .. } => seq![37u8, high, low],
        }
    }

    /// A percent sign is never spelled as itself, and the digits are those of the byte.
    pub open spec fn fits(self) -> bool {
        match self {
            Unit::Plain(b) => b != 37,
            Unit::Coded { value, high, low } => is_digit_for(high, value as int / 16)
                && is_digit_for(low, value as int % 16),
        }
    }
}

/// Whether all the bytes are spelled as they should be.
pub open spec fn units_fit(units: Seq<Unit>) -> bool {
    forall|i: int| 0 <= i < units.len() ==> (#[trigger] units[i]).fits()
}

/// The bytes that are meant.
pub open spec fn meant(units: Seq<Unit>) -> Seq<u8> {
    units.map_values(|unit: Unit| unit.meant())
}

/// The bytes that spell them.
pub open spec fn spelled(units: Seq<Unit>) -> Seq<u8>
    decreases units.len(),
{
    if units.len() == 0 {
        seq![]
    } else {
        units[0].spelled() + spelled(units.drop_first())
    }
}

/// Whether two bytes are hexadecimal digits.
pub open spec fn are_digits(a: u8, b: u8) -> bool {
    (exists|v: int| is_digit_for(a, v)) && (exists|v: int| is_digit_for(b, v))
}

/// Whether bytes start with a percent sign that no two hexadecimal digits follow.
pub open spec fn is_broken(s: Seq<u8>) -> bool {
    s.len() > 0 && s[0] == 37 && !(s.len() >= 3 && are_digits(s[1], s[2]))
}

proof fn lemma_digit(digit: u8)
    ensures
        forall|v: int| #[trigger] is_digit_for(digit, v) ==> util::hex_value(digit) == Some(v),
        util::hex_value(digit) matches Some(v) ==> is_digit_for(digit, v),
{
}

proof fn lemma_first_unit(unit: Unit, rest: Seq<u8>)
    requires
        unit.fits(),
    ensures
        util::percent_bytes(unit.spelled() + rest) == (match util::percent_bytes(rest) {
            Some(more) => Some(seq![unit.meant()] + more),
            None => None,
        }),
{
    let s = unit.spelled() + rest;
    match unit {
        Unit::Plain(b) => {
            assert(s.skip(1) == rest);
        },
        Unit::Coded { value, high, low } => {
            assert(s.skip(3) == rest);
            lemma_digit(high);
            lemma_digit(low);
        },
    }
}

/// What is spelled is read as what is meant, and a percent sign without two digits behind it
/// is refused wherever it stands.
pub proof fn law_percent_decoding(units: Seq<Unit>, broken: Seq<u8>)
    requires
        units_fit(units),
        is_broken(broken),
    ensures
        util::percent_bytes(spelled(units)) == Some(meant(units)),
        util::percent_bytes(spelled(units) + broken) is None,
    decreases units.len(),
{
    if units.len() == 0 {
        assert(meant(units) == Seq::<u8>::empty());
        assert(spelled(units) + broken == broken);
        if broken.len() >= 3 {
            lemma_digit(broken[1]);
            lemma_digit(broken[2]);
            if util::hex_value(broken[1]) is Some && util::hex_value(broken[2]) is Some {
                assert(is_digit_for(broken[1], util::hex_value(broken[1])->Some_0));
                assert(is_digit_for(broken[2], util::hex_value(broken[2])->Some_0));
            }
        }
    } else {
        let rest = units.drop_first();
        assert forall|i: int| 0 <= i < rest.len() implies (#[trigger] rest[i]).fits() by {
            assert(rest[i] == units[i + 1]);
        }
        law_percent_decoding(rest, broken);
        lemma_first_unit(units[0], spelled(rest));
        lemma_first_unit(units[0], spelled(rest) + broken);
        assert(spelled(units) + broken == units[0].spelled() + (spelled(rest) + broken));
        assert(meant(units) == seq![units[0].meant()] + meant(rest));
    }
}

/// Whether `raw` is a way to write `path` in a target: it starts with a slash, holds no
/// question mark, and each byte of the path is spelled in it.
pub open spec fn writes(raw: Seq<char>, units: Seq<Unit>, path: Seq<char>) -> bool {
    &&& raw.len() > 0
    &&& raw[0] == '/'
    &&& forall|i: int| 0 <= i < raw.len() ==> (#[trigger] raw[i]) != '?'
    &&& units_fit(units)
    &&& encode_utf8(raw) == spelled(units)
    &&& encode_utf8(path) == meant(units)
}

/// The bytes of a text, each spelled as itself.
pub open spec fn plain_units(s: Seq<char>) -> Seq<Unit> {
    encode_utf8(s).map_values(|b: u8| Unit::Plain(b))
}

proof fn lemma_spelled_plain(bytes: Seq<u8>)
    ensures
        spelled(bytes.map_values(|b: u8| Unit::Plain(b))) == bytes,
        meant(bytes.map_values(|b: u8| Unit::Plain(b))) == bytes,
    decreases bytes.len(),
{
    let units = bytes.map_values(|b: u8| Unit::Plain(b));
    if bytes.len() > 0 {
        let rest = bytes.drop_first();
        lemma_spelled_plain(rest);
        assert(units.drop_first() == rest.map_values(|b: u8| Unit::Plain(b)));
        assert(seq![bytes[0]] + rest == bytes);
    }
    assert(meant(units) == bytes);
}

/// A path without percent signs and question marks writes itself, character for character.
pub proof fn lemma_writes_itself(raw: Seq<char>)
    requires
        raw.len() > 0,
        raw[0] == '/',
        forall|i: int| 0 <= i < raw.len() ==> (#[trigger] raw[i]) != '?' && raw[i] != '%',
    ensures
        writes(raw, plain_units(raw), raw),
{
    let bytes = encode_utf8(raw);
    let units = plain_units(raw);
    lemma_spelled_plain(bytes);
    laws::paths::lemma_image_without(raw, '%');
    assert forall|i: int| 0 <= i < units.len() implies (#[trigger] units[i]).fits() by {
        assert(laws::paths::image(raw)[i] == bytes[i] as char);
        assert(bytes[i] != 37);
    }
}

/// A target with the query behind a question mark, where it has one.
pub open spec fn target_of(raw: Seq<char>, query: Option<Seq<char>>) -> Seq<char> {
    match query {
        Some(query) => raw.push('?') + query,
        None => raw,
    }
}

/// The text of a query that may be absent.
pub open spec fn query_text(query: Option<Seq<char>>) -> Seq<char> {
    match query {
        Some(query) => query,
        None => seq![],
    }
}

proof fn lemma_not_absolute_form(s: Seq<char>)
    requires
        s.len() > 0,
        s[0] != 'h',
    ensures
        http::origin_form(s) == s,
{
    reveal_strlit("http://");
    if "http://"@.is_prefix_of(s) {
        assert(s.subrange(0, "http://"@.len() as int)[0] == s[0]);
        assert("http://"@[0] == 'h');
    }
}

proof fn lemma_decoded(raw: Seq<char>, units: Seq<Unit>, path: Seq<char>)
    requires
        units_fit(units),
        encode_utf8(raw) == spelled(units),
        encode_utf8(path) == meant(units),
    ensures
        util::percent_decoded(raw) == Some(path),
{
    law_percent_decoding(units, seq![37u8]);
    encode_utf8_valid_utf8(path);
    encode_utf8_decode_utf8(path);
}

/// The path of a target is what its spelling means, and the query is what stands behind the
/// first question mark, untouched.
pub proof fn law_targets(
    raw: Seq<char>,
    units: Seq<Unit>,
    path: Seq<char>,
    query: Option<Seq<char>>,
)
    requires
        writes(raw, units, path),
    ensures
        http::parsed_target(target_of(raw, query)) == Ok::<(Seq<char>, Seq<char>), Seq<char>>(
            (path, query_text(query)),
        ),
{
    let target = target_of(raw, query);
    let p = Pattern::Char('?');
    assert(target[0] == '/');
    lemma_not_absolute_form(target);
    lemma_decoded(raw, units, path);
    assert forall|i: int| 0 <= i < raw.len() implies !p.has(#[trigger] target[i]) by {
        assert(target[i] == raw[i]);
    }
    text::lemma_position_is(target, p, raw.len() as int);
    assert(target.take(raw.len() as int) == raw);
    if let Some(q) = query {
        assert(target.skip(raw.len() + 1int) == q);
    }
}

/// For a target that starts with a slash and holds no percent sign in front of the first
/// question mark, the path is the target up to there, character for character.
pub proof fn law_plain_targets(path: Seq<char>, query: Option<Seq<char>>)
    requires
        path.len() > 0,
        path[0] == '/',
        forall|i: int| 0 <= i < path.len() ==> (#[trigger] path[i]) != '?' && path[i] != '%',
    ensures
        http::parsed_target(target_of(path, query)) == Ok::<(Seq<char>, Seq<char>), Seq<char>>(
            (path, query_text(query)),
        ),
{
    lemma_writes_itself(path);
    law_targets(path, plain_units(path), path, query);
}

/// A target with a scheme and a host means what it means without them.
pub proof fn law_absolute_targets(host: Seq<char>, target: Seq<char>)
    requires
        forall|i: int| 0 <= i < host.len() ==> (#[trigger] host[i]) != '/',
        target.len() > 0,
        target[0] == '/',
    ensures
        http::parsed_target("http://"@ + host + target) == http::parsed_target(target),
        http::parsed_target("http://"@ + host) == Ok::<(Seq<char>, Seq<char>), Seq<char>>(
            ("/"@, seq![]),
        ),
{
    let scheme = "http://"@;
    let p = Pattern::Char('/');
    let all = scheme + host + target;
    let rest = host + target;
    reveal_strlit("http://");
    reveal_strlit("/");
    assert(all.subrange(0, scheme.len() as int) == scheme);
    assert(all.skip(scheme.len() as int) == rest);
    assert forall|i: int| 0 <= i < host.len() implies !p.has(#[trigger] rest[i]) by {
        assert(rest[i] == host[i]);
    }
    text::lemma_position_is(rest, p, host.len() as int);
    assert(rest.skip(host.len() as int) == target);
    lemma_not_absolute_form(target);
    let bare = scheme + host;
    assert(bare.subrange(0, scheme.len() as int) == scheme);
    assert(bare.skip(scheme.len() as int) == host);
    assert forall|i: int| 0 <= i < host.len() implies !p.has(#[trigger] host[i]) by {}
    text::lemma_position_is(host, p, host.len() as int);
    law_plain_targets("/"@, None);
    lemma_not_absolute_form("/"@);
}

/// A target that starts with neither a slash nor a scheme is refused, and so is one whose
/// path holds a percent sign without two digits behind it.
pub proof fn law_bad_targets(
    target: Seq<char>,
    raw: Seq<char>,
    units: Seq<Unit>,
    broken: Seq<u8>,
    query: Option<Seq<char>>,
)
    requires
        target.len() > 0 ==> target[0] != '/',
        !"http://"@.is_prefix_of(target),
        raw.len() > 0,
        raw[0] == '/',
        forall|i: int| 0 <= i < raw.len() ==> (#[trigger] raw[i]) != '?',
        units_fit(units),
        is_broken(broken),
        encode_utf8(raw) == spelled(units) + broken,
    ensures
        http::parsed_target(target) is Err,
        http::parsed_target(target_of(raw, query)) is Err,
{
    let p = Pattern::Char('?');
    text::lemma_position_bounds(target, p);
    if text::position(target, p) < target.len() && text::position(target, p) > 0 {
        assert(target.take(text::position(target, p))[0] == target[0]);
    }
    let all = target_of(raw, query);
    assert(all[0] == '/');
    lemma_not_absolute_form(all);
    law_percent_decoding(units, broken);
    assert forall|i: int| 0 <= i < raw.len() implies !p.has(#[trigger] all[i]) by {
        assert(all[i] == raw[i]);
    }
    text::lemma_position_is(all, p, raw.len() as int);
    assert(all.take(raw.len() as int) == raw);
}

/// Whether a token of a request line names the method. The three that are handled have
/// names of their own; case matters.
pub open spec fn names_method(token: Seq<char>, method: MethodView) -> bool {
    match method {
        MethodView::Get => token == "GET"@,
        MethodView::Post => token == "POST"@,
        MethodView::Delete => token == "DELETE"@,
        MethodView::Other(name) => token == name && name != "GET"@ && name != "POST"@ && name
            != "DELETE"@,
    }
}

/// The method of a request is the one that its token names.
pub proof fn law_method_names(token: Seq<char>, method: MethodView)
    requires
        names_method(token, method),
    ensures
        MethodView::of(token) == method,
        method.token() == token,
{
    reveal_strlit("GET");
    reveal_strlit("POST");
    reveal_strlit("DELETE");
    assert("GET"@.len() == 3 && "POST"@.len() == 4 && "DELETE"@.len() == 6);
}

/// Whether the parts of a request can stand in its usual form.
pub open spec fn parts_fit(
    token: Seq<char>,
    target: Seq<char>,
    version: Seq<char>,
    headers: Fields,
) -> bool {
    &&& laws::requests::is_word(token)
    &&& laws::requests::is_word(target)
    &&& version == "HTTP/1.0"@ || version == "HTTP/1.1"@
    &&& forall|i: int|
        0 <= i < headers.len() ==> laws::requests::header_fits(#[trigger] headers[i])
    &&& http::names_distinct(headers)
    &&& version == "HTTP/1.1"@ ==> exists|i: int|
        0 <= i < headers.len() && (#[trigger] headers[i]).0 == "host"@
}

/// Whether the headers give the length of the body, and nothing else about it.
pub open spec fn gives_length(headers: Fields, body: Seq<u8>) -> bool {
    &&& forall|i: int|
        0 <= i < headers.len() ==> (#[trigger] headers[i]).0 != "transfer-encoding"@
    &&& forall|i: int|
        0 <= i < headers.len() && (#[trigger] headers[i]).0 == "content-length"@ ==> headers[i].1
            == text::decimal(body.len())
    &&& body.len() == 0 || exists|i: int|
        0 <= i < headers.len() && (#[trigger] headers[i]).0 == "content-length"@
}

/// The value of a field that stands in a list without repeated names.
pub proof fn lemma_value_at(headers: Fields, i: int)
    requires
        http::names_distinct(headers),
        0 <= i < headers.len(),
    ensures
        http::field_value(headers, headers[i].0) == Some(headers[i].1),
{
    assert forall|j: int| 0 <= j < i implies (#[trigger] headers[j]).0 != headers[i].0 by {}
    http::lemma_field_index_is(headers, headers[i].0, i);
}

proof fn lemma_no_value(headers: Fields, name: Seq<char>)
    requires
        forall|i: int| 0 <= i < headers.len() ==> (#[trigger] headers[i]).0 != name,
    ensures
        http::field_value(headers, name) is None,
{
    http::lemma_field_index_is(headers, name, headers.len() as int);
}

proof fn lemma_request_fits(
    token: Seq<char>,
    raw: Seq<char>,
    units: Seq<Unit>,
    path: Seq<char>,
    query: Option<Seq<char>>,
    version: Seq<char>,
    headers: Fields,
)
    requires
        writes(raw, units, path),
        parts_fit(token, target_of(raw, query), version, headers),
    ensures
        laws::requests::request_fits(token, target_of(raw, query), version, headers),
{
    law_targets(raw, units, path, query);
    if version == "HTTP/1.1"@ {
        let i = choose|i: int| 0 <= i < headers.len() && (#[trigger] headers[i]).0 == "host"@;
        lemma_value_at(headers, i);
    }
}

/// A request that is written down is read as what it says, whatever bytes follow it: the
/// method that its token names, the target as it stands, the path that the target spells,
/// the query behind the question mark, the version, the headers, and the body of the length
/// that they give.
pub proof fn law_requests_are_read(
    token: Seq<char>,
    method: MethodView,
    raw: Seq<char>,
    units: Seq<Unit>,
    path: Seq<char>,
    query: Option<Seq<char>>,
    version: Seq<char>,
    headers: Fields,
    body: Seq<u8>,
    t: Seq<u8>,
    max: int,
)
    requires
        names_method(token, method),
        writes(raw, units, path),
        parts_fit(token, target_of(raw, query), version, headers),
        gives_length(headers, body),
        body.len() <= max <= usize::MAX,
    ensures
        ({
            let s = laws::requests::request_bytes(
                token,
                target_of(raw, query),
                version,
                headers,
                body,
            );
            http::parsed_request(s + t, max) == ParseView::Complete(
                RequestView {
                    method,
                    target: target_of(raw, query),
                    path,
                    query: query_text(query),
                    version,
                    headers,
                    body,
                },
                s.len() as int,
            )
        }),
{
    let length = "content-length"@;
    law_method_names(token, method);
    law_targets(raw, units, path, query);
    lemma_request_fits(token, raw, units, path, query, version, headers);
    lemma_no_value(headers, "transfer-encoding"@);
    if exists|i: int| 0 <= i < headers.len() && (#[trigger] headers[i]).0 == length {
        let i = choose|i: int| 0 <= i < headers.len() && (#[trigger] headers[i]).0 == length;
        lemma_value_at(headers, i);
    } else {
        lemma_no_value(headers, length);
    }
    laws::requests::law_requests_are_read(
        token,
        target_of(raw, query),
        version,
        headers,
        body,
        t,
        max,
    );
}

/// A request whose body comes in chunks is read as one with the whole body: the chunks
/// count, and no length that a header gives.
pub proof fn law_chunked_requests_are_read(
    token: Seq<char>,
    method: MethodView,
    raw: Seq<char>,
    units: Seq<Unit>,
    path: Seq<char>,
    query: Option<Seq<char>>,
    version: Seq<char>,
    headers: Fields,
    parts: Seq<Seq<u8>>,
    t: Seq<u8>,
    max: int,
    i: int,
)
    requires
        names_method(token, method),
        writes(raw, units, path),
        parts_fit(token, target_of(raw, query), version, headers),
        0 <= i < headers.len(),
        headers[i].0 == "transfer-encoding"@,
        text::lowered(headers[i].1) == "chunked"@,
        forall|k: int| 0 <= k < parts.len() ==> (#[trigger] parts[k]).len() > 0,
        laws::http::whole(parts).len() <= max <= usize::MAX,
    ensures
        ({
            let s = laws::requests::request_bytes(
                token,
                target_of(raw, query),
                version,
                headers,
                laws::http::chunks(parts),
            );
            http::parsed_request(s + t, max) == ParseView::Complete(
                RequestView {
                    method,
                    target: target_of(raw, query),
                    path,
                    query: query_text(query),
                    version,
                    headers,
                    body: laws::http::whole(parts),
                },
                s.len() as int,
            )
        }),
{
    law_method_names(token, method);
    law_targets(raw, units, path, query);
    lemma_request_fits(token, raw, units, path, query, version, headers);
    lemma_value_at(headers, i);
    let value = "chunked"@;
    let p = Pattern::Char(',');
    reveal_strlit("chunked");
    assert forall|k: int| 0 <= k < value.len() implies !p.has(#[trigger] value[k]) by {}
    laws::texts::lemma_split_whole(value, p);
    assert(!text::is_whitespace('c') && !text::is_whitespace('d'));
    laws::http::lemma_trimmed_same(value, Pattern::Whitespace);
    assert(text::split(value, p)[0] == value);
    assert(text::lists(value, value));
    laws::requests::law_chunked_requests_are_read(
        token,
        target_of(raw, query),
        version,
        headers,
        parts,
        t,
        max,
    );
}

/// A body that is longer than the limit is too large, as soon as its length is known.
pub proof fn law_long_bodies_are_refused(
    token: Seq<char>,
    method: MethodView,
    raw: Seq<char>,
    units: Seq<Unit>,
    path: Seq<char>,
    query: Option<Seq<char>>,
    version: Seq<char>,
    headers: Fields,
    body: Seq<u8>,
    max: int,
    i: int,
    n: nat,
)
    requires
        names_method(token, method),
        writes(raw, units, path),
        parts_fit(token, target_of(raw, query), version, headers),
        forall|k: int|
            0 <= k < headers.len() ==> (#[trigger] headers[k]).0 != "transfer-encoding"@,
        0 <= i < headers.len(),
        headers[i].0 == "content-length"@,
        headers[i].1 == text::decimal(n),
        max < n <= usize::MAX,
    ensures
        http::parsed_request(
            laws::requests::request_bytes(token, target_of(raw, query), version, headers, body),
            max,
        ) is TooLarge,
{
    let target = target_of(raw, query);
    lemma_request_fits(token, raw, units, path, query, version, headers);
    lemma_no_value(headers, "transfer-encoding"@);
    lemma_value_at(headers, i);
    text::lemma_digits_read_back(n, 10);
    let block = encode_utf8(
        laws::http::line_block(laws::requests::request_lines(token, target, version, headers)),
    );
    laws::requests::lemma_head_is_read(token, target, version, headers, body);
    assert(laws::requests::request_bytes(token, target, version, headers, body) == block + (
    bytes::crlf() + body));
}

} // verus!
