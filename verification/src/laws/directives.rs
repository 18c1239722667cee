//! What holds of the single directives of a configuration, and of the text that holds them.
use vstd::prelude::*;

use crate::config;
use crate::config::{ConfigView, RouteView, ServerView, Tokens};
use crate::http;
use crate::http::{Fields, MethodView};
use crate::laws;
use crate::text;
use crate::text::Pattern;

verus! {

/// Whether a text holds no comment.
pub open spec fn has_no_comment(s: Seq<char>) -> bool {
    forall|i: int| 0 <= i < s.len() ==> (#[trigger] s[i]) != '#'
}

proof fn lemma_tokens_at(a: Seq<char>, c: char, b: Seq<char>, current: Seq<char>)
    requires
        has_no_comment(a),
        c == '#' || laws::config::is_mark(c) || text::is_whitespace(c),
    ensures
        config::tokens_after(a.push(c) + b, current) == config::tokens_after(a, current) + (
        if c == '#' {
            config::tokens_after(b.skip(text::position(b, Pattern::Char('\n'))), Seq::empty())
        } else if laws::config::is_mark(c) {
            seq![seq![c]] + config::tokens_after(b, Seq::empty())
        } else {
            config::tokens_after(b, Seq::empty())
        }),
    decreases a.len(),
{
    let s = a.push(c) + b;
    let rest = s.drop_first();
    let empty = Seq::<char>::empty();
    if a.len() == 0 {
        assert(s[0] == c);
        assert(rest == b);
        assert(config::tokens_after(a, current) == config::flushed(current));
        if laws::config::is_mark(c) {
            let tail = config::tokens_after(b, empty);
            assert(config::flushed(current).push(seq![c]) + tail == config::flushed(current) + (
            seq![seq![c]] + tail));
        }
    } else {
        let more = a.drop_first();
        assert(s[0] == a[0]);
        assert(a[0] != '#');
        assert(rest == more.push(c) + b);
        assert forall|i: int| 0 <= i < more.len() implies (#[trigger] more[i]) != '#' by {
            assert(more[i] == a[i + 1]);
        }
        if laws::config::is_mark(a[0]) || text::is_whitespace(a[0]) {
            lemma_tokens_at(more, c, b, empty);
        } else {
            lemma_tokens_at(more, c, b, current.push(a[0]));
        }
        let tail = if c == '#' {
            config::tokens_after(b.skip(text::position(b, Pattern::Char('\n'))), empty)
        } else if laws::config::is_mark(c) {
            seq![seq![c]] + config::tokens_after(b, empty)
        } else {
            config::tokens_after(b, empty)
        };
        let flushed = config::flushed(current);
        let mid = config::tokens_after(more, empty);
        if laws::config::is_mark(a[0]) {
            assert(flushed.push(seq![a[0]]) + (mid + tail) == flushed.push(seq![a[0]]) + mid + tail);
        } else if text::is_whitespace(a[0]) {
            assert(flushed + (mid + tail) == flushed + mid + tail);
        }
    }
}

/// A text is taken apart at whitespace, which is dropped, and at marks, which are tokens of
/// their own whether or not there is space around them. A comment goes up to the end of its
/// line and counts as nothing.
pub proof fn law_tokens_of_texts(a: Seq<char>, c: char, b: Seq<char>, comment: Seq<char>)
    requires
        has_no_comment(a),
        forall|i: int| 0 <= i < comment.len() ==> (#[trigger] comment[i]) != '\n',
    ensures
        text::is_whitespace(c) ==> config::tokens(a.push(c) + b) == config::tokens(a)
            + config::tokens(b),
        laws::config::is_mark(c) ==> config::tokens(a.push(c) + b) == config::tokens(a).push(
            seq![c],
        ) + config::tokens(b),
        config::tokens(a.push('#') + comment + seq!['\n'] + b) == config::tokens(a)
            + config::tokens(b),
        config::tokens(a.push('#') + comment) == config::tokens(a),
        laws::config::is_word(a) && a.len() > 0 ==> config::tokens(a) == seq![a],
        config::tokens(Seq::empty()) == Tokens::empty(),
{
    let empty = Seq::<char>::empty();
    let p = Pattern::Char('\n');
    if text::is_whitespace(c) || laws::config::is_mark(c) {
        if c != '#' {
            lemma_tokens_at(a, c, b, empty);
        }
        assert(!laws::config::is_mark(c) || !text::is_whitespace(c));
        assert(!text::is_whitespace('#') && !laws::config::is_mark('#'));
        if laws::config::is_mark(c) {
            assert(config::tokens(a).push(seq![c]) + config::tokens(b) == config::tokens(a) + (
            seq![seq![c]] + config::tokens(b)));
        }
    }
    let line = comment + seq!['\n'] + b;
    lemma_tokens_at(a, '#', line, empty);
    assert(a.push('#') + line == a.push('#') + comment + seq!['\n'] + b);
    assert forall|i: int| 0 <= i < comment.len() implies !p.has(#[trigger] line[i]) by {
        assert(line[i] == comment[i]);
    }
    assert(line[comment.len() as int] == '\n');
    text::lemma_position_is(line, p, comment.len() as int);
    let rest = line.skip(comment.len() as int);
    assert(rest == empty.push('\n') + b);
    assert(text::is_whitespace('\n'));
    lemma_tokens_at(empty, '\n', b, empty);
    assert(config::tokens_after(empty, empty) == Tokens::empty());
    assert(Tokens::empty() + config::tokens(b) == config::tokens(b));
    lemma_tokens_at(a, '#', comment, empty);
    assert forall|i: int| 0 <= i < comment.len() implies !p.has(#[trigger] comment[i]) by {}
    text::lemma_position_is(comment, p, comment.len() as int);
    assert(comment.skip(comment.len() as int) == empty);
    assert(config::tokens(a) + Tokens::empty() == config::tokens(a));
    if laws::config::is_word(a) && a.len() > 0 {
        lemma_word_token(a, empty);
        assert(empty + a == a);
    }
}

proof fn lemma_word_token(a: Seq<char>, current: Seq<char>)
    requires
        laws::config::is_word(a),
        a.len() > 0 || current.len() > 0,
    ensures
        config::tokens_after(a, current) == seq![current + a],
    decreases a.len(),
{
    if a.len() == 0 {
        assert(current + a == current);
    } else {
        let more = a.drop_first();
        assert(laws::config::is_word_char(a[0]));
        assert forall|i: int| 0 <= i < more.len() implies laws::config::is_word_char(
            #[trigger] more[i],
        ) by {
            assert(more[i] == a[i + 1]);
        }
        lemma_word_token(more, current.push(a[0]));
        assert(current.push(a[0]) + more == current + a);
    }
}

proof fn lemma_ended(word: Seq<char>, label: Seq<char>, rest: Tokens)
    ensures
        config::word(seq![word, ";"@] + rest, label) == Ok::<(Seq<char>, Tokens), Seq<char>>(
            (word, rest),
        ),
{
    let ts = seq![word, ";"@] + rest;
    assert(ts[0] == word && ts[1] == ";"@);
    assert(ts.drop_first()[0] == ";"@);
    assert(ts.drop_first().drop_first() == rest);
}

proof fn lemma_not_ended(word: Seq<char>, other: Seq<char>, label: Seq<char>, rest: Tokens)
    requires
        other != ";"@,
    ensures
        config::word(seq![word, other] + rest, label) is Err,
        config::word(seq![word], label) is Err,
        config::word(Tokens::empty(), label) is Err,
{
    let ts = seq![word, other] + rest;
    assert(ts[0] == word && ts[1] == other);
    assert(ts.drop_first()[0] == other);
    assert(seq![word].drop_first().len() == 0);
}

/// Whether a word says on, or says off.
pub open spec fn says_on(word: Seq<char>) -> bool {
    word == "on"@ || word == "true"@ || word == "1"@
}

pub open spec fn says_off(word: Seq<char>) -> bool {
    word == "off"@ || word == "false"@ || word == "0"@
}

proof fn lemma_on_off(word: Seq<char>)
    ensures
        says_on(word) ==> config::parsed_on_off(word) == Ok::<bool, Seq<char>>(true),
        says_off(word) ==> config::parsed_on_off(word) == Ok::<bool, Seq<char>>(false),
        !says_on(word) && !says_off(word) ==> config::parsed_on_off(word) is Err,
{
    reveal_strlit("on");
    reveal_strlit("true");
    reveal_strlit("1");
    reveal_strlit("off");
    reveal_strlit("false");
    reveal_strlit("0");
    assert("on"@.len() == 2 && "true"@.len() == 4 && "1"@.len() == 1 && "off"@.len() == 3
        && "false"@.len() == 5 && "0"@.len() == 1);
    assert("1"@[0] == '1' && "0"@[0] == '0');
}

proof fn lemma_directive_names()
    ensures
        "methods"@.len() == 7,
        "root"@.len() == 4,
        "redirect"@.len() == 8,
        "index"@.len() == 5,
        "default_file"@.len() == 12 && "default_file"@[0] == 'd',
        "directory_listing"@.len() == 17,
        "autoindex"@.len() == 9,
        "upload_store"@.len() == 12 && "upload_store"@[0] == 'u',
        "cgi"@.len() == 3,
{
    reveal_strlit("methods");
    reveal_strlit("root");
    reveal_strlit("redirect");
    reveal_strlit("index");
    reveal_strlit("default_file");
    reveal_strlit("directory_listing");
    reveal_strlit("autoindex");
    reveal_strlit("upload_store");
    reveal_strlit("cgi");
}

/// What a directive of a route makes of it, given the words between its name and the
/// semicolon.
pub open spec fn reads_route(
    name: Seq<char>,
    words: Tokens,
    rest: Tokens,
    before: RouteView,
    after: RouteView,
) -> bool {
    config::route_directive(name, words + seq![";"@] + rest, before) == Ok::<
        (RouteView, Tokens),
        Seq<char>,
    >((after, rest))
}

/// A directive of a route with one word sets what it is named after, and nothing else of
/// the route.
pub proof fn law_route_directives(route: RouteView, word: Seq<char>, rest: Tokens)
    ensures
        reads_route("root"@, seq![word], rest, route, RouteView { root: Some(word), ..route }),
        reads_route("index"@, seq![word], rest, route, RouteView { index: Some(word), ..route }),
        reads_route(
            "default_file"@,
            seq![word],
            rest,
            route,
            RouteView { index: Some(word), ..route },
        ),
        reads_route(
            "upload_store"@,
            seq![word],
            rest,
            route,
            RouteView { upload_store: Some(word), ..route },
        ),
        says_on(word) ==> reads_route(
            "directory_listing"@,
            seq![word],
            rest,
            route,
            RouteView { directory_listing: true, ..route },
        ) && reads_route(
            "autoindex"@,
            seq![word],
            rest,
            route,
            RouteView { directory_listing: true, ..route },
        ),
        says_off(word) ==> reads_route(
            "directory_listing"@,
            seq![word],
            rest,
            route,
            RouteView { directory_listing: false, ..route },
        ) && reads_route(
            "autoindex"@,
            seq![word],
            rest,
            route,
            RouteView { directory_listing: false, ..route },
        ),
        !says_on(word) && !says_off(word) ==> config::route_directive(
            "autoindex"@,
            seq![word, ";"@] + rest,
            route,
        ) is Err,
{
    lemma_directive_names();
    lemma_on_off(word);
    assert(seq![word] + seq![";"@] + rest == seq![word, ";"@] + rest);
    lemma_ended(word, "root"@, rest);
    lemma_ended(word, "index"@, rest);
    lemma_ended(word, "upload store"@, rest);
    lemma_ended(word, "on or off"@, rest);
}

/// A redirect has a status and a place, or a place alone, which is told as found elsewhere.
pub proof fn law_redirect_directives(
    route: RouteView,
    status: u16,
    location: Seq<char>,
    rest: Tokens,
)
    ensures
        reads_route(
            "redirect"@,
            seq![text::decimal(status as nat), location],
            rest,
            route,
            RouteView { redirect: Some((status, location)), ..route },
        ),
        text::number_up_to(location, 10, u16::MAX as int) is None ==> reads_route(
            "redirect"@,
            seq![location],
            rest,
            route,
            RouteView { redirect: Some((302u16, location)), ..route },
        ),
{
    lemma_directive_names();
    let code = text::decimal(status as nat);
    laws::words::law_written_numbers(status as nat, 10);
    let ts = seq![code, location] + seq![";"@] + rest;
    assert(ts[0] == code);
    assert(ts.drop_first() == seq![location, ";"@] + rest);
    lemma_ended(location, "redirect location"@, rest);
    let one = seq![location] + seq![";"@] + rest;
    assert(one[0] == location);
    assert(one.drop_first()[0] == ";"@);
    assert(one.drop_first().drop_first() == rest);
}

/// A program for an ending takes the place of the one that was there for it, or goes behind
/// the others; no other ending is touched.
pub proof fn law_program_directives(
    route: RouteView,
    ending: Seq<char>,
    program: Seq<char>,
    other: Seq<char>,
    rest: Tokens,
)
    ensures
        config::route_directive("cgi"@, seq![ending, program, ";"@] + rest, route) matches Ok((
            after,
            left,
        )) && left == rest && after == (RouteView { cgi: after.cgi, ..route })
            && http::field_value(after.cgi, other) == (if other == ending {
            Some(program)
        } else {
            http::field_value(route.cgi, other)
        }),
{
    lemma_directive_names();
    let ts = seq![ending, program, ";"@] + rest;
    assert(ts[0] == ending);
    assert(ts.drop_first() == seq![program, ";"@] + rest);
    lemma_ended(program, "cgi interpreter"@, rest);
    let entries = route.cgi;
    http::lemma_field_index(entries, ending);
    http::lemma_field_index(entries, other);
    let i = http::field_index(entries, ending);
    let k = http::field_index(entries, other);
    let after = config::with_entry(entries, ending, program);
    assert forall|j: int| 0 <= j < entries.len() implies (#[trigger] after[j]).0
        == entries[j].0 by {}
    if other == ending {
        http::lemma_field_index_is(after, other, i);
    } else if k < entries.len() {
        http::lemma_field_index_is(after, other, k);
    } else {
        http::lemma_field_index_is(after, other, after.len() as int);
    }
}

/// The methods with those that the words name added, each of them once.
pub open spec fn with_words(methods: Seq<MethodView>, words: Tokens) -> Seq<MethodView>
    decreases words.len(),
{
    if words.len() == 0 {
        methods
    } else {
        let before = with_words(methods, words.drop_last());
        let method = if words.last() == "GET"@ {
            MethodView::Get
        } else if words.last() == "POST"@ {
            MethodView::Post
        } else if words.last() == "DELETE"@ {
            MethodView::Delete
        } else {
            MethodView::Other(words.last())
        };
        if before.contains(method) {
            before
        } else {
            before.push(method)
        }
    }
}

proof fn lemma_with_words(methods: Seq<MethodView>, first: Seq<char>, words: Tokens)
    ensures
        with_words(methods, seq![first] + words) == with_words(
            config::with_method(methods, MethodView::of(first)),
            words,
        ),
    decreases words.len(),
{
    let all = seq![first] + words;
    if words.len() == 0 {
        assert(all.drop_last() == Tokens::empty());
        assert(all.last() == first);
        assert(with_words(methods, all.drop_last()) == methods);
    } else {
        lemma_with_words(methods, first, words.drop_last());
        assert(all.drop_last() == seq![first] + words.drop_last());
    }
}

proof fn lemma_method_words(methods: Seq<MethodView>, words: Tokens, rest: Tokens)
    requires
        !words.contains(";"@),
    ensures
        config::method_list(words + seq![";"@] + rest, methods) == Ok::<
            (Seq<MethodView>, Tokens),
            Seq<char>,
        >((with_words(methods, words), rest)),
    decreases words.len(),
{
    let ts = words + seq![";"@] + rest;
    if words.len() == 0 {
        assert(ts[0] == ";"@);
        assert(ts.drop_first() == rest);
    } else {
        let more = words.drop_first();
        assert(words.contains(words[0]));
        assert(!more.contains(";"@)) by {
            if more.contains(";"@) {
                let i = choose|i: int| 0 <= i < more.len() && more[i] == ";"@;
                assert(words[i + 1] == ";"@);
            }
        }
        assert(ts[0] == words[0]);
        assert(ts.drop_first() == more + seq![";"@] + rest);
        let next = config::with_method(methods, MethodView::of(words[0]));
        lemma_method_words(next, more, rest);
        lemma_with_words(methods, words[0], more);
        assert(seq![words[0]] + more == words);
    }
}

/// A list of methods adds those that it names, in order and each of them once.
pub proof fn law_method_directives(route: RouteView, words: Tokens, rest: Tokens)
    requires
        !words.contains(";"@),
    ensures
        reads_route(
            "methods"@,
            words,
            rest,
            route,
            RouteView { methods: with_words(route.methods, words), ..route },
        ),
{
    lemma_directive_names();
    lemma_method_words(route.methods, words, rest);
}

/// The names of the directives of a route, of a server, and of a configuration.
pub open spec fn route_names() -> Tokens {
    seq![
        "methods"@,
        "root"@,
        "redirect"@,
        "index"@,
        "default_file"@,
        "directory_listing"@,
        "autoindex"@,
        "upload_store"@,
        "cgi"@,
    ]
}

pub open spec fn server_names() -> Tokens {
    seq![
        "host"@,
        "port"@,
        "ports"@,
        "listen"@,
        "server_name"@,
        "error_page"@,
        "client_max_body_size"@,
        "route"@,
    ]
}

pub open spec fn config_names() -> Tokens {
    seq!["server"@, "request_timeout"@, "cgi_timeout"@]
}

/// A directive that there is none of is refused, and so is one whose words are not ended or
/// are missing.
pub proof fn law_unknown_directives(
    name: Seq<char>,
    ts: Tokens,
    route: RouteView,
    server: ServerView,
    conf: ConfigView,
    word: Seq<char>,
    other: Seq<char>,
    rest: Tokens,
)
    ensures
        !route_names().contains(name) ==> config::route_directive(name, ts, route) is Err,
        !server_names().contains(name) ==> config::server_directive(name, ts, server) is Err,
        !config_names().contains(name) ==> config::config_directive(name, ts, conf) is Err,
        other != ";"@ ==> config::route_directive("root"@, seq![word, other] + rest, route) is Err
            && config::server_directive("host"@, seq![word, other] + rest, server) is Err,
        config::route_directive("root"@, Tokens::empty(), route) is Err,
        config::server_directive("host"@, Tokens::empty(), server) is Err,
{
    let a = route_names();
    assert(a[0] == "methods"@ && a[1] == "root"@ && a[2] == "redirect"@ && a[3] == "index"@ && a[4]
        == "default_file"@ && a[5] == "directory_listing"@ && a[6] == "autoindex"@ && a[7]
        == "upload_store"@ && a[8] == "cgi"@);
    let b = server_names();
    assert(b[0] == "host"@ && b[1] == "port"@ && b[2] == "ports"@ && b[3] == "listen"@ && b[4]
        == "server_name"@ && b[5] == "error_page"@ && b[6] == "client_max_body_size"@ && b[7]
        == "route"@);
    let c = config_names();
    assert(c[0] == "server"@ && c[1] == "request_timeout"@ && c[2] == "cgi_timeout"@);
    lemma_directive_names();
    if other != ";"@ {
        lemma_not_ended(word, other, "root"@, rest);
        lemma_not_ended(word, other, "host"@, rest);
    }
}

/// The directives of a block are taken in order, each from where the one before it ended,
/// up to the brace that closes the block.
pub proof fn law_blocks(
    name: Seq<char>,
    ts: Tokens,
    route: RouteView,
    next_route: RouteView,
    server: ServerView,
    next_server: ServerView,
    conf: ConfigView,
    next_conf: ConfigView,
    rest: Tokens,
)
    requires
        name != "}"@,
    ensures
        config::route_body(seq!["}"@] + rest, route) == Ok::<(RouteView, Tokens), Seq<char>>(
            (route, rest),
        ),
        config::server_body(seq!["}"@] + rest, server) == Ok::<(ServerView, Tokens), Seq<char>>(
            (server, rest),
        ),
        config::config_body(Tokens::empty(), conf) == Ok::<ConfigView, Seq<char>>(conf),
        config::route_body(Tokens::empty(), route) is Err,
        config::server_body(Tokens::empty(), server) is Err,
        config::route_directive(name, ts, route) == Ok::<(RouteView, Tokens), Seq<char>>(
            (next_route, rest),
        ) ==> config::route_body(seq![name] + ts, route) == config::route_body(rest, next_route),
        config::server_directive(name, ts, server) == Ok::<(ServerView, Tokens), Seq<char>>(
            (next_server, rest),
        ) ==> config::server_body(seq![name] + ts, server) == config::server_body(
            rest,
            next_server,
        ),
        config::config_directive(name, ts, conf) == Ok::<(ConfigView, Tokens), Seq<char>>(
            (next_conf, rest),
        ) ==> config::config_body(seq![name] + ts, conf) == config::config_body(rest, next_conf),
        config::route_directive(name, ts, route) is Err ==> config::route_body(
            seq![name] + ts,
            route,
        ) is Err,
        config::server_directive(name, ts, server) is Err ==> config::server_body(
            seq![name] + ts,
            server,
        ) is Err,
        config::config_directive(name, ts, conf) is Err ==> config::config_body(
            seq![name] + ts,
            conf,
        ) is Err,
{
    let end = seq!["}"@] + rest;
    assert(end[0] == "}"@);
    assert(end.drop_first() == rest);
    let all = seq![name] + ts;
    assert(all[0] == name);
    assert(all.drop_first() == ts);
}

proof fn lemma_server_directive_names()
    ensures
        "host"@.len() == 4 && "host"@[0] == 'h',
        "port"@.len() == 4 && "port"@[0] == 'p',
        "ports"@.len() == 5 && "ports"@[0] == 'p',
        "listen"@.len() == 6,
        "server_name"@.len() == 11,
        "error_page"@.len() == 10,
        "client_max_body_size"@.len() == 20,
        "route"@.len() == 5 && "route"@[0] == 'r',
        "server"@.len() == 6,
        "request_timeout"@.len() == 15,
        "cgi_timeout"@.len() == 11,
{
    reveal_strlit("host");
    reveal_strlit("port");
    reveal_strlit("ports");
    reveal_strlit("listen");
    reveal_strlit("server_name");
    reveal_strlit("error_page");
    reveal_strlit("client_max_body_size");
    reveal_strlit("route");
    reveal_strlit("server");
    reveal_strlit("request_timeout");
    reveal_strlit("cgi_timeout");
}

/// What a directive of a server makes of it, given the words between its name and the
/// semicolon.
pub open spec fn reads_server(
    name: Seq<char>,
    words: Tokens,
    rest: Tokens,
    before: ServerView,
    after: ServerView,
) -> bool {
    config::server_directive(name, words + seq![";"@] + rest, before) == Ok::<
        (ServerView, Tokens),
        Seq<char>,
    >((after, rest))
}

/// The words for ports.
pub open spec fn port_words(ports: Seq<u16>) -> Tokens {
    ports.map_values(|port: u16| text::decimal(port as nat))
}

proof fn lemma_port_words(before: Seq<u16>, ports: Seq<u16>, rest: Tokens)
    ensures
        config::port_list(port_words(ports) + seq![";"@] + rest, before) == Ok::<
            (Seq<u16>, Tokens),
            Seq<char>,
        >((before + ports, rest)),
    decreases ports.len(),
{
    let ts = port_words(ports) + seq![";"@] + rest;
    if ports.len() == 0 {
        assert(ts[0] == ";"@);
        assert(ts.drop_first() == rest);
        assert(before + ports == before);
    } else {
        let more = ports.drop_first();
        let first = text::decimal(ports[0] as nat);
        laws::words::law_written_numbers(ports[0] as nat, 10);
        reveal_strlit(";");
        assert(first != ";"@) by {
            assert('0' <= first[0] <= '9' || 'a' <= first[0] <= 'z');
            assert(";"@[0] == ';');
        }
        assert(ts[0] == first);
        assert(ts.drop_first() == port_words(more) + seq![";"@] + rest);
        lemma_port_words(before.push(ports[0]), more, rest);
        assert(before.push(ports[0]) + more == before + ports);
    }
}

proof fn lemma_name_words(before: Tokens, names: Tokens, rest: Tokens)
    requires
        !names.contains(";"@),
    ensures
        config::word_list(names + seq![";"@] + rest, "server name"@, before) == Ok::<
            (Tokens, Tokens),
            Seq<char>,
        >((before + names, rest)),
    decreases names.len(),
{
    let ts = names + seq![";"@] + rest;
    if names.len() == 0 {
        assert(ts[0] == ";"@);
        assert(ts.drop_first() == rest);
        assert(before + names == before);
    } else {
        let more = names.drop_first();
        assert(names.contains(names[0]));
        assert(!more.contains(";"@)) by {
            if more.contains(";"@) {
                let i = choose|i: int| 0 <= i < more.len() && more[i] == ";"@;
                assert(names[i + 1] == ";"@);
            }
        }
        assert(ts[0] == names[0]);
        assert(ts.drop_first() == more + seq![";"@] + rest);
        lemma_name_words(before.push(names[0]), more, rest);
        assert(before.push(names[0]) + more == before + names);
    }
}

/// A directive of a server sets what it is named after, and nothing else of the server: its
/// host, more ports, more names, the page for a status, or the largest body.
pub proof fn law_server_directives(
    server: ServerView,
    word: Seq<char>,
    ports: Seq<u16>,
    names: Tokens,
    status: u16,
    rest: Tokens,
)
    requires
        !names.contains(";"@),
    ensures
        reads_server("host"@, seq![word], rest, server, ServerView { host: word, ..server }),
        reads_server(
            "port"@,
            port_words(ports),
            rest,
            server,
            ServerView { ports: server.ports + ports, ..server },
        ),
        reads_server(
            "ports"@,
            port_words(ports),
            rest,
            server,
            ServerView { ports: server.ports + ports, ..server },
        ),
        reads_server(
            "listen"@,
            port_words(ports),
            rest,
            server,
            ServerView { ports: server.ports + ports, ..server },
        ),
        reads_server(
            "server_name"@,
            names,
            rest,
            server,
            ServerView { server_names: server.server_names + names, ..server },
        ),
        reads_server(
            "error_page"@,
            seq![text::decimal(status as nat), word],
            rest,
            server,
            ServerView { error_pages: server.error_pages.insert(status, word), ..server },
        ),
        config::parsed_size(word) matches Ok(size) ==> reads_server(
            "client_max_body_size"@,
            seq![word],
            rest,
            server,
            ServerView { client_max_body_size: size, ..server },
        ),
        config::parsed_size(word) is Err ==> config::server_directive(
            "client_max_body_size"@,
            seq![word, ";"@] + rest,
            server,
        ) is Err,
{
    lemma_server_directive_names();
    lemma_ended(word, "host"@, rest);
    lemma_ended(word, "body size"@, rest);
    lemma_ended(word, "error page path"@, rest);
    assert(seq![word] + seq![";"@] + rest == seq![word, ";"@] + rest);
    lemma_port_words(server.ports, ports, rest);
    lemma_name_words(server.server_names, names, rest);
    laws::words::law_written_numbers(status as nat, 10);
    let code = text::decimal(status as nat);
    let ts = seq![code, word] + seq![";"@] + rest;
    assert(ts[0] == code);
    assert(ts.drop_first() == seq![word, ";"@] + rest);
}

/// A word that is no number is no port and no status.
pub proof fn law_bad_numbers_are_refused(server: ServerView, word: Seq<char>, ts: Tokens)
    requires
        text::number_up_to(word, 10, u16::MAX as int) is None,
        word != ";"@,
    ensures
        config::server_directive("port"@, seq![word] + ts, server) is Err,
        config::server_directive("error_page"@, seq![word] + ts, server) is Err,
{
    lemma_server_directive_names();
    let all = seq![word] + ts;
    assert(all[0] == word);
}

/// A route of a server goes behind those before it, with what its block says.
pub proof fn law_routes_are_added(
    server: ServerView,
    path: Seq<char>,
    block: Tokens,
    route: RouteView,
    rest: Tokens,
)
    requires
        config::route_body(block, RouteView::new(path)) == Ok::<(RouteView, Tokens), Seq<char>>(
            (route, rest),
        ),
    ensures
        config::server_directive("route"@, seq![path, "{"@] + block, server) == Ok::<
            (ServerView, Tokens),
            Seq<char>,
        >((ServerView { routes: server.routes.push(route), ..server }, rest)),
{
    lemma_server_directive_names();
    let ts = seq![path, "{"@] + block;
    assert(ts[0] == path);
    assert(ts.drop_first()[0] == "{"@);
    assert(ts.drop_first().drop_first() == block);
}

/// A server goes behind those before it, with what its block says; the times for requests
/// and for scripts are numbers of seconds.
pub proof fn law_configurations_are_made(
    conf: ConfigView,
    block: Tokens,
    server: ServerView,
    rest: Tokens,
    seconds: u64,
)
    ensures
        config::server_body(block, ServerView::new()) == Ok::<(ServerView, Tokens), Seq<char>>(
            (server, rest),
        ) ==> config::config_directive("server"@, seq!["{"@] + block, conf) == Ok::<
            (ConfigView, Tokens),
            Seq<char>,
        >((ConfigView { servers: conf.servers.push(server), ..conf }, rest)),
        config::config_directive(
            "request_timeout"@,
            seq![text::decimal(seconds as nat), ";"@] + rest,
            conf,
        ) == Ok::<(ConfigView, Tokens), Seq<char>>(
            (ConfigView { request_timeout: seconds, ..conf }, rest),
        ),
        config::config_directive(
            "cgi_timeout"@,
            seq![text::decimal(seconds as nat), ";"@] + rest,
            conf,
        ) == Ok::<(ConfigView, Tokens), Seq<char>>(
            (ConfigView { cgi_timeout: seconds, ..conf }, rest),
        ),
{
    lemma_server_directive_names();
    let ts = seq!["{"@] + block;
    assert(ts[0] == "{"@);
    assert(ts.drop_first() == block);
    let number = text::decimal(seconds as nat);
    laws::words::law_written_numbers(seconds as nat, 10);
    let all = seq![number, ";"@] + rest;
    assert(all[0] == number);
    assert(all.drop_first()[0] == ";"@);
    assert(all.drop_first().drop_first() == rest);
}

/// Where a configuration says nothing: requests have thirty seconds and scripts five, a
/// server has the host of the machine itself and takes a mebibyte, and a route takes any
/// method and serves nothing. A configuration without a server is refused.
pub proof fn law_defaults(path: Seq<char>, ts: Tokens)
    ensures
        config::parsed_config(Tokens::empty()) is Err,
        config::parsed_config(ts) matches Ok(conf) ==> conf.servers.len() > 0,
        config::config_body(
            ts,
            ConfigView { servers: Seq::empty(), request_timeout: 30, cgi_timeout: 5 },
        ) matches Ok(conf) ==> (conf.servers.len() > 0 ==> config::parsed_config(ts) == Ok::<
            ConfigView,
            Seq<char>,
        >(conf)),
        ServerView::new() == (ServerView {
            host: "127.0.0.1"@,
            ports: Seq::empty(),
            server_names: Seq::empty(),
            error_pages: Map::empty(),
            client_max_body_size: 1048576,
            routes: Seq::empty(),
        }),
        RouteView::new(path) == (RouteView {
            path,
            methods: Seq::empty(),
            root: None,
            redirect: None,
            index: None,
            directory_listing: false,
            upload_store: None,
            cgi: Fields::empty(),
        }),
{
}

} // verus!
