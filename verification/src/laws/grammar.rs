//! How a configuration that is written down is read.
use vstd::prelude::*;

use crate::config;
use crate::config::{ConfigView, Parsed, RouteView, ServerView, Tokens};
use crate::http;
use crate::http::{Fields, MethodView};
use crate::laws;
use crate::text;

verus! {

/// A directive with one argument.
pub open spec fn one_word(directive: Seq<char>, value: Seq<char>) -> Tokens {
    seq![directive, value, ";"@]
}

/// A directive with a list of arguments.
pub open spec fn word_line(directive: Seq<char>, values: Tokens) -> Tokens {
    seq![directive] + values + seq![";"@]
}

/// A directive with one argument, where there is one.
pub open spec fn optional(directive: Seq<char>, value: Option<Seq<char>>) -> Tokens {
    match value {
        Some(value) => one_word(directive, value),
        None => seq![],
    }
}

/// The directives for the entries of the table of interpreters.
pub open spec fn cgi_lines(entries: Fields) -> Tokens
    decreases entries.len(),
{
    if entries.len() == 0 {
        seq![]
    } else {
        seq!["cgi"@, entries[0].0, entries[0].1, ";"@] + cgi_lines(entries.drop_first())
    }
}

/// The tokens of methods.
pub open spec fn method_tokens(methods: Seq<MethodView>) -> Tokens {
    methods.map_values(|method: MethodView| method.token())
}

/// The directive for a redirect, where there is one.
pub open spec fn redirect_line(redirect: Option<(u16, Seq<char>)>) -> Tokens {
    match redirect {
        Some(redirect) => seq![
            "redirect"@,
            text::decimal(redirect.0 as nat),
            redirect.1,
            ";"@,
        ],
        None => seq![],
    }
}

/// The text of a switch.
pub open spec fn switch(on: bool) -> Seq<char> {
    if on {
        "on"@
    } else {
        "off"@
    }
}

/// The directives of a route.
pub open spec fn route_lines(route: RouteView) -> Tokens {
    word_line("methods"@, method_tokens(route.methods)) + (optional("root"@, route.root) + (
    redirect_line(route.redirect) + (optional("index"@, route.index) + (one_word(
        "directory_listing"@,
        switch(route.directory_listing),
    ) + (optional("upload_store"@, route.upload_store) + cgi_lines(route.cgi))))))
}

/// A route.
pub open spec fn route_tokens(route: RouteView) -> Tokens {
    seq!["route"@, route.path, "{"@] + route_lines(route) + seq!["}"@]
}

/// Whether a route can be written down: its methods are told apart by tokens that do not end
/// a directive, and no extension has two interpreters.
pub open spec fn route_fits(route: RouteView) -> bool {
    &&& forall|i: int|
        0 <= i < route.methods.len() ==> (#[trigger] route.methods[i]).token() != ";"@
            && MethodView::of(route.methods[i].token()) == route.methods[i]
    &&& route.wf()
}

/// What the rest of a route gives.
#[verifier::opaque]
spec fn route_rest(ts: Tokens, route: RouteView) -> Parsed<RouteView> {
    config::route_body(ts, route)
}

/// What the rest of a server gives.
#[verifier::opaque]
spec fn server_rest(ts: Tokens, server: ServerView) -> Parsed<ServerView> {
    config::server_body(ts, server)
}

/// What the rest of a configuration gives.
#[verifier::opaque]
spec fn config_rest(ts: Tokens, config: ConfigView) -> Result<ConfigView, Seq<char>> {
    config::config_body(ts, config)
}

proof fn lemma_names()
    ensures
        "methods"@ != "}"@,
        "root"@ != "}"@ && "root"@ != "methods"@,
        "redirect"@ != "}"@ && "redirect"@ != "methods"@ && "redirect"@ != "root"@,
        "index"@ != "}"@ && "index"@ != "methods"@ && "index"@ != "root"@ && "index"@
            != "redirect"@,
        "directory_listing"@ != "}"@ && "directory_listing"@ != "methods"@ && "directory_listing"@
            != "root"@ && "directory_listing"@ != "redirect"@ && "directory_listing"@ != "index"@
            && "directory_listing"@ != "default_file"@,
        "upload_store"@ != "}"@ && "upload_store"@ != "methods"@ && "upload_store"@ != "root"@
            && "upload_store"@ != "redirect"@ && "upload_store"@ != "index"@ && "upload_store"@
            != "default_file"@ && "upload_store"@ != "directory_listing"@ && "upload_store"@
            != "autoindex"@,
        "cgi"@ != "}"@ && "cgi"@ != "methods"@ && "cgi"@ != "root"@ && "cgi"@ != "redirect"@
            && "cgi"@ != "index"@ && "cgi"@ != "default_file"@ && "cgi"@ != "directory_listing"@
            && "cgi"@ != "autoindex"@ && "cgi"@ != "upload_store"@,
        "on"@ != "off"@ && "off"@ != "true"@ && "off"@ != "1"@,
{
    reveal_strlit("}");
    reveal_strlit("methods");
    reveal_strlit("root");
    reveal_strlit("redirect");
    reveal_strlit("index");
    reveal_strlit("default_file");
    reveal_strlit("directory_listing");
    reveal_strlit("autoindex");
    reveal_strlit("upload_store");
    reveal_strlit("cgi");
    reveal_strlit("on");
    reveal_strlit("off");
    reveal_strlit("true");
    reveal_strlit("1");
    assert("}"@.len() == 1 && "methods"@.len() == 7 && "root"@.len() == 4
        && "redirect"@.len() == 8 && "index"@.len() == 5 && "default_file"@.len() == 12
        && "directory_listing"@.len() == 17 && "autoindex"@.len() == 9
        && "upload_store"@.len() == 12 && "cgi"@.len() == 3 && "on"@.len() == 2
        && "off"@.len() == 3 && "true"@.len() == 4 && "1"@.len() == 1);
    assert("upload_store"@[0] == 'u' && "default_file"@[0] == 'd');
}

proof fn lemma_decimal(n: nat, max: nat)
    requires
        n <= max,
    ensures
        text::number_up_to(text::decimal(n), 10, max as int) == Some(n as int),
        text::decimal(n) != ";"@,
{
    text::lemma_digits_read_back(n, 10);
    reveal_strlit(";");
    assert(text::decimal(n)[0] != ';');
}

proof fn lemma_word(value: Seq<char>, rest: Tokens, label: Seq<char>)
    ensures
        config::word(seq![value, ";"@] + rest, label) == Ok::<(Seq<char>, Tokens), Seq<char>>(
            (value, rest),
        ),
{
    let ts = seq![value, ";"@] + rest;
    assert(ts.drop_first() == seq![";"@] + rest);
    assert((seq![";"@] + rest).drop_first() == rest);
}

proof fn lemma_method_list(methods: Seq<MethodView>, acc: Seq<MethodView>, rest: Tokens)
    requires
        forall|i: int|
            0 <= i < methods.len() ==> (#[trigger] methods[i]).token() != ";"@ && MethodView::of(
                methods[i].token(),
            ) == methods[i],
        (acc + methods).no_duplicates(),
    ensures
        config::method_list(method_tokens(methods) + seq![";"@] + rest, acc) == Ok::<
            (Seq<MethodView>, Tokens),
            Seq<char>,
        >((acc + methods, rest)),
    decreases methods.len(),
{
    let ts = method_tokens(methods) + seq![";"@] + rest;
    if methods.len() == 0 {
        assert(ts.drop_first() == rest);
        assert(acc + methods == acc);
    } else {
        let first = methods[0];
        let others = methods.drop_first();
        assert(ts[0] == first.token());
        assert(ts.drop_first() == method_tokens(others) + seq![";"@] + rest);
        assert(!acc.contains(first)) by {
            if acc.contains(first) {
                let i = choose|i: int| 0 <= i < acc.len() && acc[i] == first;
                assert((acc + methods)[i] == (acc + methods)[acc.len() as int]);
            }
        }
        assert forall|i: int| 0 <= i < others.len() implies (#[trigger] others[i]).token() != ";"@
            && MethodView::of(others[i].token()) == others[i] by {
            assert(others[i] == methods[i + 1]);
        }
        assert(acc.push(first) + others == acc + methods);
        lemma_method_list(others, acc.push(first), rest);
    }
}

/// A directive of a route that is read leads on to the next one.
proof fn lemma_route_step(
    directive: Seq<char>,
    line: Tokens,
    rest: Tokens,
    route: RouteView,
    next: RouteView,
)
    requires
        directive != "}"@,
        line.len() > 0,
        line[0] == directive,
        config::route_directive(directive, line.drop_first() + rest, route) == Ok::<
            (RouteView, Tokens),
            Seq<char>,
        >((next, rest)),
    ensures
        route_rest(line + rest, route) == route_rest(rest, next),
{
    reveal(route_rest);
    assert((line + rest).drop_first() == line.drop_first() + rest);
}

proof fn lemma_cgi_lines(entries: Fields, rest: Tokens, route: RouteView)
    requires
        http::names_distinct(route.cgi + entries),
    ensures
        route_rest(cgi_lines(entries) + rest, route) == route_rest(
            rest,
            RouteView { cgi: route.cgi + entries, ..route },
        ),
    decreases entries.len(),
{
    if entries.len() == 0 {
        assert(cgi_lines(entries) + rest == rest);
        assert(route.cgi + entries == route.cgi);
    } else {
        let (key, value) = entries[0];
        let others = entries.drop_first();
        let line = seq!["cgi"@, key, value, ";"@];
        let tail = cgi_lines(others) + rest;
        let all = route.cgi + entries;
        lemma_names();
        assert forall|j: int|
            0 <= j < route.cgi.len() implies (#[trigger] route.cgi[j]).0 != key by {
            assert(all[j] == route.cgi[j]);
            assert(all[route.cgi.len() as int] == entries[0]);
        }
        http::lemma_field_index_is(route.cgi, key, route.cgi.len() as int);
        let next = RouteView { cgi: route.cgi.push((key, value)), ..route };
        let ts = line.drop_first() + tail;
        assert(ts.drop_first() == seq![value, ";"@] + tail);
        lemma_word(value, tail, "cgi interpreter"@);
        lemma_route_step("cgi"@, line, tail, route, next);
        assert(next.cgi + others == all);
        lemma_cgi_lines(others, rest, next);
        assert(cgi_lines(entries) + rest == line + tail);
    }
}

proof fn lemma_optional_root(value: Option<Seq<char>>, rest: Tokens, route: RouteView)
    requires
        route.root is None,
    ensures
        route_rest(optional("root"@, value) + rest, route) == route_rest(
            rest,
            RouteView { root: value, ..route },
        ),
{
    lemma_names();
    match value {
        Some(root) => {
            let line = one_word("root"@, root);
            assert(line.drop_first() == seq![root, ";"@]);
            lemma_word(root, rest, "root"@);
            lemma_route_step("root"@, line, rest, route, RouteView { root: value, ..route });
        },
        None => {
            assert(optional("root"@, value) + rest == rest);
        },
    }
}

proof fn lemma_optional_index(value: Option<Seq<char>>, rest: Tokens, route: RouteView)
    requires
        route.index is None,
    ensures
        route_rest(optional("index"@, value) + rest, route) == route_rest(
            rest,
            RouteView { index: value, ..route },
        ),
{
    lemma_names();
    match value {
        Some(index) => {
            let line = one_word("index"@, index);
            assert(line.drop_first() == seq![index, ";"@]);
            lemma_word(index, rest, "index"@);
            lemma_route_step("index"@, line, rest, route, RouteView { index: value, ..route });
        },
        None => {
            assert(optional("index"@, value) + rest == rest);
        },
    }
}

proof fn lemma_optional_store(value: Option<Seq<char>>, rest: Tokens, route: RouteView)
    requires
        route.upload_store is None,
    ensures
        route_rest(optional("upload_store"@, value) + rest, route) == route_rest(
            rest,
            RouteView { upload_store: value, ..route },
        ),
{
    lemma_names();
    match value {
        Some(store) => {
            let line = one_word("upload_store"@, store);
            assert(line.drop_first() == seq![store, ";"@]);
            lemma_word(store, rest, "upload store"@);
            lemma_route_step(
                "upload_store"@,
                line,
                rest,
                route,
                RouteView { upload_store: value, ..route },
            );
        },
        None => {
            assert(optional("upload_store"@, value) + rest == rest);
        },
    }
}

proof fn lemma_redirect_line(value: Option<(u16, Seq<char>)>, rest: Tokens, route: RouteView)
    requires
        route.redirect is None,
    ensures
        route_rest(redirect_line(value) + rest, route) == route_rest(
            rest,
            RouteView { redirect: value, ..route },
        ),
{
    lemma_names();
    match value {
        Some(target) => {
            let line = redirect_line(value);
            let ts = line.drop_first() + rest;
            lemma_decimal(target.0 as nat, u16::MAX as nat);
            assert(ts[0] == text::decimal(target.0 as nat));
            assert(ts.drop_first() == seq![target.1, ";"@] + rest);
            lemma_word(target.1, rest, "redirect location"@);
            lemma_route_step(
                "redirect"@,
                line,
                rest,
                route,
                RouteView { redirect: value, ..route },
            );
        },
        None => {
            assert(redirect_line(value) + rest == rest);
        },
    }
}

proof fn lemma_switch(on: bool, rest: Tokens, route: RouteView)
    ensures
        route_rest(one_word("directory_listing"@, switch(on)) + rest, route)
            == route_rest(rest, RouteView { directory_listing: on, ..route }),
{
    lemma_names();
    let line = one_word("directory_listing"@, switch(on));
    assert(line.drop_first() == seq![switch(on), ";"@]);
    lemma_word(switch(on), rest, "on or off"@);
    lemma_route_step(
        "directory_listing"@,
        line,
        rest,
        route,
        RouteView { directory_listing: on, ..route },
    );
}

proof fn lemma_methods_line(methods: Seq<MethodView>, rest: Tokens, route: RouteView)
    requires
        route.methods.len() == 0,
        methods.no_duplicates(),
        forall|i: int|
            0 <= i < methods.len() ==> (#[trigger] methods[i]).token() != ";"@ && MethodView::of(
                methods[i].token(),
            ) == methods[i],
    ensures
        route_rest(word_line("methods"@, method_tokens(methods)) + rest, route)
            == route_rest(rest, RouteView { methods, ..route }),
{
    let line = word_line("methods"@, method_tokens(methods));
    lemma_names();
    assert(route.methods + methods == methods);
    lemma_method_list(methods, route.methods, rest);
    assert(line.drop_first() + rest == method_tokens(methods) + seq![";"@] + rest);
    lemma_route_step("methods"@, line, rest, route, RouteView { methods, ..route });
}

proof fn lemma_closing_brace(rest: Tokens, route: RouteView)
    ensures
        route_rest(seq!["}"@] + rest, route) == Ok::<(RouteView, Tokens), Seq<char>>(
            (route, rest),
        ),
{
    reveal(route_rest);
    assert((seq!["}"@] + rest).drop_first() == rest);
}

#[verifier::rlimit(30)]
proof fn lemma_route_lines(route: RouteView, rest: Tokens)
    requires
        route_fits(route),
    ensures
        route_rest(route_lines(route) + seq!["}"@] + rest, RouteView::new(route.path)) == Ok::<
            (RouteView, Tokens),
            Seq<char>,
        >((route, rest)),
{
    let end = seq!["}"@] + rest;
    let seven = cgi_lines(route.cgi) + end;
    let six = optional("upload_store"@, route.upload_store) + seven;
    let five = one_word("directory_listing"@, switch(route.directory_listing)) + six;
    let four = optional("index"@, route.index) + five;
    let three = redirect_line(route.redirect) + four;
    let two = optional("root"@, route.root) + three;
    let ts = word_line("methods"@, method_tokens(route.methods)) + two;
    assert(route_lines(route) + seq!["}"@] + rest == ts);
    let r0 = RouteView::new(route.path);
    let r1 = RouteView { methods: route.methods, ..r0 };
    let r2 = RouteView { root: route.root, ..r1 };
    let r3 = RouteView { redirect: route.redirect, ..r2 };
    let r4 = RouteView { index: route.index, ..r3 };
    let r5 = RouteView { directory_listing: route.directory_listing, ..r4 };
    let r6 = RouteView { upload_store: route.upload_store, ..r5 };
    lemma_methods_line(route.methods, two, r0);
    lemma_optional_root(route.root, three, r1);
    lemma_redirect_line(route.redirect, four, r2);
    lemma_optional_index(route.index, five, r3);
    lemma_switch(route.directory_listing, six, r4);
    lemma_optional_store(route.upload_store, seven, r5);
    assert(r6.cgi + route.cgi == route.cgi);
    lemma_cgi_lines(route.cgi, end, r6);
    lemma_closing_brace(rest, route);
}

/// A route that is written down is read back.
pub proof fn law_routes_read_back(route: RouteView, rest: Tokens)
    requires
        route_fits(route),
    ensures
        config::route_body(route_lines(route) + seq!["}"@] + rest, RouteView::new(route.path))
            == Ok::<(RouteView, Tokens), Seq<char>>((route, rest)),
{
    lemma_route_lines(route, rest);
    reveal(route_rest);
}

/// A server and its error pages, in the order in which they are written.
pub struct WrittenServer {
    pub server: ServerView,
    pub pages: Seq<(u16, Seq<char>)>,
}

/// The pages by their status.
pub open spec fn pages_map(pages: Seq<(u16, Seq<char>)>) -> Map<u16, Seq<char>>
    decreases pages.len(),
{
    if pages.len() == 0 {
        Map::empty()
    } else {
        pages_map(pages.drop_last()).insert(pages.last().0, pages.last().1)
    }
}

/// The directives for error pages.
pub open spec fn page_lines(pages: Seq<(u16, Seq<char>)>) -> Tokens
    decreases pages.len(),
{
    if pages.len() == 0 {
        seq![]
    } else {
        page_lines(pages.drop_last()) + seq![
            "error_page"@,
            text::decimal(pages.last().0 as nat),
            pages.last().1,
            ";"@,
        ]
    }
}

/// The numbers of ports as text.
pub open spec fn port_tokens(ports: Seq<u16>) -> Tokens {
    ports.map_values(|port: u16| text::decimal(port as nat))
}

/// The routes of a server.
pub open spec fn routes_tokens(routes: Seq<RouteView>) -> Tokens
    decreases routes.len(),
{
    if routes.len() == 0 {
        seq![]
    } else {
        routes_tokens(routes.drop_last()) + route_tokens(routes.last())
    }
}

/// The directives of a server.
pub open spec fn server_lines(written: WrittenServer) -> Tokens {
    one_word("host"@, written.server.host) + (word_line(
        "ports"@,
        port_tokens(written.server.ports),
    ) + (word_line("server_name"@, written.server.server_names) + (one_word(
        "client_max_body_size"@,
        text::decimal(written.server.client_max_body_size as nat),
    ) + (page_lines(written.pages) + routes_tokens(written.server.routes)))))
}

/// A server.
pub open spec fn server_tokens(written: WrittenServer) -> Tokens {
    seq!["server"@, "{"@] + server_lines(written) + seq!["}"@]
}

/// Whether a server can be written down.
pub open spec fn server_fits(written: WrittenServer) -> bool {
    &&& forall|i: int|
        0 <= i < written.server.server_names.len() ==> (#[trigger] written.server.server_names[i])
            != ";"@
    &&& forall|i: int|
        0 <= i < written.server.routes.len() ==> route_fits(#[trigger] written.server.routes[i])
    &&& written.server.error_pages == pages_map(written.pages)
}

proof fn lemma_server_names()
    ensures
        "host"@ != "}"@,
        "ports"@ != "}"@ && "ports"@ != "host"@,
        "server_name"@ != "}"@ && "server_name"@ != "host"@ && "server_name"@ != "port"@
            && "server_name"@ != "ports"@ && "server_name"@ != "listen"@,
        "error_page"@ != "}"@ && "error_page"@ != "host"@ && "error_page"@ != "port"@
            && "error_page"@ != "ports"@ && "error_page"@ != "listen"@ && "error_page"@
            != "server_name"@,
        "client_max_body_size"@ != "}"@ && "client_max_body_size"@ != "host"@
            && "client_max_body_size"@ != "port"@ && "client_max_body_size"@ != "ports"@
            && "client_max_body_size"@ != "listen"@ && "client_max_body_size"@ != "server_name"@
            && "client_max_body_size"@ != "error_page"@,
        "route"@ != "}"@ && "route"@ != "host"@ && "route"@ != "port"@ && "route"@ != "ports"@
            && "route"@ != "listen"@ && "route"@ != "server_name"@ && "route"@ != "error_page"@
            && "route"@ != "client_max_body_size"@,
{
    reveal_strlit("}");
    reveal_strlit("host");
    reveal_strlit("port");
    reveal_strlit("ports");
    reveal_strlit("listen");
    reveal_strlit("server_name");
    reveal_strlit("error_page");
    reveal_strlit("client_max_body_size");
    reveal_strlit("route");
    assert("}"@.len() == 1 && "host"@.len() == 4 && "port"@.len() == 4 && "ports"@.len() == 5
        && "listen"@.len() == 6 && "server_name"@.len() == 11 && "error_page"@.len() == 10
        && "client_max_body_size"@.len() == 20 && "route"@.len() == 5);
    assert("route"@[0] == 'r' && "ports"@[0] == 'p');
}

proof fn lemma_word_list(values: Tokens, acc: Tokens, rest: Tokens, label: Seq<char>)
    requires
        forall|i: int| 0 <= i < values.len() ==> (#[trigger] values[i]) != ";"@,
    ensures
        config::word_list(values + seq![";"@] + rest, label, acc) == Ok::<
            (Tokens, Tokens),
            Seq<char>,
        >((acc + values, rest)),
    decreases values.len(),
{
    let ts = values + seq![";"@] + rest;
    if values.len() == 0 {
        assert(ts.drop_first() == rest);
        assert(acc + values == acc);
    } else {
        let others = values.drop_first();
        assert(ts[0] == values[0]);
        assert(ts.drop_first() == others + seq![";"@] + rest);
        assert forall|i: int| 0 <= i < others.len() implies (#[trigger] others[i]) != ";"@ by {
            assert(others[i] == values[i + 1]);
        }
        assert(acc.push(values[0]) + others == acc + values);
        lemma_word_list(others, acc.push(values[0]), rest, label);
    }
}

proof fn lemma_port_list(ports: Seq<u16>, acc: Seq<u16>, rest: Tokens)
    ensures
        config::port_list(port_tokens(ports) + seq![";"@] + rest, acc) == Ok::<
            (Seq<u16>, Tokens),
            Seq<char>,
        >((acc + ports, rest)),
    decreases ports.len(),
{
    let ts = port_tokens(ports) + seq![";"@] + rest;
    if ports.len() == 0 {
        assert(ts.drop_first() == rest);
        assert(acc + ports == acc);
    } else {
        let others = ports.drop_first();
        lemma_decimal(ports[0] as nat, u16::MAX as nat);
        assert(ts[0] == text::decimal(ports[0] as nat));
        assert(ts.drop_first() == port_tokens(others) + seq![";"@] + rest);
        assert(acc.push(ports[0]) + others == acc + ports);
        lemma_port_list(others, acc.push(ports[0]), rest);
    }
}

proof fn lemma_server_step(
    directive: Seq<char>,
    line: Tokens,
    rest: Tokens,
    server: ServerView,
    next: ServerView,
)
    requires
        directive != "}"@,
        line.len() > 0,
        line[0] == directive,
        config::server_directive(directive, line.drop_first() + rest, server) == Ok::<
            (ServerView, Tokens),
            Seq<char>,
        >((next, rest)),
    ensures
        server_rest(line + rest, server) == server_rest(rest, next),
{
    reveal(server_rest);
    assert((line + rest).drop_first() == line.drop_first() + rest);
}

proof fn lemma_page_line(status: u16, page: Seq<char>, rest: Tokens, server: ServerView)
    ensures
        server_rest(
            seq!["error_page"@, text::decimal(status as nat), page, ";"@] + rest,
            server,
        ) == server_rest(
            rest,
            ServerView { error_pages: server.error_pages.insert(status, page), ..server },
        ),
{
    let line = seq!["error_page"@, text::decimal(status as nat), page, ";"@];
    let ts = line.drop_first() + rest;
    lemma_server_names();
    lemma_decimal(status as nat, u16::MAX as nat);
    assert(ts[0] == text::decimal(status as nat));
    assert(ts.drop_first() == seq![page, ";"@] + rest);
    lemma_word(page, rest, "error page path"@);
    assert(config::error_page(ts) == Ok::<((u16, Seq<char>), Tokens), Seq<char>>(
        ((status, page), rest),
    ));
    lemma_server_step(
        "error_page"@,
        line,
        rest,
        server,
        ServerView { error_pages: server.error_pages.insert(status, page), ..server },
    );
}

proof fn lemma_page_lines(pages: Seq<(u16, Seq<char>)>, rest: Tokens, server: ServerView)
    requires
        server.error_pages == Map::<u16, Seq<char>>::empty(),
    ensures
        server_rest(page_lines(pages) + rest, server) == server_rest(
            rest,
            ServerView { error_pages: pages_map(pages), ..server },
        ),
    decreases pages.len(),
{
    if pages.len() == 0 {
        assert(page_lines(pages) + rest == rest);
    } else {
        let front = pages.drop_last();
        let (status, page) = pages.last();
        let line = seq!["error_page"@, text::decimal(status as nat), page, ";"@];
        let before = ServerView { error_pages: pages_map(front), ..server };
        lemma_page_lines(front, line + rest, server);
        assert(page_lines(pages) + rest == page_lines(front) + (line + rest));
        lemma_page_line(status, page, rest, before);
    }
}

/// A route of a server is read.
proof fn lemma_route_block(route: RouteView, rest: Tokens, server: ServerView)
    requires
        route_fits(route),
    ensures
        server_rest(route_tokens(route) + rest, server) == server_rest(
            rest,
            ServerView { routes: server.routes.push(route), ..server },
        ),
{
    let line = route_tokens(route);
    let ts = line.drop_first() + rest;
    let block = ts.drop_first();
    let inner = block.drop_first();
    assert(ts[0] == route.path);
    assert(block[0] == "{"@);
    assert(inner == route_lines(route) + seq!["}"@] + rest);
    assert(config::route_body(inner, RouteView::new(route.path)) == Ok::<
        (RouteView, Tokens),
        Seq<char>,
    >((route, rest))) by {
        law_routes_read_back(route, rest);
    }
    assert(config::route_block(block, route.path) == Ok::<(RouteView, Tokens), Seq<char>>(
        (route, rest),
    ));
    lemma_server_names();
    lemma_server_step(
        "route"@,
        line,
        rest,
        server,
        ServerView { routes: server.routes.push(route), ..server },
    );
}

proof fn lemma_routes(routes: Seq<RouteView>, rest: Tokens, server: ServerView)
    requires
        forall|i: int| 0 <= i < routes.len() ==> route_fits(#[trigger] routes[i]),
        server.routes.len() == 0,
    ensures
        server_rest(routes_tokens(routes) + rest, server) == server_rest(
            rest,
            ServerView { routes, ..server },
        ),
    decreases routes.len(),
{
    if routes.len() == 0 {
        assert(routes_tokens(routes) + rest == rest);
        assert(server.routes == routes);
    } else {
        let front = routes.drop_last();
        let route = routes.last();
        let line = route_tokens(route);
        let before = ServerView { routes: front, ..server };
        assert forall|i: int| 0 <= i < front.len() implies route_fits(#[trigger] front[i]) by {
            assert(front[i] == routes[i]);
        }
        lemma_routes(front, line + rest, server);
        assert(routes_tokens(routes) + rest == routes_tokens(front) + (line + rest));
        assert(route_fits(routes[routes.len() - 1]));
        lemma_route_block(route, rest, before);
        assert(front.push(route) == routes);
    }
}

proof fn lemma_host(host: Seq<char>, rest: Tokens, server: ServerView)
    ensures
        server_rest(one_word("host"@, host) + rest, server) == server_rest(
            rest,
            ServerView { host, ..server },
        ),
{
    let line = one_word("host"@, host);
    lemma_server_names();
    assert(line.drop_first() == seq![host, ";"@]);
    lemma_word(host, rest, "host"@);
    lemma_server_step("host"@, line, rest, server, ServerView { host, ..server });
}

proof fn lemma_ports(ports: Seq<u16>, rest: Tokens, server: ServerView)
    requires
        server.ports.len() == 0,
    ensures
        server_rest(word_line("ports"@, port_tokens(ports)) + rest, server)
            == server_rest(rest, ServerView { ports, ..server }),
{
    let line = word_line("ports"@, port_tokens(ports));
    lemma_server_names();
    lemma_port_list(ports, server.ports, rest);
    assert(server.ports + ports == ports);
    assert(line.drop_first() + rest == port_tokens(ports) + seq![";"@] + rest);
    lemma_server_step("ports"@, line, rest, server, ServerView { ports, ..server });
}

proof fn lemma_server_name(names: Tokens, rest: Tokens, server: ServerView)
    requires
        server.server_names.len() == 0,
        forall|i: int| 0 <= i < names.len() ==> (#[trigger] names[i]) != ";"@,
    ensures
        server_rest(word_line("server_name"@, names) + rest, server)
            == server_rest(rest, ServerView { server_names: names, ..server }),
{
    let line = word_line("server_name"@, names);
    lemma_server_names();
    lemma_word_list(names, server.server_names, rest, "server name"@);
    assert(server.server_names + names == names);
    assert(line.drop_first() + rest == names + seq![";"@] + rest);
    lemma_server_step(
        "server_name"@,
        line,
        rest,
        server,
        ServerView { server_names: names, ..server },
    );
}

proof fn lemma_body_size(size: usize, rest: Tokens, server: ServerView)
    ensures
        server_rest(
            one_word("client_max_body_size"@, text::decimal(size as nat)) + rest,
            server,
        ) == server_rest(rest, ServerView { client_max_body_size: size, ..server }),
{
    let digits = text::decimal(size as nat);
    let line = one_word("client_max_body_size"@, digits);
    lemma_server_names();
    assert(line.drop_first() == seq![digits, ";"@]);
    lemma_word(digits, rest, "body size"@);
    laws::config::law_sizes(size as nat, 'k');
    lemma_server_step(
        "client_max_body_size"@,
        line,
        rest,
        server,
        ServerView { client_max_body_size: size, ..server },
    );
}

proof fn lemma_server_end(rest: Tokens, server: ServerView)
    ensures
        server_rest(seq!["}"@] + rest, server) == Ok::<(ServerView, Tokens), Seq<char>>(
            (server, rest),
        ),
{
    reveal(server_rest);
    assert((seq!["}"@] + rest).drop_first() == rest);
}

proof fn lemma_server_lines(written: WrittenServer, rest: Tokens)
    requires
        server_fits(written),
    ensures
        server_rest(server_lines(written) + seq!["}"@] + rest, ServerView::new()) == Ok::<
            (ServerView, Tokens),
            Seq<char>,
        >((written.server, rest)),
{
    let server = written.server;
    let end = seq!["}"@] + rest;
    let host = one_word("host"@, server.host);
    let ports = word_line("ports"@, port_tokens(server.ports));
    let names = word_line("server_name"@, server.server_names);
    let digits = text::decimal(server.client_max_body_size as nat);
    let size = one_word("client_max_body_size"@, digits);
    let six = routes_tokens(server.routes) + end;
    let five = page_lines(written.pages) + six;
    let four = size + five;
    let three = names + four;
    let two = ports + three;
    assert(server_lines(written) + seq!["}"@] + rest == host + two);
    let s0 = ServerView::new();
    let s1 = ServerView { host: server.host, ..s0 };
    let s2 = ServerView { ports: server.ports, ..s1 };
    let s3 = ServerView { server_names: server.server_names, ..s2 };
    let s4 = ServerView { client_max_body_size: server.client_max_body_size, ..s3 };
    let s5 = ServerView { error_pages: server.error_pages, ..s4 };
    lemma_host(server.host, two, s0);
    lemma_ports(server.ports, three, s1);
    lemma_server_name(server.server_names, four, s2);
    lemma_body_size(server.client_max_body_size, five, s3);
    lemma_page_lines(written.pages, six, s4);
    lemma_routes(server.routes, end, s5);
    lemma_server_end(rest, server);
}

/// A server that is written down is read back.
pub proof fn law_servers_read_back(written: WrittenServer, rest: Tokens)
    requires
        server_fits(written),
    ensures
        config::server_body(server_lines(written) + seq!["}"@] + rest, ServerView::new()) == Ok::<
            (ServerView, Tokens),
            Seq<char>,
        >((written.server, rest)),
{
    lemma_server_lines(written, rest);
    reveal(server_rest);
}

/// The servers of a configuration.
pub open spec fn servers_tokens(servers: Seq<WrittenServer>) -> Tokens
    decreases servers.len(),
{
    if servers.len() == 0 {
        seq![]
    } else {
        servers_tokens(servers.drop_last()) + server_tokens(servers.last())
    }
}

/// A configuration.
pub open spec fn config_tokens(
    request_timeout: u64,
    cgi_timeout: u64,
    servers: Seq<WrittenServer>,
) -> Tokens {
    one_word("request_timeout"@, text::decimal(request_timeout as nat)) + (one_word(
        "cgi_timeout"@,
        text::decimal(cgi_timeout as nat),
    ) + servers_tokens(servers))
}

/// The servers that are written down.
pub open spec fn servers_of(servers: Seq<WrittenServer>) -> Seq<ServerView> {
    servers.map_values(|written: WrittenServer| written.server)
}

proof fn lemma_top_names()
    ensures
        "request_timeout"@ != "server"@,
        "cgi_timeout"@ != "server"@ && "cgi_timeout"@ != "request_timeout"@,
{
    reveal_strlit("server");
    reveal_strlit("request_timeout");
    reveal_strlit("cgi_timeout");
    assert("server"@.len() == 6 && "request_timeout"@.len() == 15 && "cgi_timeout"@.len() == 11);
}

proof fn lemma_server_block(written: WrittenServer, rest: Tokens, config: ConfigView)
    requires
        server_fits(written),
    ensures
        config_rest(server_tokens(written) + rest, config) == config_rest(
            rest,
            ConfigView { servers: config.servers.push(written.server), ..config },
        ),
{
    reveal(config_rest);
    let all = server_tokens(written) + rest;
    let ts = all.drop_first();
    let inner = ts.drop_first();
    assert(all[0] == "server"@);
    assert(ts[0] == "{"@);
    assert(inner == server_lines(written) + seq!["}"@] + rest);
    assert(config::server_body(inner, ServerView::new()) == Ok::<
        (ServerView, Tokens),
        Seq<char>,
    >((written.server, rest))) by {
        law_servers_read_back(written, rest);
    }
    assert(config::server_block(ts) == Ok::<(ServerView, Tokens), Seq<char>>(
        (written.server, rest),
    ));
}

proof fn lemma_servers(servers: Seq<WrittenServer>, rest: Tokens, config: ConfigView)
    requires
        forall|i: int| 0 <= i < servers.len() ==> server_fits(#[trigger] servers[i]),
        config.servers.len() == 0,
    ensures
        config_rest(servers_tokens(servers) + rest, config) == config_rest(
            rest,
            ConfigView { servers: servers_of(servers), ..config },
        ),
    decreases servers.len(),
{
    if servers.len() == 0 {
        assert(servers_tokens(servers) + rest == rest);
        assert(config.servers == servers_of(servers));
    } else {
        let front = servers.drop_last();
        let written = servers.last();
        let line = server_tokens(written);
        let before = ConfigView { servers: servers_of(front), ..config };
        assert forall|i: int| 0 <= i < front.len() implies server_fits(#[trigger] front[i]) by {
            assert(front[i] == servers[i]);
        }
        lemma_servers(front, line + rest, config);
        assert(servers_tokens(servers) + rest == servers_tokens(front) + (line + rest));
        assert(server_fits(servers[servers.len() - 1]));
        lemma_server_block(written, rest, before);
        assert(before.servers.push(written.server) == servers_of(servers));
    }
}

proof fn lemma_seconds(n: u64, rest: Tokens, label: Seq<char>)
    ensures
        config::seconds(seq![text::decimal(n as nat), ";"@] + rest, label) == Ok::<
            (u64, Tokens),
            Seq<char>,
        >((n, rest)),
{
    let ts = seq![text::decimal(n as nat), ";"@] + rest;
    lemma_decimal(n as nat, u64::MAX as nat);
    assert(ts.drop_first() == seq![";"@] + rest);
    assert((seq![";"@] + rest).drop_first() == rest);
}

proof fn lemma_request_timeout(n: u64, rest: Tokens, config: ConfigView)
    ensures
        config_rest(one_word("request_timeout"@, text::decimal(n as nat)) + rest, config)
            == config_rest(rest, ConfigView { request_timeout: n, ..config }),
{
    let ts = one_word("request_timeout"@, text::decimal(n as nat)) + rest;
    reveal(config_rest);
    lemma_top_names();
    lemma_seconds(n, rest, "request_timeout"@);
    assert(ts.drop_first() == seq![text::decimal(n as nat), ";"@] + rest);
    assert(ts[0] == "request_timeout"@);
}

proof fn lemma_cgi_timeout(n: u64, rest: Tokens, config: ConfigView)
    ensures
        config_rest(one_word("cgi_timeout"@, text::decimal(n as nat)) + rest, config)
            == config_rest(rest, ConfigView { cgi_timeout: n, ..config }),
{
    let ts = one_word("cgi_timeout"@, text::decimal(n as nat)) + rest;
    reveal(config_rest);
    lemma_top_names();
    lemma_seconds(n, rest, "cgi_timeout"@);
    assert(ts.drop_first() == seq![text::decimal(n as nat), ";"@] + rest);
    assert(ts[0] == "cgi_timeout"@);
}

proof fn lemma_config_lines(request_timeout: u64, cgi_timeout: u64, servers: Seq<WrittenServer>)
    requires
        forall|i: int| 0 <= i < servers.len() ==> server_fits(#[trigger] servers[i]),
    ensures
        config_rest(
            config_tokens(request_timeout, cgi_timeout, servers),
            ConfigView { servers: seq![], request_timeout: 30, cgi_timeout: 5 },
        ) == config_rest(
            Tokens::empty(),
            ConfigView { servers: servers_of(servers), request_timeout, cgi_timeout },
        ),
{
    let all = servers_tokens(servers);
    let c0 = ConfigView { servers: seq![], request_timeout: 30, cgi_timeout: 5 };
    let c1 = ConfigView { request_timeout, ..c0 };
    let c2 = ConfigView { cgi_timeout, ..c1 };
    let second = one_word("cgi_timeout"@, text::decimal(cgi_timeout as nat)) + all;
    lemma_request_timeout(request_timeout, second, c0);
    lemma_cgi_timeout(cgi_timeout, all, c1);
    assert(all + Tokens::empty() == all);
    lemma_servers(servers, Tokens::empty(), c2);
}

/// A configuration that is written down is read back: its tokens give the servers and the
/// timeouts, and the text that spells the tokens gives the tokens.
pub proof fn law_configurations_read_back(
    request_timeout: u64,
    cgi_timeout: u64,
    servers: Seq<WrittenServer>,
)
    requires
        servers.len() > 0,
        forall|i: int| 0 <= i < servers.len() ==> server_fits(#[trigger] servers[i]),
    ensures
        config::parsed_config(config_tokens(request_timeout, cgi_timeout, servers)) == Ok::<
            ConfigView,
            Seq<char>,
        >(ConfigView { servers: servers_of(servers), request_timeout, cgi_timeout }),
        laws::config::are_tokens(config_tokens(request_timeout, cgi_timeout, servers))
            ==> config::tokens(
            laws::config::spaced(config_tokens(request_timeout, cgi_timeout, servers)),
        ) == config_tokens(request_timeout, cgi_timeout, servers),
{
    let ts = config_tokens(request_timeout, cgi_timeout, servers);
    lemma_config_lines(request_timeout, cgi_timeout, servers);
    assert(config::parsed_config(ts) == Ok::<ConfigView, Seq<char>>(
        ConfigView { servers: servers_of(servers), request_timeout, cgi_timeout },
    )) by {
        reveal(config_rest);
    }
    if laws::config::are_tokens(ts) {
        laws::config::law_tokens_read_back(ts);
    }
}

} // verus!
