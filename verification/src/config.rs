//! The configuration: its text, its grammar, and the rules that it has to meet.
use std::collections::HashMap;

use vstd::prelude::*;
use vstd::slice::*;
use vstd::string::*;
use vstd::utf8::*;

use crate::http;
use crate::http::{Fields, Method, MethodView};
use crate::order;
use crate::text;
use crate::text::{
    append_number, chars_of, find, join_texts, lower, parse_number, same_str, sort_texts, string_of,
    Pattern,
};

verus! {

/// The words and marks of a configuration.
pub type Tokens = Seq<Seq<char>>;

/// What was read and the tokens after it, or what is wrong.
pub type Parsed<T> = Result<(T, Tokens), Seq<char>>;

/// The configuration of the whole program, the timeouts in seconds.
#[derive(Clone, Debug)]
pub struct Config {
    pub servers: Vec<ServerConfig>,
    pub request_timeout: u64,
    pub cgi_timeout: u64,
}

/// The configuration of one server.
#[derive(Clone, Debug)]
pub struct ServerConfig {
    pub host: String,
    pub ports: Vec<u16>,
    pub server_names: Vec<String>,
    pub error_pages: HashMap<u16, String>,
    pub client_max_body_size: usize,
    pub routes: Vec<RouteConfig>,
}

/// The configuration of one route of a server.
#[derive(Clone, Debug)]
pub struct RouteConfig {
    pub path: String,
    /// The methods that are allowed, each of them once; all are where there are none.
    pub methods: Vec<Method>,
    pub root: Option<String>,
    pub redirect: Option<RedirectConfig>,
    pub index: Option<String>,
    pub directory_listing: bool,
    pub upload_store: Option<String>,
    /// The extensions of scripts, each of them once, with their interpreters.
    pub cgi: Vec<(String, String)>,
}

/// Where a route redirects to.
#[derive(Clone, Debug)]
pub struct RedirectConfig {
    pub status: u16,
    pub location: String,
}

pub struct ConfigView {
    pub servers: Seq<ServerView>,
    pub request_timeout: u64,
    pub cgi_timeout: u64,
}

pub struct ServerView {
    pub host: Seq<char>,
    pub ports: Seq<u16>,
    pub server_names: Seq<Seq<char>>,
    pub error_pages: Map<u16, Seq<char>>,
    pub client_max_body_size: usize,
    pub routes: Seq<RouteView>,
}

pub struct RouteView {
    pub path: Seq<char>,
    pub methods: Seq<MethodView>,
    pub root: Option<Seq<char>>,
    pub redirect: Option<(u16, Seq<char>)>,
    pub index: Option<Seq<char>>,
    pub directory_listing: bool,
    pub upload_store: Option<Seq<char>>,
    pub cgi: Fields,
}

/// The text of a string that may be absent.
pub open spec fn text_of(s: Option<String>) -> Option<Seq<char>> {
    match s {
        Some(s) => Some(s@),
        None => None,
    }
}

impl View for RedirectConfig {
    type V = (u16, Seq<char>);

    open spec fn view(&self) -> (u16, Seq<char>) {
        (self.status, self.location@)
    }
}

impl View for RouteConfig {
    type V = RouteView;

    open spec fn view(&self) -> RouteView {
        RouteView {
            path: self.path@,
            methods: self.methods@.map_values(|method: Method| method@),
            root: text_of(self.root),
            redirect: match self.redirect {
                Some(redirect) => Some(redirect@),
                None => None,
            },
            index: text_of(self.index),
            directory_listing: self.directory_listing,
            upload_store: text_of(self.upload_store),
            cgi: http::fields_of(self.cgi@),
        }
    }
}

impl View for ServerConfig {
    type V = ServerView;

    open spec fn view(&self) -> ServerView {
        ServerView {
            host: self.host@,
            ports: self.ports@,
            server_names: text::string_texts(self.server_names@),
            error_pages: self.error_pages@.map_values(|page: String| page@),
            client_max_body_size: self.client_max_body_size,
            routes: self.routes@.map_values(|route: RouteConfig| route@),
        }
    }
}

impl View for Config {
    type V = ConfigView;

    open spec fn view(&self) -> ConfigView {
        ConfigView {
            servers: self.servers@.map_values(|server: ServerConfig| server@),
            request_timeout: self.request_timeout,
            cgi_timeout: self.cgi_timeout,
        }
    }
}

/// The first word or mark that is still being read, where there is one.
pub open spec fn flushed(current: Seq<char>) -> Tokens {
    if current.len() == 0 {
        seq![]
    } else {
        seq![current]
    }
}

/// The tokens of a text, after the characters `current` of a word. Braces and semicolons
/// are tokens of their own, whitespace stands between words, and a hash sign starts a
/// comment up to the end of the line.
pub open spec fn tokens_after(s: Seq<char>, current: Seq<char>) -> Tokens
    decreases s.len(),
    via tokens_decreases
{
    if s.len() == 0 {
        flushed(current)
    } else {
        let rest = s.drop_first();
        if s[0] == '#' {
            flushed(current) + tokens_after(
                rest.skip(text::position(rest, Pattern::Char('\n'))),
                seq![],
            )
        } else if s[0] == '{' || s[0] == '}' || s[0] == ';' {
            flushed(current).push(seq![s[0]]) + tokens_after(rest, seq![])
        } else if text::is_whitespace(s[0]) {
            flushed(current) + tokens_after(rest, seq![])
        } else {
            tokens_after(rest, current.push(s[0]))
        }
    }
}

#[via_fn]
proof fn tokens_decreases(s: Seq<char>, current: Seq<char>) {
    if s.len() > 0 {
        text::lemma_position_bounds(s.drop_first(), Pattern::Char('\n'));
    }
}

/// The tokens of a text.
pub open spec fn tokens(s: Seq<char>) -> Tokens {
    tokens_after(s, seq![])
}

/// The size that a text gives, in bytes or with a suffix for a multiple of them.
pub open spec fn parsed_size(value: Seq<char>) -> Result<usize, Seq<char>> {
    let lower = text::lowered(value);
    let unit: int = if lower.len() == 0 {
        1
    } else if lower.last() == 'k' {
        1024
    } else if lower.last() == 'm' {
        1048576
    } else if lower.last() == 'g' {
        1073741824
    } else {
        1
    };
    let digits = if unit == 1 {
        lower
    } else {
        lower.drop_last()
    };
    match text::number_up_to(digits, 10, usize::MAX as int) {
        None => Err("invalid size: "@ + value),
        Some(n) => if n * unit > usize::MAX {
            Err("size is too large: "@ + value)
        } else {
            Ok((n * unit) as usize)
        },
    }
}

/// What a switch says.
pub open spec fn parsed_on_off(value: Seq<char>) -> Result<bool, Seq<char>> {
    if value == "on"@ || value == "true"@ || value == "1"@ {
        Ok(true)
    } else if value == "off"@ || value == "false"@ || value == "0"@ {
        Ok(false)
    } else {
        Err("expected on or off, found "@ + value)
    }
}

/// The next token.
pub open spec fn next(ts: Tokens, label: Seq<char>) -> Parsed<Seq<char>> {
    if ts.len() == 0 {
        Err("expected "@ + label + ", reached end of file"@)
    } else {
        Ok((ts[0], ts.drop_first()))
    }
}

/// The next token, which has to be the given one.
pub open spec fn mark(ts: Tokens, expected: Seq<char>) -> Parsed<()> {
    match next(ts, expected) {
        Ok(p) => if p.0 == expected {
            Ok(((), p.1))
        } else {
            Err("expected "@ + expected + ", found "@ + p.0)
        },
        Err(e) => Err(e),
    }
}

/// The next token, which has to be a number up to `max`.
pub open spec fn number(ts: Tokens, label: Seq<char>, max: int) -> Parsed<int> {
    match next(ts, label) {
        Ok(p) => match text::number_up_to(p.0, 10, max) {
            Some(n) => Ok((n, p.1)),
            None => Err("invalid "@ + label + ": "@ + p.0),
        },
        Err(e) => Err(e),
    }
}

/// A word and a semicolon.
pub open spec fn word(ts: Tokens, label: Seq<char>) -> Parsed<Seq<char>> {
    match next(ts, label) {
        Ok(p) => match mark(p.1, ";"@) {
            Ok(q) => Ok((p.0, q.1)),
            Err(e) => Err(e),
        },
        Err(e) => Err(e),
    }
}

/// Words up to a semicolon, behind the ones given.
pub open spec fn word_list(ts: Tokens, label: Seq<char>, words: Seq<Seq<char>>) -> Parsed<
    Seq<Seq<char>>,
>
    decreases ts.len(),
{
    if ts.len() > 0 && ts[0] == ";"@ {
        Ok((words, ts.drop_first()))
    } else if ts.len() == 0 {
        Err("expected "@ + label + ", reached end of file"@)
    } else {
        word_list(ts.drop_first(), label, words.push(ts[0]))
    }
}

/// Ports up to a semicolon, behind the ones given.
pub open spec fn port_list(ts: Tokens, ports: Seq<u16>) -> Parsed<Seq<u16>>
    decreases ts.len(),
{
    if ts.len() > 0 && ts[0] == ";"@ {
        Ok((ports, ts.drop_first()))
    } else {
        match number(ts, "port"@, u16::MAX as int) {
            Ok(p) => port_list(p.1, ports.push(p.0 as u16)),
            Err(e) => Err(e),
        }
    }
}

/// The methods with one more, each of them once.
pub open spec fn with_method(methods: Seq<MethodView>, method: MethodView) -> Seq<MethodView> {
    if methods.contains(method) {
        methods
    } else {
        methods.push(method)
    }
}

/// Methods up to a semicolon, behind the ones given.
pub open spec fn method_list(ts: Tokens, methods: Seq<MethodView>) -> Parsed<Seq<MethodView>>
    decreases ts.len(),
{
    if ts.len() > 0 && ts[0] == ";"@ {
        Ok((methods, ts.drop_first()))
    } else if ts.len() == 0 {
        Err("expected method, reached end of file"@)
    } else {
        method_list(ts.drop_first(), with_method(methods, MethodView::of(ts[0])))
    }
}

/// A location to redirect to and a semicolon, after an optional status.
pub open spec fn redirect(ts: Tokens) -> Parsed<(u16, Seq<char>)> {
    match next(ts, "redirect status or location"@) {
        Ok(p) => match text::number_up_to(p.0, 10, u16::MAX as int) {
            Some(status) => match word(p.1, "redirect location"@) {
                Ok(q) => Ok(((status as u16, q.0), q.1)),
                Err(e) => Err(e),
            },
            None => match mark(p.1, ";"@) {
                Ok(q) => Ok(((302, p.0), q.1)),
                Err(e) => Err(e),
            },
        },
        Err(e) => Err(e),
    }
}

/// The entries with one put in: its value replaced where it stands, added at the end
/// where it does not.
pub open spec fn with_entry(entries: Fields, key: Seq<char>, value: Seq<char>) -> Fields {
    let i = http::field_index(entries, key);
    if i < entries.len() {
        entries.update(i, (entries[i].0, value))
    } else {
        entries.push((key, value))
    }
}

impl RouteView {
    /// A route of the path for which nothing is configured.
    pub open spec fn new(path: Seq<char>) -> RouteView {
        RouteView {
            path,
            methods: seq![],
            root: None,
            redirect: None,
            index: None,
            directory_listing: false,
            upload_store: None,
            cgi: seq![],
        }
    }

    /// The route of a server for which none is configured.
    pub open spec fn default_root() -> RouteView {
        RouteView {
            methods: seq![MethodView::Get],
            root: Some("www"@),
            index: Some("index.html"@),
            ..RouteView::new("/"@)
        }
    }

    /// The value of the header `Allow`: the tokens of the methods, in order.
    pub open spec fn allowed(self) -> Seq<char> {
        if self.methods.len() == 0 {
            "GET, POST, DELETE"@
        } else {
            text::join(
                order::stable_sort(
                    self.methods.map_values(|method: MethodView| method.token()),
                    text::text_order(),
                ),
                ", "@,
            )
        }
    }

    /// No method stands twice in the list, and no extension has two interpreters.
    pub open spec fn wf(self) -> bool {
        &&& self.methods.no_duplicates()
        &&& http::names_distinct(self.cgi)
    }

    /// The number of bytes of the path.
    pub open spec fn path_bytes(self) -> nat {
        encode_utf8(self.path).len()
    }
}

/// The order of routes: those with the longer paths first.
pub open spec fn route_order() -> spec_fn(RouteView, RouteView) -> bool {
    |a: RouteView, b: RouteView| a.path_bytes() >= b.path_bytes()
}

/// The route after one directive.
pub open spec fn route_directive(directive: Seq<char>, ts: Tokens, route: RouteView) -> Parsed<
    RouteView,
> {
    if directive == "methods"@ {
        match method_list(ts, route.methods) {
            Ok(p) => Ok((RouteView { methods: p.0, ..route }, p.1)),
            Err(e) => Err(e),
        }
    } else if directive == "root"@ {
        match word(ts, "root"@) {
            Ok(p) => Ok((RouteView { root: Some(p.0), ..route }, p.1)),
            Err(e) => Err(e),
        }
    } else if directive == "redirect"@ {
        match redirect(ts) {
            Ok(p) => Ok((RouteView { redirect: Some(p.0), ..route }, p.1)),
            Err(e) => Err(e),
        }
    } else if directive == "index"@ || directive == "default_file"@ {
        match word(ts, "index"@) {
            Ok(p) => Ok((RouteView { index: Some(p.0), ..route }, p.1)),
            Err(e) => Err(e),
        }
    } else if directive == "directory_listing"@ || directive == "autoindex"@ {
        match word(ts, "on or off"@) {
            Ok(p) => match parsed_on_off(p.0) {
                Ok(on) => Ok((RouteView { directory_listing: on, ..route }, p.1)),
                Err(e) => Err(e),
            },
            Err(e) => Err(e),
        }
    } else if directive == "upload_store"@ {
        match word(ts, "upload store"@) {
            Ok(p) => Ok((RouteView { upload_store: Some(p.0), ..route }, p.1)),
            Err(e) => Err(e),
        }
    } else if directive == "cgi"@ {
        match next(ts, "cgi extension"@) {
            Ok(p) => match word(p.1, "cgi interpreter"@) {
                Ok(q) => Ok((RouteView { cgi: with_entry(route.cgi, p.0, q.0), ..route }, q.1)),
                Err(e) => Err(e),
            },
            Err(e) => Err(e),
        }
    } else {
        Err("unknown route directive "@ + directive)
    }
}

/// The route after the directives up to a closing brace.
pub open spec fn route_body(ts: Tokens, route: RouteView) -> Parsed<RouteView>
    decreases ts.len(),
    via route_body_decreases
{
    if ts.len() > 0 && ts[0] == "}"@ {
        Ok((route, ts.drop_first()))
    } else {
        match next(ts, "route directive"@) {
            Ok(p) => match route_directive(p.0, p.1, route) {
                Ok(q) => route_body(q.1, q.0),
                Err(e) => Err(e),
            },
            Err(e) => Err(e),
        }
    }
}

/// A block of directives for a route of the path.
pub open spec fn route_block(ts: Tokens, path: Seq<char>) -> Parsed<RouteView> {
    match mark(ts, "{"@) {
        Ok(p) => route_body(p.1, RouteView::new(path)),
        Err(e) => Err(e),
    }
}

impl ServerView {
    /// A server for which nothing is configured.
    pub open spec fn new() -> ServerView {
        ServerView {
            host: "127.0.0.1"@,
            ports: seq![],
            server_names: seq![],
            error_pages: Map::empty(),
            client_max_body_size: 1048576,
            routes: seq![],
        }
    }
}

/// A status, the path of its page, and a semicolon.
pub open spec fn error_page(ts: Tokens) -> Parsed<(u16, Seq<char>)> {
    match number(ts, "status code"@, u16::MAX as int) {
        Ok(p) => match word(p.1, "error page path"@) {
            Ok(q) => Ok(((p.0 as u16, q.0), q.1)),
            Err(e) => Err(e),
        },
        Err(e) => Err(e),
    }
}

/// The server after one directive.
pub open spec fn server_directive(directive: Seq<char>, ts: Tokens, server: ServerView) -> Parsed<
    ServerView,
> {
    if directive == "host"@ {
        match word(ts, "host"@) {
            Ok(p) => Ok((ServerView { host: p.0, ..server }, p.1)),
            Err(e) => Err(e),
        }
    } else if directive == "port"@ || directive == "ports"@ || directive == "listen"@ {
        match port_list(ts, server.ports) {
            Ok(p) => Ok((ServerView { ports: p.0, ..server }, p.1)),
            Err(e) => Err(e),
        }
    } else if directive == "server_name"@ {
        match word_list(ts, "server name"@, server.server_names) {
            Ok(p) => Ok((ServerView { server_names: p.0, ..server }, p.1)),
            Err(e) => Err(e),
        }
    } else if directive == "error_page"@ {
        match error_page(ts) {
            Ok(p) => Ok(
                (
                    ServerView {
                        error_pages: server.error_pages.insert(p.0.0, p.0.1),
                        ..server
                    },
                    p.1,
                ),
            ),
            Err(e) => Err(e),
        }
    } else if directive == "client_max_body_size"@ {
        match word(ts, "body size"@) {
            Ok(p) => match parsed_size(p.0) {
                Ok(size) => Ok((ServerView { client_max_body_size: size, ..server }, p.1)),
                Err(e) => Err(e),
            },
            Err(e) => Err(e),
        }
    } else if directive == "route"@ {
        match next(ts, "route path"@) {
            Ok(p) => match route_block(p.1, p.0) {
                Ok(q) => Ok((ServerView { routes: server.routes.push(q.0), ..server }, q.1)),
                Err(e) => Err(e),
            },
            Err(e) => Err(e),
        }
    } else {
        Err("unknown server directive "@ + directive)
    }
}

/// The server after the directives up to a closing brace.
pub open spec fn server_body(ts: Tokens, server: ServerView) -> Parsed<ServerView>
    decreases ts.len(),
    via server_body_decreases
{
    if ts.len() > 0 && ts[0] == "}"@ {
        Ok((server, ts.drop_first()))
    } else {
        match next(ts, "server directive"@) {
            Ok(p) => match server_directive(p.0, p.1, server) {
                Ok(q) => server_body(q.1, q.0),
                Err(e) => Err(e),
            },
            Err(e) => Err(e),
        }
    }
}

/// A block of directives for a server.
pub open spec fn server_block(ts: Tokens) -> Parsed<ServerView> {
    match mark(ts, "{"@) {
        Ok(p) => server_body(p.1, ServerView::new()),
        Err(e) => Err(e),
    }
}

/// A number of seconds and a semicolon.
pub open spec fn seconds(ts: Tokens, label: Seq<char>) -> Parsed<u64> {
    match number(ts, label, u64::MAX as int) {
        Ok(p) => match mark(p.1, ";"@) {
            Ok(q) => Ok((p.0 as u64, q.1)),
            Err(e) => Err(e),
        },
        Err(e) => Err(e),
    }
}

/// The configuration after one directive.
pub open spec fn config_directive(directive: Seq<char>, ts: Tokens, config: ConfigView) -> Parsed<
    ConfigView,
> {
    if directive == "server"@ {
        match server_block(ts) {
            Ok(p) => Ok((ConfigView { servers: config.servers.push(p.0), ..config }, p.1)),
            Err(e) => Err(e),
        }
    } else if directive == "request_timeout"@ {
        match seconds(ts, "request_timeout"@) {
            Ok(p) => Ok((ConfigView { request_timeout: p.0, ..config }, p.1)),
            Err(e) => Err(e),
        }
    } else if directive == "cgi_timeout"@ {
        match seconds(ts, "cgi_timeout"@) {
            Ok(p) => Ok((ConfigView { cgi_timeout: p.0, ..config }, p.1)),
            Err(e) => Err(e),
        }
    } else {
        Err("unknown top-level directive "@ + directive)
    }
}

/// The configuration after all the directives.
pub open spec fn config_body(ts: Tokens, config: ConfigView) -> Result<ConfigView, Seq<char>>
    decreases ts.len(),
    via config_body_decreases
{
    if ts.len() == 0 {
        Ok(config)
    } else {
        match config_directive(ts[0], ts.drop_first(), config) {
            Ok(p) => config_body(p.1, p.0),
            Err(e) => Err(e),
        }
    }
}

/// The configuration that the tokens give.
pub open spec fn parsed_config(ts: Tokens) -> Result<ConfigView, Seq<char>> {
    match config_body(
        ts,
        ConfigView { servers: seq![], request_timeout: 30, cgi_timeout: 5 },
    ) {
        Ok(config) => if config.servers.len() == 0 {
            Err("configuration must contain at least one server block"@)
        } else {
            Ok(config)
        },
        Err(e) => Err(e),
    }
}

proof fn lemma_word_list_len(ts: Tokens, label: Seq<char>, words: Seq<Seq<char>>)
    ensures
        word_list(ts, label, words) matches Ok(p) ==> p.1.len() < ts.len(),
    decreases ts.len(),
{
    if !(ts.len() > 0 && ts[0] == ";"@) && ts.len() > 0 {
        lemma_word_list_len(ts.drop_first(), label, words.push(ts[0]));
    }
}

proof fn lemma_port_list_len(ts: Tokens, ports: Seq<u16>)
    ensures
        port_list(ts, ports) matches Ok(p) ==> p.1.len() < ts.len(),
    decreases ts.len(),
{
    if !(ts.len() > 0 && ts[0] == ";"@) {
        if let Ok(p) = number(ts, "port"@, u16::MAX as int) {
            lemma_port_list_len(p.1, ports.push(p.0 as u16));
        }
    }
}

proof fn lemma_method_list_len(ts: Tokens, methods: Seq<MethodView>)
    ensures
        method_list(ts, methods) matches Ok(p) ==> p.1.len() < ts.len(),
    decreases ts.len(),
{
    if !(ts.len() > 0 && ts[0] == ";"@) && ts.len() > 0 {
        lemma_method_list_len(ts.drop_first(), with_method(methods, MethodView::of(ts[0])));
    }
}

proof fn lemma_route_directive_len(directive: Seq<char>, ts: Tokens, route: RouteView)
    ensures
        route_directive(directive, ts, route) matches Ok(p) ==> p.1.len() < ts.len(),
{
    lemma_method_list_len(ts, route.methods);
}

#[via_fn]
proof fn route_body_decreases(ts: Tokens, route: RouteView) {
    if ts.len() > 0 {
        lemma_route_directive_len(ts[0], ts.drop_first(), route);
    }
}

proof fn lemma_route_body_len(ts: Tokens, route: RouteView)
    ensures
        route_body(ts, route) matches Ok(p) ==> p.1.len() < ts.len(),
    decreases ts.len(),
{
    if !(ts.len() > 0 && ts[0] == "}"@) && ts.len() > 0 {
        lemma_route_directive_len(ts[0], ts.drop_first(), route);
        if let Ok(q) = route_directive(ts[0], ts.drop_first(), route) {
            lemma_route_body_len(q.1, q.0);
        }
    }
}

proof fn lemma_server_directive_len(directive: Seq<char>, ts: Tokens, server: ServerView)
    ensures
        server_directive(directive, ts, server) matches Ok(p) ==> p.1.len() < ts.len(),
{
    lemma_port_list_len(ts, server.ports);
    lemma_word_list_len(ts, "server name"@, server.server_names);
    if ts.len() > 0 {
        if let Ok(p) = mark(ts.drop_first(), "{"@) {
            lemma_route_body_len(p.1, RouteView::new(ts[0]));
        }
    }
}

#[via_fn]
proof fn server_body_decreases(ts: Tokens, server: ServerView) {
    if ts.len() > 0 {
        lemma_server_directive_len(ts[0], ts.drop_first(), server);
    }
}

proof fn lemma_server_body_len(ts: Tokens, server: ServerView)
    ensures
        server_body(ts, server) matches Ok(p) ==> p.1.len() < ts.len(),
    decreases ts.len(),
{
    if !(ts.len() > 0 && ts[0] == "}"@) && ts.len() > 0 {
        lemma_server_directive_len(ts[0], ts.drop_first(), server);
        if let Ok(q) = server_directive(ts[0], ts.drop_first(), server) {
            lemma_server_body_len(q.1, q.0);
        }
    }
}

#[via_fn]
proof fn config_body_decreases(ts: Tokens, config: ConfigView) {
    if ts.len() > 0 {
        if let Ok(p) = mark(ts.drop_first(), "{"@) {
            lemma_server_body_len(p.1, ServerView::new());
        }
    }
}

/// Whether every route is sound.
pub open spec fn routes_wf(routes: Seq<RouteView>) -> bool {
    forall|i: int| 0 <= i < routes.len() ==> (#[trigger] routes[i]).wf()
}

/// Whether every server is sound.
pub open spec fn servers_wf(servers: Seq<ServerView>) -> bool {
    forall|i: int| 0 <= i < servers.len() ==> (#[trigger] servers[i]).wf()
}

impl ServerView {
    /// Every route is sound.
    pub open spec fn wf(self) -> bool {
        routes_wf(self.routes)
    }
}

impl ConfigView {
    /// Every server is sound.
    pub open spec fn wf(self) -> bool {
        servers_wf(self.servers)
    }
}

proof fn lemma_method_list_wf(ts: Tokens, methods: Seq<MethodView>)
    requires
        methods.no_duplicates(),
    ensures
        method_list(ts, methods) matches Ok(p) ==> p.0.no_duplicates(),
    decreases ts.len(),
{
    if !(ts.len() > 0 && ts[0] == ";"@) && ts.len() > 0 {
        lemma_method_list_wf(ts.drop_first(), with_method(methods, MethodView::of(ts[0])));
    }
}

proof fn lemma_with_entry_wf(entries: Fields, key: Seq<char>, value: Seq<char>)
    requires
        http::names_distinct(entries),
    ensures
        http::names_distinct(with_entry(entries, key, value)),
{
    let after = with_entry(entries, key, value);
    http::lemma_field_index(entries, key);
    assert forall|i: int, j: int| 0 <= i < j < after.len() implies (#[trigger] after[i]).0 != (
    #[trigger] after[j]).0 by {
        if j < entries.len() {
            assert(after[i].0 == entries[i].0 && after[j].0 == entries[j].0);
        } else {
            assert(after[i] == entries[i]);
        }
    }
}

proof fn lemma_route_directive_wf(directive: Seq<char>, ts: Tokens, route: RouteView)
    requires
        route.wf(),
    ensures
        route_directive(directive, ts, route) matches Ok(p) ==> p.0.wf(),
{
    lemma_method_list_wf(ts, route.methods);
    if let Ok(p) = next(ts, "cgi extension"@) {
        if let Ok(q) = word(p.1, "cgi interpreter"@) {
            lemma_with_entry_wf(route.cgi, p.0, q.0);
        }
    }
}

/// A route that is read is sound.
pub proof fn lemma_route_body_wf(ts: Tokens, route: RouteView)
    requires
        route.wf(),
    ensures
        route_body(ts, route) matches Ok(p) ==> p.0.wf(),
    decreases ts.len(),
{
    if !(ts.len() > 0 && ts[0] == "}"@) && ts.len() > 0 {
        lemma_route_directive_len(ts[0], ts.drop_first(), route);
        lemma_route_directive_wf(ts[0], ts.drop_first(), route);
        if let Ok(q) = route_directive(ts[0], ts.drop_first(), route) {
            lemma_route_body_wf(q.1, q.0);
        }
    }
}

proof fn lemma_route_block_wf(ts: Tokens, path: Seq<char>)
    ensures
        route_block(ts, path) matches Ok(p) ==> p.0.wf(),
{
    if let Ok(p) = mark(ts, "{"@) {
        lemma_route_body_wf(p.1, RouteView::new(path));
    }
}

proof fn lemma_server_directive_wf(directive: Seq<char>, ts: Tokens, server: ServerView)
    requires
        server.wf(),
    ensures
        server_directive(directive, ts, server) matches Ok(p) ==> p.0.wf(),
{
    if let Ok(p) = next(ts, "route path"@) {
        lemma_route_block_wf(p.1, p.0);
    }
}

/// A server that is read is sound.
pub proof fn lemma_server_body_wf(ts: Tokens, server: ServerView)
    requires
        server.wf(),
    ensures
        server_body(ts, server) matches Ok(p) ==> p.0.wf(),
    decreases ts.len(),
{
    if !(ts.len() > 0 && ts[0] == "}"@) && ts.len() > 0 {
        lemma_server_directive_len(ts[0], ts.drop_first(), server);
        lemma_server_directive_wf(ts[0], ts.drop_first(), server);
        if let Ok(q) = server_directive(ts[0], ts.drop_first(), server) {
            lemma_server_body_wf(q.1, q.0);
        }
    }
}

proof fn lemma_server_block_wf(ts: Tokens)
    ensures
        server_block(ts) matches Ok(p) ==> p.0.wf(),
{
    if let Ok(p) = mark(ts, "{"@) {
        lemma_server_body_wf(p.1, ServerView::new());
    }
}

/// A configuration that is read is sound.
pub proof fn lemma_config_body_wf(ts: Tokens, config: ConfigView)
    requires
        config.wf(),
    ensures
        config_body(ts, config) matches Ok(c) ==> c.wf(),
    decreases ts.len(),
{
    if ts.len() > 0 {
        let rest = ts.drop_first();
        lemma_server_block_wf(rest);
        if let Ok(p) = mark(rest, "{"@) {
            lemma_server_body_len(p.1, ServerView::new());
        }
        if let Ok(p) = config_directive(ts[0], rest, config) {
            lemma_config_body_wf(p.1, p.0);
        }
    }
}

proof fn lemma_validated_wf(server: ServerView)
    requires
        server.wf(),
    ensures
        server.validated().wf(),
{
    broadcast use vstd::seq_lib::group_to_multiset_ensures;

    let routes = server.routes_or_default();
    let rooted = |route: RouteView| is_rooted(route);
    let left = routes.filter(rooted);
    let sorted = server.validated().routes;
    assert(routes_wf(routes));
    order::lemma_stable_sort_multiset(left, route_order());
    assert forall|i: int| 0 <= i < sorted.len() implies (#[trigger] sorted[i]).wf() by {
        assert(sorted.contains(sorted[i]));
        assert(sorted.to_multiset().count(sorted[i]) > 0);
        assert(left.contains(sorted[i]));
        routes.lemma_filter_contains_rev(rooted, sorted[i]);
        let j = choose|j: int| 0 <= j < routes.len() && routes[j] == sorted[i];
        assert(routes[j].wf());
    }
}

/// What is left of sound servers after validation is sound.
pub proof fn lemma_validated_servers_wf(servers: Seq<ServerView>)
    requires
        servers_wf(servers),
    ensures
        servers_wf(validated_servers(servers)),
{
    let kept = |server: ServerView| server.is_kept();
    let left = servers.filter(kept);
    let after = validated_servers(servers);
    assert forall|i: int| 0 <= i < after.len() implies (#[trigger] after[i]).wf() by {
        assert(left.contains(left[i]));
        servers.lemma_filter_contains_rev(kept, left[i]);
        let j = choose|j: int| 0 <= j < servers.len() && servers[j] == left[i];
        assert(servers[j].wf());
        lemma_validated_wf(servers[j]);
    }
}

/// The two texts, one after the other.
fn two(a: &str, b: &str) -> (r: String)
    ensures
        r@ == a@ + b@,
{
    let mut r = a.to_owned();
    r.append(b);
    r
}

/// The four texts, one after the other.
fn four(a: &str, b: &str, c: &str, d: &str) -> (r: String)
    ensures
        r@ == a@ + b@ + c@ + d@,
{
    let mut r = two(a, b);
    r.append(c);
    r.append(d);
    r
}

/// Appends the word that is being read, where there is one, and starts a new one.
fn flush(out: &mut Vec<String>, current: &mut String)
    ensures
        text::string_texts(final(out)@) == text::string_texts(old(out)@) + flushed(old(current)@),
        final(current)@ == Seq::<char>::empty(),
{
    let ghost before = out@;
    if !current.as_str().is_empty() {
        let mut done = String::new();
        std::mem::swap(&mut done, current);
        out.push(done);
        assert(text::string_texts(out@) == text::string_texts(before).push(done@));
    }
    assert(text::string_texts(out@) == text::string_texts(before) + flushed(old(current)@));
}

/// The tokens of a text.
pub fn tokenize(content: &str) -> (r: Vec<String>)
    ensures
        text::string_texts(r@) == tokens(content@),
{
    let chars = chars_of(content);
    let mut out: Vec<String> = Vec::new();
    let mut current = String::new();
    let mut i: usize = 0;
    assert(chars@.skip(0) == chars@);
    assert(text::string_texts(out@) + tokens_after(chars@, seq![]) == tokens(content@));
    while i < chars.len()
        invariant
            i <= chars@.len(),
            text::string_texts(out@) + tokens_after(chars@.skip(i as int), current@) == tokens(
                content@,
            ),
        decreases chars@.len() - i,
    {
        let c = chars[i];
        let ghost s = chars@.skip(i as int);
        let ghost word_before = current@;
        let ghost out_before = text::string_texts(out@);
        assert(s.drop_first() == chars@.skip(i + 1));
        if c == '#' {
            flush(&mut out, &mut current);
            let rest = slice_subrange(chars.as_slice(), i + 1, chars.len());
            assert(rest@ == s.drop_first());
            let n: usize = find(rest, Pattern::Char('\n'));
            assert(rest@.skip(n as int) == chars@.skip(i + 1 + n));
            i = i + 1 + n;
            assert(out_before + (flushed(word_before) + tokens_after(
                chars@.skip(i as int),
                current@,
            )) == text::string_texts(out@) + tokens_after(chars@.skip(i as int), current@));
        } else if c == '{' || c == '}' || c == ';' {
            flush(&mut out, &mut current);
            let ghost middle = out@;
            let mut token = String::new();
            token.push(c);
            assert(token@ == seq![c]);
            out.push(token);
            assert(text::string_texts(out@) == text::string_texts(middle).push(seq![c]));
            i += 1;
            assert(out_before + (flushed(word_before).push(seq![c]) + tokens_after(
                chars@.skip(i as int),
                current@,
            )) == text::string_texts(out@) + tokens_after(chars@.skip(i as int), current@));
        } else if Pattern::Whitespace.matches(c) {
            flush(&mut out, &mut current);
            i += 1;
            assert(out_before + (flushed(word_before) + tokens_after(
                chars@.skip(i as int),
                current@,
            )) == text::string_texts(out@) + tokens_after(chars@.skip(i as int), current@));
        } else {
            current.push(c);
            i += 1;
        }
    }
    flush(&mut out, &mut current);
    out
}

/// The size that a text gives, in bytes or with a suffix for a multiple of them.
pub fn parse_size(value: &str) -> (r: Result<usize, String>)
    ensures
        match r {
            Ok(size) => parsed_size(value@) matches Ok(n) && n == size,
            Err(message) => parsed_size(value@) matches Err(m) && m == message@,
        },
{
    let chars = chars_of(value);
    let low = lower(chars.as_slice());
    let unit: usize = if low.len() == 0 {
        1
    } else {
        let last = low[low.len() - 1];
        if last == 'k' {
            1024
        } else if last == 'm' {
            1048576
        } else if last == 'g' {
            1073741824
        } else {
            1
        }
    };
    let end: usize = if unit == 1 {
        low.len()
    } else {
        low.len() - 1
    };
    let digits = slice_subrange(low.as_slice(), 0, end);
    assert(end == low@.len() ==> digits@ == low@);
    assert(end < low@.len() ==> digits@ == low@.drop_last());
    let n: usize = match parse_number(digits, 10, usize::MAX as u64) {
        Some(n) => n as usize,
        None => {
            return Err(two("invalid size: ", value));
        },
    };
    match n.checked_mul(unit) {
        Some(size) => Ok(size),
        None => Err(two("size is too large: ", value)),
    }
}

/// What a switch says.
pub fn parse_on_off(value: &str) -> (r: Result<bool, String>)
    ensures
        match r {
            Ok(on) => parsed_on_off(value@) matches Ok(b) && b == on,
            Err(message) => parsed_on_off(value@) matches Err(m) && m == message@,
        },
{
    if same_str(value, "on") || same_str(value, "true") || same_str(value, "1") {
        Ok(true)
    } else if same_str(value, "off") || same_str(value, "false") || same_str(value, "0") {
        Ok(false)
    } else {
        Err(two("expected on or off, found ", value))
    }
}

/// Reads a configuration from its tokens.
pub struct Parser {
    tokens: Vec<String>,
    position: usize,
}

impl Parser {
    /// The tokens that have not been read.
    pub closed spec fn rest(&self) -> Tokens {
        text::string_texts(self.tokens@).skip(self.position as int)
    }

    /// What has been read lies within the tokens.
    pub closed spec fn wf(&self) -> bool {
        self.position <= self.tokens@.len()
    }

    pub fn new(tokens: Vec<String>) -> (r: Self)
        ensures
            r.wf(),
            r.rest() == text::string_texts(tokens@),
    {
        let r = Parser { tokens, position: 0 };
        assert(r.rest() == text::string_texts(tokens@));
        r
    }

    /// Whether all has been read.
    pub fn is_done(&self) -> (b: bool)
        requires
            self.wf(),
        ensures
            b == (self.rest().len() == 0),
    {
        self.position >= self.tokens.len()
    }

    /// The next token, which is not read by this.
    pub fn peek(&self) -> (r: Option<&str>)
        requires
            self.wf(),
        ensures
            match r {
                Some(token) => self.rest().len() > 0 && self.rest()[0] == token@,
                None => self.rest().len() == 0,
            },
    {
        if self.position < self.tokens.len() {
            Some(self.tokens[self.position].as_str())
        } else {
            None
        }
    }

    /// Reads the next token.
    pub fn next_required(&mut self, label: &str) -> (r: Result<String, String>)
        requires
            old(self).wf(),
        ensures
            final(self).wf(),
            match r {
                Ok(token) => next(old(self).rest(), label@) matches Ok(p) && p.0 == token@ && p.1
                    == final(self).rest(),
                Err(message) => next(old(self).rest(), label@) matches Err(m) && m == message@,
            },
    {
        if self.position >= self.tokens.len() {
            let mut message = two("expected ", label);
            message.append(", reached end of file");
            return Err(message);
        }
        let ghost before = self.rest();
        let token = self.tokens[self.position].clone();
        self.position += 1;
        assert(self.rest() == before.drop_first());
        Ok(token)
    }

    /// Reads the next token if it is the given one.
    pub fn consume(&mut self, expected: &str) -> (b: bool)
        requires
            old(self).wf(),
        ensures
            final(self).wf(),
            b == (old(self).rest().len() > 0 && old(self).rest()[0] == expected@),
            final(self).rest() == (if b {
                old(self).rest().drop_first()
            } else {
                old(self).rest()
            }),
    {
        let ghost before = self.rest();
        let found = match self.peek() {
            Some(token) => same_str(token, expected),
            None => false,
        };
        if found {
            assert(self.position < self.tokens.len());
            self.position += 1;
            assert(self.rest() == before.drop_first());
        }
        found
    }

    /// Reads the next token, which has to be the given one.
    pub fn expect(&mut self, expected: &str) -> (r: Result<(), String>)
        requires
            old(self).wf(),
        ensures
            final(self).wf(),
            match r {
                Ok(_) => mark(old(self).rest(), expected@) matches Ok(p) && p.1
                    == final(self).rest(),
                Err(message) => mark(old(self).rest(), expected@) matches Err(m) && m == message@,
            },
    {
        match self.next_required(expected) {
            Ok(token) => if same_str(token.as_str(), expected) {
                Ok(())
            } else {
                Err(four("expected ", expected, ", found ", token.as_str()))
            },
            Err(message) => Err(message),
        }
    }

    fn parse_up_to(&mut self, label: &str, max: u64) -> (r: Result<u64, String>)
        requires
            old(self).wf(),
        ensures
            final(self).wf(),
            match r {
                Ok(n) => number(old(self).rest(), label@, max as int) matches Ok(p) && p.0 == n
                    && p.1 == final(self).rest() && n <= max,
                Err(message) => number(old(self).rest(), label@, max as int) matches Err(m) && m
                    == message@,
            },
    {
        match self.next_required(label) {
            Ok(token) => {
                let chars = chars_of(token.as_str());
                match parse_number(chars.as_slice(), 10, max) {
                    Some(n) => Ok(n),
                    None => Err(four("invalid ", label, ": ", token.as_str())),
                }
            },
            Err(message) => Err(message),
        }
    }

    /// Reads a number of 16 bits.
    pub fn parse_u16(&mut self, label: &str) -> (r: Result<u16, String>)
        requires
            old(self).wf(),
        ensures
            final(self).wf(),
            match r {
                Ok(n) => number(old(self).rest(), label@, u16::MAX as int) matches Ok(p) && p.0 == n
                    && p.1 == final(self).rest(),
                Err(message) => number(old(self).rest(), label@, u16::MAX as int) matches Err(m)
                    && m == message@,
            },
    {
        match self.parse_up_to(label, u16::MAX as u64) {
            Ok(n) => Ok(n as u16),
            Err(message) => Err(message),
        }
    }

    /// Reads a number of 64 bits.
    pub fn parse_u64(&mut self, label: &str) -> (r: Result<u64, String>)
        requires
            old(self).wf(),
        ensures
            final(self).wf(),
            match r {
                Ok(n) => number(old(self).rest(), label@, u64::MAX as int) matches Ok(p) && p.0 == n
                    && p.1 == final(self).rest(),
                Err(message) => number(old(self).rest(), label@, u64::MAX as int) matches Err(m)
                    && m == message@,
            },
    {
        self.parse_up_to(label, u64::MAX)
    }

    /// Reads a word and a semicolon.
    fn parse_word(&mut self, label: &str) -> (r: Result<String, String>)
        requires
            old(self).wf(),
        ensures
            final(self).wf(),
            match r {
                Ok(token) => word(old(self).rest(), label@) matches Ok(p) && p.0 == token@ && p.1
                    == final(self).rest(),
                Err(message) => word(old(self).rest(), label@) matches Err(m) && m == message@,
            },
    {
        match self.next_required(label) {
            Ok(token) => match self.expect(";") {
                Ok(_) => Ok(token),
                Err(message) => Err(message),
            },
            Err(message) => Err(message),
        }
    }

    /// Reads words up to a semicolon, behind the ones given.
    fn parse_words(&mut self, label: &str, words: &mut Vec<String>) -> (r: Result<(), String>)
        requires
            old(self).wf(),
        ensures
            final(self).wf(),
            match r {
                Ok(_) => word_list(
                    old(self).rest(),
                    label@,
                    text::string_texts(old(words)@),
                ) matches Ok(p) && p.0 == text::string_texts(final(words)@) && p.1 == final(self).rest(),
                Err(message) => word_list(
                    old(self).rest(),
                    label@,
                    text::string_texts(old(words)@),
                ) matches Err(m) && m == message@,
            },
    {
        let ghost whole = word_list(self.rest(), label@, text::string_texts(words@));
        loop
            invariant
                self.wf(),
                whole == word_list(self.rest(), label@, text::string_texts(words@)),
                whole == word_list(old(self).rest(), label@, text::string_texts(old(words)@)),
            decreases self.rest().len(),
        {
            if self.consume(";") {
                return Ok(());
            }
            match self.next_required(label) {
                Ok(token) => {
                    let ghost before = words@;
                    words.push(token);
                    assert(text::string_texts(words@) == text::string_texts(before).push(token@));
                },
                Err(message) => {
                    return Err(message);
                },
            }
        }
    }

    /// Reads ports up to a semicolon, behind the ones given.
    fn parse_ports(&mut self, ports: &mut Vec<u16>) -> (r: Result<(), String>)
        requires
            old(self).wf(),
        ensures
            final(self).wf(),
            match r {
                Ok(_) => port_list(old(self).rest(), old(ports)@) matches Ok(p) && p.0 == final(ports)@ && p.1 == final(self).rest(),
                Err(message) => port_list(old(self).rest(), old(ports)@) matches Err(m) && m
                    == message@,
            },
    {
        let ghost whole = port_list(self.rest(), ports@);
        loop
            invariant
                self.wf(),
                whole == port_list(self.rest(), ports@),
                whole == port_list(old(self).rest(), old(ports)@),
            decreases self.rest().len(),
        {
            if self.consume(";") {
                return Ok(());
            }
            match self.parse_u16("port") {
                Ok(port) => {
                    ports.push(port);
                },
                Err(message) => {
                    return Err(message);
                },
            }
        }
    }

    /// Reads methods up to a semicolon, behind the ones given.
    fn parse_methods(&mut self, methods: &mut Vec<Method>) -> (r: Result<(), String>)
        requires
            old(self).wf(),
        ensures
            final(self).wf(),
            match r {
                Ok(_) => method_list(old(self).rest(), methods_of(old(methods)@)) matches Ok(p)
                    && p.0 == methods_of(final(methods)@) && p.1 == final(self).rest(),
                Err(message) => method_list(
                    old(self).rest(),
                    methods_of(old(methods)@),
                ) matches Err(m) && m == message@,
            },
    {
        let ghost whole = method_list(self.rest(), methods_of(methods@));
        loop
            invariant
                self.wf(),
                whole == method_list(self.rest(), methods_of(methods@)),
                whole == method_list(old(self).rest(), methods_of(old(methods)@)),
            decreases self.rest().len(),
        {
            if self.consume(";") {
                return Ok(());
            }
            match self.next_required("method") {
                Ok(token) => {
                    add_method(methods, Method::from_token(token.as_str()));
                },
                Err(message) => {
                    proof {
                        reveal_strlit("expected ");
                        reveal_strlit("method");
                        reveal_strlit(", reached end of file");
                        reveal_strlit("expected method, reached end of file");
                        assert("expected "@ + "method"@ + ", reached end of file"@
                            == "expected method, reached end of file"@);
                    }
                    return Err(message);
                },
            }
        }
    }

    fn parse_redirect(&mut self) -> (r: Result<RedirectConfig, String>)
        requires
            old(self).wf(),
        ensures
            final(self).wf(),
            match r {
                Ok(target) => redirect(old(self).rest()) matches Ok(p) && p.0 == target@ && p.1
                    == final(self).rest(),
                Err(message) => redirect(old(self).rest()) matches Err(m) && m == message@,
            },
    {
        let first = match self.next_required("redirect status or location") {
            Ok(first) => first,
            Err(message) => {
                return Err(message);
            },
        };
        let chars = chars_of(first.as_str());
        match parse_number(chars.as_slice(), 10, u16::MAX as u64) {
            Some(status) => match self.parse_word("redirect location") {
                Ok(location) => Ok(RedirectConfig { status: status as u16, location }),
                Err(message) => Err(message),
            },
            None => match self.expect(";") {
                Ok(_) => Ok(RedirectConfig { status: 302, location: first }),
                Err(message) => Err(message),
            },
        }
    }

    /// Reads what follows a directive of a route.
    fn parse_route_directive(&mut self, directive: &str, route: &mut RouteConfig) -> (r: Result<
        (),
        String,
    >)
        requires
            old(self).wf(),
        ensures
            final(self).wf(),
            match r {
                Ok(_) => route_directive(directive@, old(self).rest(), old(route)@) matches Ok(p)
                    && p.0 == final(route)@ && p.1 == final(self).rest(),
                Err(message) => route_directive(
                    directive@,
                    old(self).rest(),
                    old(route)@,
                ) matches Err(m) && m == message@,
            },
    {
        if same_str(directive, "methods") {
            match self.parse_methods(&mut route.methods) {
                Ok(_) => Ok(()),
                Err(message) => Err(message),
            }
        } else if same_str(directive, "root") {
            match self.parse_word("root") {
                Ok(root) => {
                    route.root = Some(root);
                    Ok(())
                },
                Err(message) => Err(message),
            }
        } else if same_str(directive, "redirect") {
            match self.parse_redirect() {
                Ok(target) => {
                    route.redirect = Some(target);
                    Ok(())
                },
                Err(message) => Err(message),
            }
        } else if same_str(directive, "index") || same_str(directive, "default_file") {
            match self.parse_word("index") {
                Ok(index) => {
                    route.index = Some(index);
                    Ok(())
                },
                Err(message) => Err(message),
            }
        } else if same_str(directive, "directory_listing") || same_str(directive, "autoindex") {
            match self.parse_word("on or off") {
                Ok(value) => match parse_on_off(value.as_str()) {
                    Ok(on) => {
                        route.directory_listing = on;
                        Ok(())
                    },
                    Err(message) => Err(message),
                },
                Err(message) => Err(message),
            }
        } else if same_str(directive, "upload_store") {
            match self.parse_word("upload store") {
                Ok(store) => {
                    route.upload_store = Some(store);
                    Ok(())
                },
                Err(message) => Err(message),
            }
        } else if same_str(directive, "cgi") {
            match self.next_required("cgi extension") {
                Ok(extension) => match self.parse_word("cgi interpreter") {
                    Ok(interpreter) => {
                        put_entry(&mut route.cgi, extension, interpreter);
                        Ok(())
                    },
                    Err(message) => Err(message),
                },
                Err(message) => Err(message),
            }
        } else {
            Err(two("unknown route directive ", directive))
        }
    }

    /// Reads a block of directives for a route of the path.
    pub fn parse_route(&mut self, path: String) -> (r: Result<RouteConfig, String>)
        requires
            old(self).wf(),
        ensures
            final(self).wf(),
            match r {
                Ok(route) => route_block(old(self).rest(), path@) matches Ok(p) && p.0 == route@
                    && p.1 == final(self).rest(),
                Err(message) => route_block(old(self).rest(), path@) matches Err(m) && m
                    == message@,
            },
            r matches Ok(route) ==> route@.wf(),
    {
        proof {
            lemma_route_block_wf(self.rest(), path@);
        }
        match self.expect("{") {
            Ok(_) => {},
            Err(message) => {
                return Err(message);
            },
        }
        let ghost whole = route_body(self.rest(), RouteView::new(path@));
        let mut route = RouteConfig::new(path);
        loop
            invariant
                self.wf(),
                whole == route_body(self.rest(), route@),
                whole == route_block(old(self).rest(), path@),
                whole matches Ok(p) ==> p.0.wf(),
            decreases self.rest().len(),
        {
            if self.consume("}") {
                return Ok(route);
            }
            let directive = match self.next_required("route directive") {
                Ok(directive) => directive,
                Err(message) => {
                    return Err(message);
                },
            };
            proof {
                lemma_route_directive_len(directive@, self.rest(), route@);
            }
            match self.parse_route_directive(directive.as_str(), &mut route) {
                Ok(_) => {},
                Err(message) => {
                    return Err(message);
                },
            }
        }
    }

    /// Reads what follows a directive of a server.
    fn parse_server_directive(&mut self, directive: &str, server: &mut ServerConfig) -> (r: Result<
        (),
        String,
    >)
        requires
            old(self).wf(),
        ensures
            final(self).wf(),
            match r {
                Ok(_) => server_directive(directive@, old(self).rest(), old(server)@) matches Ok(p)
                    && p.0 == final(server)@ && p.1 == final(self).rest(),
                Err(message) => server_directive(
                    directive@,
                    old(self).rest(),
                    old(server)@,
                ) matches Err(m) && m == message@,
            },
    {
        if same_str(directive, "host") {
            match self.parse_word("host") {
                Ok(host) => {
                    server.host = host;
                    Ok(())
                },
                Err(message) => Err(message),
            }
        } else if same_str(directive, "port") || same_str(directive, "ports") || same_str(
            directive,
            "listen",
        ) {
            self.parse_ports(&mut server.ports)
        } else if same_str(directive, "server_name") {
            self.parse_words("server name", &mut server.server_names)
        } else if same_str(directive, "error_page") {
            match self.parse_u16("status code") {
                Ok(code) => match self.parse_word("error page path") {
                    Ok(page) => {
                        let ghost before = server@.error_pages;
                        server.error_pages.insert(code, page);
                        assert(server@.error_pages == before.insert(code, page@));
                        Ok(())
                    },
                    Err(message) => Err(message),
                },
                Err(message) => Err(message),
            }
        } else if same_str(directive, "client_max_body_size") {
            match self.parse_word("body size") {
                Ok(size) => match parse_size(size.as_str()) {
                    Ok(n) => {
                        server.client_max_body_size = n;
                        Ok(())
                    },
                    Err(message) => Err(message),
                },
                Err(message) => Err(message),
            }
        } else if same_str(directive, "route") {
            match self.next_required("route path") {
                Ok(path) => match self.parse_route(path) {
                    Ok(route) => {
                        let ghost before = server@.routes;
                        server.routes.push(route);
                        assert(server@.routes == before.push(route@));
                        Ok(())
                    },
                    Err(message) => Err(message),
                },
                Err(message) => Err(message),
            }
        } else {
            Err(two("unknown server directive ", directive))
        }
    }

    /// Reads a block of directives for a server.
    pub fn parse_server(&mut self) -> (r: Result<ServerConfig, String>)
        requires
            old(self).wf(),
        ensures
            final(self).wf(),
            match r {
                Ok(server) => server_block(old(self).rest()) matches Ok(p) && p.0 == server@ && p.1
                    == final(self).rest(),
                Err(message) => server_block(old(self).rest()) matches Err(m) && m == message@,
            },
            r matches Ok(server) ==> server@.wf(),
    {
        proof {
            lemma_server_block_wf(self.rest());
        }
        match self.expect("{") {
            Ok(_) => {},
            Err(message) => {
                return Err(message);
            },
        }
        let ghost whole = server_body(self.rest(), ServerView::new());
        let mut server = ServerConfig::default();
        loop
            invariant
                self.wf(),
                whole == server_body(self.rest(), server@),
                whole == server_block(old(self).rest()),
                whole matches Ok(p) ==> p.0.wf(),
            decreases self.rest().len(),
        {
            if self.consume("}") {
                return Ok(server);
            }
            let directive = match self.next_required("server directive") {
                Ok(directive) => directive,
                Err(message) => {
                    return Err(message);
                },
            };
            proof {
                lemma_server_directive_len(directive@, self.rest(), server@);
            }
            match self.parse_server_directive(directive.as_str(), &mut server) {
                Ok(_) => {},
                Err(message) => {
                    return Err(message);
                },
            }
        }
    }

    fn parse_seconds(&mut self, label: &str) -> (r: Result<u64, String>)
        requires
            old(self).wf(),
        ensures
            final(self).wf(),
            match r {
                Ok(n) => seconds(old(self).rest(), label@) matches Ok(p) && p.0 == n && p.1
                    == final(self).rest(),
                Err(message) => seconds(old(self).rest(), label@) matches Err(m) && m == message@,
            },
    {
        match self.parse_u64(label) {
            Ok(n) => match self.expect(";") {
                Ok(_) => Ok(n),
                Err(message) => Err(message),
            },
            Err(message) => Err(message),
        }
    }

    /// Reads a whole configuration.
    pub fn parse_config(&mut self) -> (r: Result<Config, String>)
        requires
            old(self).wf(),
        ensures
            final(self).wf(),
            match r {
                Ok(config) => parsed_config(old(self).rest()) matches Ok(c) && c == config@,
                Err(message) => parsed_config(old(self).rest()) matches Err(m) && m == message@,
            },
            r matches Ok(config) ==> config@.wf(),
    {
        let mut config = Config { servers: Vec::new(), request_timeout: 30, cgi_timeout: 5 };
        let ghost start = ConfigView { servers: seq![], request_timeout: 30, cgi_timeout: 5 };
        assert(config@.servers == start.servers);
        let ghost whole = config_body(self.rest(), start);
        while !self.is_done()
            invariant
                self.wf(),
                whole == config_body(self.rest(), config@),
                whole == config_body(old(self).rest(), start),
                start == (ConfigView { servers: seq![], request_timeout: 30, cgi_timeout: 5 }),
            decreases self.rest().len(),
        {
            let ghost ts = self.rest();
            let directive = match self.next_required("directive") {
                Ok(directive) => directive,
                Err(message) => {
                    return Err(message);
                },
            };
            if same_str(directive.as_str(), "server") {
                proof {
                    if let Ok(p) = mark(self.rest(), "{"@) {
                        lemma_server_body_len(p.1, ServerView::new());
                    }
                }
                let ghost before = config@.servers;
                match self.parse_server() {
                    Ok(server) => {
                        config.servers.push(server);
                        assert(config@.servers == before.push(server@));
                    },
                    Err(message) => {
                        return Err(message);
                    },
                }
            } else if same_str(directive.as_str(), "request_timeout") {
                match self.parse_seconds("request_timeout") {
                    Ok(n) => {
                        config.request_timeout = n;
                    },
                    Err(message) => {
                        return Err(message);
                    },
                }
            } else if same_str(directive.as_str(), "cgi_timeout") {
                match self.parse_seconds("cgi_timeout") {
                    Ok(n) => {
                        config.cgi_timeout = n;
                    },
                    Err(message) => {
                        return Err(message);
                    },
                }
            } else {
                return Err(two("unknown top-level directive ", directive.as_str()));
            }
        }
        if config.servers.len() == 0 {
            return Err("configuration must contain at least one server block".to_owned());
        }
        proof {
            lemma_config_body_wf(old(self).rest(), start);
        }
        Ok(config)
    }
}

/// The methods of a list.
pub open spec fn methods_of(list: Seq<Method>) -> Seq<MethodView> {
    list.map_values(|method: Method| method@)
}

/// Adds a method that is not in the list.
fn add_method(methods: &mut Vec<Method>, method: Method)
    ensures
        methods_of(final(methods)@) == with_method(methods_of(old(methods)@), method@),
{
    let ghost before = methods_of(methods@);
    for i in 0..methods.len()
        invariant
            before == methods_of(methods@),
            methods@ == old(methods)@,
            forall|j: int| 0 <= j < i ==> before[j] != method@,
    {
        assert(before[i as int] == methods@[i as int]@);
        if methods[i].same(&method) {
            assert(before.contains(method@));
            return;
        }
    }
    assert(!before.contains(method@));
    methods.push(method);
    assert(methods_of(methods@) == before.push(method@));
}

/// Puts an entry in: replaces its value where it stands, adds it at the end where it
/// does not.
fn put_entry(entries: &mut Vec<(String, String)>, key: String, value: String)
    ensures
        http::fields_of(final(entries)@) == with_entry(
            http::fields_of(old(entries)@),
            key@,
            value@,
        ),
{
    let ghost before = http::fields_of(entries@);
    let mut i: usize = 0;
    while i < entries.len()
        invariant
            i <= entries@.len(),
            before == http::fields_of(entries@),
            entries@ == old(entries)@,
            before == http::fields_of(old(entries)@),
            forall|j: int| 0 <= j < i ==> (#[trigger] before[j]).0 != key@,
        decreases entries@.len() - i,
    {
        assert(before[i as int].0 == entries@[i as int].0@);
        if same_str(entries[i].0.as_str(), key.as_str()) {
            proof {
                http::lemma_field_index_is(before, key@, i as int);
            }
            entries.set(i, (key, value));
            assert(http::fields_of(entries@) == before.update(i as int, (key@, value@)));
            return;
        }
        i += 1;
    }
    proof {
        http::lemma_field_index_is(before, key@, before.len() as int);
    }
    entries.push((key, value));
    assert(http::fields_of(entries@) == before.push((key@, value@)));
}

impl RouteConfig {
    /// A route of the path for which nothing is configured.
    pub fn new(path: String) -> (r: Self)
        ensures
            r@ == RouteView::new(path@),
            r@.wf(),
    {
        let r = RouteConfig {
            path,
            methods: Vec::new(),
            root: None,
            redirect: None,
            index: None,
            directory_listing: false,
            upload_store: None,
            cgi: Vec::new(),
        };
        assert(r@.methods == RouteView::new(path@).methods);
        assert(r@.cgi == RouteView::new(path@).cgi);
        r
    }

    /// The route of a server for which none is configured.
    pub fn default_root() -> (r: Self)
        ensures
            r@ == RouteView::default_root(),
            r@.wf(),
    {
        let mut r = RouteConfig::new("/".to_owned());
        r.methods.push(Method::Get);
        r.root = Some("www".to_owned());
        r.index = Some("index.html".to_owned());
        assert(r@.methods == RouteView::default_root().methods);
        r
    }
}

impl ServerConfig {
    /// A server for which nothing is configured.
    pub fn default() -> (r: Self)
        ensures
            r@ == ServerView::new(),
            r@.wf(),
    {
        let r = ServerConfig {
            host: "127.0.0.1".to_owned(),
            ports: Vec::new(),
            server_names: Vec::new(),
            error_pages: HashMap::new(),
            client_max_body_size: 1048576,
            routes: Vec::new(),
        };
        assert(r@.error_pages == ServerView::new().error_pages);
        assert(r@.routes == ServerView::new().routes);
        assert(r@.server_names == ServerView::new().server_names);
        r
    }
}

/// The first port that stands in the list before.
pub open spec fn repeated_port(ports: Seq<u16>) -> Option<u16>
    decreases ports.len(),
{
    if ports.len() == 0 {
        None
    } else {
        match repeated_port(ports.drop_last()) {
            Some(port) => Some(port),
            None => if ports.drop_last().contains(ports.last()) {
                Some(ports.last())
            } else {
                None
            },
        }
    }
}

/// Whether the path of a route starts with a slash.
pub open spec fn is_rooted(route: RouteView) -> bool {
    route.path.len() > 0 && route.path[0] == '/'
}

pub open spec fn route_fault(route: RouteView) -> Seq<char> {
    "discarded route "@ + route.path + " because it does not start with /"@
}

impl ServerView {
    /// Why the server cannot be used, where that does not depend on its routes.
    pub open spec fn fault(self) -> Option<Seq<char>> {
        if self.host.len() == 0 {
            Some("discarded a server with an empty host"@)
        } else if self.ports.len() == 0 {
            Some("discarded server "@ + self.host + " because it has no ports"@)
        } else {
            match repeated_port(self.ports) {
                Some(port) => Some(
                    "discarded server "@ + self.host + " because port "@ + text::decimal(
                        port as nat,
                    ) + " is configured more than once"@,
                ),
                None => None,
            }
        }
    }

    /// The routes, or the default one where there are none.
    pub open spec fn routes_or_default(self) -> Seq<RouteView> {
        if self.routes.len() == 0 {
            seq![RouteView::default_root()]
        } else {
            self.routes
        }
    }

    /// What there is to say about the server, in order.
    pub open spec fn warnings(self) -> Seq<Seq<char>> {
        match self.fault() {
            Some(message) => seq![message],
            None => (if self.routes.len() == 0 {
                seq![
                    "server "@ + self.host
                        + " has no routes; added a default route rooted at ./www"@,
                ]
            } else {
                seq![]
            }) + self.routes_or_default().filter(|route: RouteView| !is_rooted(route)).map_values(
                |route: RouteView| route_fault(route),
            ),
        }
    }

    /// The server as it is used: its names in lower case, and its routes that start with
    /// a slash, the longer paths first.
    pub open spec fn validated(self) -> ServerView {
        ServerView {
            server_names: self.server_names.map_values(|name: Seq<char>| text::lowered(name)),
            routes: order::stable_sort(
                self.routes_or_default().filter(|route: RouteView| is_rooted(route)),
                route_order(),
            ),
            ..self
        }
    }

    /// Whether the server is used.
    pub open spec fn is_kept(self) -> bool {
        self.fault() is None && self.validated().routes.len() > 0
    }
}

/// The servers that are used, as they are used.
pub open spec fn validated_servers(servers: Seq<ServerView>) -> Seq<ServerView> {
    servers.filter(|server: ServerView| server.is_kept()).map_values(
        |server: ServerView| server.validated(),
    )
}

/// What there is to say about the servers, in order.
pub open spec fn server_warnings(servers: Seq<ServerView>) -> Seq<Seq<char>>
    decreases servers.len(),
{
    if servers.len() == 0 {
        seq![]
    } else {
        server_warnings(servers.drop_last()) + servers.last().warnings()
    }
}

/// The configuration of a text and the warnings about it, or what is wrong with it.
pub open spec fn configured(content: Seq<char>) -> Result<(ConfigView, Seq<Seq<char>>), Seq<char>> {
    match parsed_config(tokens(content)) {
        Ok(config) => Ok(
            (
                ConfigView { servers: validated_servers(config.servers), ..config },
                server_warnings(config.servers),
            ),
        ),
        Err(message) => Err(message),
    }
}

impl RouteConfig {
    /// The value of the header `Allow`: the tokens of the methods, in order.
    pub fn allowed_methods_header(&self) -> (r: String)
        ensures
            r@ == self@.allowed(),
    {
        if self.methods.len() == 0 {
            return "GET, POST, DELETE".to_owned();
        }
        let ghost names = self@.methods.map_values(|method: MethodView| method.token());
        let mut list: Vec<String> = Vec::new();
        for i in 0..self.methods.len()
            invariant
                names == self@.methods.map_values(|method: MethodView| method.token()),
                text::string_texts(list@) == names.take(i as int),
        {
            let ghost before = text::string_texts(list@);
            let name = self.methods[i].name();
            assert(name@ == names[i as int]);
            list.push(name);
            assert(text::string_texts(list@) == before.push(name@));
            assert(names.take(i + 1) == names.take(i as int).push(name@));
        }
        assert(names.take(names.len() as int) == names);
        let sorted = sort_texts(list);
        join_texts(&sorted, ", ")
    }

    fn is_rooted(&self) -> (b: bool)
        ensures
            b == is_rooted(self@),
    {
        let chars = chars_of(self.path.as_str());
        chars.len() > 0 && chars[0] == '/'
    }
}

/// The first port that stands in the list before.
fn find_repeated_port(ports: &Vec<u16>) -> (r: Option<u16>)
    ensures
        r == repeated_port(ports@),
{
    let mut found: Option<u16> = None;
    for i in 0..ports.len()
        invariant
            found == repeated_port(ports@.take(i as int)),
    {
        let ghost front = ports@.take(i as int);
        assert(ports@.take(i + 1).drop_last() == front);
        if found.is_none() {
            let mut before = false;
            for j in 0..i
                invariant
                    i < ports@.len(),
                    front == ports@.take(i as int),
                    before == ports@.take(j as int).contains(ports@[i as int]),
            {
                let ghost shorter = ports@.take(j as int);
                assert(ports@.take(j + 1) == shorter.push(ports@[j as int]));
                assert(shorter.push(ports@[j as int])[j as int] == ports@[j as int]);
                assert forall|k: int| 0 <= k < j implies shorter.push(ports@[j as int])[k]
                    == shorter[k] by {}
                before = before || ports[j] == ports[i];
            }
            if before {
                found = Some(ports[i]);
            }
        }
    }
    assert(ports@.take(ports@.len() as int) == ports@);
    found
}

/// The routes that start with a slash, the longer paths first; what there is to say about
/// the others goes to the warnings.
fn arrange_routes(routes: Vec<RouteConfig>, warnings: &mut Vec<String>) -> (r: Vec<RouteConfig>)
    ensures
        routes_of(r@) == order::stable_sort(
            routes_of(routes@).filter(|route: RouteView| is_rooted(route)),
            route_order(),
        ),
        text::string_texts(final(warnings)@) == text::string_texts(old(warnings)@) + routes_of(
            routes@,
        ).filter(|route: RouteView| !is_rooted(route)).map_values(
            |route: RouteView| route_fault(route),
        ),
{
    let ghost all = routes_of(routes@);
    let ghost rooted = |route: RouteView| is_rooted(route);
    let ghost unrooted = |route: RouteView| !is_rooted(route);
    let ghost fault = |route: RouteView| route_fault(route);
    let ghost start = text::string_texts(warnings@);
    let mut sorted: Vec<RouteConfig> = Vec::new();
    proof {
        reveal(Seq::filter);
        assert(all.take(0).filter(rooted) == Seq::<RouteView>::empty());
        assert(all.take(0).filter(unrooted) == Seq::<RouteView>::empty());
        assert(routes_of(sorted@) == order::stable_sort(all.take(0).filter(rooted), route_order()));
        assert(text::string_texts(warnings@) == start + all.take(0).filter(unrooted).map_values(
            fault,
        ));
    }
    for route in it: routes
        invariant
            all == routes_of(it.seq()),
            rooted == (|route: RouteView| is_rooted(route)),
            unrooted == (|route: RouteView| !is_rooted(route)),
            fault == (|route: RouteView| route_fault(route)),
            start == text::string_texts(old(warnings)@),
            routes_of(sorted@) == order::stable_sort(
                all.take(it.index() as int).filter(rooted),
                route_order(),
            ),
            text::string_texts(warnings@) == start + all.take(it.index() as int).filter(
                unrooted,
            ).map_values(fault),
    {
        let ghost done = all.take(it.index() as int);
        let ghost view = route@;
        proof {
            assert(all.take(it.index() + 1) == done.push(view));
            done.lemma_filter_push(view, rooted);
            done.lemma_filter_push(view, unrooted);
        }
        if route.is_rooted() {
            let ghost before = routes_of(sorted@);
            let length: usize = route.path.as_str().as_bytes().len();
            let mut i: usize = 0;
            while i < sorted.len() && sorted[i].path.as_str().as_bytes().len() >= length
                invariant
                    i <= sorted@.len(),
                    before == routes_of(sorted@),
                    length == view.path_bytes(),
                    forall|j: int| 0 <= j < i ==> (#[trigger] before[j]).path_bytes() >= length,
                ensures
                    i <= sorted@.len(),
                    before == routes_of(sorted@),
                    forall|j: int| 0 <= j < i ==> (#[trigger] before[j]).path_bytes() >= length,
                    i < sorted@.len() ==> before[i as int].path_bytes() < length,
                decreases sorted@.len() - i,
            {
                assert(before[i as int] == sorted@[i as int]@);
                i += 1;
            }
            proof {
                order::lemma_insert_position_is(before, view, route_order(), i as int);
                assert(done.filter(rooted).push(view).drop_last() == done.filter(rooted));
            }
            sorted.insert(i, route);
            assert(routes_of(sorted@) == before.insert(i as int, view));
        } else {
            let ghost before = text::string_texts(warnings@);
            let mut message = two("discarded route ", route.path.as_str());
            message.append(" because it does not start with /");
            assert(message@ == route_fault(view));
            warnings.push(message);
            proof {
                assert(text::string_texts(warnings@) == before.push(message@));
                assert(done.filter(unrooted).push(view).map_values(fault) == done.filter(
                    unrooted,
                ).map_values(fault).push(route_fault(view)));
            }
        }
    }
    assert(all.take(all.len() as int) == all);
    sorted
}

/// The routes of a list.
pub open spec fn routes_of(list: Seq<RouteConfig>) -> Seq<RouteView> {
    list.map_values(|route: RouteConfig| route@)
}

/// The servers of a list.
pub open spec fn servers_of(list: Seq<ServerConfig>) -> Seq<ServerView> {
    list.map_values(|server: ServerConfig| server@)
}

/// The strings in lower case.
fn lower_texts(list: &Vec<String>) -> (r: Vec<String>)
    ensures
        text::string_texts(r@) == text::string_texts(list@).map_values(
            |name: Seq<char>| text::lowered(name),
        ),
{
    let ghost all = text::string_texts(list@).map_values(|name: Seq<char>| text::lowered(name));
    let mut r: Vec<String> = Vec::new();
    for i in 0..list.len()
        invariant
            all == text::string_texts(list@).map_values(|name: Seq<char>| text::lowered(name)),
            text::string_texts(r@) == all.take(i as int),
    {
        let ghost before = text::string_texts(r@);
        let chars = chars_of(list[i].as_str());
        let low = lower(chars.as_slice());
        let name = string_of(low.as_slice());
        assert(name@ == all[i as int]);
        r.push(name);
        assert(text::string_texts(r@) == before.push(name@));
        assert(all.take(i + 1) == all.take(i as int).push(name@));
    }
    assert(all.take(all.len() as int) == all);
    r
}

impl ServerConfig {
    /// Why the server cannot be used, where that does not depend on its routes.
    fn find_fault(&self) -> (r: Option<String>)
        ensures
            text_of(r) == self@.fault(),
    {
        let host = self.host.as_str();
        if host.is_empty() {
            return Some("discarded a server with an empty host".to_owned());
        }
        if self.ports.len() == 0 {
            let mut message = two("discarded server ", host);
            message.append(" because it has no ports");
            return Some(message);
        }
        match find_repeated_port(&self.ports) {
            Some(port) => {
                let mut message = two("discarded server ", host);
                message.append(" because port ");
                append_number(&mut message, port as u64, 10);
                message.append(" is configured more than once");
                Some(message)
            },
            None => None,
        }
    }

    /// Makes the server ready to be used, or says that it is not.
    fn validate(&mut self, warnings: &mut Vec<String>) -> (kept: bool)
        ensures
            kept == old(self)@.is_kept(),
            kept ==> final(self)@ == old(self)@.validated(),
            text::string_texts(final(warnings)@) == text::string_texts(old(warnings)@) + old(
                self)@.warnings(),
    {
        let ghost before = self@;
        let ghost start = text::string_texts(warnings@);
        match self.find_fault() {
            Some(message) => {
                warnings.push(message);
                assert(text::string_texts(warnings@) == start + seq![message@]);
                return false;
            },
            None => {},
        }
        self.server_names = lower_texts(&self.server_names);
        if self.routes.len() == 0 {
            let mut message = two("server ", self.host.as_str());
            message.append(" has no routes; added a default route rooted at ./www");
            warnings.push(message);
            self.routes.push(RouteConfig::default_root());
            assert(text::string_texts(warnings@) == start + seq![message@]);
        } else {
            assert(text::string_texts(warnings@) == start + Seq::<Seq<char>>::empty());
        }
        let mut routes: Vec<RouteConfig> = Vec::new();
        std::mem::swap(&mut routes, &mut self.routes);
        assert(routes_of(routes@) == before.routes_or_default());
        self.routes = arrange_routes(routes, warnings);
        assert(self@ == before.validated());
        self.routes.len() > 0
    }
}

impl Config {
    /// Drops what cannot be used, and says why.
    pub fn validate(&mut self) -> (warnings: Vec<String>)
        ensures
            final(self)@ == (ConfigView {
                servers: validated_servers(old(self)@.servers),
                ..old(self)@
            }),
            text::string_texts(warnings@) == server_warnings(old(self)@.servers),
            old(self)@.wf() ==> final(self)@.wf(),
    {
        proof {
            if self@.wf() {
                lemma_validated_servers_wf(self@.servers);
            }
        }
        let ghost all = self@.servers;
        let ghost kept = |server: ServerView| server.is_kept();
        let ghost valid = |server: ServerView| server.validated();
        let mut servers: Vec<ServerConfig> = Vec::new();
        std::mem::swap(&mut servers, &mut self.servers);
        let mut warnings: Vec<String> = Vec::new();
        proof {
            reveal(Seq::filter);
            assert(servers_of(self.servers@) == all.take(0).filter(kept).map_values(valid));
            assert(text::string_texts(warnings@) == server_warnings(all.take(0)));
        }
        for server in it: servers
            invariant
                all == servers_of(it.seq()),
                kept == (|server: ServerView| server.is_kept()),
                valid == (|server: ServerView| server.validated()),
                servers_of(self.servers@) == all.take(it.index() as int).filter(kept).map_values(
                    valid,
                ),
                text::string_texts(warnings@) == server_warnings(all.take(it.index() as int)),
                self.request_timeout == old(self).request_timeout,
                self.cgi_timeout == old(self).cgi_timeout,
        {
            let ghost done = all.take(it.index() as int);
            let ghost view = server@;
            proof {
                assert(all.take(it.index() + 1) == done.push(view));
                assert(done.push(view).drop_last() == done);
                done.lemma_filter_push(view, kept);
            }
            let mut server = server;
            if server.validate(&mut warnings) {
                let ghost before = servers_of(self.servers@);
                self.servers.push(server);
                assert(servers_of(self.servers@) == before.push(view.validated()));
                assert(done.filter(kept).push(view).map_values(valid) == done.filter(
                    kept,
                ).map_values(valid).push(view.validated()));
            }
        }
        assert(all.take(all.len() as int) == all);
        warnings
    }

    /// The configuration of a text and the warnings about it.
    pub fn parse(content: &str) -> (r: Result<(Config, Vec<String>), String>)
        ensures
            match r {
                Ok((config, warnings)) => configured(content@) matches Ok(p) && p.0 == config@
                    && p.1 == text::string_texts(warnings@),
                Err(message) => configured(content@) matches Err(m) && m == message@,
            },
            r matches Ok((config, _)) ==> config@.wf(),
    {
        let mut parser = Parser::new(tokenize(content));
        match parser.parse_config() {
            Ok(mut config) => {
                let warnings = config.validate();
                Ok((config, warnings))
            },
            Err(message) => Err(message),
        }
    }
}

} // verus!
