//! The answers to requests: routes, files, listings, redirects, uploads and deletion.
//!
//! A handler takes one step at a time. A step either ends with a result, or asks for
//! something to be done in the file system and names the state to go on from once the
//! reply is there.
use vstd::prelude::*;
use vstd::slice::*;
use vstd::string::*;
use vstd::utf8::*;

use crate::bytes;
use crate::bytes::{ends_with, find_bytes, find_header_end, leading_newline, starts_with};
use crate::config::{RouteConfig, RouteView, ServerConfig, ServerView};
use crate::config;
use crate::http;
use crate::http::{
    status_text, Method, MethodView, Request, RequestView, Response, ResponseView,
};
use crate::order;
use crate::path;
use crate::path::{
    extension_of, file_name_of, file_stem_of, is_within, join_path, join_raw, raw_extension_of,
    split_segments,
};
use crate::session::{SessionInfo, SessionView};
use crate::text;
use crate::text::{
    append_chars, append_number, chars_of, is_text, lower, same_str, sort_texts, split_at_char,
    split_lines, split_on, string_of, strip_prefix, trim, trim_matches, trim_start,
    utf8_text_lossy, Pattern,
};
use crate::util;
use crate::util::{append_escaped, content_type, sanitize_filename};

verus! {

/// The number of names that are tried for an upload before one is made from the time.
pub const MAX_NAME_ATTEMPTS: u64 = 10000;

/// The answer to a request.
#[derive(Debug)]
pub enum HandlerResult {
    Response(Response),
    /// The script to run, and the program to run it with.
    Cgi { script: Vec<u8>, interpreter: String },
}

pub enum HandlerView {
    Response(ResponseView),
    Cgi { script: Seq<u8>, interpreter: Seq<char> },
}

impl View for HandlerResult {
    type V = HandlerView;

    open spec fn view(&self) -> HandlerView {
        match self {
            HandlerResult::Response(response) => HandlerView::Response(response@),
            HandlerResult::Cgi { script, interpreter } => HandlerView::Cgi {
                script: script@,
                interpreter: interpreter@,
            },
        }
    }
}

impl From<Response> for HandlerResult {
    fn from(response: Response) -> (r: Self) {
        HandlerResult::Response(response)
    }
}

impl vstd::std_specs::convert::FromSpecImpl<Response> for HandlerResult {
    open spec fn obeys_from_spec() -> bool {
        true
    }

    open spec fn from_spec(response: Response) -> Self {
        HandlerResult::Response(response)
    }
}

/// Why something in the file system could not be done.
#[derive(Clone, Copy, Debug, PartialEq, Eq, Structural)]
pub enum IoFailure {
    NotFound,
    PermissionDenied,
    Other,
}

/// Bytes that may be absent.
pub open spec fn bytes_of(bytes: Option<Vec<u8>>) -> Option<Seq<u8>> {
    match bytes {
        Some(bytes) => Some(bytes@),
        None => None,
    }
}

/// What stands at a path.
#[derive(Debug)]
pub struct PathInfo {
    pub exists: bool,
    pub is_file: bool,
    pub is_dir: bool,
    /// The absolute path without links, where there is one.
    pub canonical: Option<Vec<u8>>,
}

pub struct InfoView {
    pub exists: bool,
    pub is_file: bool,
    pub is_dir: bool,
    pub canonical: Option<Seq<u8>>,
}

impl View for PathInfo {
    type V = InfoView;

    open spec fn view(&self) -> InfoView {
        InfoView {
            exists: self.exists,
            is_file: self.is_file,
            is_dir: self.is_dir,
            canonical: bytes_of(self.canonical),
        }
    }
}

/// One entry of a directory.
#[derive(Debug)]
pub struct DirEntry {
    pub name: String,
    pub is_dir: bool,
}

impl View for DirEntry {
    type V = (Seq<char>, bool);

    open spec fn view(&self) -> (Seq<char>, bool) {
        (self.name@, self.is_dir)
    }
}

/// Something to be done outside. A path is given by the bytes that the system knows it by.
#[derive(Debug)]
pub enum Action {
    /// Look at what stands at the path.
    Inspect(Vec<u8>),
    /// Read the file.
    Read(Vec<u8>),
    /// List the directory.
    List(Vec<u8>),
    /// Create the directory and those above it, where they do not exist.
    CreateDirs(Vec<u8>),
    /// Write the file.
    Write(Vec<u8>, Vec<u8>),
    /// Remove the file.
    Remove(Vec<u8>),
    /// Look at the clock.
    Clock,
}

pub enum ActionView {
    Inspect(Seq<u8>),
    Read(Seq<u8>),
    List(Seq<u8>),
    CreateDirs(Seq<u8>),
    Write(Seq<u8>, Seq<u8>),
    Remove(Seq<u8>),
    Clock,
}

impl View for Action {
    type V = ActionView;

    open spec fn view(&self) -> ActionView {
        match self {
            Action::Inspect(path) => ActionView::Inspect(path@),
            Action::Read(path) => ActionView::Read(path@),
            Action::List(path) => ActionView::List(path@),
            Action::CreateDirs(path) => ActionView::CreateDirs(path@),
            Action::Write(path, bytes) => ActionView::Write(path@, bytes@),
            Action::Remove(path) => ActionView::Remove(path@),
            Action::Clock => ActionView::Clock,
        }
    }
}

/// What came of an action.
#[derive(Debug)]
pub enum Reply {
    /// What stands at the path.
    Info(PathInfo),
    /// The contents of the file.
    Contents(Result<Vec<u8>, IoFailure>),
    /// The entries of the directory.
    Entries(Result<Vec<DirEntry>, IoFailure>),
    /// Whether it was done.
    Done(Result<(), IoFailure>),
    /// The time in milliseconds.
    Millis(u64),
}

pub enum ReplyView {
    Info(InfoView),
    Contents(Result<Seq<u8>, IoFailure>),
    Entries(Result<Seq<(Seq<char>, bool)>, IoFailure>),
    Done(Result<(), IoFailure>),
    Millis(u64),
}

/// The entries of a list.
pub open spec fn entries_of(list: Seq<DirEntry>) -> Seq<(Seq<char>, bool)> {
    list.map_values(|entry: DirEntry| entry@)
}

impl View for Reply {
    type V = ReplyView;

    open spec fn view(&self) -> ReplyView {
        match self {
            Reply::Info(info) => ReplyView::Info(info@),
            Reply::Contents(Ok(bytes)) => ReplyView::Contents(Ok(bytes@)),
            Reply::Contents(Err(failure)) => ReplyView::Contents(Err(*failure)),
            Reply::Entries(Ok(entries)) => ReplyView::Entries(Ok(entries_of(entries@))),
            Reply::Entries(Err(failure)) => ReplyView::Entries(Err(*failure)),
            Reply::Done(done) => ReplyView::Done(*done),
            Reply::Millis(millis) => ReplyView::Millis(*millis),
        }
    }
}

/// A file name and the bytes to store under it.
#[derive(Debug)]
pub struct Part {
    pub name: String,
    pub bytes: Vec<u8>,
}

impl View for Part {
    type V = (Seq<char>, Seq<u8>);

    open spec fn view(&self) -> (Seq<char>, Seq<u8>) {
        (self.name@, self.bytes@)
    }
}

/// The files of a list.
pub open spec fn parts_of(list: Seq<Part>) -> Seq<(Seq<char>, Seq<u8>)> {
    list.map_values(|part: Part| part@)
}

/// An upload on its way to the store.
#[derive(Debug)]
pub struct Upload {
    /// The directory to store files in.
    pub store: String,
    /// The files that are still to be stored, the next one first.
    pub left: Vec<Part>,
    /// The paths of the files that have been stored.
    pub saved: Vec<String>,
    /// The number of names that have been tried for the next file.
    pub attempt: u64,
    /// The status of the answer where a file cannot be written.
    pub failure: u16,
}

pub struct UploadView {
    pub store: Seq<char>,
    pub left: Seq<(Seq<char>, Seq<u8>)>,
    pub saved: Seq<Seq<char>>,
    pub attempt: u64,
    pub failure: u16,
}

impl View for Upload {
    type V = UploadView;

    open spec fn view(&self) -> UploadView {
        UploadView {
            store: self.store@,
            left: parts_of(self.left@),
            saved: text::string_texts(self.saved@),
            attempt: self.attempt,
            failure: self.failure,
        }
    }
}

/// What a handler goes on from once the reply is there.
#[derive(Debug)]
pub enum Pending {
    /// The root of the route is being looked at.
    Root,
    /// The target of the request is being looked at; the root has that canonical path.
    Target { target: String, root: Option<Vec<u8>> },
    /// The index file of the directory is being looked at.
    Index { directory: Vec<u8>, index: Vec<u8> },
    /// The file is being read.
    File { file: Vec<u8> },
    /// The directory is being listed.
    Listing,
    /// The page for the status is being read.
    Page { status: u16, allow: Option<String> },
    /// The file is being removed.
    Removal,
    /// The directory for uploads is being made.
    Store { store: String },
    /// The time is asked for, to name the body after it.
    RawName { store: String },
    /// A name for the next file is being looked at.
    Candidate { upload: Upload, path: String },
    /// The time is asked for, to name the next file after it.
    LastName { upload: Upload },
    /// The next file is being written.
    Saving { upload: Upload, path: String },
}

pub enum PendingView {
    Root,
    Target { target: Seq<char>, root: Option<Seq<u8>> },
    Index { directory: Seq<u8>, index: Seq<u8> },
    File { file: Seq<u8> },
    Listing,
    Page { status: u16, allow: Option<Seq<char>> },
    Removal,
    Store { store: Seq<char> },
    RawName { store: Seq<char> },
    Candidate { upload: UploadView, path: Seq<char> },
    LastName { upload: UploadView },
    Saving { upload: UploadView, path: Seq<char> },
}

impl View for Pending {
    type V = PendingView;

    open spec fn view(&self) -> PendingView {
        match self {
            Pending::Root => PendingView::Root,
            Pending::Target { target, root } => PendingView::Target {
                target: target@,
                root: bytes_of(*root),
            },
            Pending::Index { directory, index } => PendingView::Index {
                directory: directory@,
                index: index@,
            },
            Pending::File { file } => PendingView::File { file: file@ },
            Pending::Listing => PendingView::Listing,
            Pending::Page { status, allow } => PendingView::Page {
                status: *status,
                allow: config::text_of(*allow),
            },
            Pending::Removal => PendingView::Removal,
            Pending::Store { store } => PendingView::Store { store: store@ },
            Pending::RawName { store } => PendingView::RawName { store: store@ },
            Pending::Candidate { upload, path } => PendingView::Candidate {
                upload: upload@,
                path: path@,
            },
            Pending::LastName { upload } => PendingView::LastName { upload: upload@ },
            Pending::Saving { upload, path } => PendingView::Saving { upload: upload@, path: path@ },
        }
    }
}

/// One step of a handler.
#[derive(Debug)]
pub enum Step {
    Done(HandlerResult),
    Ask(Action, Pending),
}

pub enum StepView {
    Done(HandlerView),
    Ask(ActionView, PendingView),
}

impl View for Step {
    type V = StepView;

    open spec fn view(&self) -> StepView {
        match self {
            Step::Done(result) => StepView::Done(result@),
            Step::Ask(action, pending) => StepView::Ask(action@, pending@),
        }
    }
}

/// Whether a request for the path goes to the route: where the route is the root, or its
/// path is the one asked for or stands before a slash in it.
pub open spec fn route_matches(route: RouteView, path: Seq<char>) -> bool {
    ||| route.path == "/"@
    ||| route.path == path
    ||| route.path.is_prefix_of(path) && route.path.len() < path.len() && path[route.path.len() as int]
        == '/'
}

/// The index of the first route that a request for the path goes to, or the number of
/// routes where there is none.
pub open spec fn route_index(routes: Seq<RouteView>, path: Seq<char>) -> int
    decreases routes.len(),
{
    if routes.len() == 0 || route_matches(routes[0], path) {
        0
    } else {
        1 + route_index(routes.drop_first(), path)
    }
}

/// The first route that a request for the path goes to.
pub open spec fn route_for(server: ServerView, path: Seq<char>) -> Option<RouteView> {
    let i = route_index(server.routes, path);
    if i < server.routes.len() {
        Some(server.routes[i])
    } else {
        None
    }
}

/// Whether the route takes requests of the method: any, where it lists none.
pub open spec fn allows(route: RouteView, method: MethodView) -> bool {
    route.methods.len() == 0 || route.methods.contains(method)
}

/// The part of a request path behind the path of the route.
pub open spec fn remainder(route_path: Seq<char>, request_path: Seq<char>) -> Seq<char> {
    let rest = if route_path == "/"@ {
        request_path
    } else if route_path.is_prefix_of(request_path) {
        request_path.skip(route_path.len() as int)
    } else {
        seq![]
    };
    text::trimmed_start(rest, Pattern::Char('/'))
}

/// The path that is reached from `base` by way of the segments.
pub open spec fn descend(base: Seq<char>, segments: Seq<Seq<char>>) -> Seq<char>
    decreases segments.len(),
{
    if segments.len() == 0 {
        base
    } else {
        path::joined(descend(base, segments.drop_last()), segments.last())
    }
}

/// The path below the root that a request path stands for, or the status of the answer
/// where it leads upwards.
pub open spec fn file_path(root: Seq<char>, route_path: Seq<char>, request_path: Seq<char>) -> Result<
    Seq<char>,
    u16,
> {
    let segments = path::segments(remainder(route_path, request_path));
    if segments.contains(".."@) {
        Err(403)
    } else {
        Ok(descend(root, segments))
    }
}

/// The canonical path of what stands at the target, or the status of the answer where it
/// stands outside the root.
pub open spec fn protected(target: Seq<char>, info: InfoView, root: Option<Seq<u8>>) -> Result<
    Seq<u8>,
    u16,
> {
    if !info.exists {
        Ok(encode_utf8(target))
    } else {
        match (root, info.canonical) {
            (Some(root), Some(canonical)) => if path::raw_within(canonical, root) {
                Ok(canonical)
            } else {
                Err(403)
            },
            _ => Err(404),
        }
    }
}

/// The program that runs scripts with the extension of the path.
pub open spec fn interpreter_for(route: RouteView, path: Seq<u8>) -> Option<Seq<char>> {
    match path::raw_extension(path) {
        Some(extension) => http::field_value(route.cgi, "."@ + extension),
        None => None,
    }
}

/// The answer to a request that failed, with the contents of the page configured for the
/// status, where they could be read.
pub open spec fn error_view(status: u16, server: ServerView, page: Option<Seq<u8>>) -> ResponseView {
    match page {
        Some(bytes) if server.error_pages.contains_key(status) => ResponseView::new(
            status,
            bytes,
        ).with(
            "Content-Type"@,
            util::media_type(path::raw_extension(encode_utf8(server.error_pages[status]))),
        ),
        _ => ResponseView::html(
            status,
            "<!doctype html><html><head><meta charset=\"utf-8\"><title>"@ + text::decimal(
                status as nat,
            ) + " "@ + http::reason(status) + "</title></head><body><h1>"@ + text::decimal(
                status as nat,
            ) + " "@ + http::reason(status) + "</h1></body></html>"@,
        ),
    }
}

/// The answer with the header `Allow`, where there is a value for it.
pub open spec fn with_allow(response: ResponseView, allow: Option<Seq<char>>) -> ResponseView {
    match allow {
        Some(methods) => response.with("Allow"@, methods),
        None => response,
    }
}

/// A result that is a response.
pub open spec fn done(response: ResponseView) -> StepView {
    StepView::Done(HandlerView::Response(response))
}

/// The step to a failure: to read the page for the status, where there is one.
pub open spec fn failed(status: u16, server: ServerView, allow: Option<Seq<char>>) -> StepView {
    if server.error_pages.contains_key(status) {
        StepView::Ask(
            ActionView::Read(encode_utf8(server.error_pages[status])),
            PendingView::Page { status, allow },
        )
    } else {
        done(with_allow(error_view(status, server, None), allow))
    }
}

pub open spec fn redirect_view(status: u16, location: Seq<char>) -> ResponseView {
    ResponseView::html(
        status,
        "<!doctype html><title>"@ + http::reason(status) + "</title><h1>"@ + http::reason(status)
            + "</h1><p>Redirecting to <a href=\""@ + util::escaped(location) + "\">"@
            + util::escaped(location) + "</a>.</p>"@,
    ).with("Location"@, location)
}

pub open spec fn session_page(session: SessionView) -> ResponseView {
    ResponseView::html(
        200,
        "<!doctype html><html><body><h1>Session</h1><p>id: "@ + util::escaped(session.id)
            + "</p><p>visits: "@ + text::decimal(session.visits as nat) + "</p></body></html>"@,
    )
}

/// The first step of the answer to a request.
pub open spec fn started(request: RequestView, server: ServerView, session: SessionView) -> StepView {
    if request.body.len() > server.client_max_body_size {
        failed(413, server, None)
    } else if request.path == "/session"@ {
        done(session_page(session))
    } else {
        match route_for(server, request.path) {
            None => failed(404, server, None),
            Some(route) => if !allows(route, request.method) {
                failed(405, server, Some(route.allowed()))
            } else {
                match route.redirect {
                    Some(redirect) => done(redirect_view(redirect.0, redirect.1)),
                    None => if request.method is Other {
                        failed(405, server, Some(route.allowed()))
                    } else {
                        match route.root {
                            Some(root) => StepView::Ask(
                                ActionView::Inspect(encode_utf8(root)),
                                PendingView::Root,
                            ),
                            None => failed(404, server, None),
                        }
                    },
                }
            },
        }
    }
}

/// The step after the root of the route was looked at.
pub open spec fn after_root(request: RequestView, server: ServerView, info: InfoView) -> StepView {
    match route_for(server, request.path) {
        Some(route) => match route.root {
            Some(root) => {
                let target = if info.is_file {
                    Ok(root)
                } else {
                    file_path(root, route.path, request.path)
                };
                match target {
                    Ok(target) => StepView::Ask(
                        ActionView::Inspect(encode_utf8(target)),
                        PendingView::Target { target, root: info.canonical },
                    ),
                    Err(status) => failed(status, server, None),
                }
            },
            None => failed(404, server, None),
        },
        None => failed(404, server, None),
    }
}

/// The step to serve a directory without an index file.
pub open spec fn list_step(route: RouteView, server: ServerView, directory: Seq<u8>) -> StepView {
    if route.directory_listing {
        StepView::Ask(ActionView::List(directory), PendingView::Listing)
    } else {
        failed(403, server, None)
    }
}

/// The step to serve a directory: to look at its index file, where one is configured.
pub open spec fn directory_step(
    route: RouteView,
    server: ServerView,
    directory: Seq<u8>,
) -> StepView {
    match route.index {
        Some(index) => {
            let index = path::raw_joined(directory, encode_utf8(index));
            StepView::Ask(ActionView::Inspect(index), PendingView::Index { directory, index })
        },
        None => list_step(route, server, directory),
    }
}

/// The step after the target of a `GET` request was looked at.
pub open spec fn get_target(
    route: RouteView,
    server: ServerView,
    target: Seq<char>,
    info: InfoView,
    root: Option<Seq<u8>>,
) -> StepView {
    match protected(target, info, root) {
        Err(status) => failed(status, server, None),
        Ok(path) => if info.is_dir {
            directory_step(route, server, path)
        } else if !info.exists {
            failed(404, server, None)
        } else if !info.is_file {
            failed(403, server, None)
        } else {
            match interpreter_for(route, path) {
                Some(interpreter) => StepView::Done(
                    HandlerView::Cgi { script: path, interpreter },
                ),
                None => StepView::Ask(ActionView::Read(path), PendingView::File { file: path }),
            }
        },
    }
}

/// The step of a `POST` request that runs no script.
pub open spec fn post_body(request: RequestView, route: RouteView) -> StepView {
    match route.upload_store {
        Some(store) => StepView::Ask(
            ActionView::CreateDirs(encode_utf8(store)),
            PendingView::Store { store },
        ),
        None => done(
            ResponseView::text(
                200,
                "received "@ + text::decimal(request.body.len()) + " bytes\n"@,
            ).with("Cache-Control"@, "no-store"@),
        ),
    }
}

/// The step after the target of a `POST` request was looked at.
pub open spec fn post_target(
    request: RequestView,
    route: RouteView,
    server: ServerView,
    target: Seq<char>,
    info: InfoView,
    root: Option<Seq<u8>>,
) -> StepView {
    if info.exists {
        match protected(target, info, root) {
            Err(status) => failed(status, server, None),
            Ok(path) => match interpreter_for(route, path) {
                Some(interpreter) => StepView::Done(
                    HandlerView::Cgi { script: path, interpreter },
                ),
                None => post_body(request, route),
            },
        }
    } else {
        post_body(request, route)
    }
}

/// The step after the target of a `DELETE` request was looked at.
pub open spec fn delete_target(
    server: ServerView,
    target: Seq<char>,
    info: InfoView,
    root: Option<Seq<u8>>,
) -> StepView {
    match protected(target, info, root) {
        Err(status) => failed(status, server, None),
        Ok(path) => if !info.exists {
            failed(404, server, None)
        } else if info.is_dir {
            failed(403, server, None)
        } else {
            StepView::Ask(ActionView::Remove(path), PendingView::Removal)
        },
    }
}

/// The step after the target of a request was looked at.
pub open spec fn after_target(
    request: RequestView,
    server: ServerView,
    target: Seq<char>,
    info: InfoView,
    root: Option<Seq<u8>>,
) -> StepView {
    match route_for(server, request.path) {
        Some(route) => match request.method {
            MethodView::Get => get_target(route, server, target, info, root),
            MethodView::Post => post_target(request, route, server, target, info, root),
            MethodView::Delete => delete_target(server, target, info, root),
            MethodView::Other(_) => failed(405, server, Some(route.allowed())),
        },
        None => failed(404, server, None),
    }
}

/// The status of the answer where a file cannot be read or removed.
pub open spec fn failure_status(failure: IoFailure) -> u16 {
    match failure {
        IoFailure::PermissionDenied => 403,
        IoFailure::NotFound => 404,
        IoFailure::Other => 500,
    }
}

/// The name of an entry as it is shown, with a slash behind that of a directory.
pub open spec fn shown_name(entry: (Seq<char>, bool)) -> Seq<char> {
    if entry.1 {
        entry.0 + "/"@
    } else {
        entry.0
    }
}

/// The items of a list with a link for each name.
pub open spec fn link_items(names: Seq<Seq<char>>) -> Seq<char>
    decreases names.len(),
{
    if names.len() == 0 {
        seq![]
    } else {
        link_items(names.drop_last()) + "<li><a href=\""@ + util::escaped(names.last()) + "\">"@
            + util::escaped(names.last()) + "</a></li>"@
    }
}

/// The page that lists the entries of a directory in order.
pub open spec fn listing_page(path: Seq<char>, entries: Seq<(Seq<char>, bool)>) -> ResponseView {
    let names = order::stable_sort(
        entries.map_values(|entry: (Seq<char>, bool)| shown_name(entry)),
        text::text_order(),
    );
    ResponseView::html(
        200,
        "<!doctype html><html><head><meta charset=\"utf-8\"><title>Directory listing</title></head><body>"@
            + "<h1>Index of "@ + util::escaped(path) + "</h1><ul>"@ + (if path != "/"@ {
            "<li><a href=\"../\">../</a></li>"@
        } else {
            Seq::empty()
        }) + link_items(names) + "</ul></body></html>"@,
    )
}

/// What follows the key in a part of a header value, without the quotes around it.
pub open spec fn attribute(part: Seq<char>, key: Seq<char>) -> Option<Seq<char>> {
    let part = text::trimmed(part);
    if key.is_prefix_of(part) {
        Some(text::trimmed_matches(part.skip(key.len() as int), Pattern::Char('"')))
    } else {
        None
    }
}

/// What follows the key in the first part that starts with it.
pub open spec fn first_attribute(parts: Seq<Seq<char>>, key: Seq<char>) -> Option<Seq<char>>
    decreases parts.len(),
{
    if parts.len() == 0 {
        None
    } else {
        match attribute(parts[0], key) {
            Some(value) => Some(value),
            None => first_attribute(parts.drop_first(), key),
        }
    }
}

/// The boundary that a header `Content-Type` gives.
pub open spec fn boundary_of(content_type: Seq<char>) -> Option<Seq<char>> {
    first_attribute(text::split(content_type, Pattern::Char(';')), "boundary="@)
}

/// The file name that a header line of a part gives.
pub open spec fn line_file_name(line: Seq<char>) -> Option<Seq<char>> {
    match text::split_once(line, ':') {
        Some(parts) => if text::lowered(text::trimmed(parts.0)) == "content-disposition"@ {
            first_attribute(text::split(parts.1, Pattern::Char(';')), "filename="@)
        } else {
            None
        },
        None => None,
    }
}

/// The first file name that the header lines of a part give.
pub open spec fn first_file_name(lines: Seq<Seq<char>>) -> Option<Seq<char>>
    decreases lines.len(),
{
    if lines.len() == 0 {
        None
    } else {
        match line_file_name(lines[0]) {
            Some(name) => Some(name),
            None => first_file_name(lines.drop_first()),
        }
    }
}

/// The name to store a part under, given its header block.
pub open spec fn part_name(block: Seq<u8>) -> Option<Seq<char>> {
    match first_file_name(text::lines(text::lossy_utf8(block))) {
        Some(name) => util::safe_file_name(name),
        None => None,
    }
}

/// The bytes without the line ending that may stand at their end.
pub open spec fn without_newline(s: Seq<u8>) -> Seq<u8> {
    if bytes::crlf().is_suffix_of(s) {
        s.take(s.len() - 2)
    } else if bytes::lf().is_suffix_of(s) {
        s.take(s.len() - 1)
    } else {
        s
    }
}

/// The files of a multipart body, in order. Each part starts after a marker with its
/// header block, and ends before the next marker; a marker with two dashes behind it is
/// the last one. A part without a usable file name is left out.
pub open spec fn multipart_files(s: Seq<u8>, marker: Seq<u8>) -> Seq<(Seq<char>, Seq<u8>)>
    decreases s.len(),
    via multipart_files_decreases
{
    match bytes::first_occurrence(s, marker) {
        None => seq![],
        Some(i) => {
            let after = s.skip(i + marker.len());
            let rest = after.skip(bytes::newline_len(after));
            match bytes::header_end(rest) {
                Some(end) if !bytes::occurs_at(after, dashes(), 0) => {
                    let content = rest.skip(end.0 + end.1);
                    let length = match bytes::first_occurrence(content, marker) {
                        Some(n) => n,
                        None => content.len() as int,
                    };
                    let more = multipart_files(content.skip(length), marker);
                    match part_name(rest.take(end.0)) {
                        Some(name) => seq![(name, without_newline(content.take(length)))] + more,
                        None => more,
                    }
                },
                _ => seq![],
            }
        },
    }
}

/// Two dashes.
pub open spec fn dashes() -> Seq<u8> {
    seq![45u8, 45u8]
}

#[via_fn]
proof fn multipart_files_decreases(s: Seq<u8>, marker: Seq<u8>) {
    bytes::lemma_first_occurrence(s, marker);
    if let Some(i) = bytes::first_occurrence(s, marker) {
        let after = s.skip(i + marker.len());
        let rest = after.skip(bytes::newline_len(after));
        bytes::lemma_header_end(rest);
        if let Some(end) = bytes::header_end(rest) {
            bytes::lemma_first_occurrence(rest.skip(end.0 + end.1), marker);
        }
    }
}

/// The name of a file that is named after the time.
pub open spec fn timed_name(millis: u64) -> Seq<char> {
    "upload-"@ + text::decimal(millis as nat) + ".bin"@
}

/// The name that is tried for an upload after `attempt` others.
pub open spec fn candidate_name(name: Seq<char>, attempt: u64) -> Seq<char> {
    if attempt == 0 {
        name
    } else {
        let stem = match path::file_stem(name) {
            Some(stem) => stem,
            None => "upload"@,
        };
        let numbered = stem + "-"@ + text::decimal(attempt as nat);
        match path::extension(name) {
            Some(extension) => numbered + "."@ + extension,
            None => numbered,
        }
    }
}

/// The items of a list with the file names of the paths.
pub open spec fn name_items(paths: Seq<Seq<char>>) -> Seq<char>
    decreases paths.len(),
{
    if paths.len() == 0 {
        seq![]
    } else {
        let name = match path::file_name(paths.last()) {
            Some(name) => name,
            None => "upload"@,
        };
        name_items(paths.drop_last()) + "<li>"@ + util::escaped(name) + "</li>"@
    }
}

/// The page that names the files of an upload.
pub open spec fn uploaded_page(paths: Seq<Seq<char>>) -> ResponseView {
    ResponseView::html(
        201,
        "<!doctype html><html><body><h1>Uploaded</h1><ul>"@ + name_items(paths)
            + "</ul></body></html>"@,
    )
}

/// The step to the next file of an upload: to look at a name for it.
pub open spec fn next_file(upload: UploadView) -> StepView {
    if upload.left.len() == 0 {
        done(uploaded_page(upload.saved))
    } else if upload.attempt < MAX_NAME_ATTEMPTS {
        let path = path::joined(upload.store, candidate_name(upload.left[0].0, upload.attempt));
        StepView::Ask(
            ActionView::Inspect(encode_utf8(path)),
            PendingView::Candidate { upload, path },
        )
    } else {
        StepView::Ask(ActionView::Clock, PendingView::LastName { upload })
    }
}

/// The step to write the next file of an upload.
pub open spec fn write_file(upload: UploadView, path: Seq<char>) -> StepView {
    if upload.left.len() == 0 {
        done(uploaded_page(upload.saved))
    } else {
        StepView::Ask(
            ActionView::Write(encode_utf8(path), upload.left[0].1),
            PendingView::Saving {
                upload: UploadView { left: upload.left.drop_first(), ..upload },
                path,
            },
        )
    }
}

/// The step after a name for the next file was looked at.
pub open spec fn after_candidate(upload: UploadView, path: Seq<char>, info: InfoView) -> StepView {
    if !info.exists {
        write_file(upload, path)
    } else if upload.attempt < MAX_NAME_ATTEMPTS {
        next_file(UploadView { attempt: (upload.attempt + 1) as u64, ..upload })
    } else {
        next_file(upload)
    }
}

/// The step after a file was written.
pub open spec fn after_save(
    server: ServerView,
    upload: UploadView,
    path: Seq<char>,
    written: Result<(), IoFailure>,
) -> StepView {
    match written {
        Ok(_) => next_file(
            UploadView { saved: upload.saved.push(path), attempt: 0, ..upload },
        ),
        Err(_) => failed(upload.failure, server, None),
    }
}

/// The first step of the upload of a body under one name.
pub open spec fn raw_upload(request: RequestView, store: Seq<char>, name: Seq<char>) -> StepView {
    next_file(
        UploadView {
            store,
            left: seq![(name, request.body)],
            saved: seq![],
            attempt: 0,
            failure: 500,
        },
    )
}

/// The name that a request gives for its body.
pub open spec fn requested_name(request: RequestView) -> Option<Seq<char>> {
    match request.header("x-filename"@) {
        Some(name) => util::safe_file_name(name),
        None => None,
    }
}

/// The boundary of the body of a request, where it is a multipart one.
pub open spec fn request_boundary(request: RequestView) -> Option<Seq<char>> {
    match request.header("content-type"@) {
        Some(value) => boundary_of(value),
        None => None,
    }
}

/// The step after the directory for uploads was made.
pub open spec fn after_store(
    request: RequestView,
    server: ServerView,
    store: Seq<char>,
    made: Result<(), IoFailure>,
) -> StepView {
    match made {
        Err(_) => failed(500, server, None),
        Ok(_) => match request_boundary(request) {
            Some(boundary) => {
                let files = multipart_files(request.body, encode_utf8("--"@ + boundary));
                if files.len() == 0 {
                    done(ResponseView::text(400, "multipart request did not contain files\n"@))
                } else {
                    next_file(
                        UploadView { store, left: files, saved: seq![], attempt: 0, failure: 400 },
                    )
                }
            },
            None => match requested_name(request) {
                Some(name) => raw_upload(request, store, name),
                None => StepView::Ask(ActionView::Clock, PendingView::RawName { store }),
            },
        },
    }
}

/// The step after the index file of a directory was looked at.
pub open spec fn after_index(
    request: RequestView,
    server: ServerView,
    directory: Seq<u8>,
    index: Seq<u8>,
    info: InfoView,
) -> StepView {
    if info.is_file {
        StepView::Ask(ActionView::Read(index), PendingView::File { file: index })
    } else {
        match route_for(server, request.path) {
            Some(route) => list_step(route, server, directory),
            None => failed(404, server, None),
        }
    }
}

/// The step after a file was read.
pub open spec fn after_read(
    server: ServerView,
    path: Seq<u8>,
    contents: Result<Seq<u8>, IoFailure>,
) -> StepView {
    match contents {
        Ok(bytes) => done(
            ResponseView::new(200, bytes).with(
                "Content-Type"@,
                util::media_type(path::raw_extension(path)),
            ),
        ),
        Err(failure) => failed(failure_status(failure), server, None),
    }
}

/// The step after a directory was listed.
pub open spec fn after_list(
    request: RequestView,
    server: ServerView,
    entries: Result<Seq<(Seq<char>, bool)>, IoFailure>,
) -> StepView {
    match entries {
        Ok(entries) => done(listing_page(request.path, entries)),
        Err(IoFailure::PermissionDenied) => failed(403, server, None),
        Err(_) => failed(500, server, None),
    }
}

/// The step after the page for a status was read.
pub open spec fn after_page(
    server: ServerView,
    status: u16,
    allow: Option<Seq<char>>,
    contents: Result<Seq<u8>, IoFailure>,
) -> StepView {
    let page = match contents {
        Ok(bytes) => Some(bytes),
        Err(_) => None,
    };
    done(with_allow(error_view(status, server, page), allow))
}

/// The step after a file was removed.
pub open spec fn after_removal(server: ServerView, removed: Result<(), IoFailure>) -> StepView {
    match removed {
        Ok(_) => done(ResponseView::new(204, seq![])),
        Err(failure) => failed(failure_status(failure), server, None),
    }
}

/// The step after a reply. A reply that does not answer what was asked is a failure.
pub open spec fn resumed(
    request: RequestView,
    server: ServerView,
    pending: PendingView,
    reply: ReplyView,
) -> StepView {
    match (pending, reply) {
        (PendingView::Root, ReplyView::Info(info)) => after_root(request, server, info),
        (PendingView::Target { target, root }, ReplyView::Info(info)) => after_target(
            request,
            server,
            target,
            info,
            root,
        ),
        (PendingView::Index { directory, index }, ReplyView::Info(info)) => after_index(
            request,
            server,
            directory,
            index,
            info,
        ),
        (PendingView::File { file }, ReplyView::Contents(contents)) => after_read(
            server,
            file,
            contents,
        ),
        (PendingView::Listing, ReplyView::Entries(entries)) => after_list(request, server, entries),
        (PendingView::Page { status, allow }, ReplyView::Contents(contents)) => after_page(
            server,
            status,
            allow,
            contents,
        ),
        (PendingView::Removal, ReplyView::Done(removed)) => after_removal(server, removed),
        (PendingView::Store { store }, ReplyView::Done(made)) => after_store(
            request,
            server,
            store,
            made,
        ),
        (PendingView::RawName { store }, ReplyView::Millis(millis)) => raw_upload(
            request,
            store,
            timed_name(millis),
        ),
        (PendingView::Candidate { upload, path }, ReplyView::Info(info)) => after_candidate(
            upload,
            path,
            info,
        ),
        (PendingView::LastName { upload }, ReplyView::Millis(millis)) => write_file(
            upload,
            path::joined(upload.store, timed_name(millis)),
        ),
        (PendingView::Saving { upload, path }, ReplyView::Done(written)) => after_save(
            server,
            upload,
            path,
            written,
        ),
        _ => failed(500, server, None),
    }
}

proof fn lemma_route_index_is(routes: Seq<RouteView>, path: Seq<char>, i: int)
    requires
        0 <= i <= routes.len(),
        forall|j: int| 0 <= j < i ==> !route_matches(#[trigger] routes[j], path),
        i < routes.len() ==> route_matches(routes[i], path),
    ensures
        route_index(routes, path) == i,
    decreases routes.len(),
{
    if i > 0 {
        assert(!route_matches(routes[0], path));
        let rest = routes.drop_first();
        assert forall|j: int| 0 <= j < i - 1 implies !route_matches(#[trigger] rest[j], path) by {
            assert(rest[j] == routes[j + 1]);
        }
        lemma_route_index_is(rest, path, i - 1);
    }
}

fn takes(route: &RouteConfig, request_path: &str) -> (b: bool)
    ensures
        b == route_matches(route@, request_path@),
{
    if same_str(route.path.as_str(), "/") {
        return true;
    }
    let chars = chars_of(request_path);
    match strip_prefix(chars.as_slice(), route.path.as_str()) {
        Some(rest) => {
            if rest.len() == 0 {
                assert(route.path@ == request_path@);
                true
            } else {
                assert(rest@[0] == request_path@[route.path@.len() as int]);
                rest[0] == '/'
            }
        },
        None => {
            assert(route.path@ == request_path@ ==> route.path@.is_prefix_of(request_path@));
            false
        },
    }
}

/// The first route that a request for the path goes to.
pub fn find_route<'a>(server: &'a ServerConfig, request_path: &str) -> (r: Option<&'a RouteConfig>)
    ensures
        match r {
            Some(route) => route_for(server@, request_path@) == Some(route@),
            None => route_for(server@, request_path@) is None,
        },
{
    let ghost routes = server@.routes;
    for i in 0..server.routes.len()
        invariant
            routes == server@.routes,
            forall|j: int| 0 <= j < i ==> !route_matches(#[trigger] routes[j], request_path@),
    {
        assert(routes[i as int] == server.routes@[i as int]@);
        if takes(&server.routes[i], request_path) {
            proof {
                lemma_route_index_is(routes, request_path@, i as int);
            }
            return Some(&server.routes[i]);
        }
    }
    proof {
        lemma_route_index_is(routes, request_path@, routes.len() as int);
    }
    None
}

/// Whether the route takes requests of the method.
pub fn method_allowed(route: &RouteConfig, method: &Method) -> (b: bool)
    ensures
        b == allows(route@, method@),
{
    if route.methods.len() == 0 {
        return true;
    }
    let ghost methods = route@.methods;
    for i in 0..route.methods.len()
        invariant
            methods == route@.methods,
            forall|j: int| 0 <= j < i ==> #[trigger] methods[j] != method@,
    {
        assert(methods[i as int] == route.methods@[i as int]@);
        if route.methods[i].same(method) {
            return true;
        }
    }
    assert(!methods.contains(method@));
    false
}

/// The path below the root that a request path stands for, or the status of the answer
/// where it leads upwards.
pub fn route_file_path(root: &str, route_path: &str, request_path: &str) -> (r: Result<String, u16>)
    ensures
        match r {
            Ok(target) => file_path(root@, route_path@, request_path@) == Ok::<Seq<char>, u16>(
                target@,
            ),
            Err(status) => file_path(root@, route_path@, request_path@) == Err::<Seq<char>, u16>(
                status,
            ),
        },
{
    let chars = chars_of(request_path);
    let rest = if same_str(route_path, "/") {
        chars.as_slice()
    } else {
        match strip_prefix(chars.as_slice(), route_path) {
            Some(rest) => rest,
            None => slice_subrange(chars.as_slice(), 0, 0),
        }
    };
    let rest = trim_start(rest, Pattern::Char('/'));
    assert(rest@ == remainder(route_path@, request_path@));
    let parts = split_segments(rest);
    let ghost segments = text::texts(parts@);
    let mut target = root.to_owned();
    for i in 0..parts.len()
        invariant
            segments == text::texts(parts@),
            segments == path::segments(remainder(route_path@, request_path@)),
            target@ == descend(root@, segments.take(i as int)),
            forall|j: int| 0 <= j < i ==> #[trigger] segments[j] != ".."@,
    {
        assert(segments[i as int] == parts@[i as int]@);
        if is_text(parts[i], "..") {
            return Err(403);
        }
        assert(segments.take(i + 1).drop_last() == segments.take(i as int));
        target = join_path(target.as_str(), parts[i]);
    }
    assert(segments.take(segments.len() as int) == segments);
    Ok(target)
}

/// The bytes that the system knows a path by.
fn raw_path(path: &str) -> (r: Vec<u8>)
    ensures
        r@ == encode_utf8(path@),
{
    slice_to_vec(path.as_bytes())
}

/// The canonical path of what stands at the target, or the status of the answer where it
/// stands outside the root.
pub fn protect_existing_path(target: &str, info: &PathInfo, root: &Option<Vec<u8>>) -> (r: Result<
    Vec<u8>,
    u16,
>)
    ensures
        match r {
            Ok(path) => protected(target@, info@, bytes_of(*root)) == Ok::<Seq<u8>, u16>(path@),
            Err(status) => protected(target@, info@, bytes_of(*root)) == Err::<Seq<u8>, u16>(
                status,
            ),
        },
{
    if !info.exists {
        return Ok(raw_path(target));
    }
    match (root, &info.canonical) {
        (Some(root), Some(canonical)) => if is_within(canonical.as_slice(), root.as_slice()) {
            Ok(slice_to_vec(canonical.as_slice()))
        } else {
            Err(403)
        },
        _ => Err(404),
    }
}

/// The program that runs scripts with the extension of the path.
pub fn cgi_interpreter(route: &RouteConfig, path: &[u8]) -> (r: Option<String>)
    ensures
        config::text_of(r) == interpreter_for(route@, path@),
{
    match raw_extension_of(path) {
        Some(extension) => {
            let mut key = ".".to_owned();
            append_chars(&mut key, extension.as_slice());
            let ghost entries = route@.cgi;
            for i in 0..route.cgi.len()
                invariant
                    entries == route@.cgi,
                    key@ == "."@ + extension@,
                    path::raw_extension(path@) == Some(extension@),
                    forall|j: int| 0 <= j < i ==> (#[trigger] entries[j]).0 != key@,
            {
                assert(entries[i as int] == (route.cgi@[i as int].0@, route.cgi@[i as int].1@));
                if same_str(route.cgi[i].0.as_str(), key.as_str()) {
                    proof {
                        http::lemma_field_index_is(entries, key@, i as int);
                    }
                    return Some(route.cgi[i].1.clone());
                }
            }
            proof {
                http::lemma_field_index_is(entries, key@, entries.len() as int);
            }
            None
        },
        None => None,
    }
}

/// The page configured for the status.
pub fn error_page(status: u16, server: &ServerConfig) -> (r: Option<String>)
    ensures
        match r {
            Some(page) => server@.error_pages.contains_key(status)
                && server@.error_pages[status] == page@,
            None => !server@.error_pages.contains_key(status),
        },
{
    match server.error_pages.get(&status) {
        Some(page) => Some(page.clone()),
        None => None,
    }
}

/// The answer to a request that failed, with the contents of the page configured for the
/// status, where they could be read.
pub fn error_response(status: u16, server: &ServerConfig, page: Option<Vec<u8>>) -> (r: Response)
    ensures
        r@ == error_view(
            status,
            server@,
            match page {
                Some(bytes) => Some(bytes@),
                None => None,
            },
        ),
{
    match (page, error_page(status, server)) {
        (Some(bytes), Some(path)) => {
            let mut response = Response::new(status, bytes);
            response.set_header("Content-Type", content_type(path.as_str().as_bytes()));
            response
        },
        _ => {
            let mut body =
                "<!doctype html><html><head><meta charset=\"utf-8\"><title>".to_owned();
            append_number(&mut body, status as u64, 10);
            body.append(" ");
            body.append(status_text(status));
            body.append("</title></head><body><h1>");
            append_number(&mut body, status as u64, 10);
            body.append(" ");
            body.append(status_text(status));
            body.append("</h1></body></html>");
            Response::html(status, body.as_str())
        },
    }
}

fn allow_response(response: Response, allow: &Option<String>) -> (r: Response)
    ensures
        r@ == with_allow(response@, config::text_of(*allow)),
{
    let mut response = response;
    match allow {
        Some(methods) => {
            response.set_header("Allow", methods.as_str());
        },
        None => {},
    }
    response
}

/// The step to a failure.
fn fail(status: u16, server: &ServerConfig, allow: Option<String>) -> (step: Step)
    ensures
        step@ == failed(status, server@, config::text_of(allow)),
{
    match error_page(status, server) {
        Some(page) => Step::Ask(
            Action::Read(raw_path(page.as_str())),
            Pending::Page { status, allow },
        ),
        None => Step::Done(
            HandlerResult::Response(allow_response(error_response(status, server, None), &allow)),
        ),
    }
}

fn redirect_response(status: u16, location: &str) -> (r: Response)
    ensures
        r@ == redirect_view(status, location@),
{
    let mut body = "<!doctype html><title>".to_owned();
    body.append(status_text(status));
    body.append("</title><h1>");
    body.append(status_text(status));
    body.append("</h1><p>Redirecting to <a href=\"");
    append_escaped(&mut body, location);
    body.append("\">");
    append_escaped(&mut body, location);
    body.append("</a>.</p>");
    let mut response = Response::html(status, body.as_str());
    response.set_header("Location", location);
    response
}

fn session_response(session: &SessionInfo) -> (r: Response)
    ensures
        r@ == session_page(session@),
{
    let mut body = "<!doctype html><html><body><h1>Session</h1><p>id: ".to_owned();
    append_escaped(&mut body, session.id.as_str());
    body.append("</p><p>visits: ");
    append_number(&mut body, session.visits, 10);
    body.append("</p></body></html>");
    Response::html(200, body.as_str())
}

/// The first step of the answer to a request.
pub fn handle_request(request: &Request, server: &ServerConfig, session: &SessionInfo) -> (step: Step)
    ensures
        step@ == started(request@, server@, session@),
{
    if request.body.len() > server.client_max_body_size {
        return fail(413, server, None);
    }
    if same_str(request.path.as_str(), "/session") {
        return Step::Done(HandlerResult::Response(session_response(session)));
    }
    let route = match find_route(server, request.path.as_str()) {
        Some(route) => route,
        None => {
            return fail(404, server, None);
        },
    };
    if !method_allowed(route, &request.method) {
        return fail(405, server, Some(route.allowed_methods_header()));
    }
    match &route.redirect {
        Some(redirect) => {
            return Step::Done(
                HandlerResult::Response(
                    redirect_response(redirect.status, redirect.location.as_str()),
                ),
            );
        },
        None => {},
    }
    match &request.method {
        Method::Other(_) => fail(405, server, Some(route.allowed_methods_header())),
        _ => match &route.root {
            Some(root) => Step::Ask(Action::Inspect(raw_path(root.as_str())), Pending::Root),
            None => fail(404, server, None),
        },
    }
}

/// The step after the root of the route was looked at.
fn resume_root(request: &Request, server: &ServerConfig, info: PathInfo) -> (step: Step)
    ensures
        step@ == after_root(request@, server@, info@),
{
    let route = match find_route(server, request.path.as_str()) {
        Some(route) => route,
        None => {
            return fail(404, server, None);
        },
    };
    let root = match &route.root {
        Some(root) => root,
        None => {
            return fail(404, server, None);
        },
    };
    let target = if info.is_file {
        Ok(root.clone())
    } else {
        route_file_path(root.as_str(), route.path.as_str(), request.path.as_str())
    };
    match target {
        Ok(target) => Step::Ask(
            Action::Inspect(raw_path(target.as_str())),
            Pending::Target { target, root: info.canonical },
        ),
        Err(status) => fail(status, server, None),
    }
}

/// The step to serve a directory without an index file.
fn list_directory(route: &RouteConfig, server: &ServerConfig, directory: Vec<u8>) -> (step: Step)
    ensures
        step@ == list_step(route@, server@, directory@),
{
    if route.directory_listing {
        Step::Ask(Action::List(directory), Pending::Listing)
    } else {
        fail(403, server, None)
    }
}

/// The step to serve a directory.
fn handle_directory_get(route: &RouteConfig, server: &ServerConfig, directory: Vec<u8>) -> (step:
    Step)
    ensures
        step@ == directory_step(route@, server@, directory@),
{
    match &route.index {
        Some(index) => {
            let index = join_raw(directory.as_slice(), index.as_str().as_bytes());
            Step::Ask(
                Action::Inspect(slice_to_vec(index.as_slice())),
                Pending::Index { directory, index },
            )
        },
        None => list_directory(route, server, directory),
    }
}

/// The step after the target of a `GET` request was looked at.
fn handle_get(
    route: &RouteConfig,
    server: &ServerConfig,
    target: String,
    info: &PathInfo,
    root: &Option<Vec<u8>>,
) -> (step: Step)
    ensures
        step@ == get_target(route@, server@, target@, info@, bytes_of(*root)),
{
    let path = match protect_existing_path(target.as_str(), info, root) {
        Ok(path) => path,
        Err(status) => {
            return fail(status, server, None);
        },
    };
    if info.is_dir {
        return handle_directory_get(route, server, path);
    }
    if !info.exists {
        return fail(404, server, None);
    }
    if !info.is_file {
        return fail(403, server, None);
    }
    match cgi_interpreter(route, path.as_slice()) {
        Some(interpreter) => Step::Done(HandlerResult::Cgi { script: path, interpreter }),
        None => Step::Ask(Action::Read(slice_to_vec(path.as_slice())), Pending::File { file: path }),
    }
}

/// The step of a `POST` request that runs no script.
fn receive_body(request: &Request, route: &RouteConfig) -> (step: Step)
    ensures
        step@ == post_body(request@, route@),
{
    match &route.upload_store {
        Some(store) => Step::Ask(
            Action::CreateDirs(raw_path(store.as_str())),
            Pending::Store { store: store.clone() },
        ),
        None => {
            let mut body = "received ".to_owned();
            append_number(&mut body, request.body.len() as u64, 10);
            body.append(" bytes\n");
            let mut response = Response::text(200, body.as_str());
            response.set_header("Cache-Control", "no-store");
            Step::Done(HandlerResult::Response(response))
        },
    }
}

/// The step after the target of a `POST` request was looked at.
fn handle_post(
    request: &Request,
    route: &RouteConfig,
    server: &ServerConfig,
    target: String,
    info: &PathInfo,
    root: &Option<Vec<u8>>,
) -> (step: Step)
    ensures
        step@ == post_target(request@, route@, server@, target@, info@, bytes_of(*root)),
{
    if info.exists {
        match protect_existing_path(target.as_str(), info, root) {
            Ok(path) => match cgi_interpreter(route, path.as_slice()) {
                Some(interpreter) => {
                    return Step::Done(HandlerResult::Cgi { script: path, interpreter });
                },
                None => {},
            },
            Err(status) => {
                return fail(status, server, None);
            },
        }
    }
    receive_body(request, route)
}

/// The step after the target of a `DELETE` request was looked at.
fn handle_delete(
    server: &ServerConfig,
    target: String,
    info: &PathInfo,
    root: &Option<Vec<u8>>,
) -> (step: Step)
    ensures
        step@ == delete_target(server@, target@, info@, bytes_of(*root)),
{
    match protect_existing_path(target.as_str(), info, root) {
        Ok(path) => if !info.exists {
            fail(404, server, None)
        } else if info.is_dir {
            fail(403, server, None)
        } else {
            Step::Ask(Action::Remove(path), Pending::Removal)
        },
        Err(status) => fail(status, server, None),
    }
}

/// The step after the target of a request was looked at.
fn resume_target(
    request: &Request,
    server: &ServerConfig,
    target: String,
    info: &PathInfo,
    root: &Option<Vec<u8>>,
) -> (step: Step)
    ensures
        step@ == after_target(request@, server@, target@, info@, bytes_of(*root)),
{
    match find_route(server, request.path.as_str()) {
        Some(route) => match &request.method {
            Method::Get => handle_get(route, server, target, info, root),
            Method::Post => handle_post(request, route, server, target, info, root),
            Method::Delete => handle_delete(server, target, info, root),
            Method::Other(_) => fail(405, server, Some(route.allowed_methods_header())),
        },
        None => fail(404, server, None),
    }
}

fn status_of(failure: IoFailure) -> (status: u16)
    ensures
        status == failure_status(failure),
{
    match failure {
        IoFailure::PermissionDenied => 403,
        IoFailure::NotFound => 404,
        IoFailure::Other => 500,
    }
}

/// The step after a file was read.
fn serve_file(server: &ServerConfig, path: &[u8], contents: Result<Vec<u8>, IoFailure>) -> (step:
    Step)
    ensures
        step@ == after_read(
            server@,
            path@,
            match contents {
                Ok(bytes) => Ok(bytes@),
                Err(failure) => Err(failure),
            },
        ),
{
    match contents {
        Ok(bytes) => {
            let mut response = Response::new(200, bytes);
            response.set_header("Content-Type", content_type(path));
            Step::Done(HandlerResult::Response(response))
        },
        Err(failure) => fail(status_of(failure), server, None),
    }
}

/// The names of the entries as they are shown.
fn shown_names(entries: &Vec<DirEntry>) -> (r: Vec<String>)
    ensures
        text::string_texts(r@) == entries_of(entries@).map_values(
            |entry: (Seq<char>, bool)| shown_name(entry),
        ),
{
    let ghost names = entries_of(entries@).map_values(
        |entry: (Seq<char>, bool)| shown_name(entry),
    );
    let mut r: Vec<String> = Vec::new();
    for i in 0..entries.len()
        invariant
            names == entries_of(entries@).map_values(
                |entry: (Seq<char>, bool)| shown_name(entry),
            ),
            text::string_texts(r@) == names.take(i as int),
    {
        let ghost before = text::string_texts(r@);
        let mut name = entries[i].name.clone();
        if entries[i].is_dir {
            name.append("/");
        }
        assert(name@ == names[i as int]);
        r.push(name);
        assert(text::string_texts(r@) == before.push(name@));
        assert(names.take(i + 1) == names.take(i as int).push(name@));
    }
    assert(names.take(names.len() as int) == names);
    r
}

/// The page that lists the entries of a directory in order.
fn directory_listing(request_path: &str, entries: &Vec<DirEntry>) -> (r: Response)
    ensures
        r@ == listing_page(request_path@, entries_of(entries@)),
{
    let list = sort_texts(shown_names(entries));
    let ghost names = text::string_texts(list@);
    let mut body =
        "<!doctype html><html><head><meta charset=\"utf-8\"><title>Directory listing</title></head><body>".to_owned();
    body.append("<h1>Index of ");
    append_escaped(&mut body, request_path);
    body.append("</h1><ul>");
    if !same_str(request_path, "/") {
        body.append("<li><a href=\"../\">../</a></li>");
    } else {
        assert(body@ + Seq::<char>::empty() == body@);
    }
    let ghost front = body@;
    assert(front + link_items(names.take(0)) == front);
    for i in 0..list.len()
        invariant
            names == text::string_texts(list@),
            body@ == front + link_items(names.take(i as int)),
    {
        let ghost done = link_items(names.take(i as int));
        assert(names[i as int] == list@[i as int]@);
        let name = list[i].as_str();
        body.append("<li><a href=\"");
        append_escaped(&mut body, name);
        body.append("\">");
        append_escaped(&mut body, name);
        body.append("</a></li>");
        proof {
            assert(names.take(i + 1).drop_last() == names.take(i as int));
            assert(names.take(i + 1).last() == name@);
            assert(body@ == front + (done + "<li><a href=\""@ + util::escaped(name@) + "\">"@
                + util::escaped(name@) + "</a></li>"@));
        }
    }
    assert(names.take(names.len() as int) == names);
    body.append("</ul></body></html>");
    Response::html(200, body.as_str())
}

/// The step after a directory was listed.
fn resume_list(
    request: &Request,
    server: &ServerConfig,
    entries: Result<Vec<DirEntry>, IoFailure>,
) -> (step: Step)
    ensures
        step@ == after_list(
            request@,
            server@,
            match entries {
                Ok(entries) => Ok(entries_of(entries@)),
                Err(failure) => Err(failure),
            },
        ),
{
    match entries {
        Ok(entries) => Step::Done(
            HandlerResult::Response(directory_listing(request.path.as_str(), &entries)),
        ),
        Err(IoFailure::PermissionDenied) => fail(403, server, None),
        Err(_) => fail(500, server, None),
    }
}

/// The step after the index file of a directory was looked at.
fn resume_index(
    request: &Request,
    server: &ServerConfig,
    directory: Vec<u8>,
    index: Vec<u8>,
    info: &PathInfo,
) -> (step: Step)
    ensures
        step@ == after_index(request@, server@, directory@, index@, info@),
{
    if info.is_file {
        return Step::Ask(
            Action::Read(slice_to_vec(index.as_slice())),
            Pending::File { file: index },
        );
    }
    match find_route(server, request.path.as_str()) {
        Some(route) => list_directory(route, server, directory),
        None => fail(404, server, None),
    }
}

/// The step after the page for a status was read.
fn resume_page(
    server: &ServerConfig,
    status: u16,
    allow: Option<String>,
    contents: Result<Vec<u8>, IoFailure>,
) -> (step: Step)
    ensures
        step@ == after_page(
            server@,
            status,
            config::text_of(allow),
            match contents {
                Ok(bytes) => Ok(bytes@),
                Err(failure) => Err(failure),
            },
        ),
{
    let page = match contents {
        Ok(bytes) => Some(bytes),
        Err(_) => None,
    };
    let response = error_response(status, server, page);
    Step::Done(HandlerResult::Response(allow_response(response, &allow)))
}

/// The step after a file was removed.
fn resume_removal(server: &ServerConfig, removed: Result<(), IoFailure>) -> (step: Step)
    ensures
        step@ == after_removal(server@, removed),
{
    match removed {
        Ok(_) => Step::Done(HandlerResult::Response(Response::empty(204))),
        Err(failure) => fail(status_of(failure), server, None),
    }
}

/// What follows the key in the first part that starts with it.
fn find_attribute(parts: &Vec<&[char]>, key: &str) -> (r: Option<String>)
    ensures
        config::text_of(r) == first_attribute(text::texts(parts@), key@),
{
    let ghost all = text::texts(parts@);
    assert(all.skip(0) == all);
    for i in 0..parts.len()
        invariant
            all == text::texts(parts@),
            first_attribute(all, key@) == first_attribute(all.skip(i as int), key@),
    {
        assert(all.skip(i as int)[0] == parts@[i as int]@);
        assert(all.skip(i as int).drop_first() == all.skip(i + 1));
        match strip_prefix(trim(parts[i]), key) {
            Some(value) => {
                return Some(string_of(trim_matches(value, Pattern::Char('"'))));
            },
            None => {},
        }
    }
    None
}

/// The boundary that a header `Content-Type` gives.
pub fn multipart_boundary(content_type: &str) -> (r: Option<String>)
    ensures
        config::text_of(r) == boundary_of(content_type@),
{
    let chars = chars_of(content_type);
    find_attribute(&split_on(chars.as_slice(), Pattern::Char(';')), "boundary=")
}

/// The first file name that the header lines of a part give.
pub fn filename_from_part_headers(headers: &str) -> (r: Option<String>)
    ensures
        config::text_of(r) == first_file_name(text::lines(headers@)),
{
    let chars = chars_of(headers);
    let lines = split_lines(chars.as_slice());
    let ghost all = text::texts(lines@);
    assert(all.skip(0) == all);
    for i in 0..lines.len()
        invariant
            all == text::texts(lines@),
            all == text::lines(headers@),
            first_file_name(all) == first_file_name(all.skip(i as int)),
    {
        assert(all.skip(i as int)[0] == lines@[i as int]@);
        assert(all.skip(i as int).drop_first() == all.skip(i + 1));
        match split_at_char(lines[i], ':') {
            Some((name, value)) => {
                let name = lower(trim(name));
                if is_text(name.as_slice(), "content-disposition") {
                    let found = find_attribute(&split_on(value, Pattern::Char(';')), "filename=");
                    if found.is_some() {
                        return found;
                    }
                }
            },
            None => {},
        }
    }
    None
}

/// The name to store a part under, given its header block.
fn name_of_part(block: &[u8]) -> (r: Option<String>)
    ensures
        config::text_of(r) == part_name(block@),
{
    let headers = utf8_text_lossy(block);
    match filename_from_part_headers(headers.as_str()) {
        Some(name) => sanitize_filename(name.as_str()),
        None => None,
    }
}

/// The bytes without the line ending that may stand at their end.
fn trim_newline(s: &[u8]) -> (r: &[u8])
    ensures
        r@ == without_newline(s@),
{
    let crlf: [u8; 2] = [13, 10];
    let lf: [u8; 1] = [10];
    assert(crlf@ == bytes::crlf());
    assert(lf@ == bytes::lf());
    if ends_with(s, crlf.as_slice()) {
        slice_subrange(s, 0, s.len() - 2)
    } else if ends_with(s, lf.as_slice()) {
        slice_subrange(s, 0, s.len() - 1)
    } else {
        s
    }
}

/// The files of a multipart body, in order.
pub fn split_multipart(body: &[u8], boundary: &str) -> (files: Vec<Part>)
    ensures
        parts_of(files@) == multipart_files(body@, encode_utf8("--"@ + boundary@)),
{
    let mut line = "--".to_owned();
    line.append(boundary);
    let marker = line.as_str().as_bytes();
    let dash: [u8; 2] = [45, 45];
    assert(dash@ == dashes());
    let ghost whole = multipart_files(body@, marker@);
    let mut files: Vec<Part> = Vec::new();
    let mut left = body;
    assert(parts_of(files@) + whole == whole);
    loop
        invariant
            dash@ == dashes(),
            whole == parts_of(files@) + multipart_files(left@, marker@),
            whole == multipart_files(body@, encode_utf8("--"@ + boundary@)),
        decreases left@.len(),
    {
        let ghost before = parts_of(files@);
        proof {
            assert(before + Seq::<(Seq<char>, Seq<u8>)>::empty() == before);
        }
        let total: usize = left.len();
        let at: usize = match find_bytes(left, marker) {
            Some(at) => at,
            None => {
                return files;
            },
        };
        let after = slice_subrange(left, at + marker.len(), total);
        assert(after@ == left@.skip(at + marker@.len()));
        if starts_with(after, dash.as_slice()) {
            assert(bytes::occurs_at(after@, dashes(), 0));
            return files;
        }
        assert(!bytes::occurs_at(after@, dashes(), 0));
        let rest = slice_subrange(after, leading_newline(after), after.len());
        assert(rest@ == after@.skip(bytes::newline_len(after@)));
        let (end, blank) = match find_header_end(rest) {
            Some(found) => found,
            None => {
                return files;
            },
        };
        let block = slice_subrange(rest, 0, end);
        let content = slice_subrange(rest, end + blank, rest.len());
        assert(block@ == rest@.take(end as int));
        assert(content@ == rest@.skip(end + blank));
        let length: usize = match find_bytes(content, marker) {
            Some(length) => length,
            None => content.len(),
        };
        let bytes = trim_newline(slice_subrange(content, 0, length));
        assert(content@.subrange(0, length as int) == content@.take(length as int));
        left = slice_subrange(content, length, content.len());
        assert(left@ == content@.skip(length as int));
        let ghost more = multipart_files(left@, marker@);
        match name_of_part(block) {
            Some(name) => {
                let part = Part { name, bytes: slice_to_vec(bytes) };
                files.push(part);
                assert(parts_of(files@) == before.push(part@));
                assert(before + (seq![part@] + more) == before.push(part@) + more);
            },
            None => {},
        }
    }
}

fn upload_name(millis: u64) -> (r: String)
    ensures
        r@ == timed_name(millis),
{
    let mut r = "upload-".to_owned();
    append_number(&mut r, millis, 10);
    r.append(".bin");
    r
}

/// The name that is tried for an upload after `attempt` others.
fn numbered_name(name: &str, attempt: u64) -> (r: String)
    ensures
        r@ == candidate_name(name@, attempt),
{
    if attempt == 0 {
        return name.to_owned();
    }
    let chars = chars_of(name);
    let mut r = match file_stem_of(chars.as_slice()) {
        Some(stem) => string_of(stem.as_slice()),
        None => "upload".to_owned(),
    };
    r.append("-");
    append_number(&mut r, attempt, 10);
    match extension_of(chars.as_slice()) {
        Some(extension) => {
            r.append(".");
            append_chars(&mut r, extension.as_slice());
        },
        None => {},
    }
    r
}

/// The page that names the files of an upload.
fn uploaded_response(paths: &Vec<String>) -> (r: Response)
    ensures
        r@ == uploaded_page(text::string_texts(paths@)),
{
    let ghost all = text::string_texts(paths@);
    let mut body = "<!doctype html><html><body><h1>Uploaded</h1><ul>".to_owned();
    let ghost front = body@;
    assert(front + name_items(all.take(0)) == front);
    for i in 0..paths.len()
        invariant
            all == text::string_texts(paths@),
            body@ == front + name_items(all.take(i as int)),
    {
        let ghost done = name_items(all.take(i as int));
        let chars = chars_of(paths[i].as_str());
        let name = match file_name_of(chars.as_slice()) {
            Some(name) => string_of(name.as_slice()),
            None => "upload".to_owned(),
        };
        body.append("<li>");
        append_escaped(&mut body, name.as_str());
        body.append("</li>");
        proof {
            assert(all.take(i + 1).drop_last() == all.take(i as int));
            assert(all.take(i + 1).last() == paths@[i as int]@);
            assert(body@ == front + (done + "<li>"@ + util::escaped(name@) + "</li>"@));
        }
    }
    assert(all.take(all.len() as int) == all);
    body.append("</ul></body></html>");
    Response::html(201, body.as_str())
}

/// The step to the next file of an upload: to look at a name for it.
fn unique_upload_path(upload: Upload) -> (step: Step)
    ensures
        step@ == next_file(upload@),
{
    if upload.left.len() == 0 {
        return Step::Done(HandlerResult::Response(uploaded_response(&upload.saved)));
    }
    if upload.attempt >= MAX_NAME_ATTEMPTS {
        return Step::Ask(Action::Clock, Pending::LastName { upload });
    }
    assert(upload@.left[0] == upload.left@[0]@);
    let name = numbered_name(upload.left[0].name.as_str(), upload.attempt);
    let chars = chars_of(name.as_str());
    let path = join_path(upload.store.as_str(), chars.as_slice());
    Step::Ask(Action::Inspect(raw_path(path.as_str())), Pending::Candidate { upload, path })
}

/// The step to write the next file of an upload.
fn write_next(upload: Upload, path: String) -> (step: Step)
    ensures
        step@ == write_file(upload@, path@),
{
    let mut upload = upload;
    if upload.left.len() == 0 {
        return Step::Done(HandlerResult::Response(uploaded_response(&upload.saved)));
    }
    let ghost before = upload@;
    let part = upload.left.remove(0);
    assert(before.left[0] == part@);
    assert(upload@.left == before.left.drop_first());
    Step::Ask(Action::Write(raw_path(path.as_str()), part.bytes), Pending::Saving { upload, path })
}

/// The step after a name for the next file was looked at.
fn resume_candidate(upload: Upload, path: String, info: &PathInfo) -> (step: Step)
    ensures
        step@ == after_candidate(upload@, path@, info@),
{
    let mut upload = upload;
    if !info.exists {
        return write_next(upload, path);
    }
    if upload.attempt < MAX_NAME_ATTEMPTS {
        upload.attempt += 1;
    }
    unique_upload_path(upload)
}

/// The step after a file was written.
fn resume_save(
    server: &ServerConfig,
    upload: Upload,
    path: String,
    written: Result<(), IoFailure>,
) -> (step: Step)
    ensures
        step@ == after_save(server@, upload@, path@, written),
{
    let mut upload = upload;
    let ghost before = upload@;
    match written {
        Ok(_) => {
            upload.saved.push(path);
            upload.attempt = 0;
            assert(upload@.saved == before.saved.push(path@));
            unique_upload_path(upload)
        },
        Err(_) => fail(upload.failure, server, None),
    }
}

/// The first step of the upload of a body under one name.
fn save_raw_body(request: &Request, store: String, name: String) -> (step: Step)
    ensures
        step@ == raw_upload(request@, store@, name@),
{
    let mut left: Vec<Part> = Vec::new();
    left.push(Part { name, bytes: slice_to_vec(request.body.as_slice()) });
    let upload = Upload { store, left, saved: Vec::new(), attempt: 0, failure: 500 };
    assert(upload@.left == seq![(name@, request@.body)]);
    assert(upload@.saved == Seq::<Seq<char>>::empty());
    unique_upload_path(upload)
}

/// The step after the directory for uploads was made.
fn save_upload(
    request: &Request,
    server: &ServerConfig,
    store: String,
    made: Result<(), IoFailure>,
) -> (step: Step)
    ensures
        step@ == after_store(request@, server@, store@, made),
{
    if made.is_err() {
        return fail(500, server, None);
    }
    let boundary = match request.header("content-type") {
        Some(value) => multipart_boundary(value),
        None => None,
    };
    match boundary {
        Some(boundary) => {
            let left = split_multipart(request.body.as_slice(), boundary.as_str());
            if left.len() == 0 {
                return Step::Done(
                    HandlerResult::Response(
                        Response::text(400, "multipart request did not contain files\n"),
                    ),
                );
            }
            let upload = Upload { store, left, saved: Vec::new(), attempt: 0, failure: 400 };
            assert(upload@.saved == Seq::<Seq<char>>::empty());
            unique_upload_path(upload)
        },
        None => {
            let name = match request.header("x-filename") {
                Some(name) => sanitize_filename(name),
                None => None,
            };
            match name {
                Some(name) => save_raw_body(request, store, name),
                None => Step::Ask(Action::Clock, Pending::RawName { store }),
            }
        },
    }
}

/// The step after a reply.
pub fn resume(request: &Request, server: &ServerConfig, pending: Pending, reply: Reply) -> (step: Step)
    ensures
        step@ == resumed(request@, server@, pending@, reply@),
{
    match (pending, reply) {
        (Pending::Root, Reply::Info(info)) => resume_root(request, server, info),
        (Pending::Target { target, root }, Reply::Info(info)) => resume_target(
            request,
            server,
            target,
            &info,
            &root,
        ),
        (Pending::Index { directory, index }, Reply::Info(info)) => resume_index(
            request,
            server,
            directory,
            index,
            &info,
        ),
        (Pending::File { file }, Reply::Contents(contents)) => serve_file(
            server,
            file.as_slice(),
            contents,
        ),
        (Pending::Listing, Reply::Entries(entries)) => resume_list(request, server, entries),
        (Pending::Page { status, allow }, Reply::Contents(contents)) => resume_page(
            server,
            status,
            allow,
            contents,
        ),
        (Pending::Removal, Reply::Done(removed)) => resume_removal(server, removed),
        (Pending::Store { store }, Reply::Done(made)) => save_upload(request, server, store, made),
        (Pending::RawName { store }, Reply::Millis(millis)) => save_raw_body(
            request,
            store,
            upload_name(millis),
        ),
        (Pending::Candidate { upload, path }, Reply::Info(info)) => resume_candidate(
            upload,
            path,
            &info,
        ),
        (Pending::LastName { upload }, Reply::Millis(millis)) => {
            let name = upload_name(millis);
            let chars = chars_of(name.as_str());
            let path = join_path(upload.store.as_str(), chars.as_slice());
            write_next(upload, path)
        },
        (Pending::Saving { upload, path }, Reply::Done(written)) => resume_save(
            server,
            upload,
            path,
            written,
        ),
        _ => fail(500, server, None),
    }
}

} // verus!
