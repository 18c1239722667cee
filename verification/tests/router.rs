use std::collections::BTreeMap;

use localhost::config::{Config, ServerConfig};
use localhost::http::{parse_request, ParseResult, Request, Response};
use localhost::router::{
    error_response, filename_from_part_headers, find_route, handle_request, method_allowed,
    multipart_boundary, protect_existing_path, resume, route_file_path, split_multipart, Action,
    DirEntry, HandlerResult, IoFailure, PathInfo, Reply, Step,
};
use localhost::session::SessionInfo;

/// A small file system: files by their paths, and directories.
struct World {
    files: BTreeMap<String, Vec<u8>>,
    dirs: Vec<String>,
    links: BTreeMap<String, String>,
    failure: Option<IoFailure>,
    millis: u64,
    actions: Vec<String>,
}

impl World {
    fn new() -> Self {
        let mut files = BTreeMap::new();
        for (path, text) in [
            ("www/index.html", "home"),
            ("www/errors/404.html", "Custom 404"),
            ("www/listing/beta.txt", "beta"),
            ("www/listing/alpha.txt", "alpha"),
            ("www/cgi/echo.py", "script"),
        ] {
            files.insert(path.to_string(), text.as_bytes().to_vec());
        }
        World {
            files,
            dirs: ["www", "www/errors", "www/listing", "www/listing/sub", "www/cgi"]
                .iter()
                .map(|dir| dir.to_string())
                .collect(),
            links: BTreeMap::new(),
            failure: None,
            millis: 77,
            actions: Vec::new(),
        }
    }

    fn resolve(&self, path: &str) -> String {
        let path = path.strip_prefix("/srv/").unwrap_or(path);
        match self.links.get(path) {
            Some(target) => target.clone(),
            None => path.trim_end_matches('/').to_string(),
        }
    }

    fn inspect(&self, path: &str) -> PathInfo {
        let place = self.resolve(path);
        let is_file = self.files.contains_key(&place);
        let is_dir = self.dirs.contains(&place);
        PathInfo {
            exists: is_file || is_dir,
            is_file,
            is_dir,
            canonical: if is_file || is_dir {
                Some(format!("/srv/{}", place).into_bytes())
            } else {
                None
            },
        }
    }

    fn done(&self) -> Result<(), IoFailure> {
        match self.failure {
            Some(failure) => Err(failure),
            None => Ok(()),
        }
    }

    fn perform(&mut self, action: Action) -> Reply {
        match action {
            Action::Inspect(path) => {
                let path = text(path);
                self.actions.push(format!("inspect {}", path));
                Reply::Info(self.inspect(&path))
            }
            Action::Read(path) => {
                let path = text(path);
                self.actions.push(format!("read {}", path));
                let place = self.resolve(&path);
                Reply::Contents(match (self.failure, self.files.get(&place)) {
                    (Some(failure), _) => Err(failure),
                    (None, Some(bytes)) => Ok(bytes.clone()),
                    (None, None) => Err(IoFailure::NotFound),
                })
            }
            Action::List(path) => {
                let path = text(path);
                self.actions.push(format!("list {}", path));
                let prefix = format!("{}/", self.resolve(&path));
                let mut entries = Vec::new();
                for (names, is_dir) in [
                    (self.dirs.clone(), true),
                    (self.files.keys().cloned().collect::<Vec<_>>(), false),
                ] {
                    for name in names {
                        if let Some(rest) = name.strip_prefix(&prefix) {
                            if !rest.contains('/') {
                                entries.push(DirEntry {
                                    name: rest.to_string(),
                                    is_dir,
                                });
                            }
                        }
                    }
                }
                Reply::Entries(self.done().map(|()| entries))
            }
            Action::CreateDirs(path) => {
                let path = text(path);
                self.actions.push(format!("mkdir {}", path));
                Reply::Done(self.done())
            }
            Action::Write(path, bytes) => {
                let path = text(path);
                self.actions.push(format!("write {}", path));
                self.files.insert(self.resolve(&path), bytes);
                Reply::Done(self.done())
            }
            Action::Remove(path) => {
                let path = text(path);
                self.actions.push(format!("remove {}", path));
                let place = self.resolve(&path);
                self.files.remove(&place);
                Reply::Done(self.done())
            }
            Action::Clock => {
                self.actions.push("clock".to_string());
                Reply::Millis(self.millis)
            }
        }
    }

    fn handle(&mut self, server: &ServerConfig, request: &Request) -> HandlerResult {
        let session = SessionInfo {
            id: "<id>".to_string(),
            visits: 3,
            is_new: false,
        };
        let mut step = handle_request(request, server, &session);
        loop {
            match step {
                Step::Done(result) => return result,
                Step::Ask(action, pending) => {
                    let reply = self.perform(action);
                    step = resume(request, server, pending, reply);
                }
            }
        }
    }

    fn respond(&mut self, server: &ServerConfig, raw: &[u8]) -> Response {
        match self.handle(server, &request(raw)) {
            HandlerResult::Response(response) => response,
            HandlerResult::Cgi { .. } => panic!("no script should run"),
        }
    }
}

fn text(path: Vec<u8>) -> String {
    String::from_utf8(path).unwrap()
}

fn request(raw: &[u8]) -> Request {
    match parse_request(raw, 100_000) {
        ParseResult::Complete(request, _) => request,
        _ => panic!("request should parse"),
    }
}

fn get(path: &str) -> Vec<u8> {
    format!("GET {} HTTP/1.1\r\nHost: a\r\n\r\n", path).into_bytes()
}

fn server() -> ServerConfig {
    let (mut config, _) = Config::parse(
        "server {
            port 8080;
            client_max_body_size 200;
            error_page 404 www/errors/404.html;
            route / { root www; methods GET; index index.html; }
            route /plain { root www; methods GET; }
            route /listing { root www/listing; methods GET; directory_listing on; }
            route /cgi { root www/cgi; methods GET POST; cgi .py /usr/bin/python3; }
            route /old { redirect 301 /; }
            route /uploads { root www/uploads; upload_store www/uploads; methods GET POST DELETE; }
            route /echo { root www/echo; methods POST; }
            route /any { root www; }
            route /file { root www/index.html; }
            route /bare { methods GET; }
        }",
    )
    .unwrap();
    config.servers.remove(0)
}

fn header<'a>(response: &'a Response, name: &str) -> Option<&'a str> {
    response
        .headers
        .iter()
        .find(|(key, _)| key.eq_ignore_ascii_case(name))
        .map(|(_, value)| value.as_str())
}

fn body(response: &Response) -> String {
    String::from_utf8(response.body.clone()).unwrap()
}

#[test]
fn the_longest_prefix_decides() {
    let server = server();
    let path_of = |path: &str| find_route(&server, path).map(|route| route.path.clone());
    assert_eq!(path_of("/listing"), Some("/listing".to_string()));
    assert_eq!(path_of("/listing/alpha.txt"), Some("/listing".to_string()));
    assert_eq!(path_of("/listings"), Some("/".to_string()));
    assert_eq!(path_of("/"), Some("/".to_string()));
    let route = find_route(&server, "/cgi/x").unwrap();
    assert!(method_allowed(route, &request(b"POST /cgi/x HTTP/1.0\r\n\r\n").method));
    assert!(!method_allowed(route, &request(b"DELETE /cgi/x HTTP/1.0\r\n\r\n").method));
}

#[test]
fn no_route_is_not_found() {
    let mut server = server();
    server.routes.retain(|route| route.path != "/");
    let response = World::new().respond(&server, &get("/nowhere"));
    assert_eq!(response.status, 404);
    assert_eq!(body(&response), "Custom 404");
    assert_eq!(header(&response, "content-type"), Some("text/html; charset=utf-8"));
}

#[test]
fn serves_files_and_index_files() {
    let server = server();
    let mut world = World::new();
    let response = world.respond(&server, &get("/"));
    assert_eq!(response.status, 200);
    assert_eq!(body(&response), "home");
    assert_eq!(header(&response, "Content-Type"), Some("text/html; charset=utf-8"));
    let response = world.respond(&server, &get("/listing/alpha.txt"));
    assert_eq!((response.status, body(&response).as_str()), (200, "alpha"));
    assert_eq!(header(&response, "Content-Type"), Some("text/plain; charset=utf-8"));
    let response = world.respond(&server, &get("/file/whatever"));
    assert_eq!((response.status, body(&response).as_str()), (200, "home"));
}

#[test]
fn missing_files_get_the_configured_page() {
    let server = server();
    let mut world = World::new();
    let response = world.respond(&server, &get("/missing"));
    assert_eq!((response.status, body(&response).as_str()), (404, "Custom 404"));
    world.files.remove("www/errors/404.html");
    let response = world.respond(&server, &get("/missing"));
    assert_eq!(response.status, 404);
    assert_eq!(
        body(&response),
        "<!doctype html><html><head><meta charset=\"utf-8\"><title>404 Not Found</title></head><body><h1>404 Not Found</h1></body></html>"
    );
    let response = world.respond(&server, &get("/bare"));
    assert_eq!(response.status, 404);
}

#[test]
fn lists_directories_in_order() {
    let response = World::new().respond(&server(), &get("/listing/"));
    assert_eq!(response.status, 200);
    assert_eq!(
        body(&response),
        "<!doctype html><html><head><meta charset=\"utf-8\"><title>Directory listing</title></head><body><h1>Index of /listing/</h1><ul><li><a href=\"../\">../</a></li><li><a href=\"alpha.txt\">alpha.txt</a></li><li><a href=\"beta.txt\">beta.txt</a></li><li><a href=\"sub/\">sub/</a></li></ul></body></html>"
    );
}

#[test]
fn directories_without_a_listing_are_forbidden() {
    let server = server();
    assert_eq!(World::new().respond(&server, &get("/plain/")).status, 403);
    assert_eq!(World::new().respond(&server, &get("/listing/..")).status, 403);
    let mut world = World::new();
    world.failure = Some(IoFailure::PermissionDenied);
    assert_eq!(world.respond(&server, &get("/listing/")).status, 403);
    world.failure = Some(IoFailure::Other);
    assert_eq!(world.respond(&server, &get("/listing/")).status, 500);
}

#[test]
fn failures_to_read_have_their_statuses() {
    let mut server = server();
    server.error_pages.clear();
    for (failure, status) in [
        (IoFailure::PermissionDenied, 403),
        (IoFailure::NotFound, 404),
        (IoFailure::Other, 500),
    ] {
        let mut world = World::new();
        world.failure = Some(failure);
        assert_eq!(
            world.respond(&server, &get("/listing/alpha.txt")).status,
            status
        );
    }
}

#[test]
fn nothing_outside_the_root_is_served() {
    let server = server();
    let mut world = World::new();
    assert_eq!(world.respond(&server, &get("/listing/../index.html")).status, 403);
    assert_eq!(world.respond(&server, &get("/listing/%2e%2e/index.html")).status, 403);
    world
        .links
        .insert("www/listing/link".to_string(), "www/index.html".to_string());
    assert_eq!(world.respond(&server, &get("/listing/link")).status, 403);
    assert!(!world.actions.contains(&"read /srv/www/index.html".to_string()));
}

#[test]
fn targets_lie_below_the_root() {
    assert_eq!(
        route_file_path("www", "/", "//a/./b//c"),
        Ok("www/a/b/c".to_string())
    );
    assert_eq!(route_file_path("www", "/x", "/x"), Ok("www".to_string()));
    assert_eq!(route_file_path("www/", "/x", "/x/y"), Ok("www/y".to_string()));
    assert_eq!(route_file_path("www", "/x", "/x/../y"), Err(403));
    let info = PathInfo {
        exists: true,
        is_file: true,
        is_dir: false,
        canonical: Some(b"/srv/www/a".to_vec()),
    };
    let root = Some(b"/srv/www".to_vec());
    assert_eq!(
        protect_existing_path("www/a", &info, &root),
        Ok(b"/srv/www/a".to_vec())
    );
    assert_eq!(
        protect_existing_path("www/a", &info, &Some(b"/srv/w".to_vec())),
        Err(403)
    );
    assert_eq!(protect_existing_path("www/a", &info, &None), Err(404));
    let missing = PathInfo {
        exists: false,
        is_file: false,
        is_dir: false,
        canonical: None,
    };
    assert_eq!(
        protect_existing_path("www/\u{e9}", &missing, &None),
        Ok(b"www/\xc3\xa9".to_vec())
    );
}

#[test]
fn paths_need_not_be_text() {
    let server = server();
    let request = request(&get("/cgi/x"));
    let session = SessionInfo {
        id: String::new(),
        visits: 1,
        is_new: true,
    };
    let place = |path: &[u8], is_dir: bool| {
        Reply::Info(PathInfo {
            exists: true,
            is_file: !is_dir,
            is_dir,
            canonical: Some(path.to_vec()),
        })
    };
    for (found, script) in [
        (&b"/\xff/www/cgi/\xfe.py"[..], true),
        (&b"/\xff/www/cgi/a.\xfe"[..], false),
        (&b"/\xfe/www/cgi/a.py"[..], false),
    ] {
        let Step::Ask(_, pending) = handle_request(&request, &server, &session) else {
            panic!("the root should be looked at");
        };
        let Step::Ask(_, pending) = resume(&request, &server, pending, place(b"/\xff/www/cgi", true))
        else {
            panic!("the target should be looked at");
        };
        match resume(&request, &server, pending, place(found, false)) {
            Step::Done(HandlerResult::Cgi { script: path, .. }) => {
                assert!(script);
                assert_eq!(path, found);
            }
            Step::Ask(Action::Read(path), pending) => {
                assert!(!script && found.starts_with(b"/\xff/"));
                assert_eq!(path, found);
                let reply = Reply::Contents(Ok(b"x".to_vec()));
                let Step::Done(HandlerResult::Response(response)) =
                    resume(&request, &server, pending, reply)
                else {
                    panic!("the file should be served");
                };
                assert_eq!(response.body, b"x");
                assert_eq!(
                    header(&response, "Content-Type"),
                    Some("application/octet-stream")
                );
            }
            Step::Done(HandlerResult::Response(response)) => {
                assert!(found.starts_with(b"/\xfe/"));
                assert_eq!(response.status, 403);
            }
            _ => panic!("nothing else should be done"),
        }
    }
}

#[test]
fn methods_that_are_not_listed_are_refused() {
    let server = server();
    let response = World::new().respond(&server, b"DELETE /listing/alpha.txt HTTP/1.0\r\n\r\n");
    assert_eq!(response.status, 405);
    assert_eq!(header(&response, "allow"), Some("GET"));
    let response = World::new().respond(&server, b"PATCH /any HTTP/1.0\r\n\r\n");
    assert_eq!(response.status, 405);
    assert_eq!(header(&response, "allow"), Some("GET, POST, DELETE"));
}

#[test]
fn redirects() {
    let response = World::new().respond(&server(), &get("/old"));
    assert_eq!(response.status, 301);
    assert_eq!(header(&response, "location"), Some("/"));
    assert_eq!(
        body(&response),
        "<!doctype html><title>Moved Permanently</title><h1>Moved Permanently</h1><p>Redirecting to <a href=\"/\">/</a>.</p>"
    );
}

#[test]
fn shows_the_session() {
    let response = World::new().respond(&server(), &get("/session"));
    assert_eq!(response.status, 200);
    assert_eq!(
        body(&response),
        "<!doctype html><html><body><h1>Session</h1><p>id: &lt;id&gt;</p><p>visits: 3</p></body></html>"
    );
}

#[test]
fn bodies_over_the_limit_are_refused() {
    let raw = format!(
        "POST /echo HTTP/1.0\r\nContent-Length: 201\r\n\r\n{}",
        "x".repeat(201)
    );
    assert_eq!(World::new().respond(&server(), raw.as_bytes()).status, 413);
}

#[test]
fn posts_without_a_store_are_counted() {
    let response = World::new().respond(
        &server(),
        b"POST /echo HTTP/1.0\r\nContent-Length: 5\r\n\r\nhello",
    );
    assert_eq!(response.status, 200);
    assert_eq!(body(&response), "received 5 bytes\n");
    assert_eq!(header(&response, "Cache-Control"), Some("no-store"));
}

#[test]
fn scripts_are_run_by_their_interpreter() {
    let server = server();
    for raw in [
        &b"GET /cgi/echo.py?x=1 HTTP/1.0\r\n\r\n"[..],
        &b"POST /cgi/echo.py HTTP/1.0\r\nContent-Length: 1\r\n\r\nx"[..],
    ] {
        match World::new().handle(&server, &request(raw)) {
            HandlerResult::Cgi {
                script,
                interpreter,
            } => {
                assert_eq!(script, b"/srv/www/cgi/echo.py");
                assert_eq!(interpreter, "/usr/bin/python3");
            }
            HandlerResult::Response(_) => panic!("a script should run"),
        }
    }
}

#[test]
fn uploads_are_stored_fetched_and_deleted() {
    let server = server();
    let mut world = World::new();
    let upload = b"POST /uploads HTTP/1.0\r\nX-Filename: sample.bin\r\nContent-Length: 4\r\n\r\n\x00\xff\x0a\x0d";
    let response = world.respond(&server, upload);
    assert_eq!(response.status, 201);
    assert_eq!(
        body(&response),
        "<!doctype html><html><body><h1>Uploaded</h1><ul><li>sample.bin</li></ul></body></html>"
    );
    world.dirs.push("www/uploads".to_string());
    let response = world.respond(&server, &get("/uploads/sample.bin"));
    assert_eq!(response.status, 200);
    assert_eq!(response.body, b"\x00\xff\x0a\x0d");
    let response = world.respond(&server, b"DELETE /uploads/sample.bin HTTP/1.0\r\n\r\n");
    assert_eq!(response.status, 204);
    assert!(response.body.is_empty());
    assert_eq!(world.respond(&server, &get("/uploads/sample.bin")).status, 404);
    assert_eq!(
        world
            .respond(&server, b"DELETE /uploads/sample.bin HTTP/1.0\r\n\r\n")
            .status,
        404
    );
    assert_eq!(
        world.respond(&server, b"DELETE /uploads HTTP/1.0\r\n\r\n").status,
        403
    );
}

#[test]
fn uploads_go_to_vacant_names() {
    let server = server();
    let mut world = World::new();
    let upload = b"POST /uploads HTTP/1.0\r\nX-Filename: a.txt\r\nContent-Length: 1\r\n\r\nx";
    for expected in ["a.txt", "a-1.txt", "a-2.txt"] {
        let response = world.respond(&server, upload);
        assert!(body(&response).contains(&format!("<li>{}</li>", expected)));
        assert!(world.files.contains_key(&format!("www/uploads/{}", expected)));
    }
    let unnamed = b"POST /uploads HTTP/1.0\r\nContent-Length: 1\r\n\r\nx";
    assert!(body(&world.respond(&server, unnamed)).contains("<li>upload-77.bin</li>"));
    assert!(body(&world.respond(&server, unnamed)).contains("<li>upload-77-1.bin</li>"));
}

#[test]
fn names_run_out_at_last() {
    let server = server();
    let mut world = World::new();
    world.files.insert("www/uploads/a".to_string(), Vec::new());
    for index in 1..10_000 {
        world
            .files
            .insert(format!("www/uploads/a-{}", index), Vec::new());
    }
    let upload = b"POST /uploads HTTP/1.0\r\nX-Filename: a\r\nContent-Length: 1\r\n\r\nx";
    let response = world.respond(&server, upload);
    assert!(body(&response).contains("<li>upload-77.bin</li>"));
    assert_eq!(world.files.get("www/uploads/upload-77.bin"), Some(&b"x".to_vec()));
}

#[test]
fn stores_the_files_of_a_multipart_body() {
    let server = server();
    let mut world = World::new();
    let content = "--XX\r\nContent-Disposition: form-data; name=\"a\"; filename=\"x.txt\"\r\n\r\none\r\n--XX\r\n\r\nskip\r\n--XX\r\nContent-Disposition: form-data; filename=x.txt\r\n\r\ntwo\r\n--XX--\r\n";
    let raw = format!(
        "POST /uploads HTTP/1.0\r\nContent-Type: multipart/form-data; boundary=\"XX\"\r\nContent-Length: {}\r\n\r\n{}",
        content.len(),
        content
    );
    assert!(content.len() <= 200);
    let response = world.respond(&server, raw.as_bytes());
    assert_eq!(response.status, 201);
    assert_eq!(
        body(&response),
        "<!doctype html><html><body><h1>Uploaded</h1><ul><li>x.txt</li><li>x-1.txt</li></ul></body></html>"
    );
    assert_eq!(world.files.get("www/uploads/x.txt"), Some(&b"one".to_vec()));
    assert_eq!(world.files.get("www/uploads/x-1.txt"), Some(&b"two".to_vec()));
}

#[test]
fn failed_uploads_have_their_statuses() {
    let server = server();
    let empty = b"POST /uploads HTTP/1.0\r\nContent-Type: multipart/form-data; boundary=X\r\nContent-Length: 5\r\n\r\n--X--";
    let response = World::new().respond(&server, empty);
    assert_eq!(response.status, 400);
    assert_eq!(body(&response), "multipart request did not contain files\n");
    let mut world = World::new();
    world.failure = Some(IoFailure::PermissionDenied);
    let raw = b"POST /uploads HTTP/1.0\r\nContent-Length: 1\r\n\r\nx";
    assert_eq!(world.respond(&server, raw).status, 500);
    assert_eq!(world.actions, vec!["inspect www/uploads", "inspect www/uploads", "mkdir www/uploads"]);
}

#[test]
fn failures_to_write_have_their_statuses() {
    let server = server();
    let raw = request(b"POST /uploads HTTP/1.0\r\nX-Filename: a\r\nContent-Length: 1\r\n\r\nx");
    let multipart = request(b"POST /uploads HTTP/1.0\r\nContent-Type: m; boundary=X\r\nContent-Length: 61\r\n\r\n--X\r\nContent-Disposition: form-data; filename=\"a\"\r\n\r\nx\r\n--X--");
    for (request, status) in [(raw, 500), (multipart, 400)] {
        let mut world = World::new();
        let session = SessionInfo {
            id: String::new(),
            visits: 1,
            is_new: true,
        };
        let mut step = handle_request(&request, &server, &session);
        let response = loop {
            match step {
                Step::Done(HandlerResult::Response(response)) => break response,
                Step::Done(_) => panic!("no script should run"),
                Step::Ask(action, pending) => {
                    let failing = matches!(action, Action::Write(_, _));
                    let reply = world.perform(action);
                    let reply = if failing {
                        Reply::Done(Err(IoFailure::Other))
                    } else {
                        reply
                    };
                    step = resume(&request, &server, pending, reply);
                }
            }
        };
        assert_eq!(response.status, status);
    }
}

#[test]
fn failures_to_remove_have_their_statuses() {
    let server = server();
    for (failure, status) in [
        (IoFailure::NotFound, 404),
        (IoFailure::PermissionDenied, 403),
        (IoFailure::Other, 500),
    ] {
        let mut world = World::new();
        world.dirs.push("www/uploads".to_string());
        world.files.insert("www/uploads/a".to_string(), Vec::new());
        world.failure = Some(failure);
        assert_eq!(
            world
                .respond(&server, b"DELETE /uploads/a HTTP/1.0\r\n\r\n")
                .status,
            status
        );
    }
}

#[test]
fn a_reply_to_something_else_is_a_failure() {
    let server = server();
    let request = request(&get("/"));
    let session = SessionInfo {
        id: String::new(),
        visits: 1,
        is_new: true,
    };
    match handle_request(&request, &server, &session) {
        Step::Ask(_, pending) => {
            match resume(&request, &server, pending, Reply::Millis(1)) {
                Step::Done(HandlerResult::Response(response)) => assert_eq!(response.status, 500),
                _ => panic!("the handler should end"),
            }
        }
        Step::Done(_) => panic!("the root should be looked at"),
    }
}

#[test]
fn error_pages_can_be_given() {
    let server = server();
    let response = error_response(404, &server, Some(b"page".to_vec()));
    assert_eq!(response.body, b"page");
    let response = error_response(500, &server, Some(b"page".to_vec()));
    assert!(body(&response).contains("500 Internal Server Error"));
}

#[test]
fn finds_boundaries_and_file_names() {
    assert_eq!(
        multipart_boundary("multipart/form-data; charset=x; boundary=\"a b\""),
        Some("a b".to_string())
    );
    assert_eq!(multipart_boundary("text/plain"), None);
    assert_eq!(
        filename_from_part_headers("X: 1\r\nCONTENT-DISPOSITION: form-data; filename=\"f.txt\""),
        Some("f.txt".to_string())
    );
    assert_eq!(filename_from_part_headers("Content-Disposition: form-data"), None);
}

#[test]
fn splits_multipart_bodies() {
    let body = b"preamble--B\nContent-Disposition: x; filename=a\xff\n\nline\n\n--B\r\nContent-Disposition: x; filename=b\r\n\r\nno end";
    let files = split_multipart(body, "B");
    let found: Vec<(String, Vec<u8>)> = files
        .into_iter()
        .map(|part| (part.name, part.bytes))
        .collect();
    assert_eq!(found.len(), 1);
    let body = b"--B\r\nContent-Disposition: x; filename=\"\xff.txt\"\r\n\r\none\r\n--B\r\nContent-Disposition: x; filename=b\r\n\r\nno end";
    let files = split_multipart(body, "B");
    assert_eq!(files.len(), 2);
    assert_eq!((files[0].name.as_str(), &files[0].bytes[..]), ("_.txt", &b"one"[..]));
    assert_eq!((files[1].name.as_str(), &files[1].bytes[..]), ("b", &b"no end"[..]));
    assert!(split_multipart(b"--B--", "B").is_empty());
}
