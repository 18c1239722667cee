use localhost::http::{parse_request, status_text, Method, ParseResult, Request, Response};

#[test]
fn parses_content_length_request() {
    let raw = b"POST /upload HTTP/1.1\r\nHost: localhost\r\nContent-Length: 5\r\n\r\nhello";
    let ParseResult::Complete(request, consumed) = parse_request(raw, 1024) else {
        panic!("request should parse");
    };
    assert_eq!(request.path, "/upload");
    assert_eq!(request.body, b"hello");
    assert_eq!(consumed, raw.len());
}

#[test]
fn parses_chunked_request() {
    let raw = b"POST /cgi/echo.py HTTP/1.1\r\nHost: localhost\r\nTransfer-Encoding: chunked\r\n\r\n5\r\nhello\r\n0\r\n\r\n";
    let ParseResult::Complete(request, _) = parse_request(raw, 1024) else {
        panic!("request should parse");
    };
    assert_eq!(request.body, b"hello");
}

fn complete(raw: &[u8]) -> (Request, usize) {
    match parse_request(raw, 1024) {
        ParseResult::Complete(request, consumed) => (request, consumed),
        ParseResult::Incomplete => panic!("request should be complete"),
        ParseResult::BadRequest(message) => panic!("{}", message),
        ParseResult::TooLarge => panic!("request should not be too large"),
    }
}

fn refusal(raw: &[u8]) -> String {
    match parse_request(raw, 1024) {
        ParseResult::BadRequest(message) => message,
        _ => panic!("request should be refused"),
    }
}

#[test]
fn takes_a_target_apart() {
    let (request, _) =
        complete(b"GET /a%20b/c%C3%A9?x=1&y=%20 HTTP/1.1\r\nHost: Example.COM:8080\r\n\r\n");
    assert_eq!(request.method, Method::Get);
    assert_eq!(request.target, "/a%20b/c%C3%A9?x=1&y=%20");
    assert_eq!(request.path, "/a b/c\u{e9}");
    assert_eq!(request.query, "x=1&y=%20");
    assert_eq!(request.version, "HTTP/1.1");
    assert_eq!(request.header("HOST"), Some("Example.COM:8080"));
    assert_eq!(request.host(), Some("example.com".to_string()));
    assert!(request.body.is_empty());
    let (request, _) = complete(b"GET http://host/p?q HTTP/1.0\r\n\r\n");
    assert_eq!((request.path.as_str(), request.query.as_str()), ("/p", "q"));
    let (request, _) = complete(b"GET http://host HTTP/1.0\r\n\r\n");
    assert_eq!(request.path, "/");
}

#[test]
fn keeps_unknown_methods() {
    let (request, _) = complete(b"PATCH / HTTP/1.0\r\n\r\n");
    assert_eq!(request.method, Method::Other("PATCH".to_string()));
    assert_eq!(request.method.name(), "PATCH");
    assert_eq!(Method::from_token("DELETE"), Method::Delete);
    assert_eq!(Method::from_token("get"), Method::Other("get".to_string()));
}

#[test]
fn joins_repeated_headers() {
    let (request, _) =
        complete(b"GET / HTTP/1.0\r\nAccept: a\r\nX: 1\r\nACCEPT:  b \r\naccept: c\r\n\r\n");
    assert_eq!(request.header("accept"), Some("a, b, c"));
    assert_eq!(request.header("x"), Some("1"));
    assert_eq!(request.header("y"), None);
    assert_eq!(request.headers.len(), 2);
    assert_eq!(request.headers.at(1), ("x", "1"));
}

#[test]
fn decides_whether_the_connection_goes_on() {
    let closes = |raw: &[u8]| complete(raw).0.should_close_connection();
    assert!(!closes(b"GET / HTTP/1.1\r\nHost: a\r\n\r\n"));
    assert!(closes(b"GET / HTTP/1.1\r\nHost: a\r\nConnection: foo, Close\r\n\r\n"));
    assert!(closes(b"GET / HTTP/1.0\r\n\r\n"));
    assert!(!closes(b"GET / HTTP/1.0\r\nConnection: Keep-Alive\r\n\r\n"));
}

#[test]
fn refuses_bad_requests() {
    assert_eq!(refusal(b"\r\n\r\n"), "missing request line");
    assert_eq!(refusal(b"GET\r\n\r\n"), "missing target");
    assert_eq!(refusal(b"GET /\r\n\r\n"), "missing HTTP version");
    assert_eq!(
        refusal(b"GET / HTTP/2\r\n\r\n"),
        "unsupported HTTP version HTTP/2"
    );
    assert_eq!(
        refusal(b"GET / HTTP/1.1 x\r\n\r\n"),
        "request line has too many fields"
    );
    assert_eq!(
        refusal(b"GET / HTTP/1.1\r\n\r\n"),
        "HTTP/1.1 requests require a Host header"
    );
    assert_eq!(
        refusal(b"GET / HTTP/1.0\r\nnonsense\r\n\r\n"),
        "invalid header line nonsense"
    );
    assert_eq!(refusal(b"GET / HTTP/1.0\r\n: x\r\n\r\n"), "empty header name");
    assert_eq!(
        refusal(b"GET / HTTP/1.0\r\nContent-Length: -1\r\n\r\n"),
        "invalid Content-Length"
    );
    assert_eq!(
        refusal(b"GET a HTTP/1.0\r\n\r\n"),
        "request target must be an absolute path"
    );
    assert_eq!(
        refusal(b"GET /%zz HTTP/1.0\r\n\r\n"),
        "request target contains invalid percent encoding"
    );
    assert_eq!(
        refusal(b"GET / HTTP/1.0\r\nX: \xff\r\n\r\n"),
        "headers are not valid UTF-8"
    );
    assert_eq!(
        refusal(&[b'a'; 20000]),
        "request headers are too large"
    );
    assert_eq!(
        refusal(b"GET / HTTP/1.0\r\nTransfer-Encoding: chunked\r\n\r\nxyz\r\n"),
        "invalid chunk size"
    );
    assert_eq!(
        refusal(b"GET / HTTP/1.0\r\nTransfer-Encoding: chunked\r\n\r\n1\r\nabc"),
        "chunk data is not followed by a newline"
    );
}

#[test]
fn waits_for_the_rest() {
    assert!(matches!(parse_request(b"", 10), ParseResult::Incomplete));
    assert!(matches!(
        parse_request(b"GET / HTTP/1.1\r\nHost: a\r\n", 10),
        ParseResult::Incomplete
    ));
    assert!(matches!(
        parse_request(b"GET / HTTP/1.0\r\nContent-Length: 3\r\n\r\nab", 10),
        ParseResult::Incomplete
    ));
    assert!(matches!(
        parse_request(
            b"GET / HTTP/1.0\r\nTransfer-Encoding: chunked\r\n\r\n3\r\nab",
            10
        ),
        ParseResult::Incomplete
    ));
}

#[test]
fn holds_bodies_to_the_limit() {
    assert!(matches!(
        parse_request(b"GET / HTTP/1.0\r\nContent-Length: 11\r\n\r\n", 10),
        ParseResult::TooLarge
    ));
    assert!(matches!(
        parse_request(
            b"GET / HTTP/1.0\r\nTransfer-Encoding: chunked\r\n\r\n6\r\nabcdef\r\n5\r\n",
            10
        ),
        ParseResult::TooLarge
    ));
    assert!(matches!(
        parse_request(
            b"GET / HTTP/1.0\r\nTransfer-Encoding: chunked\r\n\r\n6\r\nabcdef\r\n4\r\nghij\r\n0\r\n\r\n",
            10
        ),
        ParseResult::Complete(_, _)
    ));
}

#[test]
fn puts_chunks_together() {
    let raw = b"POST / HTTP/1.0\r\nTransfer-Encoding: gzip, Chunked\r\n\r\nA;ext=1\r\n0123456789\r\n1\nx\n0\r\nTrailer: t\r\n\r\nrest";
    let (request, consumed) = complete(raw);
    assert_eq!(request.body, b"0123456789x");
    assert_eq!(&raw[consumed..], b"rest");
}

#[test]
fn reads_pipelined_requests_in_turn() {
    let first = b"GET /one HTTP/1.1\r\nHost: a\r\nContent-Length: 2\r\n\r\nhi".to_vec();
    let second = b"GET /two HTTP/1.1\r\nHost: a\r\n\r\n".to_vec();
    let mut both = first.clone();
    both.extend_from_slice(&second);
    let (request, consumed) = complete(&both);
    assert_eq!(request.path, "/one");
    assert_eq!(request.body, b"hi");
    assert_eq!(consumed, first.len());
    let (request, consumed) = complete(&both[consumed..]);
    assert_eq!(request.path, "/two");
    assert_eq!(consumed, second.len());
}

#[test]
fn accepts_bare_line_feeds() {
    let (request, consumed) = complete(b"GET / HTTP/1.0\nX: 1\n\n");
    assert_eq!(request.header("x"), Some("1"));
    assert_eq!(consumed, 21);
}

#[test]
fn writes_responses() {
    let mut response = Response::text(200, "hi\n");
    response.set_header("X-One", "1");
    response.set_header("x-one", "2");
    assert!(response.has_header("CONTENT-TYPE"));
    assert!(!response.has_header("X-Two"));
    assert_eq!(
        String::from_utf8(response.to_bytes(false)).unwrap(),
        "HTTP/1.1 200 OK\r\nServer: localhost-rust\r\nContent-Length: 3\r\nConnection: keep-alive\r\nContent-Type: text/plain; charset=utf-8\r\nX-One: 2\r\n\r\nhi\n"
    );
    assert_eq!(
        Response::new(404, vec![1, 2]).to_bytes(true),
        b"HTTP/1.1 404 Not Found\r\nServer: localhost-rust\r\nContent-Length: 2\r\nContent-Type: application/octet-stream\r\nConnection: close\r\n\r\n\x01\x02"
    );
    assert_eq!(
        Response::empty(204).to_bytes(false),
        b"HTTP/1.1 204 No Content\r\nServer: localhost-rust\r\nContent-Length: 0\r\nConnection: keep-alive\r\n\r\n"
    );
    assert_eq!(
        Response::html(201, "x").headers,
        vec![(
            "Content-Type".to_string(),
            "text/html; charset=utf-8".to_string()
        )]
    );
}

#[test]
fn names_statuses() {
    let expected = [
        (200, "OK"),
        (201, "Created"),
        (204, "No Content"),
        (301, "Moved Permanently"),
        (302, "Found"),
        (303, "See Other"),
        (307, "Temporary Redirect"),
        (308, "Permanent Redirect"),
        (400, "Bad Request"),
        (403, "Forbidden"),
        (404, "Not Found"),
        (405, "Method Not Allowed"),
        (408, "Request Timeout"),
        (413, "Payload Too Large"),
        (500, "Internal Server Error"),
        (504, "Gateway Timeout"),
        (418, "Unknown"),
    ];
    for (status, text) in expected {
        assert_eq!(status_text(status), text);
    }
}

#[test]
fn waits_while_a_request_comes_in_pieces() {
    let raw = b"POST /a HTTP/1.1\r\nHost: h\r\nContent-Length: 5\r\n\r\nhello";
    for end in 0..raw.len() {
        assert!(matches!(parse_request(&raw[..end], 1024), ParseResult::Incomplete));
    }
    let (request, consumed) = complete(raw);
    assert_eq!(request.body, b"hello");
    assert_eq!(consumed, raw.len());
}

#[test]
fn waits_while_chunks_come_in_pieces() {
    let raw = b"POST / HTTP/1.0\r\nTransfer-Encoding: chunked\r\n\r\n3\r\nabc\r\n2\nde\n0\r\nT: 1\r\n\r\n";
    let parted = raw.len() - 17;
    assert!(raw[..parted].ends_with(b"abc\r"));
    for end in 0..raw.len() {
        match parse_request(&raw[..end], 1024) {
            ParseResult::Incomplete => assert_ne!(end, parted),
            ParseResult::BadRequest(_) => assert_eq!(end, parted),
            _ => panic!("the request is not there in full"),
        }
    }
    let (request, consumed) = complete(raw);
    assert_eq!(request.body, b"abcde");
    assert_eq!(consumed, raw.len());
}

#[test]
fn only_the_bytes_of_a_request_count() {
    let raw = b"POST /a HTTP/1.1\r\nHost: h\r\nContent-Length: 5\r\n\r\nhelloGET / HTT";
    let (request, consumed) = complete(raw);
    assert_eq!(consumed, raw.len() - 9);
    let (alone, length) = complete(&raw[..consumed]);
    assert_eq!(length, consumed);
    assert_eq!((alone.path, alone.body), (request.path, request.body));
}
