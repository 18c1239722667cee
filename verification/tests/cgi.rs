use localhost::cgi::{environment, parse_output, CgiError, CgiProcess, ExitEvent};
use localhost::http::{parse_request, ParseResult, Response};
use localhost::transfer::{ReadEvent, WriteEvent};

const SECOND: u64 = 1_000_000_000;

fn header<'a>(response: &'a Response, name: &str) -> Option<&'a str> {
    response
        .headers
        .iter()
        .find(|(key, _)| key == name)
        .map(|(_, value)| value.as_str())
}

#[test]
fn sets_the_environment_of_a_script() {
    let raw = b"POST /cgi/a.py?x=1 HTTP/1.1\r\nHost: h:1\r\nContent-Type: text/plain\r\nX-My_Name: v\r\nContent-Length: 2\r\n\r\nhi";
    let ParseResult::Complete(request, _) = parse_request(raw, 100) else {
        panic!("request should parse");
    };
    let list = environment(&request, b"/srv/cgi/a.py");
    let expected = [
        ("GATEWAY_INTERFACE", "CGI/1.1"),
        ("REQUEST_METHOD", "POST"),
        ("SCRIPT_FILENAME", "/srv/cgi/a.py"),
        ("SCRIPT_NAME", "/cgi/a.py"),
        ("PATH_INFO", "/srv/cgi/a.py"),
        ("REQUEST_URI", "/cgi/a.py?x=1"),
        ("QUERY_STRING", "x=1"),
        ("SERVER_PROTOCOL", "HTTP/1.1"),
        ("CONTENT_LENGTH", "2"),
        ("CONTENT_TYPE", "text/plain"),
        ("HTTP_HOST", "h:1"),
        ("HTTP_CONTENT_TYPE", "text/plain"),
        ("HTTP_X_MY_NAME", "v"),
        ("HTTP_CONTENT_LENGTH", "2"),
    ];
    let found: Vec<(&str, &str)> = list
        .iter()
        .map(|(name, value)| (name.as_str(), std::str::from_utf8(value).unwrap()))
        .collect();
    assert_eq!(found, expected);
    let list = environment(&request, b"/\xff/a.py");
    assert_eq!(list[2], ("SCRIPT_FILENAME".to_string(), b"/\xff/a.py".to_vec()));
    assert_eq!(list[4], ("PATH_INFO".to_string(), b"/\xff/a.py".to_vec()));
}

#[test]
fn reads_the_output_of_a_script() {
    let response = parse_output(
        b"Status: 201 Created\r\nX-A: 1\r\nx-a: 2\r\nContent-Length: 99\r\nServer: me\r\nConnection: x\r\nTransfer-Encoding: y\r\nnonsense\r\nContent-Type: text/html\r\n\r\nbody\r\n\r\nmore",
    );
    assert_eq!(response.status, 201);
    assert_eq!(response.body, b"body\r\n\r\nmore");
    assert_eq!(
        response.headers,
        vec![
            ("X-A".to_string(), "2".to_string()),
            ("Content-Type".to_string(), "text/html".to_string())
        ]
    );
}

#[test]
fn output_without_headers_is_plain_text() {
    let response = parse_output(b"just text\n");
    assert_eq!(response.status, 200);
    assert_eq!(response.body, b"just text\n");
    assert_eq!(header(&response, "Content-Type"), Some("text/plain; charset=utf-8"));
}

#[test]
fn odd_output_is_read_as_far_as_it_goes() {
    let response = parse_output(b"Status: soon\nX: \xff\n\nrest");
    assert_eq!(response.status, 200);
    assert_eq!(response.body, b"rest");
    assert_eq!(header(&response, "X"), Some("\u{fffd}"));
    assert_eq!(header(&response, "Content-Type"), Some("text/plain; charset=utf-8"));
}

#[test]
fn gives_a_script_its_body() {
    let mut process = CgiProcess::new(b"hello".to_vec(), 0, 5);
    assert!(process.takes_input());
    assert_eq!(process.pending_input(), b"hello");
    assert!(matches!(process.write_stdin_once(WriteEvent::Bytes(2)), Ok(false)));
    assert_eq!(process.pending_input(), b"llo");
    assert!(matches!(process.write_stdin_once(WriteEvent::Retry), Ok(false)));
    assert!(matches!(process.write_stdin_once(WriteEvent::Bytes(0)), Ok(false)));
    assert!(matches!(process.write_stdin_once(WriteEvent::Bytes(3)), Ok(true)));
    assert!(!process.takes_input());
    assert!(matches!(process.write_stdin_once(WriteEvent::Retry), Ok(true)));
    let mut process = CgiProcess::new(b"x".to_vec(), 0, 5);
    match process.write_stdin_once(WriteEvent::Failed("broken".to_string())) {
        Err(CgiError::Io(message)) => assert_eq!(message, "broken"),
        _ => panic!("the write should fail"),
    }
    process.close_stdin();
    assert!(!process.takes_input());
    assert!(!CgiProcess::new(Vec::new(), 0, 5).takes_input());
}

#[test]
fn waits_for_the_end_of_a_script() {
    let mut process = CgiProcess::new(Vec::new(), 0, 5);
    assert!(process.poll(1, ExitEvent::Running).is_none());
    let read = process.read_stdout_once(ReadEvent::Bytes(b"A: 1\r\n\r\n".to_vec()));
    assert!(matches!(read, Ok(false)));
    assert!(process.poll(2, ExitEvent::Exited(true)).is_none());
    assert!(matches!(process.read_stdout_once(ReadEvent::Retry), Ok(false)));
    assert!(matches!(
        process.read_stdout_once(ReadEvent::Bytes(b"ok".to_vec())),
        Ok(false)
    ));
    assert!(matches!(process.read_stdout_once(ReadEvent::Bytes(Vec::new())), Ok(true)));
    assert!(!process.gives_output());
    match process.poll(3, ExitEvent::Running) {
        Some(Ok(response)) => {
            assert_eq!(response.body, b"ok");
            assert_eq!(header(&response, "A"), Some("1"));
        }
        _ => panic!("the script should be done"),
    }
}

#[test]
fn scripts_fail_in_three_ways() {
    let mut process = CgiProcess::new(Vec::new(), 7, 5);
    assert!(process.poll(5 * SECOND + 6, ExitEvent::Running).is_none());
    assert!(matches!(
        process.poll(5 * SECOND + 7, ExitEvent::Exited(true)),
        Some(Err(CgiError::Timeout))
    ));
    let mut process = CgiProcess::new(Vec::new(), 0, 5);
    assert!(matches!(process.read_stdout_once(ReadEvent::Bytes(Vec::new())), Ok(true)));
    assert!(matches!(
        process.poll(1, ExitEvent::Exited(false)),
        Some(Err(CgiError::InvalidOutput))
    ));
    let mut process = CgiProcess::new(Vec::new(), 0, 5);
    match process.poll(1, ExitEvent::Failed("lost".to_string())) {
        Some(Err(CgiError::Io(message))) => assert_eq!(message, "lost"),
        _ => panic!("the wait should fail"),
    }
    assert!(matches!(
        process.read_stdout_once(ReadEvent::Failed("lost".to_string())),
        Err(CgiError::Io(_))
    ));
}
