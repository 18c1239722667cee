use localhost::http::{parse_request, ParseResult, Request, Response};
use localhost::session::{decorate_response, find_cookie, SessionInfo, Sessions, SESSION_TTL};

fn request(cookie: Option<&str>) -> Request {
    let raw = match cookie {
        Some(cookie) => format!("GET / HTTP/1.0\r\nCookie: {}\r\n\r\n", cookie),
        None => "GET / HTTP/1.0\r\n\r\n".to_string(),
    };
    match parse_request(raw.as_bytes(), 10) {
        ParseResult::Complete(request, _) => request,
        _ => panic!("request should parse"),
    }
}

#[test]
fn finds_cookies() {
    let header = "a=1; LOCALHOST_SESSION=xyz=1 ; LOCALHOST_SESSION=other";
    assert_eq!(
        find_cookie(header, "LOCALHOST_SESSION"),
        Some("xyz=1".to_string())
    );
    assert_eq!(find_cookie(header, "a"), Some("1".to_string()));
    assert_eq!(find_cookie(header, "A"), None);
    assert_eq!(find_cookie("", "a"), None);
}

#[test]
fn sessions_count_visits() {
    let mut sessions = Sessions::new();
    let first = sessions.touch_session(&request(None), 10, 0x1234, 0xab);
    assert_eq!(first.id, "1234ab1");
    assert_eq!((first.visits, first.is_new), (1, true));
    let cookie = format!("x=y; LOCALHOST_SESSION={}", first.id);
    let second = sessions.touch_session(&request(Some(&cookie)), 20, 0x9999, 0xab);
    assert_eq!(second.id, first.id);
    assert_eq!((second.visits, second.is_new), (2, false));
    let other = sessions.touch_session(&request(None), 30, 0x1234, 0xab);
    assert_eq!(other.id, "1234ab2");
    let third = sessions.touch_session(&request(Some(&cookie)), 40, 0, 0);
    assert_eq!(third.visits, 3);
    let unknown = sessions.touch_session(
        &request(Some("LOCALHOST_SESSION=none")),
        50,
        1,
        2,
    );
    assert!(unknown.is_new);
    assert_eq!(unknown.id, "123");
}

#[test]
fn sessions_expire_after_an_hour() {
    let mut sessions = Sessions::new();
    let early = sessions.touch_session(&request(None), 0, 1, 1);
    let late = sessions.touch_session(&request(None), 5, 2, 1);
    let early = format!("LOCALHOST_SESSION={}", early.id);
    let late = format!("LOCALHOST_SESSION={}", late.id);
    sessions.expire_sessions(SESSION_TTL - 1);
    sessions.expire_sessions(SESSION_TTL);
    assert!(sessions.touch_session(&request(Some(&early)), SESSION_TTL, 3, 1).is_new);
    assert!(!sessions.touch_session(&request(Some(&late)), SESSION_TTL, 4, 1).is_new);
}

#[test]
fn answers_show_the_session() {
    let mut session = SessionInfo {
        id: "abc".to_string(),
        visits: 12,
        is_new: true,
    };
    let mut response = Response::empty(204);
    decorate_response(&mut response, &session, true, true);
    let found: Vec<(&str, &str)> = response
        .headers
        .iter()
        .map(|(name, value)| (name.as_str(), value.as_str()))
        .collect();
    assert_eq!(
        found,
        vec![
            (
                "Set-Cookie",
                "LOCALHOST_SESSION=abc; Path=/; HttpOnly; SameSite=Lax"
            ),
            ("X-Session-Visits", "12"),
            ("Connection", "close"),
        ]
    );
    session.is_new = false;
    let mut response = Response::empty(204);
    decorate_response(&mut response, &session, false, true);
    assert!(!response.has_header("Set-Cookie"));
    assert_eq!(
        response.headers[1],
        ("Connection".to_string(), "keep-alive".to_string())
    );
    let mut response = Response::empty(204);
    decorate_response(&mut response, &session, false, false);
    assert!(!response.has_header("Connection"));
}
