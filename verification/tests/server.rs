use localhost::answer::{script_response, ClientPage};
use localhost::cgi::{CgiError, CgiProcess, ExitEvent};
use localhost::client::{ReadStep, WriteStep};
use localhost::config::Config;
use localhost::epoll::{
    client_step, pipe_step, ClientIo, ClientStep, EpollEvent, PipeStep, CGI_STDIN_EVENTS,
    CGI_STDOUT_EVENTS, CLIENT_READ_EVENTS, CLIENT_READ_WRITE_EVENTS, CLIENT_WAIT_EVENTS, EPOLLERR,
    EPOLLHUP, EPOLLIN, EPOLLOUT, EPOLLRDHUP, LISTENER_EVENTS,
};
use localhost::http::Response;
use localhost::listen::plan_listeners;
use localhost::router::{HandlerResult, Step};
use localhost::server::{
    cgi_error_status, cgi_watches, no_server_response, plain_error, undo_watches, Exchange, FdKind,
    PipeResult, Reaction, Server, Watch,
};
use localhost::session::SessionInfo;
use localhost::transfer::{ReadEvent, WriteEvent};

const SECOND: u64 = 1_000_000_000;

fn server() -> Server {
    let (config, _) = Config::parse(
        "request_timeout 2;
         server { port 80; server_name a.test; route / { redirect /a; } }
         server { port 80; server_name b.test B2.test:81; client_max_body_size 7; route / { redirect /b; } }",
    )
    .unwrap();
    let (groups, _) = plan_listeners(&config.servers);
    let mut server = Server::new(config);
    for group in groups {
        server.add_listener(3, group);
    }
    server.register_client(3, 10, 0);
    server
}

fn receive(server: &mut Server, fd: i32, bytes: &[u8]) -> Reaction {
    assert_eq!(
        server.read_client(fd, ReadEvent::Bytes(bytes.to_vec()), 1),
        ReadStep::Parse
    );
    server.try_build_response(fd, 1, 2, 3)
}

fn start(
    server: &mut Server,
    fd: i32,
    process: CgiProcess,
    stdin: Option<i32>,
    stdout: Option<i32>,
    exchange: Exchange,
    now: u64,
) -> u64 {
    let job = server.number_cgi_job();
    server.start_cgi_job(job, fd, process, stdin, stdout, exchange, now);
    job
}

fn handled(reaction: Reaction) -> (Exchange, Response) {
    match reaction {
        Reaction::Handle(_, exchange, Step::Done(HandlerResult::Response(response))) => {
            (exchange, response)
        }
        _ => panic!("the request should be handled"),
    }
}

fn exchange() -> Exchange {
    Exchange {
        server: 0,
        session: SessionInfo {
            id: "s".to_string(),
            visits: 1,
            is_new: false,
        },
        close_after_write: false,
        http10: false,
    }
}

#[test]
fn events_lead_to_one_transfer() {
    assert_eq!(client_step(EPOLLIN | EPOLLERR, false), ClientStep::Close);
    assert_eq!(client_step(EPOLLOUT | EPOLLHUP, true), ClientStep::Close);
    let transfer = |io, hung_up| ClientStep::Transfer { io, hung_up };
    assert_eq!(
        client_step(EPOLLIN | EPOLLOUT, true),
        transfer(ClientIo::Write, false)
    );
    assert_eq!(
        client_step(EPOLLIN | EPOLLOUT | EPOLLRDHUP, false),
        transfer(ClientIo::Read, true)
    );
    assert_eq!(client_step(EPOLLIN, true), transfer(ClientIo::Nothing, false));
    assert_eq!(client_step(EPOLLOUT, false), transfer(ClientIo::Nothing, false));
    assert_eq!(pipe_step(EPOLLOUT | EPOLLERR, true), PipeStep::CloseInput);
    assert_eq!(pipe_step(EPOLLOUT, true), PipeStep::Write);
    assert_eq!(pipe_step(0, true), PipeStep::Poll);
    assert_eq!(pipe_step(EPOLLHUP, false), PipeStep::Read);
    assert_eq!(pipe_step(EPOLLOUT, false), PipeStep::Ignore);
}

#[test]
fn events_have_their_bits() {
    assert_eq!(CLIENT_READ_EVENTS, 0x2019);
    assert_eq!(CLIENT_READ_WRITE_EVENTS, 0x201d);
    assert_eq!(CLIENT_WAIT_EVENTS, 0x2018);
    assert_eq!(LISTENER_EVENTS, 0x19);
    assert_eq!(CGI_STDOUT_EVENTS, 0x2019);
    assert_eq!(CGI_STDIN_EVENTS, 0x201c);
    let event = EpollEvent::new(5, 6);
    assert_eq!((event.events, event.data), (5, 6));
    let event = EpollEvent::empty();
    assert_eq!((event.events, event.data), (0, 0));
}

#[test]
fn tells_descriptors_apart() {
    let server = server();
    assert_eq!(server.kind_of(3), FdKind::Listener);
    assert_eq!(server.kind_of(10), FdKind::Client);
    assert_eq!(server.kind_of(11), FdKind::Unknown);
    assert_eq!(server.handle_client_event(11, EPOLLIN), client_step(EPOLLIN, false));
}

#[test]
fn requests_go_to_the_server_of_their_host() {
    for (host, location) in [
        ("a.test", "/a"),
        ("b.test:8080", "/b"),
        ("b2.TEST", "/b"),
        ("unknown", "/a"),
    ] {
        let mut server = server();
        let raw = format!("GET / HTTP/1.1\r\nHost: {}\r\n\r\n", host);
        let (_, response) = handled(receive(&mut server, 10, raw.as_bytes()));
        assert!(response
            .headers
            .contains(&("Location".to_string(), location.to_string())));
    }
}

#[test]
fn answers_go_out_and_the_next_request_follows() {
    let mut server = server();
    let both = b"GET /1 HTTP/1.1\r\nHost: a.test\r\n\r\nGET /2 HTTP/1.1\r\nHost: b.test\r\nConnection: close\r\n\r\n";
    let (exchange, response) = handled(receive(&mut server, 10, both));
    assert!(!exchange.close_after_write);
    assert_eq!((exchange.session.visits, exchange.session.is_new), (1, true));
    assert_eq!(exchange.session.id, "231");
    let response = exchange.answer(response);
    assert!(response.has_header("Set-Cookie"));
    let bytes = response.to_bytes(false);
    server.queue_response(10, &response, false, 2);
    assert_eq!(
        server.handle_client_event(10, EPOLLIN | EPOLLOUT),
        client_step(EPOLLIN | EPOLLOUT, true)
    );
    assert_eq!(server.unsent(10).unwrap(), &bytes[..]);
    assert_eq!(server.write_client(10, WriteEvent::Bytes(4), 3), WriteStep::Wait);
    assert_eq!(server.unsent(10).unwrap(), &bytes[4..]);
    assert_eq!(server.write_client(10, WriteEvent::Retry, 4), WriteStep::Wait);
    assert_eq!(
        server.write_client(10, WriteEvent::Bytes(bytes.len() - 4), 5),
        WriteStep::Next
    );
    assert_eq!(server.write_client(10, WriteEvent::Bytes(1), 5), WriteStep::Rest);
    let (exchange, response) = handled(server.try_build_response(10, 6, 7, 8));
    assert!(exchange.close_after_write);
    assert_eq!(exchange.server, 1);
    let response = exchange.answer(response);
    server.queue_response(10, &response, true, 6);
    let length = server.unsent(10).unwrap().len();
    assert_eq!(
        server.write_client(10, WriteEvent::Bytes(length), 7),
        WriteStep::Close
    );
    assert!(server.close_client(10).job.is_none());
    assert_eq!(server.kind_of(10), FdKind::Unknown);
    assert!(server.unsent(10).is_none());
}

#[test]
fn broken_connections_are_dropped() {
    let mut server = server();
    assert_eq!(
        server.read_client(10, ReadEvent::Bytes(Vec::new()), 1),
        ReadStep::Close
    );
    assert_eq!(
        server.read_client(10, ReadEvent::Failed("x".to_string()), 1),
        ReadStep::Close
    );
    assert_eq!(server.read_client(10, ReadEvent::Retry, 1), ReadStep::Wait);
    server.queue_response(10, &Response::empty(204), false, 1);
    assert_eq!(server.write_client(10, WriteEvent::Bytes(0), 1), WriteStep::Close);
    assert_eq!(
        server.write_client(10, WriteEvent::Failed("x".to_string()), 1),
        WriteStep::Close
    );
}

#[test]
fn requests_that_cannot_be_read_are_rejected() {
    let mut server = server();
    assert!(matches!(
        receive(&mut server, 10, b"GET / HTTP/1.1\r\n"),
        Reaction::Nothing
    ));
    match receive(&mut server, 10, b"\r\n") {
        Reaction::Reject(400, Some(message)) => {
            assert_eq!(message, "HTTP/1.1 requests require a Host header")
        }
        _ => panic!("the request should be refused"),
    }
    assert_eq!(server.error_server(10), Some(0));
    assert_eq!(server.error_server(99), None);
    server.register_client(3, 11, 0);
    assert!(matches!(
        receive(&mut server, 11, b"GET / HTTP/1.0\r\nContent-Length: 1048577\r\n\r\n"),
        Reaction::Reject(413, None)
    ));
    server.register_client(4, 12, 0);
    match receive(&mut server, 12, b"GET / HTTP/1.0\r\n\r\n") {
        Reaction::Reply(response) => assert_eq!(response.body, b"server configuration not found\n"),
        _ => panic!("there should be no server"),
    }
    assert_eq!(no_server_response().status, 500);
    assert_eq!(plain_error(408).body, b"408 Request Timeout\n");
}

fn ends_with_status(server: &mut Server, fd: i32, line: &str) -> Vec<u8> {
    let bytes = server.unsent(fd).unwrap().to_vec();
    assert!(bytes.starts_with(line.as_bytes()));
    assert_eq!(
        server.write_client(fd, WriteEvent::Bytes(bytes.len()), 9 * SECOND),
        WriteStep::Close
    );
    bytes
}

#[test]
fn idle_clients_are_told_and_dropped() {
    let mut server = server();
    server.register_client(3, 11, SECOND);
    server.register_client(3, 12, 0);
    server.register_client(3, 13, 0);
    server.register_client(4, 14, 0);
    let process = CgiProcess::new(Vec::new(), 0, 5);
    start(&mut server, 13, process, None, Some(21), exchange(), 0);
    server.queue_response(12, &Response::text(200, "late"), false, 0);
    let late = server.unsent(12).unwrap().to_vec();
    assert!(server.timed_out_clients(2 * SECOND - 1).is_empty());
    let mut idle = server.timed_out_clients(2 * SECOND);
    idle.sort();
    assert_eq!(idle, vec![10, 12, 14]);
    assert_eq!(server.timeout_page(10), None);
    let pages = vec![
        ClientPage { fd: 99, page: Some(b"other".to_vec()) },
        ClientPage { fd: 10, page: Some(b"unused".to_vec()) },
    ];
    let mut told = server.close_timed_out_clients(&pages, 2 * SECOND);
    told.sort();
    assert_eq!(told, vec![10, 12, 14]);
    assert!(server.unsent(11).unwrap().is_empty());
    assert!(server.unsent(13).unwrap().is_empty());
    assert!(!server.is_idle(13));
    let first = ends_with_status(&mut server, 10, "HTTP/1.1 408 Request Timeout\r\n");
    assert!(first.ends_with(b"<h1>408 Request Timeout</h1></body></html>"));
    assert_eq!(ends_with_status(&mut server, 12, "HTTP/1.1 200 OK\r\n"), late);
    let last = ends_with_status(&mut server, 14, "HTTP/1.1 408 Request Timeout\r\n");
    assert!(last.ends_with(b"408 Request Timeout\n"));
}

#[test]
fn refusals_use_the_pages_of_the_server() {
    let (config, _) = Config::parse(
        "server { port 80; error_page 408 late.html; error_page 400 bad.html; }",
    )
    .unwrap();
    let (groups, _) = plan_listeners(&config.servers);
    let mut server = Server::new(config);
    for group in groups {
        server.add_listener(3, group);
    }
    server.register_client(3, 10, 0);
    server.register_client(3, 11, 0);
    assert_eq!(server.refusal_page(10, 400), Some("bad.html".to_string()));
    assert_eq!(server.refusal_page(10, 413), None);
    server.reject(10, 400, Some(b"bad".to_vec()), 1);
    assert!(server.has_response(10));
    assert_eq!(server.timeout_page(10), None);
    assert_eq!(server.timeout_page(11), Some("late.html".to_string()));
    let pages = vec![ClientPage { fd: 11, page: Some(b"late".to_vec()) }];
    server.close_timed_out_clients(&pages, 30 * SECOND);
    let bad = ends_with_status(&mut server, 10, "HTTP/1.1 400 Bad Request\r\n");
    assert!(bad.ends_with(b"\r\n\r\nbad"));
    let late = ends_with_status(&mut server, 11, "HTTP/1.1 408 Request Timeout\r\n");
    assert!(late.ends_with(b"\r\n\r\nlate"));
    server.queue_last_response(10, &no_server_response(), 1);
    ends_with_status(&mut server, 10, "HTTP/1.1 500 Internal Server Error\r\n");
}

#[test]
fn scripts_without_a_response_are_told_of() {
    let mut server = server();
    let config = server.server_config(0).clone();
    let response = Response::text(203, "out");
    assert_eq!(script_response(Ok(response), &config, None).body, b"out");
    let timeout = script_response(Err(CgiError::Timeout), &config, None);
    assert_eq!(timeout.status, 504);
    let failure = script_response(Err(CgiError::Io(String::new())), &config, None);
    assert_eq!(failure.status, 500);
    let mut last = exchange();
    last.close_after_write = true;
    server.answer(10, &last, timeout, 1);
    let bytes = ends_with_status(&mut server, 10, "HTTP/1.1 504 Gateway Timeout\r\n");
    let head = String::from_utf8(bytes).unwrap();
    assert!(head.contains("X-Session-Visits: 1\r\n"));
    server.answer(10, &exchange(), failure, 1);
    let length = server.unsent(10).unwrap().len();
    assert_eq!(
        server.write_client(10, WriteEvent::Bytes(length), 1),
        WriteStep::Next
    );
}

#[test]
fn sessions_are_kept_and_dropped() {
    let mut server = server();
    let first = b"GET / HTTP/1.1\r\nHost: a.test\r\n\r\n";
    let (exchange, _) = handled(receive(&mut server, 10, first));
    let second = format!(
        "GET / HTTP/1.1\r\nHost: a.test\r\nCookie: LOCALHOST_SESSION={}\r\n\r\n",
        exchange.session.id
    );
    let (exchange, _) = handled(receive(&mut server, 10, second.as_bytes()));
    assert_eq!((exchange.session.visits, exchange.session.is_new), (2, false));
    server.expire_sessions(3601 * SECOND);
    let (exchange, _) = handled(receive(&mut server, 10, second.as_bytes()));
    assert!(exchange.session.is_new);
}

#[test]
fn scripts_run_for_their_client() {
    let mut server = server();
    assert!(server.is_idle(10));
    let process = CgiProcess::new(b"abc".to_vec(), 0, 5);
    let job = start(&mut server, 10, process, Some(20), Some(21), exchange(), 1);
    assert!(!server.is_idle(10));
    assert_eq!(server.kind_of(20), FdKind::Pipe);
    assert_eq!(server.cgi_job_ids(), vec![job]);
    assert!(server.timed_out_clients(100 * SECOND).is_empty());
    assert_eq!(server.handle_cgi_event(20, EPOLLOUT), Some((job, PipeStep::Write)));
    assert_eq!(server.handle_cgi_event(22, EPOLLOUT), None);
    assert_eq!(server.pending_input(job), Some(&b"abc"[..]));
    assert!(matches!(
        server.cgi_written(20, job, WriteEvent::Bytes(1)),
        PipeResult::Open
    ));
    assert_eq!(server.pending_input(job), Some(&b"bc"[..]));
    assert!(matches!(
        server.cgi_written(20, job, WriteEvent::Bytes(2)),
        PipeResult::Closed
    ));
    assert_eq!(server.kind_of(20), FdKind::Unknown);
    assert_eq!(server.handle_cgi_event(21, EPOLLIN), Some((job, PipeStep::Read)));
    assert!(matches!(
        server.cgi_read(21, job, ReadEvent::Bytes(b"out".to_vec())),
        PipeResult::Open
    ));
    assert!(server.poll_cgi_job(job, 2, ExitEvent::Exited(true)).is_none());
    assert!(matches!(
        server.cgi_read(21, job, ReadEvent::Bytes(Vec::new())),
        PipeResult::Closed
    ));
    let response = match server.poll_cgi_job(job, 3, ExitEvent::Running) {
        Some(Ok(response)) => response,
        _ => panic!("the script should be done"),
    };
    assert_eq!(response.body, b"out");
    let finished = server.finish_cgi_job(job).unwrap();
    assert!(finished.has_client);
    assert!(finished.pipes.is_empty());
    assert_eq!(finished.job.client_fd, 10);
    assert!(server.is_idle(10));
    assert!(server.finish_cgi_job(job).is_none());
    assert!(server.poll_cgi_job(job, 4, ExitEvent::Running).is_none());
}

#[test]
fn scripts_fail_with_their_status() {
    let mut server = server();
    let process = CgiProcess::new(b"abc".to_vec(), 0, 5);
    let job = start(&mut server, 10, process, Some(20), Some(21), exchange(), 1);
    server.cgi_input_closed(20, job);
    assert_eq!(server.kind_of(20), FdKind::Unknown);
    assert!(matches!(
        server.cgi_read(21, job, ReadEvent::Failed(String::new())),
        PipeResult::Failed(CgiError::Io(_))
    ));
    match server.cgi_read(21, job, ReadEvent::Failed("lost".to_string())) {
        PipeResult::Failed(error) => assert_eq!(cgi_error_status(&error), 500),
        _ => panic!("the read should fail"),
    }
    assert!(matches!(
        server.poll_cgi_job(job, 5 * SECOND, ExitEvent::Running),
        Some(Err(CgiError::Timeout))
    ));
    assert_eq!(cgi_error_status(&CgiError::Timeout), 504);
    assert_eq!(cgi_error_status(&CgiError::InvalidOutput), 500);
    assert_eq!(server.finish_cgi_job(job).unwrap().pipes, vec![21]);
}

#[test]
fn a_dropped_client_takes_its_script_with_it() {
    let mut server = server();
    server.register_client(3, 11, 0);
    let first = CgiProcess::new(b"a".to_vec(), 0, 5);
    let second = CgiProcess::new(b"b".to_vec(), 0, 5);
    let one = start(&mut server, 10, first, Some(20), Some(21), exchange(), 1);
    let two = start(&mut server, 11, second, Some(22), Some(23), exchange(), 1);
    let closed = server.close_client(10);
    assert_eq!(closed.job, Some(one));
    let mut pipes = closed.pipes;
    pipes.sort();
    assert_eq!(pipes, vec![20, 21]);
    assert_eq!(server.cgi_job_ids(), vec![two]);
    assert_eq!(server.kind_of(20), FdKind::Unknown);
    assert_eq!(server.kind_of(22), FdKind::Pipe);
    assert_eq!(server.kind_of(11), FdKind::Client);
    assert!(server.pending_input(one).is_none());
}

#[test]
fn watches_are_set_in_order_and_undone() {
    let watches = cgi_watches(Some(20), Some(21), 10);
    assert_eq!(
        watches,
        vec![
            Watch {
                fd: 21,
                events: CGI_STDOUT_EVENTS,
                added: true
            },
            Watch {
                fd: 20,
                events: CGI_STDIN_EVENTS,
                added: true
            },
            Watch {
                fd: 10,
                events: CLIENT_WAIT_EVENTS,
                added: false
            },
        ]
    );
    assert!(undo_watches(&watches, 0).is_empty());
    assert_eq!(undo_watches(&watches, 1), vec![21]);
    assert_eq!(undo_watches(&watches, 2), vec![20, 21]);
    assert_eq!(undo_watches(&cgi_watches(None, Some(21), 10), 1), vec![21]);
}

#[test]
fn scripts_that_are_not_taken_in_keep_their_number() {
    let mut server = server();
    assert_eq!(server.number_cgi_job(), 1);
    let process = CgiProcess::new(Vec::new(), 0, 5);
    assert_eq!(start(&mut server, 10, process, None, Some(21), exchange(), 0), 2);
    assert_eq!(server.cgi_job_ids(), vec![2]);
}

#[test]
fn late_scripts_are_stopped() {
    let mut server = server();
    let process = CgiProcess::new(Vec::new(), 0, 5);
    let job = start(&mut server, 10, process, None, Some(21), exchange(), 0);
    assert!(!server.cgi_job_is_late(job, 5 * SECOND - 1));
    assert!(server.cgi_job_is_late(job, 5 * SECOND));
    assert!(!server.cgi_job_is_late(job + 1, 5 * SECOND));
    assert!(matches!(
        server.poll_cgi_job(job, 5 * SECOND, ExitEvent::Exited(false)),
        Some(Err(CgiError::Timeout))
    ));
}
