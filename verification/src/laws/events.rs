//! What holds of the events on descriptors, and of what they do to clients and scripts.
use vstd::prelude::*;
use vstd::utf8::*;

use crate::answer;
use crate::cgi::{CgiError, CgiErrorView, CgiView};
use crate::client::{ClientView, ReadStep, WriteStep};
use crate::config::{ConfigView, ServerView};
use crate::epoll;
use crate::epoll::{ClientIo, ClientStep, PipeStep};
use crate::http;
use crate::http::{ParseView, RequestView, ResponseView};
use crate::laws;
use crate::router;
use crate::server;
use crate::server::{
    CgiPipe, ExchangeView, FdKind, JobView, PipeResult, ReactionView, StateView, Watch,
};
use crate::text;
use crate::transfer::{ReadView, WriteView};
use crate::util;

verus! {

/// Whether an event says that something can be read, that something can be written, that
/// there was an error, that the other end is gone, or that it writes no more.
pub open spec fn is_readable(events: u32) -> bool {
    events & 0x001u32 != 0
}

pub open spec fn is_writable(events: u32) -> bool {
    events & 0x004u32 != 0
}

pub open spec fn is_broken(events: u32) -> bool {
    events & 0x008u32 != 0 || events & 0x010u32 != 0
}

pub open spec fn is_hung_up(events: u32) -> bool {
    events & 0x2000u32 != 0
}

proof fn lemma_masks(events: u32)
    ensures
        epoll::any_of(events, epoll::EPOLLERR | epoll::EPOLLHUP) <==> is_broken(events),
        epoll::any_of(events, epoll::EPOLLERR | epoll::EPOLLHUP | epoll::EPOLLRDHUP) <==> is_broken(
            events,
        ) || is_hung_up(events),
        epoll::any_of(events, epoll::CGI_STDOUT_EVENTS) <==> is_readable(events) || is_broken(
            events,
        ) || is_hung_up(events),
{
    let a = epoll::EPOLLERR;
    let b = epoll::EPOLLHUP;
    let c = epoll::EPOLLRDHUP;
    let d = epoll::EPOLLIN;
    assert(a == 0x008u32 && b == 0x010u32 && c == 0x2000u32 && d == 0x001u32);
    assert(events & (a | b) != 0 <==> events & 0x008u32 != 0 || events & 0x010u32 != 0)
        by (bit_vector)
        requires
            a == 0x008u32,
            b == 0x010u32,
    ;
    assert(events & (a | b | c) != 0 <==> events & 0x008u32 != 0 || events & 0x010u32 != 0 || events
        & 0x2000u32 != 0) by (bit_vector)
        requires
            a == 0x008u32,
            b == 0x010u32,
            c == 0x2000u32,
    ;
    assert(events & (d | a | b | c) != 0 <==> events & 0x001u32 != 0 || events & 0x008u32 != 0
        || events & 0x010u32 != 0 || events & 0x2000u32 != 0) by (bit_vector)
        requires
            a == 0x008u32,
            b == 0x010u32,
            c == 0x2000u32,
            d == 0x001u32,
    ;
}

/// An event on a client: one that is broken is dropped; to another, the response on its way
/// is written where it can be, and from one without a response something is read where it can
/// be. A client that hung up is told apart.
pub proof fn law_events_on_clients(events: u32, has_response: bool)
    ensures
        epoll::client_step_for(events, has_response) == (if is_broken(events) {
            ClientStep::Close
        } else {
            ClientStep::Transfer {
                io: if has_response && is_writable(events) {
                    ClientIo::Write
                } else if !has_response && is_readable(events) {
                    ClientIo::Read
                } else {
                    ClientIo::Nothing
                },
                hung_up: is_hung_up(events),
            }
        }),
{
    lemma_masks(events);
}

/// An event on a pipe to a script: one that is broken or hung up is closed, and one that can
/// take something is written to. On a pipe from a script: whatever there is leads to a read.
pub proof fn law_events_on_pipes(events: u32)
    ensures
        epoll::pipe_step_for(events, true) == (if is_broken(events) || is_hung_up(events) {
            PipeStep::CloseInput
        } else if is_writable(events) {
            PipeStep::Write
        } else {
            PipeStep::Poll
        }),
        epoll::pipe_step_for(events, false) == (if is_readable(events) || is_broken(events)
            || is_hung_up(events) {
            PipeStep::Read
        } else {
            PipeStep::Ignore
        }),
{
    lemma_masks(events);
}

/// What is watched for: on a client, that it sends, or with a response on its way that it can
/// take some of it, or with a script at work neither; on a listener, that someone comes; on
/// the pipes of a script, that there is output and that it takes input.
pub proof fn law_watched_events()
    ensures
        epoll::CLIENT_READ_EVENTS == 0x2019,
        epoll::CLIENT_READ_WRITE_EVENTS == 0x201d,
        epoll::CLIENT_WAIT_EVENTS == 0x2018,
        epoll::LISTENER_EVENTS == 0x19,
        epoll::CGI_STDOUT_EVENTS == 0x2019,
        epoll::CGI_STDIN_EVENTS == 0x201c,
{
    assert(0x001u32 | 0x008u32 | 0x010u32 | 0x2000u32 == 0x2019u32) by (bit_vector);
    assert(0x001u32 | 0x004u32 | 0x008u32 | 0x010u32 | 0x2000u32 == 0x201du32) by (bit_vector);
    assert(0x008u32 | 0x010u32 | 0x2000u32 == 0x2018u32) by (bit_vector);
    assert(0x001u32 | 0x008u32 | 0x010u32 == 0x19u32) by (bit_vector);
    assert(0x004u32 | 0x008u32 | 0x010u32 | 0x2000u32 == 0x201cu32) by (bit_vector);
}

/// For a script, its output is watched before its input, and its client only for the end of
/// the connection; where that fails, what was watched so far is let go, the last first.
pub proof fn law_watches_for_scripts(stdin: i32, stdout: i32, client: i32)
    ensures
        server::watches_for(Some(stdin), Some(stdout), client) == seq![
            Watch { fd: stdout, events: 0x2019, added: true },
            Watch { fd: stdin, events: 0x201c, added: true },
            Watch { fd: client, events: 0x2018, added: false },
        ],
        server::watches_for(None, Some(stdout), client) == seq![
            Watch { fd: stdout, events: 0x2019, added: true },
            Watch { fd: client, events: 0x2018, added: false },
        ],
        server::watches_for(Some(stdin), None, client) == seq![
            Watch { fd: stdin, events: 0x201c, added: true },
            Watch { fd: client, events: 0x2018, added: false },
        ],
        server::watches_for(None, None, client) == seq![
            Watch { fd: client, events: 0x2018, added: false },
        ],
{
    law_watched_events();
}

/// Of watches, those that were added are let go, the last one first.
pub proof fn law_watches_are_let_go(watches: Seq<Watch>, watch: Watch)
    ensures
        server::added_fds(Seq::empty()) == Seq::<i32>::empty(),
        server::added_fds(watches.push(watch)) == (if watch.added {
            seq![watch.fd] + server::added_fds(watches)
        } else {
            server::added_fds(watches)
        }),
{
    assert(watches.push(watch).drop_last() == watches);
    assert(Seq::<i32>::empty() + server::added_fds(watches) == server::added_fds(watches));
}

/// A client starts with nothing received and nothing on its way, by the listener it came by
/// and with the limit of that.
pub proof fn law_clients_start(listen_fd: i32, limit: usize, now: u64)
    ensures
        ({
            let client = ClientView::new(listen_fd, limit, now);
            &&& client.listen_fd == listen_fd
            &&& client.max_body_size == limit
            &&& client.last_active == now
            &&& client.read_buffer.len() == 0
            &&& client.write_buffer.len() == 0
            &&& client.write_position == 0
            &&& !client.close_after_write
            &&& client.waiting_cgi is None
            &&& client.wf()
        }),
{
}

/// What a client sends is gathered in order; the end of it and a failure end the connection,
/// and an attempt that brings nothing is only noted. Nothing else of the client changes.
pub proof fn law_clients_are_heard(client: ClientView, data: Seq<u8>, message: Seq<char>, now: u64)
    requires
        data.len() > 0,
    ensures
        client.after_read(ReadView::Bytes(data), now) == (
            ClientView {
                read_buffer: client.read_buffer + data,
                last_active: now,
                ..client
            },
            ReadStep::Parse,
        ),
        client.after_read(ReadView::Bytes(Seq::empty()), now).1 == ReadStep::Close,
        client.after_read(ReadView::Failed(message), now).1 == ReadStep::Close,
        client.after_read(ReadView::Retry, now) == (
            ClientView { last_active: now, ..client },
            ReadStep::Wait,
        ),
{
}

/// What is sent to a client goes out until it is all out; a write that takes nothing and a
/// failure end the connection, and an attempt that is to be repeated is only noted. Without
/// anything on its way nothing happens.
pub proof fn law_clients_are_answered(
    client: ClientView,
    n: usize,
    message: Seq<char>,
    event: WriteView,
    now: u64,
)
    requires
        client.wf(),
        n > 0,
    ensures
        client.write_position < client.write_buffer.len() ==> {
            let left = client.write_buffer.len() - client.write_position;
            &&& n < left ==> client.after_write(WriteView::Bytes(n), now) == (
                ClientView {
                    write_position: client.write_position + n,
                    last_active: now,
                    ..client
                },
                WriteStep::Wait,
            )
            &&& n >= left ==> client.after_write(WriteView::Bytes(n), now) == (
                ClientView {
                    write_buffer: Seq::empty(),
                    write_position: 0,
                    close_after_write: false,
                    last_active: now,
                    ..client
                },
                if client.close_after_write {
                    WriteStep::Close
                } else {
                    WriteStep::Next
                },
            )
            &&& client.after_write(WriteView::Bytes(0), now).1 == WriteStep::Close
            &&& client.after_write(WriteView::Failed(message), now).1 == WriteStep::Close
            &&& client.after_write(WriteView::Retry, now) == (
                ClientView { last_active: now, ..client },
                WriteStep::Wait,
            )
        },
        client.write_position >= client.write_buffer.len() ==> client.after_write(event, now) == (
            client,
            WriteStep::Rest,
        ),
{
}

/// A response is put on its way as a whole, with what becomes of the connection after it; what
/// the client sent is kept, and so is everything else.
pub proof fn law_responses_are_put_on_their_way(
    client: ClientView,
    response: ResponseView,
    close: bool,
    now: u64,
)
    ensures
        client.with_response(response, close, now) == (ClientView {
            write_buffer: response.bytes(close),
            write_position: 0,
            close_after_write: close,
            last_active: now,
            ..client
        }),
        client.closing() == (ClientView { close_after_write: true, ..client }),
{
}

/// A request is taken from what a client sent, and what follows it is left; as long as there
/// is no request, everything is left. The limit of the client decides how large it may be.
pub proof fn law_requests_are_taken(client: ClientView)
    ensures
        client.parsed() == http::parsed_request(client.read_buffer, client.max_body_size as int),
        client.parsed() matches ParseView::Complete(_, n) ==> client.after_parse() == (ClientView {
            read_buffer: client.read_buffer.skip(n),
            ..client
        }),
        client.parsed() !is Complete ==> client.after_parse() == client,
{
}

/// A client times out once it was idle for the number of seconds, but not while a script runs
/// for it.
pub proof fn law_idle_clients(client: ClientView, now: u64, timeout: u64)
    ensures
        client.is_timed_out(now, timeout) <==> client.waiting_cgi is None && (now
            >= client.last_active && now - client.last_active >= timeout * 1000000000 || timeout
            == 0),
{
}

/// A descriptor belongs to what it was taken in for.
pub proof fn law_kinds_of_descriptors(state: StateView, fd: i32)
    ensures
        state.listeners.contains_key(fd) ==> state.kind(fd) == FdKind::Listener,
        !state.listeners.contains_key(fd) && state.clients.contains_key(fd) ==> state.kind(fd)
            == FdKind::Client,
        !state.listeners.contains_key(fd) && !state.clients.contains_key(fd)
            && state.cgi_pipes.contains_key(fd) ==> state.kind(fd) == FdKind::Pipe,
        !state.listeners.contains_key(fd) && !state.clients.contains_key(fd)
            && !state.cgi_pipes.contains_key(fd) ==> state.kind(fd) == FdKind::Unknown,
{
}

/// A response goes to the client that it is for and to no other; for one that is gone it is
/// dropped. Nothing else changes.
pub proof fn law_responses_go_to_their_client(
    state: StateView,
    fd: i32,
    response: ResponseView,
    close: bool,
    now: u64,
    other: i32,
)
    ensures
        ({
            let after = state.with_queued(fd, response, close, now);
            &&& after == (StateView { clients: after.clients, ..state })
            &&& after.clients.contains_key(other) == state.clients.contains_key(other)
            &&& other != fd && state.clients.contains_key(other) ==> after.clients[other]
                == state.clients[other]
            &&& state.clients.contains_key(fd) ==> after.clients[fd].write_buffer
                == response.bytes(close) && after.clients[fd].close_after_write == close
                && after.clients[fd].read_buffer == state.clients[fd].read_buffer
                && after.has_response(fd)
        }),
{
    laws::http::lemma_bytes_of_response(response, close);
}

/// A script that is started for a client is the one that the client waits for; its pipes
/// belong to it, and nothing else changes.
pub proof fn law_scripts_are_taken_in(
    state: StateView,
    job: u64,
    fd: i32,
    process: CgiView,
    stdin: i32,
    stdout: i32,
    exchange: ExchangeView,
    now: u64,
    other: i32,
)
    requires
        state.clients.contains_key(fd),
        stdin != stdout,
    ensures
        ({
            let after = state.with_job(
                job,
                fd,
                process,
                Some(stdin),
                Some(stdout),
                exchange,
                now,
            );
            &&& after.cgi_jobs == state.cgi_jobs.insert(
                job,
                JobView { process, client_fd: fd, exchange },
            )
            &&& after.cgi_pipes[stdin] == CgiPipe::Stdin(job)
            &&& after.cgi_pipes[stdout] == CgiPipe::Stdout(job)
            &&& other != stdin && other != stdout ==> after.cgi_pipes.contains_key(other)
                == state.cgi_pipes.contains_key(other) && after.cgi_pipes[other]
                == state.cgi_pipes[other]
            &&& after.waiting(fd) == Some(job)
            &&& after.clients[fd] == (ClientView {
                waiting_cgi: Some(job),
                last_active: now,
                ..state.clients[fd]
            })
            &&& other != fd && state.clients.contains_key(other) ==> after.clients[other]
                == state.clients[other]
            &&& after.listeners == state.listeners
            &&& after.sessions == state.sessions
            &&& after.config == state.config
            &&& after.cgi_counter == state.cgi_counter
        }),
        state.with_job(job, fd, process, None, None, exchange, now).cgi_pipes == state.cgi_pipes,
        state.cgi_counter < u64::MAX ==> state.with_number().cgi_counter == state.cgi_counter + 1,
        state.with_number() == (StateView {
            cgi_counter: state.with_number().cgi_counter,
            ..state
        }),
{
}

/// A transfer on a pipe is noted for its script; the pipe is let go exactly if the transfer
/// closed it.
pub proof fn law_transfers_on_pipes(
    state: StateView,
    fd: i32,
    job: u64,
    outcome: (CgiView, Result<bool, CgiErrorView>),
)
    requires
        state.cgi_jobs.contains_key(job),
    ensures
        ({
            let after = state.after_transfer(fd, job, outcome);
            &&& after.cgi_jobs[job] == (JobView { process: outcome.0, ..state.cgi_jobs[job] })
            &&& after.cgi_jobs.dom() == state.cgi_jobs.dom()
            &&& outcome.1 == Ok::<bool, CgiErrorView>(true) ==> after.cgi_pipes
                == state.cgi_pipes.remove(fd)
            &&& outcome.1 != Ok::<bool, CgiErrorView>(true) ==> after.cgi_pipes == state.cgi_pipes
            &&& after.clients == state.clients
        }),
{
    let after = state.after_transfer(fd, job, outcome);
    assert(after.cgi_jobs.dom() == state.cgi_jobs.dom());
}

/// A script that is not done in time is told as 504, and one that failed as 500.
pub proof fn law_failed_scripts_are_told(
    error: CgiErrorView,
    server: ServerView,
    response: ResponseView,
    page: Option<Seq<u8>>,
)
    ensures
        server::error_status(error) == (if error is Timeout {
            504u16
        } else {
            500u16
        }),
        answer::script_view(Ok(response), server, page) == response,
        answer::script_view(Err(error), server, page) == router::error_view(
            if error is Timeout {
                504
            } else {
                500
            },
            server,
            page,
        ),
{
}

/// The page that goes to a client is the first that is there for it.
pub proof fn law_pages_for_clients(pages: Seq<(i32, Option<Seq<u8>>)>, fd: i32, k: int)
    requires
        0 <= k <= pages.len(),
        forall|j: int| 0 <= j < k ==> (#[trigger] pages[j]).0 != fd,
        k < pages.len() ==> pages[k].0 == fd,
    ensures
        answer::page_for(pages, fd) == (if k < pages.len() {
            pages[k].1
        } else {
            None
        }),
    decreases pages.len(),
{
    if k > 0 {
        let rest = pages.drop_first();
        assert(pages[0].0 != fd);
        assert forall|j: int| 0 <= j < k - 1 implies (#[trigger] rest[j]).0 != fd by {
            assert(rest[j] == pages[j + 1]);
        }
        law_pages_for_clients(rest, fd, k - 1);
    }
}

/// A client is refused by the first of the servers that it came by, with the page that this
/// one has for the status; where there is no server, with the bare status.
pub proof fn law_refusals(state: StateView, fd: i32, status: u16, page: Option<Seq<u8>>)
    ensures
        state.clients.contains_key(fd) && state.listeners.contains_key(
            state.clients[fd].listen_fd,
        ) ==> {
            let own = state.config.servers[state.listeners[state.clients[fd].listen_fd].servers[0] as int];
            &&& own.error_pages.contains_key(status) ==> state.refusal_page(fd, status) == Some(
                own.error_pages[status],
            )
            &&& !own.error_pages.contains_key(status) ==> state.refusal_page(fd, status) is None
            &&& page is Some && own.error_pages.contains_key(status) ==> state.refusal(
                fd,
                status,
                page,
            ).body == page->Some_0
            &&& !own.error_pages.contains_key(status) || page is None ==> laws::handling::is_page(
                state.refusal(fd, status, page),
                status,
                laws::handling::plain_page(status),
            )
        },
        state.clients.contains_key(fd) && !state.listeners.contains_key(
            state.clients[fd].listen_fd,
        ) ==> {
            let response = state.refusal(fd, status, page);
            &&& response.status == status
            &&& response.body == encode_utf8(
                text::decimal(status as nat) + seq![' '] + http::reason(status) + seq!['\n'],
            )
            &&& state.refusal_page(fd, status) is None
        },
        state.refusal(fd, status, page).status == status,
{
    reveal_strlit(" ");
    reveal_strlit("\n");
    assert(" "@ == seq![' '] && "\n"@ == seq!['\n']);
    if state.clients.contains_key(fd) && state.listeners.contains_key(state.clients[fd].listen_fd) {
        let own = state.config.servers[state.listeners[state.clients[fd].listen_fd].servers[0] as int];
        let bare = ServerView { error_pages: Map::empty(), ..own };
        laws::handling::lemma_refuses(bare, status, None);
        assert(router::error_view(status, bare, None) == router::error_view(status, own, None));
        if let Some(bytes) = page {
            let start = ResponseView::new(status, bytes);
            laws::http::law_set_header(
                start,
                "Content-Type"@,
                util::media_type(crate::path::raw_extension(encode_utf8(own.error_pages[status]))),
                "Content-Type"@,
            );
        }
    }
}

/// The first server of a group that goes by a host, or the first of all where none does or
/// none is asked for.
pub open spec fn is_chosen(
    group: Seq<usize>,
    servers: Seq<ServerView>,
    host: Option<Seq<char>>,
    k: int,
) -> bool {
    match host {
        Some(host) => {
            ||| 0 <= k < group.len() && goes_by(servers[group[k] as int], host) && forall|j: int|
                0 <= j < k ==> !goes_by(servers[#[trigger] group[j] as int], host)
            ||| k == 0 && forall|j: int|
                0 <= j < group.len() ==> !goes_by(servers[#[trigger] group[j] as int], host)
        },
        None => k == 0,
    }
}

/// Whether a name of a server is the host, the port and the case of the letters aside.
pub open spec fn goes_by(server: ServerView, host: Seq<char>) -> bool {
    exists|i: int|
        0 <= i < server.server_names.len() && util::hostname(#[trigger] server.server_names[i])
            == host
}

proof fn lemma_chosen(group: Seq<usize>, servers: Seq<ServerView>, host: Seq<char>, k: int)
    requires
        0 <= k <= group.len(),
        forall|j: int| 0 <= j < k ==> !goes_by(servers[#[trigger] group[j] as int], host),
        k < group.len() ==> goes_by(servers[group[k] as int], host),
    ensures
        server::named_index(group, servers, host) == k,
    decreases group.len(),
{
    if k > 0 {
        let rest = group.drop_first();
        assert(!goes_by(servers[group[0] as int], host));
        assert forall|j: int| 0 <= j < k - 1 implies !goes_by(
            servers[#[trigger] rest[j] as int],
            host,
        ) by {
            assert(rest[j] == group[j + 1]);
        }
        lemma_chosen(rest, servers, host, k - 1);
    }
}

/// A request goes to the server of its host among those that its client came by. Its exchange
/// is with that server, in the session of the request, and says whether the connection ends
/// with the answer.
pub proof fn law_exchanges(
    state: StateView,
    fd: i32,
    request: RequestView,
    k: int,
    now: u64,
    millis: u64,
    process: u64,
)
    requires
        state.clients.contains_key(fd),
        state.listeners.contains_key(state.clients[fd].listen_fd),
        state.listeners[state.clients[fd].listen_fd].servers.len() > 0,
        is_chosen(
            state.listeners[state.clients[fd].listen_fd].servers,
            state.config.servers,
            request.host(),
            k,
        ),
    ensures
        ({
            let group = state.listeners[state.clients[fd].listen_fd].servers;
            let (after, exchange) = state.opened(fd, request, now, millis, process);
            let (sessions, own) = state.sessions.touched(request, now, millis, process);
            &&& exchange == Some(
                ExchangeView {
                    server: group[k],
                    session: own,
                    close_after_write: request.should_close(),
                    http10: request.version == "HTTP/1.0"@,
                },
            )
            &&& after == (StateView { sessions, ..state })
        }),
{
    let group = state.listeners[state.clients[fd].listen_fd].servers;
    if let Some(host) = request.host() {
        if k < group.len() && goes_by(state.config.servers[group[k] as int], host) {
            lemma_chosen(group, state.config.servers, host, k);
        } else {
            lemma_chosen(group, state.config.servers, host, group.len() as int);
        }
    }
}

/// Without a client, or without the listener that it came by, there is no exchange, and
/// nothing changes.
pub proof fn law_no_exchange(
    state: StateView,
    fd: i32,
    request: RequestView,
    now: u64,
    millis: u64,
    process: u64,
)
    requires
        !state.clients.contains_key(fd) || !state.listeners.contains_key(
            state.clients[fd].listen_fd,
        ),
    ensures
        state.opened(fd, request, now, millis, process) == (state, None::<ExchangeView>),
        !state.clients.contains_key(fd) ==> state.reaction(fd, now, millis, process) == (
            state,
            ReactionView::Nothing,
        ),
{
}

/// What a client sent leads to a reaction: a request in full is taken out and handled by the
/// server of its exchange, in its session; with no server there is only an answer.
pub proof fn law_reactions(
    state: StateView,
    fd: i32,
    request: RequestView,
    n: int,
    now: u64,
    millis: u64,
    process: u64,
)
    requires
        state.clients.contains_key(fd),
        http::parsed_request(
            state.clients[fd].read_buffer,
            state.clients[fd].max_body_size as int,
        ) == ParseView::Complete(request, n),
    ensures
        ({
            let taken = StateView {
                clients: state.clients.insert(
                    fd,
                    ClientView {
                        read_buffer: state.clients[fd].read_buffer.skip(n),
                        ..state.clients[fd]
                    },
                ),
                ..state
            };
            let (after, exchange) = taken.opened(fd, request, now, millis, process);
            match exchange {
                Some(exchange) => state.reaction(fd, now, millis, process) == (
                    after,
                    ReactionView::Handle(
                        request,
                        exchange,
                        router::started(
                            request,
                            state.config.servers[exchange.server as int],
                            exchange.session,
                        ),
                    ),
                ),
                None => state.reaction(fd, now, millis, process) matches (
                    last,
                    ReactionView::Reply(response),
                ) && last == after && response.status == 500,
            }
        }),
{
}

/// The largest body of a request is what the servers of its listener allow; without one it is
/// a mebibyte.
pub proof fn law_limits_of_listeners(state: StateView, fd: i32)
    ensures
        state.listeners.contains_key(fd) ==> state.body_limit(fd)
            == state.listeners[fd].max_body_size,
        !state.listeners.contains_key(fd) ==> state.body_limit(fd) == 1024 * 1024,
{
}

/// The tables start empty, with the configuration.
pub proof fn law_tables_start_empty(config: ConfigView, fd: i32, job: u64, id: Seq<char>)
    ensures
        ({
            let state = StateView::new(config);
            &&& state.config == config
            &&& !state.listeners.contains_key(fd)
            &&& !state.clients.contains_key(fd)
            &&& !state.cgi_pipes.contains_key(fd)
            &&& !state.cgi_jobs.contains_key(job)
            &&& !state.sessions.by_id.contains_key(id)
            &&& state.sessions.counter == 0
            &&& state.cgi_counter == 0
        }),
{
}

/// The time of a client for a request is the number of seconds that the configuration has for
/// requests.
pub proof fn law_time_for_requests(state: StateView, fd: i32, now: u64)
    requires
        state.clients.contains_key(fd),
        state.clients[fd].last_active <= now,
    ensures
        state.times_out(fd, now) <==> state.clients[fd].waiting_cgi is None && now
            - state.clients[fd].last_active >= state.config.request_timeout * 1000000000,
        !state.clients.contains_key(fd) ==> !state.times_out(fd, now),
{
}

/// A client that is dropped is gone, and so is the script that ran for it with its pipes; a
/// script that ended is gone with its pipes, and its client waits no more. Whatever belongs
/// to others stays.
pub proof fn law_what_is_dropped(
    state: StateView,
    fd: i32,
    job: u64,
    other: i32,
    pipe: i32,
)
    ensures
        ({
            let after = state.without_client(fd);
            let own = state.waiting(fd);
            &&& !after.clients.contains_key(fd)
            &&& other != fd ==> after.clients.contains_key(other) == state.clients.contains_key(
                other,
            )
            &&& other != fd && state.clients.contains_key(other) ==> after.clients[other]
                == state.clients[other]
            &&& own is None ==> after.cgi_jobs == state.cgi_jobs && after.cgi_pipes
                == state.cgi_pipes
            &&& own is Some ==> after.cgi_jobs == state.cgi_jobs.remove(own->Some_0)
            &&& own is Some && state.cgi_pipes.contains_key(pipe) ==> after.cgi_pipes.contains_key(
                pipe,
            ) == (state.cgi_pipes[pipe].job() != own->Some_0)
            &&& after.sessions == state.sessions
            &&& after.listeners == state.listeners
            &&& after.config == state.config
        }),
        state.cgi_jobs.contains_key(job) ==> {
            let after = state.after_job(job);
            let client = state.cgi_jobs[job].client_fd;
            &&& after.cgi_jobs == state.cgi_jobs.remove(job)
            &&& state.cgi_pipes.contains_key(pipe) ==> after.cgi_pipes.contains_key(pipe) == (
            state.cgi_pipes[pipe].job() != job)
            &&& state.clients.contains_key(client) ==> after.clients[client] == (ClientView {
                waiting_cgi: None,
                ..state.clients[client]
            })
            &&& other != client && state.clients.contains_key(other) ==> after.clients[other]
                == state.clients[other]
        },
        !state.cgi_jobs.contains_key(job) ==> state.after_job(job) == state,
{
}

/// What a script has come to is noted for it alone, and the outcome of a transfer is told as
/// closed, open or failed.
pub proof fn law_scripts_are_noted(state: StateView, job: u64, process: CgiView, other: u64)
    requires
        state.cgi_jobs.contains_key(job),
    ensures
        ({
            let after = state.with_process(job, process);
            &&& after.cgi_jobs[job].process == process
            &&& after.cgi_jobs[job].client_fd == state.cgi_jobs[job].client_fd
            &&& after.cgi_jobs[job].exchange == state.cgi_jobs[job].exchange
            &&& other != job ==> after.cgi_jobs.contains_key(other) == state.cgi_jobs.contains_key(
                other,
            ) && after.cgi_jobs[other] == state.cgi_jobs[other]
            &&& after == (StateView { cgi_jobs: after.cgi_jobs, ..state })
        }),
        server::pipe_result(PipeResult::Closed) == Ok::<bool, CgiErrorView>(true),
        server::pipe_result(PipeResult::Open) == Ok::<bool, CgiErrorView>(false),
        forall|error: CgiError| #[trigger]
            server::pipe_result(PipeResult::Failed(error)) == Err::<bool, CgiErrorView>(error@),
{
}

} // verus!
