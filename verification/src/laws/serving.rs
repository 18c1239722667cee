//! What holds of listeners, connections, scripts and the tables of the event loop.
use vstd::prelude::*;

use crate::answer;
use crate::bytes;
use crate::cgi;
use crate::cgi::{CgiErrorView, CgiView, ExitEvent};
use crate::client::{ClientView, WriteStep};
use crate::config::ServerView;
use crate::epoll;
use crate::epoll::{ClientIo, ClientStep};
use crate::http;
use crate::http::{ParseView, ResponseView};
use crate::laws;
use crate::listen;
use crate::listen::{EndpointView, PlanView};
use crate::server;
use crate::server::{ReactionView, StateView};
use crate::text;
use crate::transfer::WriteView;

verus! {

/// Whether an address is sound: no name stands for two of its servers.
pub open spec fn names_differ(endpoint: EndpointView) -> bool {
    endpoint.server_names.no_duplicates()
}

/// Whether no two of the addresses are the same, and each is sound.
pub open spec fn endpoints_differ(endpoints: Seq<EndpointView>) -> bool {
    &&& forall|i: int, j: int|
        0 <= i < j < endpoints.len() ==> (#[trigger] endpoints[i]).host != (
        #[trigger] endpoints[j]).host || endpoints[i].port != endpoints[j].port
    &&& forall|i: int| 0 <= i < endpoints.len() ==> names_differ(#[trigger] endpoints[i])
}

/// The number of servers that listen at the addresses.
pub open spec fn listening(endpoints: Seq<EndpointView>) -> nat
    decreases endpoints.len(),
{
    if endpoints.len() == 0 {
        0
    } else {
        listening(endpoints.drop_last()) + endpoints.last().servers.len()
    }
}

/// The number of ports that servers are configured for.
pub open spec fn configured(servers: Seq<ServerView>) -> nat
    decreases servers.len(),
{
    if servers.len() == 0 {
        0
    } else {
        configured(servers.drop_last()) + servers.last().ports.len()
    }
}

proof fn lemma_with_names(names: Seq<Seq<char>>, list: Seq<Seq<char>>)
    requires
        names.no_duplicates(),
    ensures
        listen::with_names(names, list).0.no_duplicates(),
    decreases list.len(),
{
    if list.len() > 0 && !names.contains(list[0]) {
        let longer = names.push(list[0]);
        assert forall|i: int, j: int| 0 <= i < longer.len() && 0 <= j < longer.len() && i
            != j implies longer[i] != longer[j] by {
            if i < names.len() {
                assert(longer[i] == names[i] && names.contains(names[i]));
            }
            if j < names.len() {
                assert(longer[j] == names[j] && names.contains(names[j]));
            }
        }
        lemma_with_names(longer, list.drop_first());
    }
}

proof fn lemma_listening_update(endpoints: Seq<EndpointView>, i: int, endpoint: EndpointView)
    requires
        0 <= i < endpoints.len(),
    ensures
        listening(endpoints.update(i, endpoint)) == listening(endpoints)
            - endpoints[i].servers.len() + endpoint.servers.len(),
    decreases endpoints.len(),
{
    let after = endpoints.update(i, endpoint);
    if i == endpoints.len() - 1 {
        assert(after.drop_last() == endpoints.drop_last());
    } else {
        lemma_listening_update(endpoints.drop_last(), i, endpoint);
        assert(after.drop_last() == endpoints.drop_last().update(i, endpoint));
    }
}

proof fn lemma_with_port(plan: PlanView, index: usize, server: ServerView, port: u16)
    requires
        endpoints_differ(plan.endpoints),
    ensures
        endpoints_differ(plan.with_port(index, server, port).endpoints),
        ({
            let after = plan.with_port(index, server, port);
            listening(after.endpoints) + after.warnings.len() == listening(plan.endpoints)
                + plan.warnings.len() + 1
        }),
{
    let i = listen::endpoint_index(plan.endpoints, server.host, port);
    listen::lemma_endpoint_index(plan.endpoints, server.host, port);
    let found = i < plan.endpoints.len();
    let base = if found {
        plan.endpoints[i]
    } else {
        EndpointView::new(server.host, port)
    };
    let (endpoint, warning) = base.with_server(index, server);
    let after = plan.with_port(index, server, port);
    assert(names_differ(base));
    lemma_with_names(base.server_names, server.server_names);
    assert(names_differ(endpoint));
    assert(endpoint.host == server.host && endpoint.port == port);
    assert forall|x: int, y: int| 0 <= x < y < after.endpoints.len() implies (
    #[trigger] after.endpoints[x]).host != (#[trigger] after.endpoints[y]).host
        || after.endpoints[x].port != after.endpoints[y].port by {
        if found {
            assert(after.endpoints[x].host == plan.endpoints[x].host);
            assert(after.endpoints[y].host == plan.endpoints[y].host);
        } else if y < plan.endpoints.len() {
            assert(after.endpoints[x] == plan.endpoints[x]);
            assert(after.endpoints[y] == plan.endpoints[y]);
        } else {
            assert(after.endpoints[x] == plan.endpoints[x]);
        }
    }
    assert forall|x: int| 0 <= x < after.endpoints.len() implies names_differ(
        #[trigger] after.endpoints[x],
    ) by {
        if x < plan.endpoints.len() {
            assert(names_differ(plan.endpoints[x]));
        }
    }
    if found {
        lemma_listening_update(plan.endpoints, i, endpoint);
    } else {
        assert(after.endpoints.drop_last() == plan.endpoints);
    }
}

proof fn lemma_with_ports(plan: PlanView, index: usize, server: ServerView, ports: Seq<u16>)
    requires
        endpoints_differ(plan.endpoints),
    ensures
        endpoints_differ(plan.with_ports(index, server, ports).endpoints),
        ({
            let after = plan.with_ports(index, server, ports);
            listening(after.endpoints) + after.warnings.len() == listening(plan.endpoints)
                + plan.warnings.len() + ports.len()
        }),
    decreases ports.len(),
{
    if ports.len() > 0 {
        lemma_with_ports(plan, index, server, ports.drop_last());
        lemma_with_port(
            plan.with_ports(index, server, ports.drop_last()),
            index,
            server,
            ports.last(),
        );
    }
}

/// Every port of every server is listened at, or there is a warning about it; servers that
/// name the same address share it, and no name stands for two servers there.
pub proof fn law_listeners(servers: Seq<ServerView>)
    ensures
        endpoints_differ(listen::plan_for(servers).endpoints),
        listening(listen::plan_for(servers).endpoints) + listen::plan_for(servers).warnings.len()
            == configured(servers),
    decreases servers.len(),
{
    if servers.len() > 0 {
        law_listeners(servers.drop_last());
        lemma_with_ports(
            listen::plan_for(servers.drop_last()),
            (servers.len() - 1) as usize,
            servers.last(),
            servers.last().ports,
        );
    }
}

proof fn lemma_named_index(group: Seq<usize>, servers: Seq<ServerView>, host: Seq<char>)
    ensures
        0 <= server::named_index(group, servers, host) <= group.len(),
        forall|j: int|
            0 <= j < server::named_index(group, servers, host) ==> !server::serves_host(
                servers[#[trigger] group[j] as int],
                host,
            ),
        server::named_index(group, servers, host) < group.len() ==> server::serves_host(
            servers[group[server::named_index(group, servers, host)] as int],
            host,
        ),
    decreases group.len(),
{
    if group.len() > 0 && !server::serves_host(servers[group[0] as int], host) {
        let rest = group.drop_first();
        lemma_named_index(rest, servers, host);
        assert forall|j: int|
            0 <= j < server::named_index(group, servers, host) implies !server::serves_host(
            servers[#[trigger] group[j] as int],
            host,
        ) by {
            if j > 0 {
                assert(group[j] == rest[j - 1]);
            }
        }
    }
}

/// A request goes to the first server of its address that has the host for a name, and to
/// the first of all where none has, or where it names no host.
pub proof fn law_virtual_hosts(
    group: Seq<usize>,
    servers: Seq<ServerView>,
    host: Option<Seq<char>>,
    i: int,
)
    requires
        0 <= i < group.len(),
    ensures
        group.contains(server::chosen_server(group, servers, host)),
        host is None ==> server::chosen_server(group, servers, host) == group[0],
        host matches Some(name) ==> {
            &&& server::serves_host(servers[group[i] as int], name) ==> server::serves_host(
                servers[server::chosen_server(group, servers, host) as int],
                name,
            )
            &&& server::serves_host(servers[group[i] as int], name) && (forall|j: int|
                0 <= j < i ==> !server::serves_host(servers[#[trigger] group[j] as int], name))
                ==> server::chosen_server(group, servers, host) == group[i]
            &&& (forall|j: int|
                0 <= j < group.len() ==> !server::serves_host(
                    servers[#[trigger] group[j] as int],
                    name,
                )) ==> server::chosen_server(group, servers, host) == group[0]
        },
{
    if let Some(name) = host {
        lemma_named_index(group, servers, name);
        let k = server::named_index(group, servers, name);
        if k < group.len() {
            assert(group[k] == server::chosen_server(group, servers, host));
        }
        if server::serves_host(servers[group[i] as int], name) {
            assert(k <= i);
        }
    }
}

/// An event on a client leads to one transfer at most: never to a read while a response is
/// on its way, so that no response takes the place of another.
pub proof fn law_one_transfer_per_event(events: u32, has_response: bool)
    ensures
        epoll::client_step_for(events, has_response) matches ClientStep::Transfer { io, .. } ==> {
            &&& has_response ==> io != ClientIo::Read
            &&& !has_response ==> io != ClientIo::Write
        },
{
}

/// A response goes out in order and in full: a write takes its bytes from the front of what
/// is left, and only the last one ends the response.
pub proof fn law_responses_go_out_in_order(client: ClientView, n: usize, now: u64)
    requires
        client.wf(),
        0 < n <= client.write_buffer.len() - client.write_position,
    ensures
        ({
            let (after, step) = client.after_write(WriteView::Bytes(n), now);
            let left = client.write_buffer.skip(client.write_position);
            if n < left.len() {
                &&& step == WriteStep::Wait
                &&& after.write_buffer.skip(after.write_position) == left.skip(n as int)
            } else {
                &&& !after.has_response()
                &&& step == (if client.close_after_write {
                    WriteStep::Close
                } else {
                    WriteStep::Next
                })
            }
        }),
{
    let (after, step) = client.after_write(WriteView::Bytes(n), now);
    let left = client.write_buffer.skip(client.write_position);
    if n < left.len() {
        assert(after.write_buffer.skip(after.write_position) == left.skip(n as int));
    }
}

/// Requests that came in together are taken one after the other: the first is read as if it
/// was alone, and the bytes of the next are left.
pub proof fn law_requests_are_taken_in_turn(client: ClientView, s: Seq<u8>, t: Seq<u8>)
    requires
        client.read_buffer == s + t,
        laws::http::is_crlf_framed(s),
        http::parsed_request(s, client.max_body_size as int) matches ParseView::Complete(_, n) && n
            == s.len(),
    ensures
        client.parsed() == http::parsed_request(s, client.max_body_size as int),
        client.after_parse().read_buffer == t,
{
    laws::http::law_pipelined_requests(s, t, client.max_body_size as int);
}

/// A client for which a script runs is not timed out; another one is, exactly if it was idle
/// for the whole time.
pub proof fn law_timeouts(client: ClientView, now: u64, timeout: u64)
    ensures
        client.waiting_cgi is Some ==> !client.is_timed_out(now, timeout),
        client.waiting_cgi is None && client.last_active <= now ==> client.is_timed_out(
            now,
            timeout,
        ) == (now - client.last_active >= timeout * cgi::NANOS_PER_SECOND),
{
}

/// The tables of the event loop change with the end of the time for requests in this way
/// only: an idle client without a response on its way gets one with the status 408, an idle
/// client with one keeps it, and for both it is the last; every other client stays as it is,
/// and so does everything else.
pub proof fn law_idle_clients_are_told(
    state: StateView,
    pages: Seq<(i32, Option<Seq<u8>>)>,
    now: u64,
    fd: i32,
)
    requires
        state.clients.contains_key(fd),
    ensures
        ({
            let before = state.clients[fd];
            let after = state.after_timeouts(pages, now);
            let client = after.clients[fd];
            let answer = state.refusal(fd, 408, answer::page_for(pages, fd));
            &&& after == (StateView { clients: after.clients, ..state })
            &&& after.clients.dom() == state.clients.dom()
            &&& if !state.times_out(fd, now) {
                client == before
            } else if before.has_response() {
                client == (ClientView { close_after_write: true, ..before })
            } else {
                &&& answer.status == 408
                &&& client.write_buffer == answer.bytes(true)
                &&& client.write_position == 0
                &&& client.close_after_write
                &&& client.read_buffer == before.read_buffer
            }
        }),
{
    assert(state.after_timeouts(pages, now).clients.dom() == state.clients.dom());
    lemma_refusal_status(state, fd, 408, answer::page_for(pages, fd));
}

proof fn lemma_refusal_status(
    state: StateView,
    fd: i32,
    status: u16,
    page: Option<Seq<u8>>,
)
    ensures
        state.refusal(fd, status, page).status == status,
{
}

/// A client that is refused is told the status, and with the last byte of that the
/// connection ends.
pub proof fn law_refusals_end_the_connection(
    state: StateView,
    fd: i32,
    status: u16,
    page: Option<Seq<u8>>,
    now: u64,
    later: u64,
)
    requires
        state.clients.contains_key(fd),
        state.refusal(fd, status, page).bytes(true).len() <= usize::MAX,
    ensures
        ({
            let answer = state.refusal(fd, status, page);
            let client = state.refused(fd, status, page, now).clients[fd];
            let all = client.write_buffer.len() as usize;
            &&& answer.status == status
            &&& client.write_buffer == answer.bytes(true)
            &&& client.after_write(WriteView::Bytes(all), later).1 == WriteStep::Close
        }),
{
    let answer = state.refusal(fd, status, page);
    lemma_refusal_status(state, fd, status, page);
    laws::http::lemma_bytes_of_response(answer, true);
}

/// A request that cannot be read is refused with the status 400 and the reason, one that is
/// too large with the status 413; nothing else is done about it.
pub proof fn law_unreadable_requests_are_refused(
    state: StateView,
    fd: i32,
    now: u64,
    millis: u64,
    process: u64,
)
    requires
        state.clients.contains_key(fd),
    ensures
        ({
            let (after, reaction) = state.reaction(fd, now, millis, process);
            match state.clients[fd].parsed() {
                ParseView::BadRequest(message) => after == state && reaction
                    == ReactionView::Reject(400, Some(message)),
                ParseView::TooLarge => after == state && reaction == ReactionView::Reject(413, None),
                ParseView::Incomplete => after == state && reaction == ReactionView::Nothing,
                ParseView::Complete(_, _) => reaction is Handle || reaction is Reply,
            }
        }),
{
    assert(state.with_client(fd, state.clients[fd]).clients == state.clients);
}

/// A script that is not done in time is given up, whatever it has put out.
pub proof fn law_scripts_time_out(process: CgiView, now: u64, event: ExitEvent)
    requires
        now >= process.deadline,
    ensures
        process.outcome(now, event) matches Some(Err(error)) && error is Timeout
            && server::error_status(error) == 504,
{
}

/// A script that is within its time is not given up: nothing is decided before it has ended
/// and its output has been read to the end, and then its success decides.
pub proof fn law_scripts_are_awaited(process: CgiView, now: u64, event: ExitEvent)
    requires
        now < process.deadline,
        event !is Failed,
    ensures
        process.outcome(now, event) is None <==> process.stdout_open || process.exit_after(
            event,
        ) is None,
        process.outcome(now, event) matches Some(Ok(response)) ==> process.exit_after(event)
            == Some(true) && response == cgi::output_response(process.output),
        process.outcome(now, event) matches Some(Err(error)) ==> process.exit_after(event) == Some(
            false,
        ) && server::error_status(error) == 500,
{
}

/// The body of a request goes to the script in order and in full: its input is closed only
/// after the last byte.
pub proof fn law_scripts_get_the_body(process: CgiView, n: usize)
    requires
        process.wf(),
        process.stdin_open,
        0 < n <= process.body.len() - process.written,
    ensures
        ({
            let (after, closed) = process.after_write(WriteView::Bytes(n));
            let left = process.body.skip(process.written);
            &&& after.body.skip(after.written) == left.skip(n as int)
            &&& closed == Ok::<bool, CgiErrorView>(n == left.len())
            &&& after.stdin_open == (n < left.len())
        }),
{
    let (after, closed) = process.after_write(WriteView::Bytes(n));
    let left = process.body.skip(process.written);
    assert(after.body.skip(after.written) == left.skip(n as int));
}

/// Whether a response sets none of the headers that the server sets itself.
pub open spec fn sets_no_reserved(response: ResponseView) -> bool {
    forall|name: Seq<char>| #[trigger]
        cgi::is_reserved(name) ==> laws::http::header_value(response.headers, name) is None
}

proof fn lemma_with_plain_header(response: ResponseView, name: Seq<char>, value: Seq<char>)
    requires
        sets_no_reserved(response),
        !cgi::is_reserved(name),
    ensures
        sets_no_reserved(response.with(name, value)),
{
    assert forall|other: Seq<char>| #[trigger]
        cgi::is_reserved(other) implies laws::http::header_value(
        response.with(name, value).headers,
        other,
    ) is None by {
        laws::http::law_set_header(response, name, value, other);
    }
}

proof fn lemma_output_lines(response: ResponseView, lines: Seq<Seq<char>>)
    requires
        sets_no_reserved(response),
    ensures
        sets_no_reserved(cgi::with_output_lines(response, lines)),
        cgi::with_output_lines(response, lines).body == response.body,
    decreases lines.len(),
{
    if lines.len() > 0 {
        lemma_output_lines(response, lines.drop_last());
        let before = cgi::with_output_lines(response, lines.drop_last());
        if let Some(parts) = text::split_once(lines.last(), ':') {
            let name = text::trimmed(parts.0);
            if !cgi::is_reserved(name) {
                lemma_with_plain_header(before, name, text::trimmed(parts.1));
            }
        }
    }
}

proof fn lemma_content_type_is_not_reserved()
    ensures
        !cgi::is_reserved("Content-Type"@),
{
    reveal_strlit("Content-Type");
    reveal_strlit("connection");
    reveal_strlit("content-length");
    reveal_strlit("server");
    reveal_strlit("transfer-encoding");
    let name = text::lowered("Content-Type"@);
    assert(name.len() == 12);
}

/// The body of the answer is what the script put out behind the blank line, or all of it
/// where there is none; and the script cannot set the headers by which the answer is framed.
pub proof fn law_script_output(output: Seq<u8>)
    ensures
        cgi::output_response(output).body == (match bytes::header_end(output) {
            Some(end) => output.skip(end.0 + end.1),
            None => output,
        }),
        sets_no_reserved(cgi::output_response(output)),
        cgi::output_response(output).has("Content-Type"@),
{
    let value = "text/plain; charset=utf-8"@;
    lemma_content_type_is_not_reserved();
    let response = match bytes::header_end(output) {
        None => ResponseView::new(200, output),
        Some(end) => {
            let start = ResponseView::new(200, output.skip(end.0 + end.1));
            let lines = text::lines(text::lossy_utf8(output.take(end.0)));
            assert(sets_no_reserved(start));
            lemma_output_lines(start, lines);
            cgi::with_output_lines(start, lines)
        },
    };
    assert(sets_no_reserved(response));
    lemma_with_plain_header(response, "Content-Type"@, value);
    laws::http::law_set_header(response, "Content-Type"@, value, "Content-Type"@);
}

/// A script that ended answers the client that it ran for, which then waits no longer; and
/// none of its pipes is left.
pub proof fn law_scripts_answer_their_client(state: StateView, job: u64)
    requires
        state.wf(),
        state.cgi_jobs.contains_key(job),
    ensures
        ({
            let fd = state.cgi_jobs[job].client_fd;
            let after = state.after_job(job);
            &&& state.clients.contains_key(fd)
            &&& state.waiting(fd) == Some(job)
            &&& after.clients.contains_key(fd)
            &&& after.waiting(fd) is None
            &&& !after.cgi_jobs.contains_key(job)
            &&& forall|pipe: i32| #[trigger]
                after.cgi_pipes.contains_key(pipe) ==> after.cgi_pipes[pipe].job() != job
            &&& after.wf()
        }),
{
    assert(state.runs(job));
    server::lemma_after_job(state, job);
}

/// No two clients wait for the same script, and no two scripts run for the same client.
pub proof fn law_scripts_and_clients_are_paired(
    state: StateView,
    first: u64,
    second: u64,
    one: i32,
    other: i32,
)
    requires
        state.wf(),
    ensures
        state.cgi_jobs.contains_key(first) && state.cgi_jobs.contains_key(second)
            && state.cgi_jobs[first].client_fd == state.cgi_jobs[second].client_fd ==> first
            == second,
        state.waiting(one) is Some && state.waiting(one) == state.waiting(other) ==> one == other,
{
    if state.cgi_jobs.contains_key(first) && state.cgi_jobs.contains_key(second) {
        assert(state.runs(first));
        assert(state.runs(second));
    }
    if state.waiting(one) is Some {
        assert(state.clients.contains_key(one));
    }
    if state.waiting(other) is Some {
        assert(state.clients.contains_key(other));
    }
}

/// A client that is dropped leaves nothing behind: neither itself, nor a script that runs for
/// it, nor a pipe of that script; and no other client changes.
pub proof fn law_dropped_clients_leave_nothing(state: StateView, fd: i32, other: i32)
    requires
        state.wf(),
        other != fd,
    ensures
        ({
            let after = state.without_client(fd);
            &&& !after.clients.contains_key(fd)
            &&& forall|job: u64| #[trigger]
                after.cgi_jobs.contains_key(job) ==> after.cgi_jobs[job].client_fd != fd
            &&& state.waiting(fd) matches Some(job) ==> !after.cgi_jobs.contains_key(job) && forall|
                pipe: i32,
            | #[trigger]
                after.cgi_pipes.contains_key(pipe) ==> after.cgi_pipes[pipe].job() != job
            &&& after.clients.contains_key(other) == state.clients.contains_key(other)
            &&& after.clients.contains_key(other) ==> after.clients[other] == state.clients[other]
            &&& after.wf()
        }),
{
    server::lemma_without_client(state, fd);
    let after = state.without_client(fd);
    assert forall|job: u64| #[trigger]
        after.cgi_jobs.contains_key(job) implies after.cgi_jobs[job].client_fd != fd by {
        assert(after.runs(job));
    }
}

} // verus!
