//! The tables of the event loop: listeners, clients, sessions, and the scripts that run.
use std::collections::HashMap;

use vstd::prelude::*;

use crate::cgi;
use crate::cgi::{CgiError, CgiErrorView, CgiProcess, CgiView, ExitEvent};
use crate::client::{Client, ClientView, ReadStep, WriteStep};
use crate::config::{Config, ConfigView, ServerConfig, ServerView};
use crate::config;
use crate::epoll;
use crate::epoll::{client_step, pipe_step, ClientStep, PipeStep};
use crate::epoll::{CGI_STDIN_EVENTS, CGI_STDOUT_EVENTS, CLIENT_WAIT_EVENTS};
use crate::http;
use crate::http::{
    status_text, ParseResult, ParseView, Request, RequestView, Response, ResponseView,
};
use crate::listen;
use crate::listen::{GroupView, ListenGroup, DEFAULT_MAX_BODY_SIZE};
use crate::router;
use crate::router::{handle_request, Step, StepView};
use crate::session;
use crate::session::{decorate_response, SessionInfo, SessionView, Sessions, SessionsView};
use crate::text;
use crate::text::{append_number, same_str};
use crate::transfer::{ReadEvent, WriteEvent};
use crate::util;
use crate::util::host_without_port;

verus! {

/// A pipe of a script, and the script that it belongs to.
#[derive(Clone, Copy, Debug, PartialEq, Eq, Structural)]
pub enum CgiPipe {
    Stdin(u64),
    Stdout(u64),
}

impl CgiPipe {
    /// The script that the pipe belongs to.
    pub open spec fn job(self) -> u64 {
        match self {
            CgiPipe::Stdin(job) => job,
            CgiPipe::Stdout(job) => job,
        }
    }

    /// The script that the pipe belongs to.
    pub fn job_id(self) -> (job: u64)
        ensures
            job == self.job(),
    {
        match self {
            CgiPipe::Stdin(job) => job,
            CgiPipe::Stdout(job) => job,
        }
    }
}

/// What the answer to a request depends on besides the request: the server that it goes to,
/// its session, and how the connection goes on.
#[derive(Debug)]
pub struct Exchange {
    pub server: usize,
    pub session: SessionInfo,
    pub close_after_write: bool,
    pub http10: bool,
}

pub struct ExchangeView {
    pub server: usize,
    pub session: SessionView,
    pub close_after_write: bool,
    pub http10: bool,
}

impl View for Exchange {
    type V = ExchangeView;

    open spec fn view(&self) -> ExchangeView {
        ExchangeView {
            server: self.server,
            session: self.session@,
            close_after_write: self.close_after_write,
            http10: self.http10,
        }
    }
}

impl ExchangeView {
    /// The response as it is sent.
    pub open spec fn answer(self, response: ResponseView) -> ResponseView {
        session::decorated(response, self.session, self.close_after_write, self.http10)
    }
}

impl Exchange {
    /// The response as it is sent.
    pub fn answer(&self, response: Response) -> (r: Response)
        ensures
            r@ == self@.answer(response@),
    {
        let mut response = response;
        decorate_response(
            &mut response,
            &self.session,
            self.close_after_write,
            self.http10,
        );
        response
    }
}

/// A script that runs for a client.
#[derive(Debug)]
pub struct CgiJob {
    pub process: CgiProcess,
    pub client_fd: i32,
    pub exchange: Exchange,
}

pub struct JobView {
    pub process: CgiView,
    pub client_fd: i32,
    pub exchange: ExchangeView,
}

impl View for CgiJob {
    type V = JobView;

    open spec fn view(&self) -> JobView {
        JobView {
            process: self.process@,
            client_fd: self.client_fd,
            exchange: self.exchange@,
        }
    }
}

/// The tables of the event loop.
pub struct Server {
    config: Config,
    listeners: HashMap<i32, ListenGroup>,
    clients: HashMap<i32, Client>,
    sessions: Sessions,
    cgi_jobs: HashMap<u64, CgiJob>,
    cgi_pipes: HashMap<i32, CgiPipe>,
    cgi_counter: u64,
}

pub struct StateView {
    pub config: ConfigView,
    pub listeners: Map<i32, GroupView>,
    pub clients: Map<i32, ClientView>,
    pub sessions: SessionsView,
    pub cgi_jobs: Map<u64, JobView>,
    pub cgi_pipes: Map<i32, CgiPipe>,
    /// The number that was given to a script last.
    pub cgi_counter: u64,
}

impl View for Server {
    type V = StateView;

    closed spec fn view(&self) -> StateView {
        StateView {
            config: self.config@,
            listeners: self.listeners@.map_values(|group: ListenGroup| group@),
            clients: self.clients@.map_values(|client: Client| client@),
            sessions: self.sessions@,
            cgi_jobs: self.cgi_jobs@.map_values(|job: CgiJob| job@),
            cgi_pipes: self.cgi_pipes@,
            cgi_counter: self.cgi_counter,
        }
    }
}

/// What a descriptor belongs to.
#[derive(Clone, Copy, Debug, PartialEq, Eq, Structural)]
pub enum FdKind {
    Listener,
    Client,
    Pipe,
    Unknown,
}

/// The pipes that do not belong to the script.
pub open spec fn pipes_without(pipes: Map<i32, CgiPipe>, job: u64) -> Map<i32, CgiPipe> {
    pipes.restrict(Set::new(|fd: i32| pipes.contains_key(fd) && pipes[fd].job() != job))
}

/// Whether the list holds the pipes of the script, each of them once.
pub open spec fn lists_pipes(list: Seq<i32>, pipes: Map<i32, CgiPipe>, job: u64) -> bool {
    &&& list.no_duplicates()
    &&& forall|fd: i32| #[trigger]
        list.contains(fd) <==> pipes.contains_key(fd) && pipes[fd].job() == job
}

/// Whether every listener has a group of servers of the configuration.
pub open spec fn listeners_fit(listeners: Map<i32, GroupView>, servers: nat) -> bool {
    forall|fd: i32| #[trigger]
        listeners.contains_key(fd) ==> listen::group_fits(listeners[fd], servers)
}

/// Whether every pipe belongs to a script that runs.
pub open spec fn pipes_fit(pipes: Map<i32, CgiPipe>, jobs: Map<u64, JobView>) -> bool {
    forall|fd: i32| #[trigger]
        pipes.contains_key(fd) ==> jobs.contains_key(pipes[fd].job())
}

/// Whether one of the names of a server is the host.
pub open spec fn serves_host(server: ServerView, host: Seq<char>) -> bool {
    exists|i: int|
        0 <= i < server.server_names.len() && util::hostname(#[trigger] server.server_names[i])
            == host
}

/// The index in the group of the first server that has the host for a name, or the number of
/// servers.
pub open spec fn named_index(group: Seq<usize>, servers: Seq<ServerView>, host: Seq<char>) -> int
    decreases group.len(),
{
    if group.len() == 0 || serves_host(servers[group[0] as int], host) {
        0
    } else {
        1 + named_index(group.drop_first(), servers, host)
    }
}

/// The server that a request to the group goes to: the first that has its host for a name,
/// or the first of all.
pub open spec fn chosen_server(
    group: Seq<usize>,
    servers: Seq<ServerView>,
    host: Option<Seq<char>>,
) -> usize {
    match host {
        Some(host) => {
            let i = named_index(group, servers, host);
            if i < group.len() {
                group[i]
            } else {
                group[0]
            }
        },
        None => group[0],
    }
}

impl StateView {
    pub open spec fn new(config: ConfigView) -> StateView {
        StateView {
            config,
            listeners: Map::empty(),
            clients: Map::empty(),
            sessions: SessionsView { by_id: Map::empty(), counter: 0 },
            cgi_jobs: Map::empty(),
            cgi_pipes: Map::empty(),
            cgi_counter: 0,
        }
    }

    /// The tables fit together: a client waits for a script exactly if the script runs for
    /// it, and every pipe belongs to a script that runs.
    pub open spec fn wf(self) -> bool {
        &&& listeners_fit(self.listeners, self.config.servers.len())
        &&& forall|fd: i32| #[trigger] self.clients.contains_key(fd) ==> self.clients[fd].wf()
        &&& forall|fd: i32| #[trigger]
            self.clients.contains_key(fd) ==> (self.clients[fd].waiting_cgi matches Some(job)
                ==> self.cgi_jobs.contains_key(job) && self.cgi_jobs[job].client_fd == fd)
        &&& forall|job: u64| #[trigger]
            self.cgi_jobs.contains_key(job) ==> self.runs(job) && job <= self.cgi_counter
        &&& pipes_fit(self.cgi_pipes, self.cgi_jobs)
    }

    /// A script runs for the client that waits for it, and for a server of the
    /// configuration.
    pub open spec fn runs(self, job: u64) -> bool {
        let entry = self.cgi_jobs[job];
        &&& entry.process.wf()
        &&& entry.exchange.server < self.config.servers.len()
        &&& self.clients.contains_key(entry.client_fd)
        &&& self.clients[entry.client_fd].waiting_cgi == Some(job)
    }

    /// What a descriptor belongs to.
    pub open spec fn kind(self, fd: i32) -> FdKind {
        if self.listeners.contains_key(fd) {
            FdKind::Listener
        } else if self.clients.contains_key(fd) {
            FdKind::Client
        } else if self.cgi_pipes.contains_key(fd) {
            FdKind::Pipe
        } else {
            FdKind::Unknown
        }
    }

    /// The tables with a client put in.
    pub open spec fn with_client(self, fd: i32, client: ClientView) -> StateView {
        StateView { clients: self.clients.insert(fd, client), ..self }
    }

    /// The tables with a response on its way to a client, where the client is still there.
    pub open spec fn with_queued(
        self,
        fd: i32,
        response: ResponseView,
        close: bool,
        now: u64,
    ) -> StateView {
        if self.clients.contains_key(fd) {
            self.with_client(fd, self.clients[fd].with_response(response, close, now))
        } else {
            self
        }
    }

    /// Whether a response is on its way to a client.
    pub open spec fn has_response(self, fd: i32) -> bool {
        self.clients.contains_key(fd) && self.clients[fd].has_response()
    }

    /// The largest body of a request that comes by the listener.
    pub open spec fn body_limit(self, listen_fd: i32) -> usize {
        if self.listeners.contains_key(listen_fd) {
            self.listeners[listen_fd].max_body_size
        } else {
            DEFAULT_MAX_BODY_SIZE
        }
    }

    /// The tables after a client was dropped, and with it the script that runs for it.
    pub open spec fn without_client(self, fd: i32) -> StateView {
        let state = match self.waiting(fd) {
            Some(job) => self.without_job(job),
            None => self,
        };
        StateView { clients: state.clients.remove(fd), ..state }
    }

    /// The script that runs for the client.
    pub open spec fn waiting(self, fd: i32) -> Option<u64> {
        if self.clients.contains_key(fd) {
            self.clients[fd].waiting_cgi
        } else {
            None
        }
    }

    /// The tables without a script and its pipes.
    pub open spec fn without_job(self, job: u64) -> StateView {
        StateView {
            cgi_jobs: self.cgi_jobs.remove(job),
            cgi_pipes: pipes_without(self.cgi_pipes, job),
            ..self
        }
    }

    /// The tables after a script ended, where one was running.
    pub open spec fn after_job(self, job: u64) -> StateView {
        if self.cgi_jobs.contains_key(job) {
            let fd = self.cgi_jobs[job].client_fd;
            let state = self.without_job(job);
            if state.clients.contains_key(fd) {
                state.with_client(fd, ClientView { waiting_cgi: None, ..state.clients[fd] })
            } else {
                state
            }
        } else {
            self
        }
    }

    /// The tables after a script was started for the client.
    pub open spec fn with_job(
        self,
        job: u64,
        fd: i32,
        process: CgiView,
        stdin: Option<i32>,
        stdout: Option<i32>,
        exchange: ExchangeView,
        now: u64,
    ) -> StateView {
        let pipes = match stdin {
            Some(pipe) => self.cgi_pipes.insert(pipe, CgiPipe::Stdin(job)),
            None => self.cgi_pipes,
        };
        let pipes = match stdout {
            Some(pipe) => pipes.insert(pipe, CgiPipe::Stdout(job)),
            None => pipes,
        };
        StateView {
            clients: self.clients.insert(
                fd,
                ClientView { waiting_cgi: Some(job), last_active: now, ..self.clients[fd] },
            ),
            cgi_jobs: self.cgi_jobs.insert(job, JobView { process, client_fd: fd, exchange }),
            cgi_pipes: pipes,
            ..self
        }
    }

    /// The tables after a number was given to a script.
    pub open spec fn with_number(self) -> StateView {
        StateView { cgi_counter: session::successor(self.cgi_counter), ..self }
    }

    /// The tables with what a script has come to put in.
    pub open spec fn with_process(self, job: u64, process: CgiView) -> StateView {
        StateView {
            cgi_jobs: self.cgi_jobs.insert(job, JobView { process, ..self.cgi_jobs[job] }),
            ..self
        }
    }

    /// The group of servers that a client came by.
    pub open spec fn group_for(self, fd: i32) -> Option<GroupView> {
        if self.clients.contains_key(fd) && self.listeners.contains_key(
            self.clients[fd].listen_fd,
        ) {
            Some(self.listeners[self.clients[fd].listen_fd])
        } else {
            None
        }
    }

    /// The server that a request of the client goes to.
    pub open spec fn server_for(self, fd: i32, request: RequestView) -> Option<usize> {
        match self.group_for(fd) {
            Some(group) => Some(chosen_server(group.servers, self.config.servers, request.host())),
            None => None,
        }
    }
}

proof fn lemma_added<A>(list: Seq<A>, x: A)
    requires
        list.no_duplicates(),
        !list.contains(x),
    ensures
        list.push(x).no_duplicates(),
        forall|y: A| #[trigger] list.push(x).contains(y) <==> list.contains(y) || y == x,
{
    let longer = list.push(x);
    assert forall|y: A| #[trigger] longer.contains(y) <==> list.contains(y) || y == x by {
        if list.contains(y) {
            let i = choose|i: int| 0 <= i < list.len() && list[i] == y;
            assert(longer[i] == y);
        }
        if y == x {
            assert(longer[list.len() as int] == y);
        }
        if longer.contains(y) {
            let i = choose|i: int| 0 <= i < longer.len() && longer[i] == y;
            if i < list.len() {
                assert(list[i] == y);
            }
        }
    }
    assert forall|i: int, j: int| 0 <= i < j < longer.len() implies longer[i] != longer[j] by {
        assert(longer[i] == list[i]);
        if j < list.len() {
            assert(longer[j] == list[j]);
        }
    }
}

/// The descriptors of the pipes of a script.
fn pipes_of_job(pipes: &HashMap<i32, CgiPipe>, job: u64) -> (list: Vec<i32>)
    ensures
        lists_pipes(list@, pipes@, job),
{
    let mut list: Vec<i32> = Vec::new();
    for entry in it: pipes.iter()
        invariant
            it.seq().no_duplicates(),
            forall|k: int|
                0 <= k < it.seq().len() ==> pipes@.contains_key(*(#[trigger] it.seq()[k]).0)
                    && pipes@[*it.seq()[k].0] == *it.seq()[k].1,
            forall|fd: i32| #[trigger]
                pipes@.contains_key(fd) ==> it.seq().contains((&fd, &pipes@[fd])),
            list@.no_duplicates(),
            forall|fd: i32| #[trigger]
                list@.contains(fd) ==> pipes@.contains_key(fd) && pipes@[fd].job() == job && exists|
                    k: int,
                |
                    0 <= k < it.index() && *(#[trigger] it.seq()[k]).0 == fd,
            forall|k: int|
                0 <= k < it.index() && (#[trigger] it.seq()[k]).1.job() == job ==> list@.contains(
                    *it.seq()[k].0,
                ),
    {
        let (fd, pipe) = entry;
        if pipe.job_id() == job {
            proof {
                if list@.contains(*fd) {
                    let k = choose|k: int|
                        0 <= k < it.index() && *(#[trigger] it.seq()[k]).0 == *fd;
                    assert(it.seq()[k] == it.seq()[it.index() as int]);
                }
                lemma_added(list@, *fd);
            }
            list.push(*fd);
        }
    }
    list
}

/// The descriptors of the clients whose time is over.
fn idle_clients(clients: &HashMap<i32, Client>, now: u64, timeout: u64) -> (list: Vec<i32>)
    ensures
        list@.no_duplicates(),
        forall|fd: i32| #[trigger]
            list@.contains(fd) <==> clients@.contains_key(fd) && clients@[fd]@.is_timed_out(
                now,
                timeout,
            ),
{
    let mut list: Vec<i32> = Vec::new();
    for entry in it: clients.iter()
        invariant
            it.seq().no_duplicates(),
            forall|k: int|
                0 <= k < it.seq().len() ==> clients@.contains_key(*(#[trigger] it.seq()[k]).0)
                    && clients@[*it.seq()[k].0] == *it.seq()[k].1,
            forall|fd: i32| #[trigger]
                clients@.contains_key(fd) ==> it.seq().contains((&fd, &clients@[fd])),
            list@.no_duplicates(),
            forall|fd: i32| #[trigger]
                list@.contains(fd) ==> clients@.contains_key(fd) && clients@[fd]@.is_timed_out(
                    now,
                    timeout,
                ) && exists|k: int| 0 <= k < it.index() && *(#[trigger] it.seq()[k]).0 == fd,
            forall|k: int|
                0 <= k < it.index() && (#[trigger] it.seq()[k]).1@.is_timed_out(now, timeout)
                    ==> list@.contains(*it.seq()[k].0),
    {
        let (fd, client) = entry;
        if client.is_timed_out(now, timeout) {
            proof {
                if list@.contains(*fd) {
                    let k = choose|k: int|
                        0 <= k < it.index() && *(#[trigger] it.seq()[k]).0 == *fd;
                    assert(it.seq()[k] == it.seq()[it.index() as int]);
                }
                lemma_added(list@, *fd);
            }
            list.push(*fd);
        }
    }
    list
}

/// The scripts that run.
fn keys_of(jobs: &HashMap<u64, CgiJob>) -> (list: Vec<u64>)
    ensures
        list@.no_duplicates(),
        forall|job: u64| #[trigger] list@.contains(job) <==> jobs@.contains_key(job),
{
    let mut list: Vec<u64> = Vec::new();
    for entry in it: jobs.iter()
        invariant
            it.seq().no_duplicates(),
            forall|k: int|
                0 <= k < it.seq().len() ==> jobs@.contains_key(*(#[trigger] it.seq()[k]).0)
                    && jobs@[*it.seq()[k].0] == *it.seq()[k].1,
            forall|job: u64| #[trigger]
                jobs@.contains_key(job) ==> it.seq().contains((&job, &jobs@[job])),
            list@.no_duplicates(),
            forall|job: u64| #[trigger]
                list@.contains(job) ==> jobs@.contains_key(job) && exists|k: int|
                    0 <= k < it.index() && *(#[trigger] it.seq()[k]).0 == job,
            forall|k: int|
                0 <= k < it.index() ==> list@.contains(*(#[trigger] it.seq()[k]).0),
    {
        let (job, _) = entry;
        proof {
            if list@.contains(*job) {
                let k = choose|k: int| 0 <= k < it.index() && *(#[trigger] it.seq()[k]).0 == *job;
                assert(it.seq()[k] == it.seq()[it.index() as int]);
            }
            lemma_added(list@, *job);
        }
        list.push(*job);
    }
    list
}

/// Takes the pipes of a script out of the table; gives their descriptors.
fn remove_pipes(pipes: &mut HashMap<i32, CgiPipe>, job: u64) -> (list: Vec<i32>)
    ensures
        lists_pipes(list@, old(pipes)@, job),
        final(pipes)@ == pipes_without(old(pipes)@, job),
{
    let list = pipes_of_job(pipes, job);
    let ghost before = pipes@;
    for i in 0..list.len()
        invariant
            lists_pipes(list@, before, job),
            forall|fd: i32| #[trigger]
                pipes@.contains_key(fd) <==> before.contains_key(fd) && !list@.take(
                    i as int,
                ).contains(fd),
            forall|fd: i32| #[trigger] pipes@.contains_key(fd) ==> pipes@[fd] == before[fd],
    {
        let ghost shorter = list@.take(i as int);
        let fd: i32 = list[i];
        proof {
            assert(list@.take(i + 1) == shorter.push(fd));
            assert(!shorter.contains(fd)) by {
                if shorter.contains(fd) {
                    let j = choose|j: int| 0 <= j < shorter.len() && shorter[j] == fd;
                    assert(list@[j] == list@[i as int]);
                }
            }
            assert(shorter.no_duplicates());
            lemma_added(shorter, fd);
        }
        pipes.remove(&fd);
    }
    proof {
        assert(list@.take(list@.len() as int) == list@);
        assert(pipes@ == pipes_without(before, job));
    }
    list
}

/// The scripts that ended, and what has to be done about their pipes and their client.
#[derive(Debug)]
pub struct FinishedJob {
    /// What the script ran for.
    pub job: CgiJob,
    /// The pipes that are no longer watched.
    pub pipes: Vec<i32>,
    /// Whether the client is still there.
    pub has_client: bool,
}

/// What has to be done about a client that was dropped.
#[derive(Debug)]
pub struct ClosedClient {
    /// The script that ran for the client.
    pub job: Option<u64>,
    /// The pipes that are no longer watched.
    pub pipes: Vec<i32>,
}

/// How a transfer on a pipe ended.
#[derive(Debug)]
pub enum PipeResult {
    /// The pipe is closed, and no longer watched.
    Closed,
    Open,
    Failed(CgiError),
}

/// What has come of a transfer on a pipe.
pub open spec fn pipe_result(result: PipeResult) -> Result<bool, CgiErrorView> {
    match result {
        PipeResult::Closed => Ok(true),
        PipeResult::Open => Ok(false),
        PipeResult::Failed(error) => Err(error@),
    }
}

impl StateView {
    /// The server whose pages tell a client what went wrong before its request was read.
    pub open spec fn error_server(self, fd: i32) -> Option<usize> {
        let listen_fd = if self.clients.contains_key(fd) {
            self.clients[fd].listen_fd
        } else {
            fd
        };
        if self.listeners.contains_key(listen_fd) {
            Some(self.listeners[listen_fd].servers[0])
        } else {
            None
        }
    }

    /// The exchange for a request of a client, and the tables after it was opened.
    pub open spec fn opened(
        self,
        fd: i32,
        request: RequestView,
        now: u64,
        millis: u64,
        process: u64,
    ) -> (StateView, Option<ExchangeView>) {
        match self.server_for(fd, request) {
            Some(server) => {
                let (sessions, session) = self.sessions.touched(request, now, millis, process);
                (
                    StateView { sessions, ..self },
                    Some(
                        ExchangeView {
                            server,
                            session,
                            close_after_write: request.should_close(),
                            http10: request.version == "HTTP/1.0"@,
                        },
                    ),
                )
            },
            None => (self, None),
        }
    }

    /// The tables after a transfer on a pipe of a script.
    pub open spec fn after_transfer(
        self,
        fd: i32,
        job: u64,
        outcome: (CgiView, Result<bool, CgiErrorView>),
    ) -> StateView {
        let state = self.with_process(job, outcome.0);
        if outcome.1 == Ok::<bool, CgiErrorView>(true) {
            StateView { cgi_pipes: state.cgi_pipes.remove(fd), ..state }
        } else {
            state
        }
    }
}

/// What is done to a client keeps the tables fitting together, as long as the client waits
/// for the same script.
pub proof fn lemma_with_client(state: StateView, fd: i32, client: ClientView)
    requires
        state.wf(),
        client.wf(),
        client.waiting_cgi == state.waiting(fd),
    ensures
        state.with_client(fd, client).wf(),
{
    let after = state.with_client(fd, client);
    assert forall|job: u64| #[trigger] after.cgi_jobs.contains_key(job) implies after.runs(job)
        && job <= after.cgi_counter by {
        assert(state.cgi_jobs.contains_key(job));
        assert(state.runs(job));
    }
    assert forall|x: i32| #[trigger] after.clients.contains_key(x) implies after.clients[x].wf()
        && (after.clients[x].waiting_cgi matches Some(job) ==> after.cgi_jobs.contains_key(job)
        && after.cgi_jobs[job].client_fd == x) by {
        if x == fd {
            if client.waiting_cgi is Some {
                assert(state.clients.contains_key(fd));
            }
        } else {
            assert(state.clients.contains_key(x));
        }
    }
}

/// To drop a client keeps the tables fitting together.
pub proof fn lemma_without_client(state: StateView, fd: i32)
    requires
        state.wf(),
    ensures
        state.without_client(fd).wf(),
{
    let after = state.without_client(fd);
    assert forall|job: u64| #[trigger] after.cgi_jobs.contains_key(job) implies after.runs(job)
        && job <= after.cgi_counter by {
        assert(state.cgi_jobs.contains_key(job));
        assert(state.runs(job));
    }
    assert forall|x: i32| #[trigger] after.clients.contains_key(x) implies after.clients[x].wf()
        && (after.clients[x].waiting_cgi matches Some(job) ==> after.cgi_jobs.contains_key(job)
        && after.cgi_jobs[job].client_fd == x) by {
        assert(state.clients.contains_key(x));
    }
}

impl Server {
    /// No identifier stands for two sessions.
    pub closed spec fn sessions_wf(&self) -> bool {
        self.sessions.wf()
    }

    /// The tables fit together.
    pub open spec fn wf(&self) -> bool {
        self@.wf() && self.sessions_wf()
    }

    pub fn new(config: Config) -> (r: Self)
        ensures
            r.wf(),
            r@ == StateView::new(config@),
    {
        let r = Server {
            config,
            listeners: HashMap::new(),
            clients: HashMap::new(),
            sessions: Sessions::new(),
            cgi_jobs: HashMap::new(),
            cgi_pipes: HashMap::new(),
            cgi_counter: 0,
        };
        assert(r@.listeners == Map::<i32, GroupView>::empty());
        assert(r@.clients == Map::<i32, ClientView>::empty());
        assert(r@.cgi_jobs == Map::<u64, JobView>::empty());
        assert(r@.cgi_pipes == Map::<i32, CgiPipe>::empty());
        r
    }

    pub fn config(&self) -> (r: &Config)
        ensures
            r@ == self@.config,
    {
        &self.config
    }

    /// The server at the place in the configuration.
    pub fn server_config(&self, index: usize) -> (r: &ServerConfig)
        requires
            index < self@.config.servers.len(),
        ensures
            r@ == self@.config.servers[index as int],
    {
        &self.config.servers[index]
    }

    /// Takes a listener in.
    pub fn add_listener(&mut self, fd: i32, group: ListenGroup)
        requires
            old(self).wf(),
            listen::group_fits(group@, old(self)@.config.servers.len()),
        ensures
            final(self).wf(),
            final(self)@ == (StateView {
                listeners: old(self)@.listeners.insert(fd, group@),
                ..old(self)@
            }),
    {
        let ghost before = self@;
        self.listeners.insert(fd, group);
        assert(self@.listeners == before.listeners.insert(fd, group@));
    }

    /// What a descriptor belongs to.
    pub fn kind_of(&self, fd: i32) -> (kind: FdKind)
        ensures
            kind == self@.kind(fd),
    {
        if self.listeners.contains_key(&fd) {
            FdKind::Listener
        } else if self.clients.contains_key(&fd) {
            FdKind::Client
        } else if self.cgi_pipes.contains_key(&fd) {
            FdKind::Pipe
        } else {
            FdKind::Unknown
        }
    }

    /// Whether there is a client of the descriptor for which no script runs.
    pub fn is_idle(&self, fd: i32) -> (b: bool)
        ensures
            b == (self@.clients.contains_key(fd) && self@.waiting(fd) is None),
    {
        match self.clients.get(&fd) {
            Some(client) => client.waiting_cgi().is_none(),
            None => false,
        }
    }

    /// Takes a client in.
    pub fn register_client(&mut self, listen_fd: i32, fd: i32, now: u64)
        requires
            old(self).wf(),
            !old(self)@.clients.contains_key(fd),
        ensures
            final(self).wf(),
            final(self)@ == old(self)@.with_client(
                fd,
                ClientView::new(listen_fd, old(self)@.body_limit(listen_fd), now),
            ),
    {
        let ghost before = self@;
        let limit: usize = match self.listeners.get(&listen_fd) {
            Some(group) => group.max_body_size,
            None => DEFAULT_MAX_BODY_SIZE,
        };
        let client = Client::new(listen_fd, limit, now);
        self.clients.insert(fd, client);
        assert(self@.clients == before.clients.insert(fd, client@));
        proof {
            lemma_with_client(before, fd, client@);
        }
    }

    /// What an event on a client leads to.
    pub fn handle_client_event(&self, fd: i32, events: u32) -> (step: ClientStep)
        ensures
            step == epoll::client_step_for(
                events,
                self@.clients.contains_key(fd) && self@.clients[fd].has_response(),
            ),
    {
        let has_response = match self.clients.get(&fd) {
            Some(client) => client.has_response(),
            None => false,
        };
        client_step(events, has_response)
    }

    /// Takes note of a read from a client.
    pub fn read_client(&mut self, fd: i32, event: ReadEvent, now: u64) -> (step: ReadStep)
        requires
            old(self).wf(),
        ensures
            final(self).wf(),
            if old(self)@.clients.contains_key(fd) {
                final(self)@ == old(self)@.with_client(
                    fd,
                    old(self)@.clients[fd].after_read(event@, now).0,
                ) && step == old(self)@.clients[fd].after_read(event@, now).1
            } else {
                final(self)@ == old(self)@ && step == ReadStep::Wait
            },
    {
        let ghost before = self@;
        match self.clients.remove(&fd) {
            Some(mut client) => {
                let step = client.read_client(event, now);
                self.clients.insert(fd, client);
                assert(self@.clients == before.clients.insert(fd, client@));
                proof {
                    lemma_with_client(before, fd, client@);
                }
                step
            },
            None => {
                assert(self@.clients == before.clients);
                ReadStep::Wait
            },
        }
    }

    /// Takes the next request from the bytes received from a client.
    pub fn take_request(&mut self, fd: i32) -> (r: Option<ParseResult>)
        requires
            old(self).wf(),
        ensures
            final(self).wf(),
            match r {
                Some(result) => old(self)@.clients.contains_key(fd) && result@
                    == old(self)@.clients[fd].parsed() && final(self)@ == old(self)@.with_client(
                    fd,
                    old(self)@.clients[fd].after_parse(),
                ),
                None => !old(self)@.clients.contains_key(fd) && final(self)@ == old(self)@,
            },
    {
        let ghost before = self@;
        match self.clients.remove(&fd) {
            Some(mut client) => {
                let result = client.take_request();
                self.clients.insert(fd, client);
                assert(self@.clients == before.clients.insert(fd, client@));
                proof {
                    lemma_with_client(before, fd, client@);
                }
                Some(result)
            },
            None => {
                assert(self@.clients == before.clients);
                None
            },
        }
    }

    /// Puts a response on its way to a client.
    pub fn queue_response(&mut self, fd: i32, response: &Response, close: bool, now: u64)
        requires
            old(self).wf(),
        ensures
            final(self).wf(),
            final(self)@ == old(self)@.with_queued(fd, response@, close, now),
    {
        let ghost before = self@;
        match self.clients.remove(&fd) {
            Some(mut client) => {
                client.queue_response(response, close, now);
                self.clients.insert(fd, client);
                assert(self@.clients == before.clients.insert(fd, client@));
                proof {
                    lemma_with_client(before, fd, client@);
                }
            },
            None => {
                assert(self@.clients == before.clients);
            },
        }
    }

    /// The part of the response to a client that is still to be sent.
    pub fn unsent(&self, fd: i32) -> (r: Option<&[u8]>)
        requires
            self.wf(),
        ensures
            match r {
                Some(bytes) => self@.clients.contains_key(fd) && bytes@
                    == self@.clients[fd].write_buffer.skip(self@.clients[fd].write_position),
                None => !self@.clients.contains_key(fd),
            },
    {
        match self.clients.get(&fd) {
            Some(client) => {
                assert(self@.clients.contains_key(fd));
                Some(client.unsent())
            },
            None => None,
        }
    }

    /// Takes note of a write to a client.
    pub fn write_client(&mut self, fd: i32, event: WriteEvent, now: u64) -> (step: WriteStep)
        requires
            old(self).wf(),
        ensures
            final(self).wf(),
            if old(self)@.clients.contains_key(fd) {
                final(self)@ == old(self)@.with_client(
                    fd,
                    old(self)@.clients[fd].after_write(event@, now).0,
                ) && step == old(self)@.clients[fd].after_write(event@, now).1
            } else {
                final(self)@ == old(self)@ && step == WriteStep::Wait
            },
    {
        let ghost before = self@;
        match self.clients.remove(&fd) {
            Some(mut client) => {
                assert(before.clients.contains_key(fd));
                let step = client.write_client(event, now);
                self.clients.insert(fd, client);
                assert(self@.clients == before.clients.insert(fd, client@));
                proof {
                    lemma_with_client(before, fd, client@);
                }
                step
            },
            None => {
                assert(self@.clients == before.clients);
                WriteStep::Wait
            },
        }
    }

    /// The clients whose time for a request is over, each of them once.
    pub fn timed_out_clients(&self, now: u64) -> (list: Vec<i32>)
        ensures
            list@.no_duplicates(),
            forall|fd: i32| #[trigger]
                list@.contains(fd) <==> self@.clients.contains_key(fd)
                    && self@.clients[fd].is_timed_out(now, self@.config.request_timeout),
    {
        let list = idle_clients(&self.clients, now, self.config.request_timeout);
        assert forall|fd: i32| #[trigger] list@.contains(fd) <==> self@.clients.contains_key(fd)
            && self@.clients[fd].is_timed_out(now, self@.config.request_timeout) by {
            assert(self@.clients.contains_key(fd) == self.clients@.contains_key(fd));
        }
        list
    }

    /// Whether a response is on its way to a client.
    pub fn has_response(&self, fd: i32) -> (b: bool)
        ensures
            b == self@.has_response(fd),
    {
        match self.clients.get(&fd) {
            Some(client) => {
                assert(self@.clients.contains_key(fd));
                client.has_response()
            },
            None => false,
        }
    }

    /// Makes the response on its way to a client the last one.
    pub fn close_after_response(&mut self, fd: i32)
        requires
            old(self).wf(),
        ensures
            final(self).wf(),
            final(self)@ == (if old(self)@.clients.contains_key(fd) {
                old(self)@.with_client(fd, old(self)@.clients[fd].closing())
            } else {
                old(self)@
            }),
    {
        let ghost before = self@;
        match self.clients.remove(&fd) {
            Some(mut client) => {
                client.close_after_response();
                self.clients.insert(fd, client);
                assert(self@.clients == before.clients.insert(fd, client@));
                proof {
                    lemma_with_client(before, fd, client@);
                }
            },
            None => {
                assert(self@.clients == before.clients);
            },
        }
    }

    /// Drops the sessions that were not used for an hour.
    pub fn expire_sessions(&mut self, now: u64)
        requires
            old(self).wf(),
        ensures
            final(self).wf(),
            final(self)@ == (StateView {
                sessions: old(self)@.sessions.expired(now),
                ..old(self)@
            }),
    {
        self.sessions.expire_sessions(now);
    }

    /// Drops a client, and with it the script that runs for it.
    pub fn close_client(&mut self, fd: i32) -> (r: ClosedClient)
        requires
            old(self).wf(),
        ensures
            final(self).wf(),
            final(self)@ == old(self)@.without_client(fd),
            r.job == old(self)@.waiting(fd),
            match r.job {
                Some(job) => lists_pipes(r.pipes@, old(self)@.cgi_pipes, job),
                None => r.pipes@.len() == 0,
            },
    {
        let ghost before = self@;
        let job = match self.clients.get(&fd) {
            Some(client) => client.waiting_cgi(),
            None => None,
        };
        let pipes = match job {
            Some(job) => {
                assert(before.clients.contains_key(fd));
                self.cgi_jobs.remove(&job);
                assert(self@.cgi_jobs == before.cgi_jobs.remove(job));
                remove_pipes(&mut self.cgi_pipes, job)
            },
            None => Vec::new(),
        };
        self.clients.remove(&fd);
        proof {
            assert(self@.clients == before.clients.remove(fd));
            lemma_without_client(before, fd);
        }
        ClosedClient { job, pipes }
    }
}

/// A script that was started for a client that waits for none fits in.
pub proof fn lemma_with_job(
    state: StateView,
    job: u64,
    fd: i32,
    process: CgiView,
    stdin: Option<i32>,
    stdout: Option<i32>,
    exchange: ExchangeView,
    now: u64,
)
    requires
        state.wf(),
        state.clients.contains_key(fd),
        state.waiting(fd) is None,
        process.wf(),
        exchange.server < state.config.servers.len(),
        !state.cgi_jobs.contains_key(job),
        job <= state.cgi_counter,
    ensures
        state.with_job(job, fd, process, stdin, stdout, exchange, now).wf(),
{
    let after = state.with_job(job, fd, process, stdin, stdout, exchange, now);
    assert forall|x: u64| #[trigger] after.cgi_jobs.contains_key(x) implies after.runs(x) && x
        <= after.cgi_counter by {
        if x != job {
            assert(state.cgi_jobs.contains_key(x));
            assert(state.runs(x));
        }
    }
    assert forall|x: i32| #[trigger] after.clients.contains_key(x) implies after.clients[x].wf()
        && (after.clients[x].waiting_cgi matches Some(id) ==> after.cgi_jobs.contains_key(id)
        && after.cgi_jobs[id].client_fd == x) by {
        assert(state.clients.contains_key(x));
    }
    assert forall|x: i32| #[trigger]
        after.cgi_pipes.contains_key(x) implies after.cgi_jobs.contains_key(
        after.cgi_pipes[x].job(),
    ) by {
        if after.cgi_pipes[x].job() != job {
            assert(state.cgi_pipes.contains_key(x));
        }
    }
}

/// What becomes of a script keeps the tables fitting together.
pub proof fn lemma_with_process(state: StateView, job: u64, process: CgiView)
    requires
        state.wf(),
        state.cgi_jobs.contains_key(job),
        process.wf(),
    ensures
        state.with_process(job, process).wf(),
{
    let after = state.with_process(job, process);
    assert forall|x: u64| #[trigger] after.cgi_jobs.contains_key(x) implies after.runs(x) && x
        <= after.cgi_counter by {
        assert(state.cgi_jobs.contains_key(x));
        assert(state.runs(x));
    }
    assert forall|x: i32| #[trigger] after.clients.contains_key(x) implies after.clients[x].wf()
        && (after.clients[x].waiting_cgi matches Some(id) ==> after.cgi_jobs.contains_key(id)
        && after.cgi_jobs[id].client_fd == x) by {
        assert(state.clients.contains_key(x));
    }
}

/// To end a script keeps the tables fitting together.
pub proof fn lemma_after_job(state: StateView, job: u64)
    requires
        state.wf(),
    ensures
        state.after_job(job).wf(),
{
    if state.cgi_jobs.contains_key(job) {
        let after = state.after_job(job);
        let fd = state.cgi_jobs[job].client_fd;
        assert(state.runs(job));
        assert forall|x: u64| #[trigger] after.cgi_jobs.contains_key(x) implies after.runs(x) && x
            <= after.cgi_counter by {
            assert(state.cgi_jobs.contains_key(x));
            assert(state.runs(x));
        }
        assert forall|x: i32| #[trigger] after.clients.contains_key(x) implies after.clients[x].wf()
            && (after.clients[x].waiting_cgi matches Some(id) ==> after.cgi_jobs.contains_key(id)
            && after.cgi_jobs[id].client_fd == x) by {
            assert(state.clients.contains_key(x));
        }
    }
}

/// A watch that is set, or one that is changed.
#[derive(Clone, Copy, Debug, PartialEq, Eq, Structural)]
pub struct Watch {
    pub fd: i32,
    pub events: u32,
    /// Whether the descriptor was not watched before.
    pub added: bool,
}

/// The watches for a script, in the order in which they are set.
pub open spec fn watches_for(stdin: Option<i32>, stdout: Option<i32>, client_fd: i32) -> Seq<Watch> {
    (match stdout {
        Some(fd) => seq![Watch { fd, events: CGI_STDOUT_EVENTS, added: true }],
        None => seq![],
    }) + (match stdin {
        Some(fd) => seq![Watch { fd, events: CGI_STDIN_EVENTS, added: true }],
        None => seq![],
    }) + seq![Watch { fd: client_fd, events: CLIENT_WAIT_EVENTS, added: false }]
}

/// The descriptors that the watches added, the last one first.
pub open spec fn added_fds(watches: Seq<Watch>) -> Seq<i32>
    decreases watches.len(),
{
    if watches.len() == 0 {
        seq![]
    } else {
        (if watches.last().added {
            seq![watches.last().fd]
        } else {
            seq![]
        }) + added_fds(watches.drop_last())
    }
}

/// The watches for a script, in the order in which they are set.
pub fn cgi_watches(stdin: Option<i32>, stdout: Option<i32>, client_fd: i32) -> (r: Vec<Watch>)
    ensures
        r@ == watches_for(stdin, stdout, client_fd),
{
    let mut r: Vec<Watch> = Vec::new();
    match stdout {
        Some(fd) => {
            r.push(Watch { fd, events: CGI_STDOUT_EVENTS, added: true });
        },
        None => {},
    }
    match stdin {
        Some(fd) => {
            r.push(Watch { fd, events: CGI_STDIN_EVENTS, added: true });
        },
        None => {},
    }
    r.push(Watch { fd: client_fd, events: CLIENT_WAIT_EVENTS, added: false });
    assert(r@ == watches_for(stdin, stdout, client_fd));
    r
}

/// The descriptors to stop watching after the first `done` watches were set and the next
/// one could not be.
pub fn undo_watches(watches: &Vec<Watch>, done: usize) -> (r: Vec<i32>)
    requires
        done <= watches@.len(),
    ensures
        r@ == added_fds(watches@.take(done as int)),
{
    let mut r: Vec<i32> = Vec::new();
    let mut i: usize = done;
    while i > 0
        invariant
            i <= done <= watches@.len(),
            r@ + added_fds(watches@.take(i as int)) == added_fds(watches@.take(done as int)),
        decreases i,
    {
        i -= 1;
        let ghost before = r@;
        assert(watches@.take(i + 1).drop_last() == watches@.take(i as int));
        if watches[i].added {
            r.push(watches[i].fd);
            assert(before + (seq![watches@[i as int].fd] + added_fds(watches@.take(i as int)))
                == r@ + added_fds(watches@.take(i as int)));
        } else {
            assert(Seq::<i32>::empty() + added_fds(watches@.take(i as int)) == added_fds(
                watches@.take(i as int),
            ));
        }
    }
    assert(added_fds(watches@.take(0)) == Seq::<i32>::empty());
    assert(r@ + Seq::<i32>::empty() == r@);
    r
}

/// The status of the answer where a script gave no response.
pub open spec fn error_status(error: CgiErrorView) -> u16 {
    match error {
        CgiErrorView::Timeout => 504,
        _ => 500,
    }
}

/// The status of the answer where a script gave no response.
pub fn cgi_error_status(error: &CgiError) -> (status: u16)
    ensures
        status == error_status(error@),
{
    match error {
        CgiError::Timeout => 504,
        _ => 500,
    }
}

/// The answer to a request that no server of the configuration is there for.
pub fn no_server_response() -> (r: Response)
    ensures
        r@ == ResponseView::text(500, "server configuration not found\n"@),
{
    Response::text(500, "server configuration not found\n")
}

/// The answer with a status where no server of the configuration is there for it.
pub open spec fn plain_error_view(status: u16) -> ResponseView {
    ResponseView::text(
        status,
        text::decimal(status as nat) + " "@ + http::reason(status) + "\n"@,
    )
}

/// The answer with a status where no server of the configuration is there for it.
pub fn plain_error(status: u16) -> (r: Response)
    ensures
        r@ == plain_error_view(status),
{
    let mut body = String::new();
    append_number(&mut body, status as u64, 10);
    assert(body@ == text::decimal(status as nat));
    body.append(" ");
    body.append(status_text(status));
    body.append("\n");
    Response::text(status, body.as_str())
}

/// Whether one of the names of a server is the host.
fn has_name(server: &ServerConfig, host: &str) -> (b: bool)
    ensures
        b == serves_host(server@, host@),
{
    let ghost names = server@.server_names;
    for i in 0..server.server_names.len()
        invariant
            names == server@.server_names,
            forall|j: int| 0 <= j < i ==> util::hostname(#[trigger] names[j]) != host@,
    {
        assert(names[i as int] == server.server_names@[i as int]@);
        let name = host_without_port(server.server_names[i].as_str());
        if same_str(name.as_str(), host) {
            return true;
        }
    }
    false
}

/// The server that a request to the group goes to.
fn choose_server(
    group: &Vec<usize>,
    servers: &Vec<ServerConfig>,
    wanted: Option<String>,
) -> (index: usize)
    requires
        group@.len() > 0,
        forall|i: int| 0 <= i < group@.len() ==> (#[trigger] group@[i]) < servers@.len(),
    ensures
        index == chosen_server(group@, config::servers_of(servers@), config::text_of(wanted)),
        index < servers@.len(),
{
    let ghost all = config::servers_of(servers@);
    match &wanted {
        Some(host) => {
            assert(group@.skip(0) == group@);
            for i in 0..group.len()
                invariant
                    config::text_of(wanted) == Some(host@),
                    all == config::servers_of(servers@),
                    forall|i: int|
                        0 <= i < group@.len() ==> (#[trigger] group@[i]) < servers@.len(),
                    named_index(group@, all, host@) == i + named_index(
                        group@.skip(i as int),
                        all,
                        host@,
                    ),
            {
                let index: usize = group[i];
                assert(all[index as int] == servers@[index as int]@);
                assert(group@.skip(i as int)[0] == index);
                assert(group@.skip(i as int).drop_first() == group@.skip(i + 1));
                if has_name(&servers[index], host.as_str()) {
                    return index;
                }
            }
            group[0]
        },
        None => group[0],
    }
}

impl Server {
    /// The server that a request of the client goes to.
    fn select_server_index(&self, fd: i32, request: &Request) -> (r: Option<usize>)
        requires
            self.wf(),
        ensures
            r == self@.server_for(fd, request@),
            r matches Some(index) ==> index < self@.config.servers.len(),
    {
        let listen_fd: i32 = match self.clients.get(&fd) {
            Some(client) => client.listen_fd(),
            None => {
                return None;
            },
        };
        match self.listeners.get(&listen_fd) {
            Some(group) => {
                assert(self@.listeners.contains_key(listen_fd));
                assert(self@.config.servers == config::servers_of(self.config.servers@));
                Some(choose_server(&group.servers, &self.config.servers, request.host()))
            },
            None => None,
        }
    }

    /// Opens the exchange for a request of a client; there is none where no server of the
    /// configuration is there for it.
    pub fn open_exchange(
        &mut self,
        fd: i32,
        request: &Request,
        now: u64,
        millis: u64,
        process: u64,
    ) -> (r: Option<Exchange>)
        requires
            old(self).wf(),
        ensures
            final(self).wf(),
            final(self)@ == old(self)@.opened(fd, request@, now, millis, process).0,
            match r {
                Some(exchange) => old(self)@.opened(fd, request@, now, millis, process).1 == Some(
                    exchange@,
                ) && exchange.server < final(self)@.config.servers.len(),
                None => old(self)@.opened(fd, request@, now, millis, process).1 is None,
            },
    {
        let server: usize = match self.select_server_index(fd, request) {
            Some(server) => server,
            None => {
                return None;
            },
        };
        let close_after_write = request.should_close_connection();
        let http10 = same_str(request.version.as_str(), "HTTP/1.0");
        let session = self.sessions.touch_session(request, now, millis, process);
        Some(Exchange { server, session, close_after_write, http10 })
    }

    /// The server whose pages tell a client what went wrong before its request was read.
    pub fn error_server(&self, fd: i32) -> (r: Option<usize>)
        requires
            self.wf(),
        ensures
            r == self@.error_server(fd),
            r matches Some(index) ==> index < self@.config.servers.len(),
    {
        let listen_fd: i32 = match self.clients.get(&fd) {
            Some(client) => client.listen_fd(),
            None => fd,
        };
        match self.listeners.get(&listen_fd) {
            Some(group) => {
                assert(self@.listeners.contains_key(listen_fd));
                Some(group.servers[0])
            },
            None => None,
        }
    }

    /// Gives a number to a script that was started.
    pub fn number_cgi_job(&mut self) -> (job: u64)
        requires
            old(self).wf(),
        ensures
            final(self).wf(),
            final(self)@ == old(self)@.with_number(),
            job == final(self)@.cgi_counter,
            old(self)@.cgi_counter < u64::MAX ==> !final(self)@.cgi_jobs.contains_key(job),
    {
        let ghost before = self@;
        if self.cgi_counter < u64::MAX {
            self.cgi_counter += 1;
        }
        proof {
            assert forall|job: u64| #[trigger] self@.cgi_jobs.contains_key(job) implies self@.runs(
                job,
            ) && job <= self@.cgi_counter by {
                assert(before.cgi_jobs.contains_key(job));
                assert(before.runs(job));
            }
        }
        self.cgi_counter
    }

    /// Takes in a script that was started for a client, under the number that was given to
    /// it.
    pub fn start_cgi_job(
        &mut self,
        job: u64,
        client_fd: i32,
        process: CgiProcess,
        stdin_fd: Option<i32>,
        stdout_fd: Option<i32>,
        exchange: Exchange,
        now: u64,
    )
        requires
            old(self).wf(),
            old(self)@.clients.contains_key(client_fd),
            old(self)@.waiting(client_fd) is None,
            process@.wf(),
            exchange.server < old(self)@.config.servers.len(),
        ensures
            !old(self)@.cgi_jobs.contains_key(job) && job <= old(self)@.cgi_counter
                ==> final(self).wf(),
            final(self)@ == old(self)@.with_job(
                job,
                client_fd,
                process@,
                stdin_fd,
                stdout_fd,
                exchange@,
                now,
            ),
    {
        let ghost before = self@;
        match stdin_fd {
            Some(fd) => {
                self.cgi_pipes.insert(fd, CgiPipe::Stdin(job));
            },
            None => {},
        }
        match stdout_fd {
            Some(fd) => {
                self.cgi_pipes.insert(fd, CgiPipe::Stdout(job));
            },
            None => {},
        }
        let entry = CgiJob { process, client_fd, exchange };
        self.cgi_jobs.insert(job, entry);
        assert(self@.cgi_jobs == before.cgi_jobs.insert(job, entry@));
        match self.clients.remove(&client_fd) {
            Some(mut client) => {
                client.wait_for(job, now);
                self.clients.insert(client_fd, client);
                assert(self@.clients == before.clients.insert(client_fd, client@));
            },
            None => {},
        }
        proof {
            if !before.cgi_jobs.contains_key(job) && job <= before.cgi_counter {
                lemma_with_job(
                    before,
                    job,
                    client_fd,
                    process@,
                    stdin_fd,
                    stdout_fd,
                    exchange@,
                    now,
                );
            }
        }
    }

    /// The script that a pipe belongs to, and what an event on the pipe leads to.
    pub fn handle_cgi_event(&self, fd: i32, events: u32) -> (r: Option<(u64, PipeStep)>)
        requires
            self.wf(),
        ensures
            match r {
                Some((job, step)) => self@.cgi_pipes.contains_key(fd) && job
                    == self@.cgi_pipes[fd].job() && self@.cgi_jobs.contains_key(job) && step
                    == epoll::pipe_step_for(events, self@.cgi_pipes[fd] is Stdin),
                None => !self@.cgi_pipes.contains_key(fd),
            },
    {
        match self.cgi_pipes.get(&fd) {
            Some(pipe) => {
                assert(self@.cgi_pipes.contains_key(fd));
                let is_input = match pipe {
                    CgiPipe::Stdin(_) => true,
                    CgiPipe::Stdout(_) => false,
                };
                Some((pipe.job_id(), pipe_step(events, is_input)))
            },
            None => None,
        }
    }

    /// The part of the body that a script has not been given.
    pub fn pending_input(&self, job: u64) -> (r: Option<&[u8]>)
        requires
            self.wf(),
        ensures
            match r {
                Some(bytes) => self@.cgi_jobs.contains_key(job) && bytes@
                    == self@.cgi_jobs[job].process.body.skip(self@.cgi_jobs[job].process.written),
                None => !self@.cgi_jobs.contains_key(job),
            },
    {
        match self.cgi_jobs.get(&job) {
            Some(entry) => {
                assert(self@.cgi_jobs.contains_key(job));
                assert(self@.runs(job));
                Some(entry.process.pending_input())
            },
            None => None,
        }
    }

    /// Takes note of a write to a script by way of the pipe.
    pub fn cgi_written(&mut self, fd: i32, job: u64, event: WriteEvent) -> (r: PipeResult)
        requires
            old(self).wf(),
            old(self)@.cgi_jobs.contains_key(job),
        ensures
            final(self).wf(),
            final(self)@ == old(self)@.after_transfer(
                fd,
                job,
                old(self)@.cgi_jobs[job].process.after_write(event@),
            ),
            pipe_result(r) == old(self)@.cgi_jobs[job].process.after_write(event@).1,
            r matches PipeResult::Failed(error) ==> error is Io,
    {
        let ghost before = self@;
        match self.cgi_jobs.remove(&job) {
            Some(mut entry) => {
                assert(before.cgi_jobs[job] == entry@);
                assert(before.runs(job));
                let result = entry.process.write_stdin_once(event);
                self.cgi_jobs.insert(job, entry);
                proof {
                    assert(self@.cgi_jobs == before.cgi_jobs.insert(job, entry@));
                    lemma_with_process(before, job, entry.process@);
                }
                self.settle(fd, result)
            },
            None => PipeResult::Open,
        }
    }

    /// Closes the input of a script.
    pub fn cgi_input_closed(&mut self, fd: i32, job: u64)
        requires
            old(self).wf(),
            old(self)@.cgi_jobs.contains_key(job),
        ensures
            final(self).wf(),
            final(self)@ == old(self)@.after_transfer(
                fd,
                job,
                (
                    CgiView { stdin_open: false, ..old(self)@.cgi_jobs[job].process },
                    Ok::<bool, CgiErrorView>(true),
                ),
            ),
    {
        let ghost before = self@;
        match self.cgi_jobs.remove(&job) {
            Some(mut entry) => {
                assert(before.cgi_jobs[job] == entry@);
                assert(before.runs(job));
                entry.process.close_stdin();
                self.cgi_jobs.insert(job, entry);
                proof {
                    assert(self@.cgi_jobs == before.cgi_jobs.insert(job, entry@));
                    lemma_with_process(before, job, entry.process@);
                }
                self.settle(fd, Ok(true));
            },
            None => {},
        }
    }

    /// Takes note of a read from a script by way of the pipe.
    pub fn cgi_read(&mut self, fd: i32, job: u64, event: ReadEvent) -> (r: PipeResult)
        requires
            old(self).wf(),
            old(self)@.cgi_jobs.contains_key(job),
        ensures
            final(self).wf(),
            final(self)@ == old(self)@.after_transfer(
                fd,
                job,
                old(self)@.cgi_jobs[job].process.after_read(event@),
            ),
            pipe_result(r) == old(self)@.cgi_jobs[job].process.after_read(event@).1,
            r matches PipeResult::Failed(error) ==> error is Io,
    {
        let ghost before = self@;
        match self.cgi_jobs.remove(&job) {
            Some(mut entry) => {
                assert(before.cgi_jobs[job] == entry@);
                assert(before.runs(job));
                let result = entry.process.read_stdout_once(event);
                self.cgi_jobs.insert(job, entry);
                proof {
                    assert(self@.cgi_jobs == before.cgi_jobs.insert(job, entry@));
                    lemma_with_process(before, job, entry.process@);
                }
                self.settle(fd, result)
            },
            None => PipeResult::Open,
        }
    }

    /// Takes a pipe out of the table once it is closed.
    fn settle(&mut self, fd: i32, result: Result<bool, CgiError>) -> (r: PipeResult)
        requires
            old(self).wf(),
        ensures
            final(self).wf(),
            final(self)@ == (if result matches Ok(true) {
                StateView { cgi_pipes: old(self)@.cgi_pipes.remove(fd), ..old(self)@ }
            } else {
                old(self)@
            }),
            match result {
                Ok(true) => r is Closed,
                Ok(false) => r is Open,
                Err(error) => r == PipeResult::Failed(error),
            },
    {
        let ghost before = self@;
        match result {
            Ok(true) => {
                self.cgi_pipes.remove(&fd);
                proof {
                    assert forall|job: u64| #[trigger]
                        self@.cgi_jobs.contains_key(job) implies self@.runs(job) by {
                        assert(before.cgi_jobs.contains_key(job));
                        assert(before.runs(job));
                    }
                }
                PipeResult::Closed
            },
            Ok(false) => PipeResult::Open,
            Err(error) => PipeResult::Failed(error),
        }
    }

    /// The scripts that run, each of them once.
    pub fn cgi_job_ids(&self) -> (list: Vec<u64>)
        ensures
            list@.no_duplicates(),
            forall|job: u64| #[trigger] list@.contains(job) <==> self@.cgi_jobs.contains_key(job),
    {
        let list = keys_of(&self.cgi_jobs);
        assert forall|job: u64| #[trigger] list@.contains(job) <==> self@.cgi_jobs.contains_key(
            job,
        ) by {
            assert(self@.cgi_jobs.contains_key(job) == self.cgi_jobs@.contains_key(job));
        }
        list
    }

    /// Whether the time of a script is over, so that it has to be stopped.
    pub fn cgi_job_is_late(&self, job: u64, now: u64) -> (b: bool)
        ensures
            b == (self@.cgi_jobs.contains_key(job) && self@.cgi_jobs[job].process.is_late(now)),
    {
        match self.cgi_jobs.get(&job) {
            Some(entry) => {
                assert(self@.cgi_jobs.contains_key(job));
                entry.process.is_late(now)
            },
            None => false,
        }
    }

    /// What a script has come to, given whether it still runs; one whose time is over was
    /// stopped before.
    pub fn poll_cgi_job(&mut self, job: u64, now: u64, event: ExitEvent) -> (r: Option<
        Result<Response, CgiError>,
    >)
        requires
            old(self).wf(),
        ensures
            final(self).wf(),
            if old(self)@.cgi_jobs.contains_key(job) {
                let process = old(self)@.cgi_jobs[job].process;
                &&& final(self)@ == old(self)@.with_process(job, process.polled(now, event))
                &&& match r {
                    Some(result) => process.outcome(now, event) == Some(cgi::result_view(result)),
                    None => process.outcome(now, event) is None,
                }
            } else {
                final(self)@ == old(self)@ && r is None
            },
    {
        let ghost before = self@;
        match self.cgi_jobs.remove(&job) {
            Some(mut entry) => {
                assert(before.cgi_jobs.contains_key(job));
                assert(before.cgi_jobs[job] == entry@);
                assert(before.runs(job));
                let result = entry.process.poll(now, event);
                self.cgi_jobs.insert(job, entry);
                proof {
                    assert(self@.cgi_jobs == before.cgi_jobs.insert(job, entry@));
                    lemma_with_process(before, job, entry.process@);
                }
                result
            },
            None => {
                assert(self@.cgi_jobs == before.cgi_jobs);
                None
            },
        }
    }

    /// Takes out a script that ended.
    pub fn finish_cgi_job(&mut self, job: u64) -> (r: Option<FinishedJob>)
        requires
            old(self).wf(),
        ensures
            final(self).wf(),
            final(self)@ == old(self)@.after_job(job),
            match r {
                Some(finished) => {
                    &&& old(self)@.cgi_jobs.contains_key(job)
                    &&& finished.job@ == old(self)@.cgi_jobs[job]
                    &&& lists_pipes(finished.pipes@, old(self)@.cgi_pipes, job)
                    &&& finished.has_client == old(self)@.clients.contains_key(
                        finished.job.client_fd,
                    )
                    &&& finished.job.exchange.server < final(self)@.config.servers.len()
                },
                None => !old(self)@.cgi_jobs.contains_key(job),
            },
    {
        let ghost before = self@;
        proof {
            lemma_after_job(before, job);
        }
        match self.cgi_jobs.remove(&job) {
            Some(entry) => {
                proof {
                    assert(before.cgi_jobs.contains_key(job));
                    assert(before.cgi_jobs[job] == entry@);
                    assert(before.runs(job));
                    assert(self@.cgi_jobs == before.cgi_jobs.remove(job));
                }
                let pipes = remove_pipes(&mut self.cgi_pipes, job);
                let has_client = match self.clients.remove(&entry.client_fd) {
                    Some(mut client) => {
                        client.stop_waiting();
                        self.clients.insert(entry.client_fd, client);
                        assert(self@.clients == before.clients.insert(entry.client_fd, client@));
                        true
                    },
                    None => {
                        assert(self@.clients == before.clients);
                        false
                    },
                };
                Some(FinishedJob { job: entry, pipes, has_client })
            },
            None => {
                assert(self@.cgi_jobs == before.cgi_jobs);
                None
            },
        }
    }
}

/// What the bytes received from a client lead to.
#[derive(Debug)]
pub enum Reaction {
    /// There is no request yet.
    Nothing,
    /// The client is told the status, and the connection ends; the text says what is wrong
    /// with a request that cannot be read.
    Reject(u16, Option<String>),
    /// The response is sent, and the connection ends.
    Reply(Response),
    /// The request is handled, with that first step.
    Handle(Request, Exchange, Step),
}

pub enum ReactionView {
    Nothing,
    Reject(u16, Option<Seq<char>>),
    Reply(ResponseView),
    Handle(RequestView, ExchangeView, StepView),
}

impl View for Reaction {
    type V = ReactionView;

    open spec fn view(&self) -> ReactionView {
        match self {
            Reaction::Nothing => ReactionView::Nothing,
            Reaction::Reject(status, message) => ReactionView::Reject(
                *status,
                config::text_of(*message),
            ),
            Reaction::Reply(response) => ReactionView::Reply(response@),
            Reaction::Handle(request, exchange, step) => ReactionView::Handle(
                request@,
                exchange@,
                step@,
            ),
        }
    }
}

impl StateView {
    /// The tables after the bytes received from a client were looked at, and what they lead
    /// to.
    pub open spec fn reaction(self, fd: i32, now: u64, millis: u64, process: u64) -> (
        StateView,
        ReactionView,
    ) {
        if !self.clients.contains_key(fd) {
            (self, ReactionView::Nothing)
        } else {
            let client = self.clients[fd];
            let state = self.with_client(fd, client.after_parse());
            match client.parsed() {
                ParseView::Incomplete => (state, ReactionView::Nothing),
                ParseView::BadRequest(message) => (
                    state,
                    ReactionView::Reject(400, Some(message)),
                ),
                ParseView::TooLarge => (state, ReactionView::Reject(413, None)),
                ParseView::Complete(request, _) => {
                    let (state, exchange) = state.opened(fd, request, now, millis, process);
                    match exchange {
                        Some(exchange) => (
                            state,
                            ReactionView::Handle(
                                request,
                                exchange,
                                router::started(
                                    request,
                                    state.config.servers[exchange.server as int],
                                    exchange.session,
                                ),
                            ),
                        ),
                        None => (
                            state,
                            ReactionView::Reply(
                                ResponseView::text(500, "server configuration not found\n"@),
                            ),
                        ),
                    }
                },
            }
        }
    }
}

impl Server {
    /// Looks at the bytes received from a client.
    pub fn try_build_response(&mut self, fd: i32, now: u64, millis: u64, process: u64) -> (r: Reaction)
        requires
            old(self).wf(),
        ensures
            final(self).wf(),
            (final(self)@, r@) == old(self)@.reaction(fd, now, millis, process),
            r matches Reaction::Handle(_, exchange, _) ==> exchange.server
                < final(self)@.config.servers.len(),
    {
        match self.take_request(fd) {
            None => Reaction::Nothing,
            Some(ParseResult::Incomplete) => Reaction::Nothing,
            Some(ParseResult::BadRequest(message)) => Reaction::Reject(400, Some(message)),
            Some(ParseResult::TooLarge) => Reaction::Reject(413, None),
            Some(ParseResult::Complete(request, _)) => match self.open_exchange(
                fd,
                &request,
                now,
                millis,
                process,
            ) {
                Some(exchange) => {
                    let step = handle_request(
                        &request,
                        self.server_config(exchange.server),
                        &exchange.session,
                    );
                    Reaction::Handle(request, exchange, step)
                },
                None => Reaction::Reply(no_server_response()),
            },
        }
    }
}

} // verus!
