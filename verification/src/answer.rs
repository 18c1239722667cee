//! How clients are answered: the responses that go on their way, and those that end a
//! connection because a request cannot be read or its time is over.
use vstd::prelude::*;
use vstd::slice::*;

use crate::cgi;
use crate::cgi::{CgiError, CgiErrorView};
use crate::client::ClientView;
use crate::config;
use crate::config::{ServerConfig, ServerView};
use crate::http::{Response, ResponseView};
use crate::router;
use crate::router::{error_page, error_response};
use crate::server;
use crate::server::{cgi_error_status, plain_error, Exchange, Server, StateView};

verus! {

/// The contents of the page that goes to a client, where they could be read.
#[derive(Debug)]
pub struct ClientPage {
    pub fd: i32,
    pub page: Option<Vec<u8>>,
}

impl View for ClientPage {
    type V = (i32, Option<Seq<u8>>);

    open spec fn view(&self) -> (i32, Option<Seq<u8>>) {
        (self.fd, router::bytes_of(self.page))
    }
}

/// The pages that go to clients.
pub open spec fn pages_of(pages: Seq<ClientPage>) -> Seq<(i32, Option<Seq<u8>>)> {
    pages.map_values(|page: ClientPage| page@)
}

/// The first page that goes to the client.
pub open spec fn page_for(pages: Seq<(i32, Option<Seq<u8>>)>, fd: i32) -> Option<Seq<u8>>
    decreases pages.len(),
{
    if pages.len() == 0 {
        None
    } else if pages[0].0 == fd {
        pages[0].1
    } else {
        page_for(pages.drop_first(), fd)
    }
}

/// The response of a script, or the answer that tells that there is none.
pub open spec fn script_view(
    result: Result<ResponseView, CgiErrorView>,
    server: ServerView,
    page: Option<Seq<u8>>,
) -> ResponseView {
    match result {
        Ok(response) => response,
        Err(error) => router::error_view(server::error_status(error), server, page),
    }
}

impl StateView {
    /// The page that tells a client the status, where one is configured.
    pub open spec fn refusal_page(self, fd: i32, status: u16) -> Option<Seq<char>> {
        match self.error_server(fd) {
            Some(index) if self.config.servers[index as int].error_pages.contains_key(status)
                => Some(self.config.servers[index as int].error_pages[status]),
            _ => None,
        }
    }

    /// The answer that tells a client the status, with the contents of the page, where they
    /// could be read.
    pub open spec fn refusal(self, fd: i32, status: u16, page: Option<Seq<u8>>) -> ResponseView {
        match self.error_server(fd) {
            Some(index) => router::error_view(status, self.config.servers[index as int], page),
            None => server::plain_error_view(status),
        }
    }

    /// The tables with the answer that tells a client the status on its way. The connection
    /// ends with it.
    pub open spec fn refused(
        self,
        fd: i32,
        status: u16,
        page: Option<Seq<u8>>,
        now: u64,
    ) -> StateView {
        self.with_queued(fd, self.refusal(fd, status, page), true, now)
    }

    /// Whether the time of a client for a request is over.
    pub open spec fn times_out(self, fd: i32, now: u64) -> bool {
        self.clients.contains_key(fd) && self.clients[fd].is_timed_out(
            now,
            self.config.request_timeout,
        )
    }

    /// The client after its time is over: the response on its way is the last one, and
    /// where there is none, it is told the status 408.
    pub open spec fn timed_out_client(
        self,
        fd: i32,
        page: Option<Seq<u8>>,
        now: u64,
    ) -> ClientView {
        if self.clients[fd].has_response() {
            self.clients[fd].closing()
        } else {
            self.clients[fd].with_response(self.refusal(fd, 408, page), true, now)
        }
    }

    /// The tables after the clients whose time is over were told.
    pub open spec fn after_timeouts(
        self,
        pages: Seq<(i32, Option<Seq<u8>>)>,
        now: u64,
    ) -> StateView {
        StateView {
            clients: Map::new(
                |fd: i32| self.clients.contains_key(fd),
                |fd: i32|
                    if self.times_out(fd, now) {
                        self.timed_out_client(fd, page_for(pages, fd), now)
                    } else {
                        self.clients[fd]
                    },
            ),
            ..self
        }
    }
}

/// The first page that goes to the client.
fn find_page(pages: &Vec<ClientPage>, fd: i32) -> (r: Option<Vec<u8>>)
    ensures
        router::bytes_of(r) == page_for(pages_of(pages@), fd),
{
    let ghost all = pages_of(pages@);
    let mut i: usize = 0;
    assert(all.skip(0) == all);
    while i < pages.len()
        invariant
            i <= pages@.len(),
            all == pages_of(pages@),
            page_for(all.skip(i as int), fd) == page_for(all, fd),
        decreases pages.len() - i,
    {
        assert(all.skip(i as int)[0] == pages@[i as int]@);
        assert(all.skip(i as int).drop_first() == all.skip(i + 1));
        if pages[i].fd == fd {
            return match &pages[i].page {
                Some(bytes) => {
                    let copy = slice_to_vec(bytes.as_slice());
                    assert(copy@ == bytes@);
                    Some(copy)
                },
                None => None,
            };
        }
        i += 1;
    }
    None
}

/// The response of a script, or the answer that tells that there is none, with the contents
/// of the page configured for it, where they could be read.
pub fn script_response(
    result: Result<Response, CgiError>,
    server: &ServerConfig,
    page: Option<Vec<u8>>,
) -> (r: Response)
    ensures
        r@ == script_view(cgi::result_view(result), server@, router::bytes_of(page)),
{
    match result {
        Ok(response) => response,
        Err(error) => error_response(cgi_error_status(&error), server, page),
    }
}

impl Server {
    /// Puts the answer to a request on its way to the client.
    pub fn answer(&mut self, fd: i32, exchange: &Exchange, response: Response, now: u64)
        requires
            old(self).wf(),
        ensures
            final(self).wf(),
            final(self)@ == old(self)@.with_queued(
                fd,
                exchange@.answer(response@),
                exchange@.close_after_write,
                now,
            ),
    {
        let response = exchange.answer(response);
        self.queue_response(fd, &response, exchange.close_after_write, now);
    }

    /// Puts a response on its way to a client with which the connection ends.
    pub fn queue_last_response(&mut self, fd: i32, response: &Response, now: u64)
        requires
            old(self).wf(),
        ensures
            final(self).wf(),
            final(self)@ == old(self)@.with_queued(fd, response@, true, now),
    {
        self.queue_response(fd, response, true, now);
    }

    /// The page that tells a client the status, where one is configured.
    pub fn refusal_page(&self, fd: i32, status: u16) -> (r: Option<String>)
        requires
            self.wf(),
        ensures
            config::text_of(r) == self@.refusal_page(fd, status),
    {
        match self.error_server(fd) {
            Some(index) => error_page(status, self.server_config(index)),
            None => None,
        }
    }

    /// The answer that tells a client the status, with the contents of the page, where they
    /// could be read.
    pub fn response_for_bad_request(&self, fd: i32, status: u16, page: Option<Vec<u8>>) -> (r:
        Response)
        requires
            self.wf(),
        ensures
            r@ == self@.refusal(fd, status, router::bytes_of(page)),
    {
        match self.error_server(fd) {
            Some(index) => error_response(status, self.server_config(index), page),
            None => plain_error(status),
        }
    }

    /// Tells a client the status. The connection ends with that.
    pub fn reject(&mut self, fd: i32, status: u16, page: Option<Vec<u8>>, now: u64)
        requires
            old(self).wf(),
        ensures
            final(self).wf(),
            final(self)@ == old(self)@.refused(fd, status, router::bytes_of(page), now),
    {
        let response = self.response_for_bad_request(fd, status, page);
        self.queue_last_response(fd, &response, now);
    }

    /// The page that tells a client that its time is over, where one is configured and no
    /// response is on its way.
    pub fn timeout_page(&self, fd: i32) -> (r: Option<String>)
        requires
            self.wf(),
        ensures
            config::text_of(r) == (if self@.has_response(fd) {
                None
            } else {
                self@.refusal_page(fd, 408)
            }),
    {
        if self.has_response(fd) {
            None
        } else {
            self.refusal_page(fd, 408)
        }
    }

    /// Ends the time of a client for a request.
    fn time_out_client(&mut self, fd: i32, page: Option<Vec<u8>>, now: u64)
        requires
            old(self).wf(),
            old(self)@.clients.contains_key(fd),
        ensures
            final(self).wf(),
            final(self)@ == old(self)@.with_client(
                fd,
                old(self)@.timed_out_client(fd, router::bytes_of(page), now),
            ),
    {
        if self.has_response(fd) {
            self.close_after_response(fd);
        } else {
            self.reject(fd, 408, page, now);
        }
    }

    /// Ends the time for requests of the clients that were idle for too long, and lists
    /// them, each of them once: each has a response on its way now, which is the last.
    pub fn close_timed_out_clients(&mut self, pages: &Vec<ClientPage>, now: u64) -> (list: Vec<
        i32,
    >)
        requires
            old(self).wf(),
        ensures
            final(self).wf(),
            final(self)@ == old(self)@.after_timeouts(pages_of(pages@), now),
            list@.no_duplicates(),
            forall|fd: i32| #[trigger] list@.contains(fd) <==> old(self)@.times_out(fd, now),
    {
        let ghost before = self@;
        let ghost contents = pages_of(pages@);
        let list = self.timed_out_clients(now);
        for i in 0..list.len()
            invariant
                self.wf(),
                list@.no_duplicates(),
                contents == pages_of(pages@),
                forall|fd: i32| #[trigger] list@.contains(fd) <==> before.times_out(fd, now),
                self@ == (StateView { clients: self@.clients, ..before }),
                self@.clients.dom() == before.clients.dom(),
                forall|fd: i32| #[trigger]
                    before.clients.contains_key(fd) ==> self@.clients[fd] == (if list@.take(
                        i as int,
                    ).contains(fd) {
                        before.timed_out_client(fd, page_for(contents, fd), now)
                    } else {
                        before.clients[fd]
                    }),
        {
            let fd: i32 = list[i];
            let ghost during = self@;
            proof {
                assert(list@.contains(fd));
                assert(before.times_out(fd, now));
                assert(!list@.take(i as int).contains(fd));
                assert(during.clients.dom().contains(fd));
            }
            let page = find_page(pages, fd);
            self.time_out_client(fd, page, now);
            proof {
                assert(self@.clients.dom() == before.clients.dom());
                assert forall|x: i32| #[trigger]
                    before.clients.contains_key(x) implies self@.clients[x] == (if list@.take(
                    i + 1,
                ).contains(x) {
                    before.timed_out_client(x, page_for(contents, x), now)
                } else {
                    before.clients[x]
                }) by {
                    if x == fd {
                        assert(list@.take(i + 1)[i as int] == fd);
                    } else {
                        lemma_take_contains(list@, i as int, x);
                    }
                }
            }
        }
        assert(list@.take(list@.len() as int) == list@);
        assert(self@.clients == before.after_timeouts(contents, now).clients);
        list
    }
}

proof fn lemma_take_contains(list: Seq<i32>, i: int, x: i32)
    requires
        0 <= i < list.len(),
        list[i] != x,
    ensures
        list.take(i + 1).contains(x) == list.take(i).contains(x),
{
    let shorter = list.take(i);
    let longer = list.take(i + 1);
    if longer.contains(x) {
        let j = choose|j: int| 0 <= j < longer.len() && longer[j] == x;
        assert(shorter[j] == x);
    }
    if shorter.contains(x) {
        let j = choose|j: int| 0 <= j < shorter.len() && shorter[j] == x;
        assert(longer[j] == x);
    }
}

} // verus!
