//! Which servers listen where.
use vstd::prelude::*;
use vstd::string::*;

use crate::config;
use crate::config::{ServerConfig, ServerView};
use crate::text;
use crate::text::{append_number, join_texts, same_str};

verus! {

/// The largest body of a request that no server is configured for.
pub const DEFAULT_MAX_BODY_SIZE: usize = 1048576;

/// An address, and what is configured for it so far.
#[derive(Debug)]
pub struct EndpointConfig {
    host: String,
    port: u16,
    has_unnamed_default: bool,
    server_names: Vec<String>,
    servers: Vec<usize>,
}

pub struct EndpointView {
    pub host: Seq<char>,
    pub port: u16,
    /// Whether a server without a name listens here.
    pub has_unnamed_default: bool,
    /// The names of the servers that listen here.
    pub server_names: Seq<Seq<char>>,
    /// The servers that listen here, by their place in the configuration.
    pub servers: Seq<usize>,
}

impl View for EndpointConfig {
    type V = EndpointView;

    closed spec fn view(&self) -> EndpointView {
        EndpointView {
            host: self.host@,
            port: self.port,
            has_unnamed_default: self.has_unnamed_default,
            server_names: text::string_texts(self.server_names@),
            servers: self.servers@,
        }
    }
}

/// An address and the servers that share it, and the largest body that any of them takes.
#[derive(Debug)]
pub struct ListenGroup {
    pub host: String,
    pub port: u16,
    pub servers: Vec<usize>,
    pub max_body_size: usize,
}

pub struct GroupView {
    pub host: Seq<char>,
    pub port: u16,
    pub servers: Seq<usize>,
    pub max_body_size: usize,
}

impl View for ListenGroup {
    type V = GroupView;

    open spec fn view(&self) -> GroupView {
        GroupView {
            host: self.host@,
            port: self.port,
            servers: self.servers@,
            max_body_size: self.max_body_size,
        }
    }
}

/// An address as text.
pub open spec fn address_of(host: Seq<char>, port: u16) -> Seq<char> {
    host + ":"@ + text::decimal(port as nat)
}

/// The names with those of the list added, up to the first one that is there already; and
/// that one.
pub open spec fn with_names(names: Seq<Seq<char>>, list: Seq<Seq<char>>) -> (
    Seq<Seq<char>>,
    Option<Seq<char>>,
)
    decreases list.len(),
{
    if list.len() == 0 {
        (names, None)
    } else if names.contains(list[0]) {
        (names, Some(list[0]))
    } else {
        with_names(names.push(list[0]), list.drop_first())
    }
}

impl EndpointView {
    /// An address for which nothing is configured.
    pub open spec fn new(host: Seq<char>, port: u16) -> EndpointView {
        EndpointView {
            host,
            port,
            has_unnamed_default: false,
            server_names: seq![],
            servers: seq![],
        }
    }

    /// The address after a server was to listen there, and why it does not. Only one server
    /// without a name listens at an address, and no two with the same name.
    pub open spec fn with_server(self, index: usize, server: ServerView) -> (
        EndpointView,
        Option<Seq<char>>,
    ) {
        if server.server_names.len() == 0 {
            if self.has_unnamed_default {
                (
                    self,
                    Some(
                        "ignored duplicate unnamed default server on "@ + address_of(
                            self.host,
                            self.port,
                        ),
                    ),
                )
            } else {
                (
                    EndpointView {
                        has_unnamed_default: true,
                        servers: self.servers.push(index),
                        ..self
                    },
                    None,
                )
            }
        } else {
            let (names, duplicate) = with_names(self.server_names, server.server_names);
            match duplicate {
                Some(name) => (
                    EndpointView { server_names: names, ..self },
                    Some(
                        "ignored server "@ + address_of(self.host, self.port)
                            + " because server_name "@ + name + " is duplicated"@,
                    ),
                ),
                None => (
                    EndpointView { server_names: names, servers: self.servers.push(index), ..self },
                    None,
                ),
            }
        }
    }
}

/// The place of an address in the list, or the length where it is not there.
pub open spec fn endpoint_index(endpoints: Seq<EndpointView>, host: Seq<char>, port: u16) -> int
    decreases endpoints.len(),
{
    if endpoints.len() == 0 || (endpoints[0].host == host && endpoints[0].port == port) {
        0
    } else {
        1 + endpoint_index(endpoints.drop_first(), host, port)
    }
}

/// The addresses in the order in which they are configured, and what there is to say about
/// them.
pub struct PlanView {
    pub endpoints: Seq<EndpointView>,
    pub warnings: Seq<Seq<char>>,
}

impl PlanView {
    /// The plan after a server was to listen at the port.
    pub open spec fn with_port(self, index: usize, server: ServerView, port: u16) -> PlanView {
        let i = endpoint_index(self.endpoints, server.host, port);
        let found = i < self.endpoints.len();
        let endpoint = if found {
            self.endpoints[i]
        } else {
            EndpointView::new(server.host, port)
        };
        let (endpoint, warning) = endpoint.with_server(index, server);
        PlanView {
            endpoints: if found {
                self.endpoints.update(i, endpoint)
            } else {
                self.endpoints.push(endpoint)
            },
            warnings: match warning {
                Some(message) => self.warnings.push(message),
                None => self.warnings,
            },
        }
    }

    /// The plan after a server was to listen at the ports.
    pub open spec fn with_ports(self, index: usize, server: ServerView, ports: Seq<u16>) -> PlanView
        decreases ports.len(),
    {
        if ports.len() == 0 {
            self
        } else {
            self.with_ports(index, server, ports.drop_last()).with_port(index, server, ports.last())
        }
    }
}

/// The plan for the servers.
pub open spec fn plan_for(servers: Seq<ServerView>) -> PlanView
    decreases servers.len(),
{
    if servers.len() == 0 {
        PlanView { endpoints: seq![], warnings: seq![] }
    } else {
        plan_for(servers.drop_last()).with_ports(
            (servers.len() - 1) as usize,
            servers.last(),
            servers.last().ports,
        )
    }
}

/// The largest body that any of the servers takes.
pub open spec fn largest_body(servers: Seq<ServerView>, indices: Seq<usize>) -> usize
    decreases indices.len(),
{
    if indices.len() == 0 {
        0
    } else {
        let rest = largest_body(servers, indices.drop_last());
        let index = indices.last() as int;
        if index < servers.len() && servers[index].client_max_body_size > rest {
            servers[index].client_max_body_size
        } else {
            rest
        }
    }
}

/// The groups of servers that share an address.
pub open spec fn groups_for(servers: Seq<ServerView>) -> Seq<GroupView> {
    plan_for(servers).endpoints.filter(
        |endpoint: EndpointView| endpoint.servers.len() > 0,
    ).map_values(|endpoint: EndpointView| group_of(servers, endpoint))
}

pub open spec fn group_of(servers: Seq<ServerView>, endpoint: EndpointView) -> GroupView {
    GroupView {
        host: endpoint.host,
        port: endpoint.port,
        servers: endpoint.servers,
        max_body_size: largest_body(servers, endpoint.servers),
    }
}

/// Whether the servers of a group stand in the configuration.
pub open spec fn group_fits(group: GroupView, count: nat) -> bool {
    group.servers.len() > 0 && forall|i: int|
        0 <= i < group.servers.len() ==> (#[trigger] group.servers[i]) < count
}

/// The addresses of a list.
pub open spec fn endpoints_of(list: Seq<EndpointConfig>) -> Seq<EndpointView> {
    list.map_values(|endpoint: EndpointConfig| endpoint@)
}

/// The groups of a list.
pub open spec fn groups_of(list: Seq<ListenGroup>) -> Seq<GroupView> {
    list.map_values(|group: ListenGroup| group@)
}

/// What the warning says where nothing can be listened at.
pub open spec fn no_listeners(warnings: Seq<Seq<char>>) -> Seq<char> {
    if warnings.len() == 0 {
        "no valid listeners could be created"@
    } else {
        "no valid listeners could be created: "@ + text::join(warnings, "; "@)
    }
}

/// An address as text.
pub fn address(host: &str, port: u16) -> (r: String)
    ensures
        r@ == address_of(host@, port),
{
    let mut r = host.to_owned();
    r.append(":");
    append_number(&mut r, port as u64, 10);
    r
}

/// What the warning says about an address that cannot be listened at.
pub fn bind_warning(address: &str, error: &str) -> (r: String)
    ensures
        r@ == "could not bind "@ + address@ + ": "@ + error@,
{
    let mut r = "could not bind ".to_owned();
    r.append(address);
    r.append(": ");
    r.append(error);
    r
}

/// What the error says where nothing can be listened at.
pub fn no_listeners_message(warnings: &Vec<String>) -> (r: String)
    ensures
        r@ == no_listeners(text::string_texts(warnings@)),
{
    if warnings.len() == 0 {
        return "no valid listeners could be created".to_owned();
    }
    let mut r = "no valid listeners could be created: ".to_owned();
    let list = join_texts(warnings, "; ");
    r.append(list.as_str());
    r
}

fn contains_text(list: &Vec<String>, wanted: &str) -> (b: bool)
    ensures
        b == text::string_texts(list@).contains(wanted@),
{
    let ghost all = text::string_texts(list@);
    for i in 0..list.len()
        invariant
            all == text::string_texts(list@),
            forall|j: int| 0 <= j < i ==> #[trigger] all[j] != wanted@,
    {
        assert(all[i as int] == list@[i as int]@);
        if same_str(list[i].as_str(), wanted) {
            return true;
        }
    }
    false
}

/// Adds the names of the list, up to the first one that is there already; gives that one.
fn add_names(names: &mut Vec<String>, list: &Vec<String>) -> (duplicate: Option<String>)
    ensures
        (text::string_texts(final(names)@), config::text_of(duplicate)) == with_names(
            text::string_texts(old(names)@),
            text::string_texts(list@),
        ),
{
    let ghost all = text::string_texts(list@);
    let ghost whole = with_names(text::string_texts(names@), all);
    assert(all.skip(0) == all);
    for i in 0..list.len()
        invariant
            all == text::string_texts(list@),
            whole == with_names(text::string_texts(names@), all.skip(i as int)),
            whole == with_names(text::string_texts(old(names)@), all),
    {
        let ghost before = text::string_texts(names@);
        assert(all.skip(i as int)[0] == list@[i as int]@);
        assert(all.skip(i as int).drop_first() == all.skip(i + 1));
        if contains_text(names, list[i].as_str()) {
            return Some(list[i].clone());
        }
        let name = list[i].clone();
        names.push(name);
        assert(text::string_texts(names@) == before.push(name@));
    }
    None
}

proof fn lemma_endpoint_index_is(
    endpoints: Seq<EndpointView>,
    host: Seq<char>,
    port: u16,
    i: int,
)
    requires
        0 <= i <= endpoints.len(),
        forall|j: int|
            0 <= j < i ==> (#[trigger] endpoints[j]).host != host || endpoints[j].port != port,
        i < endpoints.len() ==> endpoints[i].host == host && endpoints[i].port == port,
    ensures
        endpoint_index(endpoints, host, port) == i,
    decreases endpoints.len(),
{
    if i > 0 {
        assert(endpoints[0].host != host || endpoints[0].port != port);
        let rest = endpoints.drop_first();
        assert forall|j: int| 0 <= j < i - 1 implies (#[trigger] rest[j]).host != host
            || rest[j].port != port by {
            assert(rest[j] == endpoints[j + 1]);
        }
        lemma_endpoint_index_is(rest, host, port, i - 1);
    }
}

impl EndpointConfig {
    fn new(host: &str, port: u16) -> (r: Self)
        ensures
            r@ == EndpointView::new(host@, port),
    {
        let r = EndpointConfig {
            host: host.to_owned(),
            port,
            has_unnamed_default: false,
            server_names: Vec::new(),
            servers: Vec::new(),
        };
        assert(r@.server_names == Seq::<Seq<char>>::empty());
        r
    }

    /// Lets a server listen here, or says why it does not.
    fn add_server(&mut self, index: usize, server: &ServerConfig) -> (warning: Option<String>)
        ensures
            (final(self)@, config::text_of(warning)) == old(self)@.with_server(index, server@),
    {
        if server.server_names.len() == 0 {
            if self.has_unnamed_default {
                let mut message = "ignored duplicate unnamed default server on ".to_owned();
                let place = address(self.host.as_str(), self.port);
                message.append(place.as_str());
                return Some(message);
            }
            self.has_unnamed_default = true;
        }
        match add_names(&mut self.server_names, &server.server_names) {
            Some(name) => {
                let mut message = "ignored server ".to_owned();
                let place = address(self.host.as_str(), self.port);
                message.append(place.as_str());
                message.append(" because server_name ");
                message.append(name.as_str());
                message.append(" is duplicated");
                Some(message)
            },
            None => {
                self.servers.push(index);
                None
            },
        }
    }
}

/// The addresses to listen at, while they are made up.
struct Plan {
    endpoints: Vec<EndpointConfig>,
    warnings: Vec<String>,
}

impl View for Plan {
    type V = PlanView;

    closed spec fn view(&self) -> PlanView {
        PlanView {
            endpoints: endpoints_of(self.endpoints@),
            warnings: text::string_texts(self.warnings@),
        }
    }
}

impl Plan {
    fn index_of(&self, host: &str, port: u16) -> (i: usize)
        ensures
            i == endpoint_index(self@.endpoints, host@, port),
            i <= self.endpoints@.len(),
    {
        let ghost all = self@.endpoints;
        for i in 0..self.endpoints.len()
            invariant
                all == self@.endpoints,
                forall|j: int|
                    0 <= j < i ==> (#[trigger] all[j]).host != host@ || all[j].port != port,
        {
            assert(all[i as int] == self.endpoints@[i as int]@);
            if self.endpoints[i].port == port && same_str(self.endpoints[i].host.as_str(), host) {
                proof {
                    lemma_endpoint_index_is(all, host@, port, i as int);
                }
                return i;
            }
        }
        proof {
            lemma_endpoint_index_is(all, host@, port, all.len() as int);
        }
        self.endpoints.len()
    }

    fn add_port(&mut self, index: usize, server: &ServerConfig, port: u16)
        ensures
            final(self)@ == old(self)@.with_port(index, server@, port),
    {
        let ghost before = self@;
        let i: usize = self.index_of(server.host.as_str(), port);
        let found = i < self.endpoints.len();
        let mut endpoint = if found {
            assert(before.endpoints[i as int] == self.endpoints@[i as int]@);
            self.endpoints.remove(i)
        } else {
            EndpointConfig::new(server.host.as_str(), port)
        };
        match endpoint.add_server(index, server) {
            Some(message) => {
                self.warnings.push(message);
                assert(text::string_texts(self.warnings@) == before.warnings.push(message@));
            },
            None => {},
        }
        self.endpoints.insert(i, endpoint);
        proof {
            if found {
                assert(self@.endpoints == before.endpoints.update(i as int, endpoint@));
            } else {
                assert(self@.endpoints == before.endpoints.push(endpoint@));
            }
        }
    }
}

/// The largest body that any of the servers takes.
fn max_body_size(servers: &Vec<ServerConfig>, indices: &Vec<usize>) -> (r: usize)
    ensures
        r == largest_body(config::servers_of(servers@), indices@),
{
    let ghost all = config::servers_of(servers@);
    let mut r: usize = 0;
    for i in 0..indices.len()
        invariant
            all == config::servers_of(servers@),
            r == largest_body(all, indices@.take(i as int)),
    {
        assert(indices@.take(i + 1).drop_last() == indices@.take(i as int));
        let index: usize = indices[i];
        if index < servers.len() {
            assert(all[index as int] == servers@[index as int]@);
            if servers[index].client_max_body_size > r {
                r = servers[index].client_max_body_size;
            }
        }
    }
    assert(indices@.take(indices@.len() as int) == indices@);
    r
}

/// Whether all indices are below the count.
pub open spec fn indices_fit(indices: Seq<usize>, count: nat) -> bool {
    forall|i: int| 0 <= i < indices.len() ==> (#[trigger] indices[i]) < count
}

pub proof fn lemma_endpoint_index(endpoints: Seq<EndpointView>, host: Seq<char>, port: u16)
    ensures
        0 <= endpoint_index(endpoints, host, port) <= endpoints.len(),
        forall|j: int|
            0 <= j < endpoint_index(endpoints, host, port) ==> (#[trigger] endpoints[j]).host
                != host || endpoints[j].port != port,
        endpoint_index(endpoints, host, port) < endpoints.len() ==> endpoints[endpoint_index(
            endpoints,
            host,
            port,
        )].host == host && endpoints[endpoint_index(endpoints, host, port)].port == port,
    decreases endpoints.len(),
{
    if endpoints.len() > 0 && !(endpoints[0].host == host && endpoints[0].port == port) {
        let rest = endpoints.drop_first();
        lemma_endpoint_index(rest, host, port);
        assert forall|j: int| 0 <= j < endpoint_index(endpoints, host, port) implies (
        #[trigger] endpoints[j]).host != host || endpoints[j].port != port by {
            if j > 0 {
                assert(endpoints[j] == rest[j - 1]);
            }
        }
    }
}

proof fn lemma_ports_fit(plan: PlanView, index: usize, server: ServerView, ports: Seq<u16>, n: nat)
    requires
        index < n,
        forall|k: int|
            0 <= k < plan.endpoints.len() ==> indices_fit(
                (#[trigger] plan.endpoints[k]).servers,
                n,
            ),
    ensures
        forall|k: int|
            0 <= k < plan.with_ports(index, server, ports).endpoints.len() ==> indices_fit(
                (#[trigger] plan.with_ports(index, server, ports).endpoints[k]).servers,
                n,
            ),
    decreases ports.len(),
{
    if ports.len() > 0 {
        lemma_ports_fit(plan, index, server, ports.drop_last(), n);
        let before = plan.with_ports(index, server, ports.drop_last());
        let after = before.with_port(index, server, ports.last());
        lemma_endpoint_index(before.endpoints, server.host, ports.last());
        let i = endpoint_index(before.endpoints, server.host, ports.last());
        assert forall|k: int| 0 <= k < after.endpoints.len() implies indices_fit(
            (#[trigger] after.endpoints[k]).servers,
            n,
        ) by {
            if k < before.endpoints.len() {
                assert(indices_fit(before.endpoints[k].servers, n));
            }
        }
    }
}

/// The servers that listen somewhere are servers of the configuration.
pub proof fn lemma_plan_fits(servers: Seq<ServerView>)
    requires
        servers.len() <= usize::MAX,
    ensures
        forall|k: int|
            0 <= k < plan_for(servers).endpoints.len() ==> indices_fit(
                (#[trigger] plan_for(servers).endpoints[k]).servers,
                servers.len(),
            ),
    decreases servers.len(),
{
    if servers.len() > 0 {
        let front = servers.drop_last();
        lemma_plan_fits(front);
        let before = plan_for(front);
        assert forall|k: int| 0 <= k < before.endpoints.len() implies indices_fit(
            (#[trigger] before.endpoints[k]).servers,
            servers.len(),
        ) by {
            assert(indices_fit(before.endpoints[k].servers, front.len()));
        }
        lemma_ports_fit(
            before,
            (servers.len() - 1) as usize,
            servers.last(),
            servers.last().ports,
            servers.len(),
        );
    }
}

/// The groups of servers that share an address, in the order in which they are configured,
/// and what there is to say about them.
pub fn plan_listeners(servers: &Vec<ServerConfig>) -> (r: (Vec<ListenGroup>, Vec<String>))
    ensures
        groups_of(r.0@) == groups_for(config::servers_of(servers@)),
        text::string_texts(r.1@) == plan_for(config::servers_of(servers@)).warnings,
        forall|i: int|
            0 <= i < r.0@.len() ==> group_fits((#[trigger] r.0@[i])@, servers@.len()),
{
    let ghost all = config::servers_of(servers@);
    let mut plan = Plan { endpoints: Vec::new(), warnings: Vec::new() };
    assert(plan@.endpoints == Seq::<EndpointView>::empty());
    assert(plan@.warnings == Seq::<Seq<char>>::empty());
    for i in 0..servers.len()
        invariant
            all == config::servers_of(servers@),
            plan@ == plan_for(all.take(i as int)),
    {
        let ghost before = plan@;
        let server = &servers[i];
        assert(all[i as int] == server@);
        assert(all.take(i + 1).drop_last() == all.take(i as int));
        for j in 0..server.ports.len()
            invariant
                plan@ == before.with_ports(i, server@, server.ports@.take(j as int)),
        {
            let port: u16 = server.ports[j];
            plan.add_port(i, server, port);
            assert(server.ports@.take(j + 1).drop_last() == server.ports@.take(j as int));
        }
        assert(server.ports@.take(server.ports@.len() as int) == server.ports@);
    }
    assert(all.take(all.len() as int) == all);
    let Plan { endpoints, warnings } = plan;
    let ghost made = endpoints_of(endpoints@);
    let ghost used = |endpoint: EndpointView| endpoint.servers.len() > 0;
    let ghost group = |endpoint: EndpointView| group_of(all, endpoint);
    let mut groups: Vec<ListenGroup> = Vec::new();
    proof {
        reveal(Seq::filter);
        assert(groups_of(groups@) == made.take(0).filter(used).map_values(group));
    }
    for endpoint in it: endpoints
        invariant
            all == config::servers_of(servers@),
            made == endpoints_of(it.seq()),
            used == (|endpoint: EndpointView| endpoint.servers.len() > 0),
            group == (|endpoint: EndpointView| group_of(all, endpoint)),
            groups_of(groups@) == made.take(it.index() as int).filter(used).map_values(group),
    {
        let ghost done = made.take(it.index() as int);
        let ghost view = endpoint@;
        proof {
            assert(made.take(it.index() + 1) == done.push(view));
            done.lemma_filter_push(view, used);
        }
        if endpoint.servers.len() > 0 {
            let ghost before = groups_of(groups@);
            let max_body_size: usize = max_body_size(servers, &endpoint.servers);
            let EndpointConfig { host, port, servers, .. } = endpoint;
            let next = ListenGroup { host, port, servers, max_body_size };
            groups.push(next);
            proof {
                assert(next@ == group_of(all, view));
                assert(groups_of(groups@) == before.push(next@));
                assert(done.filter(used).push(view).map_values(group) == done.filter(
                    used,
                ).map_values(group).push(next@));
            }
        }
    }
    assert(made.take(made.len() as int) == made);
    proof {
        lemma_plan_fits(all);
        assert(made == plan_for(all).endpoints);
        let kept = made.filter(used);
        assert forall|i: int| 0 <= i < groups@.len() implies group_fits(
            (#[trigger] groups@[i])@,
            servers@.len(),
        ) by {
            assert(groups_of(groups@)[i] == groups@[i]@);
            assert(used(kept[i]));
            assert(kept.contains(kept[i]));
            made.lemma_filter_contains_rev(used, kept[i]);
            let k = choose|k: int| 0 <= k < made.len() && made[k] == kept[i];
            assert(indices_fit(plan_for(all).endpoints[k].servers, all.len()));
        }
    }
    (groups, warnings)
}

} // verus!
