//! What holds of the addresses that servers listen at.
use vstd::prelude::*;

use crate::config::ServerView;
use crate::listen;
use crate::listen::{EndpointView, GroupView, PlanView};
use crate::text;

verus! {

/// Whether the names of a list are new, and no two of them are the same, up to that index.
pub open spec fn are_new(names: Seq<Seq<char>>, list: Seq<Seq<char>>, k: int) -> bool {
    &&& forall|i: int, j: int|
        0 <= i < k && 0 <= j < names.len() ==> #[trigger] list[i] != #[trigger] names[j]
    &&& forall|i: int, j: int| 0 <= i < j < k ==> #[trigger] list[i] != #[trigger] list[j]
}

/// Whether the name of that index is the first that is not new.
pub open spec fn is_taken(names: Seq<Seq<char>>, list: Seq<Seq<char>>, k: int) -> bool {
    &&& 0 <= k < list.len()
    &&& are_new(names, list, k)
    &&& names.contains(list[k]) || exists|i: int| 0 <= i < k && #[trigger] list[i] == list[k]
}

/// Names are added in order up to the first that is there already, which is told.
pub proof fn law_names_are_added(names: Seq<Seq<char>>, list: Seq<Seq<char>>, k: int)
    ensures
        are_new(names, list, list.len() as int) ==> listen::with_names(names, list) == (
            names + list,
            None::<Seq<char>>,
        ),
        is_taken(names, list, k) ==> listen::with_names(names, list) == (
            names + list.take(k),
            Some(list[k]),
        ),
    decreases list.len(),
{
    if list.len() == 0 {
        assert(names + list == names);
    } else {
        let longer = names.push(list[0]);
        let rest = list.drop_first();
        law_names_are_added(longer, rest, k - 1);
        if are_new(names, list, list.len() as int) {
            assert(!names.contains(list[0]));
            lemma_new_rest(names, list, list.len() as int);
            assert(longer + rest == names + list);
        }
        if is_taken(names, list, k) {
            if k == 0 {
                assert(names + list.take(0) == names);
            } else {
                assert(!names.contains(list[0]));
                lemma_new_rest(names, list, k);
                assert(rest[k - 1] == list[k]);
                if names.contains(list[k]) {
                    let j = choose|j: int| 0 <= j < names.len() && names[j] == list[k];
                    assert(longer[j] == list[k]);
                } else {
                    let i = choose|i: int| 0 <= i < k && #[trigger] list[i] == list[k];
                    if i == 0 {
                        assert(longer[names.len() as int] == list[k]);
                    } else {
                        assert(rest[i - 1] == rest[k - 1]);
                    }
                }
                assert(is_taken(longer, rest, k - 1));
                assert(longer + rest.take(k - 1) == names + list.take(k));
            }
        }
    }
}

proof fn lemma_new_rest(names: Seq<Seq<char>>, list: Seq<Seq<char>>, k: int)
    requires
        0 < k <= list.len(),
        are_new(names, list, k),
    ensures
        are_new(names.push(list[0]), list.drop_first(), k - 1),
{
    let longer = names.push(list[0]);
    let rest = list.drop_first();
    assert forall|i: int, j: int|
        0 <= i < k - 1 && 0 <= j < longer.len() implies #[trigger] rest[i] != #[trigger] longer[j] by {
        assert(rest[i] == list[i + 1]);
        if j < names.len() {
            assert(list[i + 1] != names[j]);
        } else {
            assert(list[0] != list[i + 1]);
        }
    }
    assert forall|i: int, j: int| 0 <= i < j < k - 1 implies #[trigger] rest[i]
        != #[trigger] rest[j] by {
        assert(list[i + 1] != list[j + 1]);
    }
}

/// A server listens at an address unless it would be the second one there without a name, or
/// one of its names is taken there: then it does not, and the reason is told.
pub proof fn law_servers_share_addresses(
    endpoint: EndpointView,
    index: usize,
    server: ServerView,
    k: int,
)
    ensures
        ({
            let (after, warning) = endpoint.with_server(index, server);
            let names = server.server_names;
            &&& after.host == endpoint.host && after.port == endpoint.port
            &&& names.len() == 0 && !endpoint.has_unnamed_default ==> warning is None && after == (
            EndpointView {
                has_unnamed_default: true,
                servers: endpoint.servers.push(index),
                ..endpoint
            })
            &&& names.len() == 0 && endpoint.has_unnamed_default ==> warning is Some && after
                == endpoint
            &&& names.len() > 0 && are_new(endpoint.server_names, names, names.len() as int)
                ==> warning is None && after == (EndpointView {
                server_names: endpoint.server_names + names,
                servers: endpoint.servers.push(index),
                ..endpoint
            })
            &&& is_taken(endpoint.server_names, names, k) ==> warning is Some && after.servers
                == endpoint.servers && after.has_unnamed_default == endpoint.has_unnamed_default
        }),
{
    law_names_are_added(endpoint.server_names, server.server_names, k);
}

/// Whether the address of that index is the first with the host and the port.
pub open spec fn is_address(
    endpoints: Seq<EndpointView>,
    host: Seq<char>,
    port: u16,
    k: int,
) -> bool {
    &&& 0 <= k < endpoints.len()
    &&& endpoints[k].host == host && endpoints[k].port == port
    &&& forall|j: int|
        0 <= j < k ==> (#[trigger] endpoints[j]).host != host || endpoints[j].port != port
}

proof fn lemma_address(endpoints: Seq<EndpointView>, host: Seq<char>, port: u16, k: int)
    requires
        0 <= k <= endpoints.len(),
        forall|j: int|
            0 <= j < k ==> (#[trigger] endpoints[j]).host != host || endpoints[j].port != port,
        k < endpoints.len() ==> endpoints[k].host == host && endpoints[k].port == port,
    ensures
        listen::endpoint_index(endpoints, host, port) == k,
    decreases endpoints.len(),
{
    if k > 0 {
        let rest = endpoints.drop_first();
        assert(endpoints[0].host != host || endpoints[0].port != port);
        assert forall|j: int| 0 <= j < k - 1 implies (#[trigger] rest[j]).host != host || rest[j].port
            != port by {
            assert(rest[j] == endpoints[j + 1]);
        }
        lemma_address(rest, host, port, k - 1);
    }
}

/// A port of a server goes to the address with the host of the server and that port: the one
/// that is planned already, or a new one behind the others. No other address changes, and a
/// warning goes behind the others.
pub proof fn law_ports_are_planned(
    plan: PlanView,
    index: usize,
    server: ServerView,
    port: u16,
    k: int,
)
    ensures
        ({
            let after = plan.with_port(index, server, port);
            let fresh = EndpointView {
                host: server.host,
                port,
                has_unnamed_default: false,
                server_names: Seq::empty(),
                servers: Seq::empty(),
            };
            let first = fresh.with_server(index, server);
            let shared = plan.endpoints[k].with_server(index, server);
            &&& is_address(plan.endpoints, server.host, port, k) ==> after.endpoints
                == plan.endpoints.update(k, shared.0) && after.warnings == (match shared.1 {
                Some(warning) => plan.warnings.push(warning),
                None => plan.warnings,
            })
            &&& (forall|j: int|
                0 <= j < plan.endpoints.len() ==> (#[trigger] plan.endpoints[j]).host != server.host
                    || plan.endpoints[j].port != port) ==> after.endpoints == plan.endpoints.push(
                first.0,
            ) && after.warnings == (match first.1 {
                Some(warning) => plan.warnings.push(warning),
                None => plan.warnings,
            })
        }),
{
    if is_address(plan.endpoints, server.host, port, k) {
        lemma_address(plan.endpoints, server.host, port, k);
    }
    if forall|j: int|
        0 <= j < plan.endpoints.len() ==> (#[trigger] plan.endpoints[j]).host != server.host
            || plan.endpoints[j].port != port {
        lemma_address(plan.endpoints, server.host, port, plan.endpoints.len() as int);
    }
}

/// Servers are planned for in order, each with all of its ports in order.
pub proof fn law_servers_are_planned(
    servers: Seq<ServerView>,
    server: ServerView,
    plan: PlanView,
    index: usize,
    ports: Seq<u16>,
    port: u16,
)
    requires
        servers.len() <= usize::MAX,
    ensures
        listen::plan_for(Seq::empty()).endpoints.len() == 0,
        listen::plan_for(Seq::empty()).warnings.len() == 0,
        listen::plan_for(servers.push(server)) == listen::plan_for(servers).with_ports(
            servers.len() as usize,
            server,
            server.ports,
        ),
        plan.with_ports(index, server, Seq::empty()) == plan,
        plan.with_ports(index, server, ports.push(port)) == plan.with_ports(
            index,
            server,
            ports,
        ).with_port(index, server, port),
{
    assert(servers.push(server).drop_last() == servers);
    assert(servers.push(server).last() == server);
    assert(ports.push(port).drop_last() == ports);
}

/// A server that alone has its host listens at all of its ports, and nothing is to be said
/// about it.
pub proof fn law_lone_servers_listen(server: ServerView, k: int)
    requires
        are_new(Seq::empty(), server.server_names, server.server_names.len() as int),
        forall|i: int, j: int|
            0 <= i < j < server.ports.len() ==> #[trigger] server.ports[i]
                != #[trigger] server.ports[j],
        0 <= k < server.ports.len(),
    ensures
        ({
            let plan = listen::plan_for(seq![server]);
            &&& plan.warnings.len() == 0
            &&& plan.endpoints.len() == server.ports.len()
            &&& plan.endpoints[k].host == server.host
            &&& plan.endpoints[k].port == server.ports[k]
            &&& plan.endpoints[k].servers == seq![0usize]
        }),
{
    let none = PlanView { endpoints: Seq::empty(), warnings: Seq::empty() };
    law_servers_are_planned(Seq::empty(), server, none, 0, Seq::empty(), 0);
    assert(Seq::<ServerView>::empty().push(server) == seq![server]);
    lemma_lone_ports(server, server.ports.len() as int);
    assert(server.ports.take(server.ports.len() as int) == server.ports);
}

proof fn lemma_lone_ports(server: ServerView, n: int)
    requires
        are_new(Seq::empty(), server.server_names, server.server_names.len() as int),
        forall|i: int, j: int|
            0 <= i < j < server.ports.len() ==> #[trigger] server.ports[i]
                != #[trigger] server.ports[j],
        0 <= n <= server.ports.len(),
    ensures
        ({
            let plan = listen::plan_for(Seq::empty()).with_ports(0, server, server.ports.take(n));
            &&& plan.warnings.len() == 0
            &&& plan.endpoints.len() == n
            &&& forall|k: int|
                0 <= k < n ==> (#[trigger] plan.endpoints[k]).host == server.host
                    && plan.endpoints[k].port == server.ports[k] && plan.endpoints[k].servers
                    == seq![0usize]
        }),
    decreases n,
{
    let start = listen::plan_for(Seq::empty());
    if n > 0 {
        lemma_lone_ports(server, n - 1);
        let port = server.ports[n - 1];
        let front = server.ports.take(n - 1);
        assert(front.push(port) == server.ports.take(n));
        law_servers_are_planned(Seq::empty(), server, start, 0, front, port);
        let plan = start.with_ports(0, server, front);
        assert forall|j: int| 0 <= j < plan.endpoints.len() implies (
        #[trigger] plan.endpoints[j]).host != server.host || plan.endpoints[j].port != port by {
            assert(server.ports[j] != server.ports[n - 1]);
        }
        law_ports_are_planned(plan, 0, server, port, 0);
        let fresh = EndpointView {
            host: server.host,
            port,
            has_unnamed_default: false,
            server_names: Seq::empty(),
            servers: Seq::empty(),
        };
        law_servers_share_addresses(fresh, 0, server, 0);
        assert(Seq::<usize>::empty().push(0usize) == seq![0usize]);
    }
}

/// The largest body that servers take together is that of the one among them that takes the
/// largest.
pub proof fn law_largest_bodies(servers: Seq<ServerView>, indices: Seq<usize>, k: int)
    requires
        forall|i: int| 0 <= i < indices.len() ==> (#[trigger] indices[i]) < servers.len(),
        0 <= k < indices.len(),
    ensures
        servers[indices[k] as int].client_max_body_size <= listen::largest_body(servers, indices),
        exists|i: int|
            0 <= i < indices.len() && servers[(#[trigger] indices[i]) as int].client_max_body_size
                == listen::largest_body(servers, indices),
    decreases indices.len(),
{
    let front = indices.drop_last();
    let n = indices.len() - 1;
    assert(indices[n] < servers.len());
    assert forall|i: int| 0 <= i < front.len() implies (#[trigger] front[i]) < servers.len() by {
        assert(front[i] == indices[i]);
    }
    if n == 0 {
        assert(listen::largest_body(servers, front) == 0);
        assert(servers[indices[0] as int].client_max_body_size == listen::largest_body(
            servers,
            indices,
        ));
    } else {
        law_largest_bodies(servers, front, if k < n {
            k
        } else {
            0
        });
        let i = choose|i: int|
            0 <= i < front.len() && servers[(#[trigger] front[i]) as int].client_max_body_size
                == listen::largest_body(servers, front);
        assert(front[i] == indices[i]);
        assert(k < n ==> front[k] == indices[k]);
        if listen::largest_body(servers, indices) != listen::largest_body(servers, front) {
            assert(servers[indices[n] as int].client_max_body_size == listen::largest_body(
                servers,
                indices,
            ));
        }
    }
}

/// The groups of servers are the addresses that someone listens at, in order.
pub proof fn law_groups(servers: Seq<ServerView>, k: int)
    requires
        forall|j: int|
            0 <= j < listen::plan_for(servers).endpoints.len() ==> (
            #[trigger] listen::plan_for(servers).endpoints[j]).servers.len() > 0,
        0 <= k < listen::plan_for(servers).endpoints.len(),
    ensures
        ({
            let endpoints = listen::plan_for(servers).endpoints;
            let groups = listen::groups_for(servers);
            &&& groups.len() == endpoints.len()
            &&& groups[k] == (GroupView {
                host: endpoints[k].host,
                port: endpoints[k].port,
                servers: endpoints[k].servers,
                max_body_size: listen::largest_body(servers, endpoints[k].servers),
            })
        }),
{
    let endpoints = listen::plan_for(servers).endpoints;
    let pred = |endpoint: EndpointView| endpoint.servers.len() > 0;
    crate::laws::config::lemma_filter_all(endpoints, pred);
}

/// A group is there exactly for an address that someone listens at.
pub proof fn law_silent_addresses_have_no_group(servers: Seq<ServerView>, k: int)
    requires
        0 <= k < listen::groups_for(servers).len(),
    ensures
        listen::groups_for(servers)[k].servers.len() > 0,
        exists|j: int|
            0 <= j < listen::plan_for(servers).endpoints.len()
                && (#[trigger] listen::plan_for(servers).endpoints[j]).host == listen::groups_for(
                servers,
            )[k].host && listen::plan_for(servers).endpoints[j].port == listen::groups_for(
                servers,
            )[k].port && listen::plan_for(servers).endpoints[j].servers == listen::groups_for(
                servers,
            )[k].servers,
{
    let endpoints = listen::plan_for(servers).endpoints;
    let pred = |endpoint: EndpointView| endpoint.servers.len() > 0;
    let left = endpoints.filter(pred);
    assert(pred(left[k]));
    assert(left.contains(left[k]));
    endpoints.lemma_filter_contains_rev(pred, left[k]);
    let j = choose|j: int| 0 <= j < endpoints.len() && endpoints[j] == left[k];
    assert(endpoints[j].host == listen::groups_for(servers)[k].host);
}

/// An address is written as its host, a colon and its port.
pub proof fn law_addresses(host: Seq<char>, port: u16)
    ensures
        listen::address_of(host, port) == host.push(':') + text::decimal(port as nat),
{
    reveal_strlit(":");
    assert(":"@ == seq![':']);
    assert(host + ":"@ + text::decimal(port as nat) == host.push(':') + text::decimal(port as nat));
}

/// Where nothing can be listened at, that is told, with the warnings behind it.
pub proof fn law_no_listeners(warnings: Seq<Seq<char>>, warning: Seq<char>)
    ensures
        listen::no_listeners(Seq::empty()) == "no valid listeners could be created"@,
        listen::no_listeners(seq![warning]) == "no valid listeners could be created: "@ + warning,
        warnings.len() > 0 ==> listen::no_listeners(warnings.push(warning))
            == listen::no_listeners(warnings) + "; "@ + warning,
{
    let front = "no valid listeners could be created: "@;
    crate::laws::words::law_joined_lists(warnings, warning, "; "@);
    if warnings.len() > 0 {
        let all = text::join(warnings, "; "@);
        assert(front + (all + "; "@ + warning) == front + all + "; "@ + warning);
    }
}

} // verus!
