//! What holds of the servers of a configuration once they are checked.
use vstd::prelude::*;

use crate::config;
use crate::config::{ConfigView, RouteView, ServerView};
use crate::http::{Fields, MethodView};
use crate::laws;
use crate::order;
use crate::text;

verus! {

/// Whether the path of a route starts with a slash.
pub open spec fn starts_at_top(route: RouteView) -> bool {
    route.path.len() > 0 && route.path[0] == '/'
}

/// Whether no two ports are the same.
pub open spec fn ports_differ(ports: Seq<u16>) -> bool {
    forall|i: int, j: int| 0 <= i < j < ports.len() ==> #[trigger] ports[i] != #[trigger] ports[j]
}

/// Whether a server is fit for use: it has a host, ports that all differ, and a route that
/// starts with a slash or none at all.
pub open spec fn is_fit(server: ServerView) -> bool {
    &&& server.host.len() > 0
    &&& server.ports.len() > 0
    &&& ports_differ(server.ports)
    &&& server.routes.len() == 0 || exists|i: int|
        0 <= i < server.routes.len() && starts_at_top(#[trigger] server.routes[i])
}

/// The route of a server that has none.
pub open spec fn only_route() -> RouteView {
    RouteView {
        path: "/"@,
        methods: seq![MethodView::Get],
        root: Some("www"@),
        redirect: None,
        index: Some("index.html"@),
        directory_listing: false,
        upload_store: None,
        cgi: Fields::empty(),
    }
}

proof fn lemma_only_route()
    ensures
        RouteView::default_root() == only_route(),
        starts_at_top(only_route()),
{
    reveal_strlit("/");
}

proof fn lemma_no_duplicates(ports: Seq<u16>)
    ensures
        ports.no_duplicates() <==> ports_differ(ports),
{
    if ports_differ(ports) {
        assert forall|i: int, j: int| 0 <= i < ports.len() && 0 <= j < ports.len() && i
            != j implies ports[i] != ports[j] by {
            if i < j {
                assert(ports[i] != ports[j]);
            } else {
                assert(ports[j] != ports[i]);
            }
        }
    }
}

/// A server is used exactly if it is fit for use.
pub proof fn law_fit_servers_are_kept(server: ServerView)
    ensures
        server.is_kept() <==> is_fit(server),
{
    lemma_only_route();
    laws::config::lemma_ports_differ(server.ports);
    lemma_no_duplicates(server.ports);
    let rooted = |route: RouteView| config::is_rooted(route);
    let all = server.routes_or_default();
    let left = all.filter(rooted);
    order::lemma_stable_sort_multiset(left, config::route_order());
    if server.routes.len() == 0 {
        assert(all[0] == only_route());
        assert(rooted(all[0]));
        all.lemma_filter_contains(rooted, 0);
        assert(left.len() > 0);
    } else if exists|i: int|
        0 <= i < server.routes.len() && starts_at_top(#[trigger] server.routes[i]) {
        let i = choose|i: int|
            0 <= i < server.routes.len() && starts_at_top(#[trigger] server.routes[i]);
        assert(rooted(all[i]));
        all.lemma_filter_contains(rooted, i);
        assert(left.len() > 0);
    } else if left.len() > 0 {
        assert(left.contains(left[0]));
        assert(rooted(left[0]));
        all.lemma_filter_contains_rev(rooted, left[0]);
        let i = choose|i: int| 0 <= i < all.len() && all[i] == left[0];
        assert(starts_at_top(server.routes[i]));
    }
}

/// The servers that are used are those that are fit, in order; one more changes nothing for
/// those before it.
pub proof fn law_servers_are_checked_in_turn(servers: Seq<ServerView>, server: ServerView)
    ensures
        config::validated_servers(Seq::empty()) == Seq::<ServerView>::empty(),
        is_fit(server) ==> config::validated_servers(servers.push(server))
            == config::validated_servers(servers).push(server.validated()),
        !is_fit(server) ==> config::validated_servers(servers.push(server))
            == config::validated_servers(servers),
        config::server_warnings(Seq::empty()) == Seq::<Seq<char>>::empty(),
        config::server_warnings(servers.push(server)) == config::server_warnings(servers)
            + server.warnings(),
{
    let kept = |server: ServerView| server.is_kept();
    let valid = |server: ServerView| server.validated();
    law_fit_servers_are_kept(server);
    servers.lemma_filter_push(server, kept);
    let none = Seq::<ServerView>::empty();
    none.lemma_all_neg_filter_empty(kept);
    assert(none.filter(kept).map_values(valid) == none);
    if is_fit(server) {
        assert(servers.filter(kept).push(server).map_values(valid) == servers.filter(
            kept,
        ).map_values(valid).push(server.validated()));
    }
    assert(servers.push(server).drop_last() == servers);
}

/// A server that is checked keeps its host, its ports, its pages and its limit; its names
/// are put in small letters; and of its routes those are left that start with a slash, the
/// longer paths before the shorter. A server without routes gets the one for all.
pub proof fn law_checked_servers(server: ServerView, route: RouteView, i: int)
    ensures
        ({
            let after = server.validated();
            &&& after.host == server.host
            &&& after.ports == server.ports
            &&& after.error_pages == server.error_pages
            &&& after.client_max_body_size == server.client_max_body_size
            &&& after.server_names.len() == server.server_names.len()
            &&& 0 <= i < server.server_names.len() ==> after.server_names[i] == text::lowered(
                server.server_names[i],
            )
            &&& server.routes.len() == 0 ==> after.routes == seq![only_route()]
            &&& server.routes.len() > 0 ==> (after.routes.contains(route)
                <==> server.routes.contains(route) && starts_at_top(route))
            &&& forall|j: int, k: int|
                0 <= j < k < after.routes.len() ==> (#[trigger] after.routes[j]).path_bytes() >= (
                #[trigger] after.routes[k]).path_bytes()
        }),
{
    broadcast use vstd::seq_lib::group_to_multiset_ensures;

    lemma_only_route();
    let rooted = |route: RouteView| config::is_rooted(route);
    let le = config::route_order();
    let all = server.routes_or_default();
    let left = all.filter(rooted);
    let after = server.validated().routes;
    laws::config::lemma_route_order();
    order::lemma_stable_sort_sorted(left, le);
    order::lemma_stable_sort_multiset(left, le);
    assert forall|j: int, k: int| 0 <= j < k < after.len() implies (
    #[trigger] after[j]).path_bytes() >= (#[trigger] after[k]).path_bytes() by {
        assert(le(after[j], after[k]));
    }
    if server.routes.len() == 0 {
        assert(all == seq![only_route()]);
        laws::config::lemma_filter_all(all, rooted);
        assert(left.drop_last() == Seq::<RouteView>::empty());
        assert(order::stable_sort(left.drop_last(), le) == Seq::<RouteView>::empty());
        assert(after == seq![only_route()]);
    } else {
        assert(left.to_multiset().count(route) == after.to_multiset().count(route));
        assert(left.contains(route) <==> after.contains(route));
        if all.contains(route) && starts_at_top(route) {
            let n = choose|n: int| 0 <= n < all.len() && all[n] == route;
            assert(rooted(all[n]));
            all.lemma_filter_contains(rooted, n);
        }
        if left.contains(route) {
            let n = choose|n: int| 0 <= n < left.len() && left[n] == route;
            assert(rooted(left[n]));
            all.lemma_filter_contains_rev(rooted, route);
        }
    }
}

/// What is said about a server: why it is not used, or that it got a route; and which of its
/// routes are left out.
pub proof fn law_warnings(server: ServerView)
    ensures
        server.host.len() == 0 ==> server.warnings() == seq![
            "discarded a server with an empty host"@,
        ],
        server.host.len() > 0 && server.ports.len() == 0 ==> server.warnings() == seq![
            "discarded server "@ + server.host + " because it has no ports"@,
        ],
        server.host.len() > 0 && server.ports.len() > 0 && !ports_differ(server.ports)
            ==> server.warnings().len() == 1,
        server.host.len() > 0 && server.ports.len() > 0 && ports_differ(server.ports) && (forall|
            i: int,
        |
            0 <= i < server.routes.len() ==> starts_at_top(#[trigger] server.routes[i])) ==> (
        if server.routes.len() == 0 {
            server.warnings() == seq![
                "server "@ + server.host + " has no routes; added a default route rooted at ./www"@,
            ]
        } else {
            server.warnings() == Seq::<Seq<char>>::empty()
        }),
{
    lemma_only_route();
    laws::config::lemma_ports_differ(server.ports);
    lemma_no_duplicates(server.ports);
    let loose = |route: RouteView| !config::is_rooted(route);
    let fault = |route: RouteView| config::route_fault(route);
    let all = server.routes_or_default();
    if forall|i: int| 0 <= i < server.routes.len() ==> starts_at_top(#[trigger] server.routes[i]) {
        assert forall|i: int| 0 <= i < all.len() implies !loose(#[trigger] all[i]) by {
            if server.routes.len() == 0 {
                assert(all[0] == only_route());
            } else {
                assert(starts_at_top(server.routes[i]));
            }
        }
        assert(forall|route: RouteView| all.contains(route) ==> !loose(route));
        all.lemma_all_neg_filter_empty(loose);
        assert(all.filter(loose).map_values(fault) == Seq::<Seq<char>>::empty());
        let note = seq![
            "server "@ + server.host + " has no routes; added a default route rooted at ./www"@,
        ];
        assert(note + Seq::<Seq<char>>::empty() == note);
        assert(Seq::<Seq<char>>::empty() + Seq::<Seq<char>>::empty() == Seq::<Seq<char>>::empty());
    }
}

/// Whether the port of that index is the first that stands in the list before.
pub open spec fn is_repeated(ports: Seq<u16>, k: int) -> bool {
    &&& 0 <= k < ports.len()
    &&& ports_differ(ports.take(k))
    &&& ports.take(k).contains(ports[k])
}

proof fn lemma_repeated(ports: Seq<u16>, k: int)
    requires
        is_repeated(ports, k),
    ensures
        config::repeated_port(ports) == Some(ports[k]),
    decreases ports.len(),
{
    let front = ports.drop_last();
    if k == ports.len() - 1 {
        assert(front == ports.take(k));
        laws::config::lemma_ports_differ(front);
        lemma_no_duplicates(front);
    } else {
        assert(front.take(k) == ports.take(k));
        lemma_repeated(front, k);
    }
}

/// A server with a port that stands twice is left out, and the warning names the first such
/// port.
pub proof fn law_repeated_ports_are_told(server: ServerView, k: int)
    requires
        server.host.len() > 0,
        is_repeated(server.ports, k),
    ensures
        server.warnings() == seq![
            "discarded server "@ + server.host + " because port "@ + text::decimal(
                server.ports[k] as nat,
            ) + " is configured more than once"@,
        ],
        !server.is_kept(),
{
    lemma_repeated(server.ports, k);
}

/// A route that does not start with a slash is named in a warning, in the order of the
/// routes.
pub proof fn law_routes_left_out(server: ServerView, before: Seq<RouteView>, route: RouteView)
    requires
        server.host.len() > 0,
        server.ports.len() > 0,
        ports_differ(server.ports),
        before.len() > 0,
        server.routes == before.push(route),
    ensures
        server.warnings() == (ServerView { routes: before, ..server }).warnings() + (
        if starts_at_top(route) {
            Seq::<Seq<char>>::empty()
        } else {
            seq!["discarded route "@ + route.path + " because it does not start with /"@]
        }),
{
    laws::config::lemma_ports_differ(server.ports);
    lemma_no_duplicates(server.ports);
    let loose = |route: RouteView| !config::is_rooted(route);
    let fault = |route: RouteView| config::route_fault(route);
    before.lemma_filter_push(route, loose);
    let none = Seq::<Seq<char>>::empty();
    let first = before.filter(loose).map_values(fault);
    assert(none + first == first);
    if starts_at_top(route) {
        assert(first + none == first);
    } else {
        assert(before.filter(loose).push(route).map_values(fault) == first + seq![fault(route)]);
        assert(none + (first + seq![fault(route)]) == first + seq![fault(route)]);
    }
}

/// A configuration that can be read is used with its servers checked and its times as they
/// are, and the warnings are those about its servers; another one is refused for the reason
/// that it cannot be read.
pub proof fn law_configurations_are_checked(content: Seq<char>)
    ensures
        match config::parsed_config(config::tokens(content)) {
            Ok(conf) => config::configured(content) == Ok::<
                (ConfigView, Seq<Seq<char>>),
                Seq<char>,
            >(
                (
                    ConfigView {
                        servers: config::validated_servers(conf.servers),
                        request_timeout: conf.request_timeout,
                        cgi_timeout: conf.cgi_timeout,
                    },
                    config::server_warnings(conf.servers),
                ),
            ),
            Err(message) => config::configured(content) == Err::<
                (ConfigView, Seq<Seq<char>>),
                Seq<char>,
            >(message),
        },
{
}

/// A route that lists no methods tells that it takes the three that there are; one that does
/// tells them with commas between.
pub proof fn law_told_methods(route: RouteView, first: MethodView)
    ensures
        route.methods.len() == 0 ==> route.allowed() == "GET, POST, DELETE"@,
        route.methods == seq![first] ==> route.allowed() == first.token(),
{
    if route.methods == seq![first] {
        let tokens = route.methods.map_values(|method: MethodView| method.token());
        assert(tokens == seq![first.token()]);
        assert(tokens.drop_last() == Seq::<Seq<char>>::empty());
        let le = text::text_order();
        assert(order::stable_sort(tokens.drop_last(), le) == Seq::<Seq<char>>::empty());
        assert(order::stable_sort(tokens, le) == seq![first.token()]);
    }
}

} // verus!
