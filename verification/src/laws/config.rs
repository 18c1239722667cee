//! What holds of configurations.
use vstd::prelude::*;

use crate::config;
use crate::config::{RouteView, ServerView, Tokens};
use crate::http::MethodView;
use crate::order;
use crate::text;
use crate::text::Pattern;

verus! {

/// The order of routes compares any two of them.
pub proof fn lemma_route_order()
    ensures
        order::total_preorder(config::route_order()),
{
}

/// Whether a text is in lower case.
pub open spec fn is_lower(s: Seq<char>) -> bool {
    text::lowered(s) == s
}

/// Whether a server can be used: it has a host, ports that differ, names in lower case, and
/// routes that start with a slash, the longer paths first.
pub open spec fn is_usable(server: ServerView) -> bool {
    &&& server.host.len() > 0
    &&& server.ports.len() > 0
    &&& server.ports.no_duplicates()
    &&& forall|i: int|
        0 <= i < server.server_names.len() ==> is_lower(#[trigger] server.server_names[i])
    &&& server.routes.len() > 0
    &&& all_rooted(server.routes)
    &&& order::is_sorted(server.routes, config::route_order())
}

pub proof fn lemma_ports_differ(ports: Seq<u16>)
    ensures
        config::repeated_port(ports) is None <==> ports.no_duplicates(),
    decreases ports.len(),
{
    if ports.len() > 0 {
        let front = ports.drop_last();
        lemma_ports_differ(front);
        if ports.no_duplicates() {
            assert(front.no_duplicates());
            if front.contains(ports.last()) {
                let i = choose|i: int| 0 <= i < front.len() && front[i] == ports.last();
                assert(ports[i] == ports[ports.len() - 1]);
            }
        }
        if config::repeated_port(ports) is None {
            assert forall|i: int, j: int| 0 <= i < ports.len() && 0 <= j < ports.len() && i
                != j implies ports[i] != ports[j] by {
                if i < front.len() && j < front.len() {
                    assert(front[i] != front[j]);
                } else if i < front.len() {
                    assert(front.contains(front[i]));
                } else {
                    assert(front.contains(front[j]));
                }
            }
        }
    }
}

proof fn lemma_lowered_twice(s: Seq<char>)
    ensures
        is_lower(text::lowered(s)),
{
    assert(text::lowered(text::lowered(s)) =~= text::lowered(s));
}

/// Whether all routes start with a slash.
pub open spec fn all_rooted(routes: Seq<RouteView>) -> bool {
    forall|i: int| 0 <= i < routes.len() ==> config::is_rooted(#[trigger] routes[i])
}

proof fn lemma_filtered(routes: Seq<RouteView>)
    ensures
        all_rooted(routes.filter(|route: RouteView| config::is_rooted(route))),
{
    let rooted = |route: RouteView| config::is_rooted(route);
    let left = routes.filter(rooted);
    assert forall|i: int| 0 <= i < left.len() implies config::is_rooted(#[trigger] left[i]) by {
        assert(rooted(left[i]));
    }
}

proof fn lemma_sorted_keeps_rooted(routes: Seq<RouteView>)
    requires
        all_rooted(routes),
    ensures
        all_rooted(order::stable_sort(routes, config::route_order())),
{
    broadcast use vstd::seq_lib::group_to_multiset_ensures;

    let sorted = order::stable_sort(routes, config::route_order());
    order::lemma_stable_sort_multiset(routes, config::route_order());
    assert forall|i: int| 0 <= i < sorted.len() implies config::is_rooted(
        #[trigger] sorted[i],
    ) by {
        assert(sorted.contains(sorted[i]));
        assert(sorted.to_multiset().count(sorted[i]) > 0);
        assert(routes.contains(sorted[i]));
    }
}

proof fn lemma_kept_is_usable(server: ServerView)
    requires
        server.is_kept(),
    ensures
        is_usable(server.validated()),
{
    let routes = server.routes_or_default().filter(|route: RouteView| config::is_rooted(route));
    lemma_ports_differ(server.ports);
    lemma_filtered(server.routes_or_default());
    lemma_sorted_keeps_rooted(routes);
    lemma_route_order();
    order::lemma_stable_sort_sorted(routes, config::route_order());
    let names = server.validated().server_names;
    assert forall|i: int| 0 <= i < names.len() implies is_lower(#[trigger] names[i]) by {
        lemma_lowered_twice(server.server_names[i]);
    }
}

/// Whether a server is one of those configured, as it is used.
pub open spec fn comes_from(server: ServerView, servers: Seq<ServerView>) -> bool {
    exists|k: int|
        0 <= k < servers.len() && (#[trigger] servers[k]).is_kept() && servers[k].validated()
            == server
}

/// Every server that is left after validation can be used, and it is one that was
/// configured.
pub proof fn law_validated_servers_are_usable(servers: Seq<ServerView>)
    ensures
        forall|i: int|
            0 <= i < config::validated_servers(servers).len() ==> is_usable(
                #[trigger] config::validated_servers(servers)[i],
            ),
        forall|i: int|
            0 <= i < config::validated_servers(servers).len() ==> comes_from(
                #[trigger] config::validated_servers(servers)[i],
                servers,
            ),
{
    let kept = |server: ServerView| server.is_kept();
    let used = servers.filter(kept);
    let all = config::validated_servers(servers);
    assert forall|i: int| 0 <= i < all.len() implies is_usable(#[trigger] all[i]) by {
        assert(kept(used[i]));
        lemma_kept_is_usable(used[i]);
    }
    assert forall|i: int| 0 <= i < all.len() implies comes_from(#[trigger] all[i], servers) by {
        assert(used.contains(used[i]));
        servers.lemma_filter_contains_rev(kept, used[i]);
        assert(servers.contains(used[i]));
        let k = choose|k: int| 0 <= k < servers.len() && servers[k] == used[i];
        assert(servers[k].validated() == all[i]);
    }
}

proof fn lemma_sorted_is_kept(routes: Seq<RouteView>)
    requires
        order::is_sorted(routes, config::route_order()),
    ensures
        order::stable_sort(routes, config::route_order()) == routes,
    decreases routes.len(),
{
    if routes.len() > 0 {
        let le = config::route_order();
        let front = routes.drop_last();
        assert forall|i: int, j: int| 0 <= i < j < front.len() implies le(
            #[trigger] front[i],
            #[trigger] front[j],
        ) by {
            assert(le(routes[i], routes[j]));
        }
        lemma_sorted_is_kept(front);
        assert forall|j: int| 0 <= j < front.len() implies le(
            #[trigger] front[j],
            routes.last(),
        ) by {
            assert(le(routes[j], routes[routes.len() - 1]));
        }
        order::lemma_insert_position_is(front, routes.last(), le, front.len() as int);
        assert(front.insert(front.len() as int, routes.last()) == routes);
    }
}

pub proof fn lemma_filter_all<A>(s: Seq<A>, pred: spec_fn(A) -> bool)
    requires
        forall|i: int| 0 <= i < s.len() ==> pred(#[trigger] s[i]),
    ensures
        s.filter(pred) == s,
    decreases s.len(),
{
    if s.len() == 0 {
        s.lemma_filter_len(pred);
        assert(s.filter(pred) == s);
    } else {
        let front = s.drop_last();
        assert forall|i: int| 0 <= i < front.len() implies pred(#[trigger] front[i]) by {
            assert(front[i] == s[i]);
        }
        lemma_filter_all(front, pred);
        front.lemma_filter_push(s.last(), pred);
        assert(pred(s[s.len() - 1]));
        assert(front.push(s.last()) == s);
    }
}

proof fn lemma_usable_is_kept(server: ServerView)
    requires
        is_usable(server),
    ensures
        server.is_kept(),
        server.validated() == server,
        server.warnings() == Seq::<Seq<char>>::empty(),
{
    let rooted = |route: RouteView| config::is_rooted(route);
    let unrooted = |route: RouteView| !config::is_rooted(route);
    lemma_ports_differ(server.ports);
    lemma_filter_all(server.routes, rooted);
    server.routes.lemma_all_neg_filter_empty(unrooted);
    lemma_sorted_is_kept(server.routes);
    assert(server.validated().server_names == server.server_names) by {
        assert forall|i: int| 0 <= i < server.server_names.len() implies text::lowered(
            #[trigger] server.server_names[i],
        ) == server.server_names[i] by {
            assert(is_lower(server.server_names[i]));
        }
    }
    assert(server.warnings() == Seq::<Seq<char>>::empty());
}

proof fn lemma_all_usable(servers: Seq<ServerView>)
    requires
        forall|i: int| 0 <= i < servers.len() ==> is_usable(#[trigger] servers[i]),
    ensures
        config::validated_servers(servers) == servers,
        config::server_warnings(servers) == Seq::<Seq<char>>::empty(),
    decreases servers.len(),
{
    let kept = |server: ServerView| server.is_kept();
    assert forall|i: int| 0 <= i < servers.len() implies kept(#[trigger] servers[i]) by {
        lemma_usable_is_kept(servers[i]);
    }
    lemma_filter_all(servers, kept);
    assert forall|i: int| 0 <= i < servers.len() implies (#[trigger] servers[i]).validated()
        == servers[i] by {
        lemma_usable_is_kept(servers[i]);
    }
    assert(config::validated_servers(servers) == servers);
    if servers.len() > 0 {
        let front = servers.drop_last();
        assert forall|i: int| 0 <= i < front.len() implies is_usable(#[trigger] front[i]) by {
            assert(front[i] == servers[i]);
        }
        lemma_all_usable(front);
        lemma_usable_is_kept(servers[servers.len() - 1]);
        assert(config::server_warnings(servers) == Seq::<Seq<char>>::empty());
    }
}

/// To validate what was validated changes nothing, and there is nothing to say about it.
pub proof fn law_validation_is_final(servers: Seq<ServerView>)
    ensures
        config::validated_servers(config::validated_servers(servers))
            == config::validated_servers(servers),
        config::server_warnings(config::validated_servers(servers)) == Seq::<Seq<char>>::empty(),
{
    law_validated_servers_are_usable(servers);
    lemma_all_usable(config::validated_servers(servers));
}

/// A server that cannot be used takes no other with it: those before and behind it are
/// validated as if it was not there.
pub proof fn law_servers_are_validated_alone(
    before: Seq<ServerView>,
    server: ServerView,
    behind: Seq<ServerView>,
)
    requires
        !server.is_kept(),
    ensures
        config::validated_servers(before + seq![server] + behind) == config::validated_servers(
            before,
        ) + config::validated_servers(behind),
{
    let kept = |server: ServerView| server.is_kept();
    let valid = |server: ServerView| server.validated();
    Seq::filter_distributes_over_add(before + seq![server], behind, kept);
    Seq::filter_distributes_over_add(before, seq![server], kept);
    seq![server].lemma_all_neg_filter_empty(kept);
    assert((before.filter(kept) + Seq::<ServerView>::empty() + behind.filter(kept)).map_values(
        valid,
    ) == before.filter(kept).map_values(valid) + behind.filter(kept).map_values(valid));
    assert(seq![server].filter(kept) == Seq::<ServerView>::empty());
}

/// Routes with paths of the same length stay in the order in which they are configured.
pub proof fn law_equal_routes_stay_in_order(server: ServerView, length: nat)
    ensures
        ({
            let class = |route: RouteView| route.path_bytes() == length;
            let rooted = |route: RouteView| config::is_rooted(route);
            server.validated().routes.filter(class) == server.routes_or_default().filter(
                rooted,
            ).filter(class)
        }),
{
    let class = |route: RouteView| route.path_bytes() == length;
    let routes = server.routes_or_default().filter(|route: RouteView| config::is_rooted(route));
    lemma_route_order();
    order::lemma_stable_sort_stable(routes, config::route_order(), class);
}

/// Whether a character is a mark of its own.
pub open spec fn is_mark(c: char) -> bool {
    c == '{' || c == '}' || c == ';'
}

/// Whether a character can stand in a word.
pub open spec fn is_word_char(c: char) -> bool {
    c != '#' && !is_mark(c) && !text::is_whitespace(c)
}

/// Whether a text is a token: a mark, or a word.
pub open spec fn is_token(token: Seq<char>) -> bool {
    ||| token.len() == 1 && is_mark(token[0])
    ||| is_word(token) && token.len() > 0
}

/// Whether all characters can stand in a word.
pub open spec fn is_word(s: Seq<char>) -> bool {
    forall|i: int| 0 <= i < s.len() ==> is_word_char(#[trigger] s[i])
}

/// Whether all of them are tokens.
pub open spec fn are_tokens(list: Tokens) -> bool {
    forall|i: int| 0 <= i < list.len() ==> is_token(#[trigger] list[i])
}

proof fn lemma_tokens_concat(a: Tokens, b: Tokens)
    requires
        are_tokens(a),
        are_tokens(b),
    ensures
        are_tokens(a + b),
{
    assert forall|i: int| 0 <= i < (a + b).len() implies is_token(#[trigger] (a + b)[i]) by {
        if i < a.len() {
            assert((a + b)[i] == a[i]);
        } else {
            assert((a + b)[i] == b[i - a.len()]);
        }
    }
}

proof fn lemma_tokens_after(s: Seq<char>, current: Seq<char>)
    requires
        is_word(current),
    ensures
        are_tokens(config::tokens_after(s, current)),
    decreases s.len(),
{
    let flushed = config::flushed(current);
    assert(are_tokens(flushed));
    if s.len() > 0 {
        let rest = s.drop_first();
        let empty = Seq::<char>::empty();
        if s[0] == '#' {
            text::lemma_position_bounds(rest, Pattern::Char('\n'));
            let next = rest.skip(text::position(rest, Pattern::Char('\n')));
            lemma_tokens_after(next, empty);
            lemma_tokens_concat(flushed, config::tokens_after(next, empty));
        } else if is_mark(s[0]) {
            lemma_tokens_after(rest, empty);
            let token = seq![s[0]];
            assert(is_token(token));
            assert(flushed.push(token) == flushed + seq![token]);
            lemma_tokens_concat(flushed, seq![token]);
            lemma_tokens_concat(flushed.push(token), config::tokens_after(rest, empty));
        } else if text::is_whitespace(s[0]) {
            lemma_tokens_after(rest, empty);
            lemma_tokens_concat(flushed, config::tokens_after(rest, empty));
        } else {
            let longer = current.push(s[0]);
            assert forall|i: int| 0 <= i < longer.len() implies is_word_char(
                #[trigger] longer[i],
            ) by {
                if i < current.len() {
                    assert(longer[i] == current[i]);
                }
            }
            lemma_tokens_after(rest, longer);
        }
    }
}

/// Every token is a single mark, or a word without marks, whitespace and hash signs.
pub proof fn law_tokens(content: Seq<char>)
    ensures
        are_tokens(config::tokens(content)),
{
    lemma_tokens_after(content, Seq::empty());
}

/// Tokens with a space behind each.
pub open spec fn spaced(list: Tokens) -> Seq<char>
    decreases list.len(),
{
    if list.len() == 0 {
        seq![]
    } else {
        list[0] + seq![' '] + spaced(list.drop_first())
    }
}

proof fn lemma_word_read(word: Seq<char>, current: Seq<char>, rest: Seq<char>)
    requires
        is_word(word),
    ensures
        config::tokens_after(word + rest, current) == config::tokens_after(rest, current + word),
    decreases word.len(),
{
    if word.len() == 0 {
        assert(word + rest == rest);
        assert(current + word == current);
    } else {
        let all = word + rest;
        let tail = word.drop_first();
        assert(all.drop_first() == tail + rest);
        assert(all[0] == word[0]);
        assert(is_word_char(word[0]));
        assert forall|i: int| 0 <= i < tail.len() implies is_word_char(#[trigger] tail[i]) by {
            assert(tail[i] == word[i + 1]);
        }
        lemma_word_read(tail, current.push(word[0]), rest);
        assert(current.push(word[0]) + tail == current + word);
    }
}

/// Tokens that are written with spaces between are read back.
pub proof fn law_tokens_read_back(list: Tokens)
    requires
        are_tokens(list),
    ensures
        config::tokens(spaced(list)) == list,
    decreases list.len(),
{
    if list.len() == 0 {
        assert(config::tokens(spaced(list)) == list);
    } else {
        let token = list[0];
        let others = list.drop_first();
        let empty = Seq::<char>::empty();
        let tail = seq![' '] + spaced(others);
        assert(is_token(token));
        assert forall|i: int| 0 <= i < others.len() implies is_token(#[trigger] others[i]) by {
            assert(others[i] == list[i + 1]);
        }
        law_tokens_read_back(others);
        assert(spaced(list) == token + tail);
        assert(tail.drop_first() == spaced(others));
        assert(text::is_whitespace(' '));
        assert(config::tokens_after(tail, empty) == config::flushed(empty) + others);
        assert(config::flushed(empty) + others == others);
        if token.len() == 1 && is_mark(token[0]) {
            assert((token + tail).drop_first() == tail);
            assert(token == seq![token[0]]);
            assert(config::flushed(empty).push(token) + others == list);
        } else {
            lemma_word_read(token, empty, tail);
            assert(empty + token == token);
            assert(config::tokens_after(tail, token) == config::flushed(token) + others);
            assert(config::flushed(token) + others == list);
        }
    }
}

/// What a text says that gives `n` times a number of bytes.
pub open spec fn size_of(n: nat, unit: int, value: Seq<char>) -> Result<usize, Seq<char>> {
    if n * unit <= usize::MAX {
        Ok((n * unit) as usize)
    } else {
        Err("size is too large: "@ + value)
    }
}

/// A size without a suffix is a number of bytes; with one, in either case, it is that many
/// times 1024 bytes, 1024 times that, or 1024 times that again, as long as that is a size.
pub proof fn law_sizes(n: nat, suffix: char)
    requires
        n <= usize::MAX,
    ensures
        config::parsed_size(text::decimal(n)) == Ok::<usize, Seq<char>>(n as usize),
        suffix == 'k' || suffix == 'K' ==> config::parsed_size(text::decimal(n).push(suffix))
            == size_of(n, 1024, text::decimal(n).push(suffix)),
        suffix == 'm' || suffix == 'M' ==> config::parsed_size(text::decimal(n).push(suffix))
            == size_of(n, 1048576, text::decimal(n).push(suffix)),
        suffix == 'g' || suffix == 'G' ==> config::parsed_size(text::decimal(n).push(suffix))
            == size_of(n, 1073741824, text::decimal(n).push(suffix)),
{
    let digits = text::decimal(n);
    text::lemma_digits_read_back(n, 10);
    lemma_decimal_digits(n);
    assert(text::lowered(digits) =~= digits);
    assert(text::number_up_to(digits, 10, usize::MAX as int) == Some(n as int));
    let lower = text::lowered(digits.push(suffix));
    assert(lower =~= digits.push(text::lower_char(suffix)));
    assert(lower.drop_last() == digits);
}

proof fn lemma_decimal_digits(n: nat)
    ensures
        text::decimal(n).len() > 0,
        forall|i: int|
            0 <= i < text::decimal(n).len() ==> '0' <= (#[trigger] text::decimal(n)[i]) <= '9',
    decreases n,
{
    if n >= 10 {
        lemma_decimal_digits(n / 10);
        let all = text::decimal(n);
        let front = text::decimal(n / 10);
        assert(all.drop_last() == front);
        assert forall|i: int| 0 <= i < all.len() implies '0' <= (#[trigger] all[i]) <= '9' by {
            if i < all.len() - 1 {
                assert(all[i] == front[i]);
            }
        }
    }
}

/// The tokens of methods as they are listed in the header `Allow`.
pub open spec fn allow_list(methods: Seq<MethodView>) -> Seq<Seq<char>> {
    order::stable_sort(
        methods.map_values(|method: MethodView| method.token()),
        text::text_order(),
    )
}

/// The header `Allow` lists the methods of a route in alphabetical order, each of them once.
pub proof fn law_allowed_methods_are_listed_once(route: RouteView, method: MethodView)
    requires
        route.wf(),
        route.methods.len() > 0,
        forall|i: int|
            0 <= i < route.methods.len() ==> MethodView::of((#[trigger] route.methods[i]).token())
                == route.methods[i],
    ensures
        route.allowed() == text::join(allow_list(route.methods), ", "@),
        allow_list(route.methods).no_duplicates(),
        order::is_sorted(allow_list(route.methods), text::text_order()),
        route.methods.contains(method) ==> allow_list(route.methods).contains(method.token()),
{
    broadcast use vstd::seq_lib::group_to_multiset_ensures;

    let token = |method: MethodView| method.token();
    let tokens = route.methods.map_values(token);
    let list = allow_list(route.methods);
    assert forall|i: int, j: int| 0 <= i < tokens.len() && 0 <= j < tokens.len() && i
        != j implies tokens[i] != tokens[j] by {
        assert(MethodView::of(route.methods[i].token()) == route.methods[i]);
        assert(MethodView::of(route.methods[j].token()) == route.methods[j]);
        assert(route.methods[i] != route.methods[j]);
    }
    order::lemma_stable_sort_multiset(tokens, text::text_order());
    text::lemma_text_order();
    order::lemma_stable_sort_sorted(tokens, text::text_order());
    tokens.lemma_multiset_has_no_duplicates();
    list.lemma_multiset_has_no_duplicates_conv();
    if route.methods.contains(method) {
        let i = choose|i: int| 0 <= i < route.methods.len() && route.methods[i] == method;
        assert(tokens[i] == method.token());
        assert(tokens.contains(method.token()));
        assert(tokens.to_multiset().count(method.token()) > 0);
    }
}

} // verus!
