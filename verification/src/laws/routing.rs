//! What holds of the answers to requests.
use vstd::prelude::*;
use vstd::utf8::*;

use crate::config;
use crate::config::{RouteView, ServerView};
use crate::http;
use crate::http::{RequestView, ResponseView};
use crate::laws;
use crate::order;
use crate::path;
use crate::router;
use crate::router::{
    ActionView, HandlerView, InfoView, IoFailure, PendingView, ReplyView, StepView, UploadView,
    MAX_NAME_ATTEMPTS,
};
use crate::session::SessionView;
use crate::text;
use crate::util;

verus! {

pub proof fn lemma_route_index(routes: Seq<RouteView>, path: Seq<char>)
    ensures
        0 <= router::route_index(routes, path) <= routes.len(),
        forall|j: int|
            0 <= j < router::route_index(routes, path) ==> !router::route_matches(
                #[trigger] routes[j],
                path,
            ),
        router::route_index(routes, path) < routes.len() ==> router::route_matches(
            routes[router::route_index(routes, path)],
            path,
        ),
    decreases routes.len(),
{
    if routes.len() > 0 && !router::route_matches(routes[0], path) {
        let rest = routes.drop_first();
        lemma_route_index(rest, path);
        assert forall|j: int|
            0 <= j < router::route_index(routes, path) implies !router::route_matches(
            #[trigger] routes[j],
            path,
        ) by {
            if j > 0 {
                assert(routes[j] == rest[j - 1]);
            }
        }
    }
}

/// A request goes to a route that matches its path, if there is one, and to none with a
/// shorter path than another that matches: the longest prefix decides.
pub proof fn law_longest_prefix(server: ServerView, path: Seq<char>, i: int)
    requires
        order::is_sorted(server.routes, config::route_order()),
        0 <= i < server.routes.len(),
        router::route_matches(server.routes[i], path),
    ensures
        router::route_for(server, path) matches Some(route) && router::route_matches(route, path)
            && route.path_bytes() >= server.routes[i].path_bytes(),
{
    lemma_route_index(server.routes, path);
    let k = router::route_index(server.routes, path);
    let le = config::route_order();
    if k < i {
        assert(le(server.routes[k], server.routes[i]));
    }
}

/// A request goes to no route exactly if none matches its path.
pub proof fn law_no_route(server: ServerView, path: Seq<char>)
    ensures
        router::route_for(server, path) is None <==> forall|i: int|
            0 <= i < server.routes.len() ==> !router::route_matches(
                #[trigger] server.routes[i],
                path,
            ),
{
    lemma_route_index(server.routes, path);
}

proof fn lemma_descend(root: Seq<char>, segments: Seq<Seq<char>>)
    requires
        forall|i: int|
            0 <= i < segments.len() ==> laws::texts::is_plain_segment(#[trigger] segments[i]),
    ensures
        path::components(router::descend(root, segments)) == path::components(root) + segments,
        root.len() > 0 || segments.len() > 0 ==> router::descend(root, segments).len() > 0,
    decreases segments.len(),
{
    if segments.len() == 0 {
        assert(path::components(root) + segments == path::components(root));
    } else {
        let front = segments.drop_last();
        let last = segments.last();
        assert forall|i: int| 0 <= i < front.len() implies laws::texts::is_plain_segment(
            #[trigger] front[i],
        ) by {
            assert(front[i] == segments[i]);
        }
        lemma_descend(root, front);
        assert(laws::texts::is_plain_segment(segments[segments.len() - 1]));
        laws::texts::lemma_plain_segment(last);
        let base = router::descend(root, front);
        if base.len() > 0 {
            laws::texts::lemma_components_joined(base, last);
        } else {
            assert(path::components(base) == Seq::<Seq<char>>::empty()) by {
                let empty = Seq::<char>::empty();
                assert(base == empty);
                laws::texts::lemma_split_whole(empty, text::Pattern::Char('/'));
                let pred = |part: Seq<char>| path::is_segment(part);
                seq![empty].lemma_all_neg_filter_empty(pred);
                reveal_strlit(".");
            }
        }
        assert(path::components(root) + front + seq![last] == path::components(root) + segments);
    }
}

/// The target of a request lies below the root of its route: it has the components of the
/// root and then those of the request path, and none of these leads upwards.
pub proof fn law_targets_lie_below_the_root(
    root: Seq<char>,
    route_path: Seq<char>,
    request_path: Seq<char>,
)
    ensures
        router::file_path(root, route_path, request_path) matches Ok(target) ==> {
            let own = path::segments(router::remainder(route_path, request_path));
            &&& path::components(target) == path::components(root) + own
            &&& !own.contains(".."@)
            &&& path::within(target, root)
        },
{
    let own = path::segments(router::remainder(route_path, request_path));
    laws::texts::lemma_segments_are_plain(router::remainder(route_path, request_path));
    lemma_descend(root, own);
    if let Ok(target) = router::file_path(root, route_path, request_path) {
        assert(path::components(target).subrange(0, path::components(root).len() as int)
            == path::components(root));
    }
}

/// A request path with a segment that leads upwards is refused.
pub proof fn law_no_way_upwards(root: Seq<char>, route_path: Seq<char>, request_path: Seq<char>)
    requires
        path::segments(router::remainder(route_path, request_path)).contains(".."@),
    ensures
        router::file_path(root, route_path, request_path) == Err::<Seq<char>, u16>(403),
{
}

/// The path of what a step reads for the client, lists, removes or runs.
pub open spec fn touched(step: StepView) -> Option<Seq<u8>> {
    match step {
        StepView::Ask(ActionView::Read(path), PendingView::File { .. }) => Some(path),
        StepView::Ask(ActionView::List(path), _) => Some(path),
        StepView::Ask(ActionView::Remove(path), _) => Some(path),
        StepView::Done(HandlerView::Cgi { script, .. }) => Some(script),
        _ => None,
    }
}

/// Whatever is served, listed, removed or run for a request stands within the root of its
/// route, links followed.
pub proof fn law_nothing_outside_the_root(
    request: RequestView,
    server: ServerView,
    target: Seq<char>,
    info: InfoView,
    root: Option<Seq<u8>>,
)
    requires
        info.is_dir ==> info.exists,
    ensures
        touched(router::after_target(request, server, target, info, root)) matches Some(path)
            ==> root matches Some(root) && path::raw_within(path, root),
{
}

/// The index file of a directory within the root stands within the root as well, where the
/// name of the index file is a relative path.
pub proof fn law_index_within_the_root(directory: Seq<u8>, index: Seq<u8>, root: Seq<u8>)
    requires
        path::raw_within(directory, root),
        directory.len() > 0,
        index.len() > 0 ==> index[0] != 47,
    ensures
        path::raw_within(path::raw_joined(directory, index), root),
{
    let place = path::bytewise(directory);
    let name = path::bytewise(index);
    let top = path::bytewise(root);
    lemma_bytewise_joined(directory, index);
    laws::texts::lemma_components_joined(place, name);
    let all = path::components(path::joined(place, name));
    let n = path::components(top).len() as int;
    assert(all.subrange(0, n) == path::components(place).subrange(0, n));
}

proof fn lemma_bytewise_joined(base: Seq<u8>, path: Seq<u8>)
    ensures
        path::bytewise(path::raw_joined(base, path)) == path::joined(
            path::bytewise(base),
            path::bytewise(path),
        ),
{
    reveal_strlit("/");
    assert("/"@ =~= seq!['/']);
    let all = path::bytewise(path::raw_joined(base, path));
    if path.len() > 0 {
        assert((path[0] == 47) == (path::bytewise(path)[0] == '/'));
    }
    if base.len() > 0 {
        assert((base.last() == 47) == (path::bytewise(base).last() == '/'));
    }
    assert(all == path::joined(path::bytewise(base), path::bytewise(path)));
}

/// Whether a step leads to a response of the status and the value for the header `Allow`,
/// whatever becomes of reading the page for the status.
pub open spec fn leads_to(
    step: StepView,
    server: ServerView,
    status: u16,
    allow: Option<Seq<char>>,
) -> bool {
    match step {
        StepView::Done(HandlerView::Response(response)) => response.status == status && (
        allow matches Some(methods) ==> laws::http::header_value(response.headers, "Allow"@)
            == Some(methods)),
        StepView::Ask(ActionView::Read(page), PendingView::Page { status: s, allow: a }) => {
            &&& s == status
            &&& a == allow
            &&& server.error_pages.contains_key(status)
            &&& page == encode_utf8(server.error_pages[status])
        },
        _ => false,
    }
}

/// A failure leads to a response of its status.
pub proof fn law_failures_keep_their_status(
    server: ServerView,
    status: u16,
    allow: Option<Seq<char>>,
    contents: Result<Seq<u8>, IoFailure>,
)
    ensures
        leads_to(router::failed(status, server, allow), server, status, allow),
        leads_to(router::after_page(server, status, allow, contents), server, status, allow),
        router::after_page(server, status, allow, contents) is Done,
{
    assert forall|page: Option<Seq<u8>>| leads_to(
        router::done(router::with_allow(#[trigger] router::error_view(status, server, page), allow)),
        server,
        status,
        allow,
    ) by {
        if let Some(methods) = allow {
            laws::http::law_set_header(
                router::error_view(status, server, page),
                "Allow"@,
                methods,
                "Allow"@,
            );
        }
    }
}

/// The page configured for a status is the body of the answer, where it can be read.
pub proof fn law_custom_error_pages(server: ServerView, status: u16, bytes: Seq<u8>)
    requires
        server.error_pages.contains_key(status),
    ensures
        router::after_page(server, status, None, Ok(bytes)) matches StepView::Done(
            HandlerView::Response(response),
        ) && response.body == bytes && response.status == status,
{
}

/// A request with a body over the limit of its server is refused, whatever it asks for.
pub proof fn law_body_limit(request: RequestView, server: ServerView, session: SessionView)
    requires
        request.body.len() > server.client_max_body_size,
    ensures
        leads_to(router::started(request, server, session), server, 413, None),
{
    law_failures_keep_their_status(server, 413, None, Err(IoFailure::Other));
}

/// A method that the route of a request does not list is refused, and the answer lists the
/// methods.
pub proof fn law_methods(request: RequestView, server: ServerView, session: SessionView)
    requires
        request.body.len() <= server.client_max_body_size,
        request.path != "/session"@,
        router::route_for(server, request.path) matches Some(route) && !router::allows(
            route,
            request.method,
        ),
    ensures
        router::route_for(server, request.path) matches Some(route) && leads_to(
            router::started(request, server, session),
            server,
            405,
            Some(route.allowed()),
        ),
{
    let route = router::route_for(server, request.path).unwrap();
    law_failures_keep_their_status(server, 405, Some(route.allowed()), Err(IoFailure::Other));
}

/// A redirect names the configured place, under the configured status.
pub proof fn law_redirects(status: u16, location: Seq<char>)
    ensures
        router::redirect_view(status, location).status == status,
        laws::http::header_value(router::redirect_view(status, location).headers, "Location"@)
            == Some(location),
{
    let body = "<!doctype html><title>"@ + http::reason(status) + "</title><h1>"@ + http::reason(
        status,
    ) + "</h1><p>Redirecting to <a href=\""@ + util::escaped(location) + "\">"@ + util::escaped(
        location,
    ) + "</a>.</p>"@;
    laws::http::law_set_header(
        ResponseView::html(status, body),
        "Location"@,
        location,
        "Location"@,
    );
}

/// A file that was read is the body of the answer, byte for byte.
pub proof fn law_files_are_served_unchanged(server: ServerView, path: Seq<u8>, bytes: Seq<u8>)
    ensures
        router::after_read(server, path, Ok(bytes)) matches StepView::Done(
            HandlerView::Response(response),
        ) && response.status == 200 && response.body == bytes
            && laws::http::header_value(response.headers, "Content-Type"@) == Some(
            util::media_type(path::raw_extension(path)),
        ),
{
    laws::http::law_set_header(
        ResponseView::new(200, bytes),
        "Content-Type"@,
        util::media_type(path::raw_extension(path)),
        "Content-Type"@,
    );
}

/// A listing names each entry of the directory, and puts the names in order.
pub proof fn law_listings_are_sorted(entries: Seq<(Seq<char>, bool)>)
    ensures
        ({
            let names = entries.map_values(|entry: (Seq<char>, bool)| router::shown_name(entry));
            let sorted = order::stable_sort(names, text::text_order());
            &&& order::is_sorted(sorted, text::text_order())
            &&& sorted.to_multiset() == names.to_multiset()
        }),
{
    let names = entries.map_values(|entry: (Seq<char>, bool)| router::shown_name(entry));
    text::lemma_text_order();
    order::lemma_stable_sort_sorted(names, text::text_order());
    order::lemma_stable_sort_multiset(names, text::text_order());
}

/// Whether a text holds none of the characters that end a text or a quoted value in HTML.
pub open spec fn is_inert(s: Seq<char>) -> bool {
    forall|i: int|
        0 <= i < s.len() ==> (#[trigger] s[i]) != '<' && s[i] != '>' && s[i] != '"' && s[i] != '\''
}

/// Text that was escaped means nothing in HTML.
pub proof fn law_escaped_text_is_inert(s: Seq<char>)
    ensures
        is_inert(util::escaped(s)),
    decreases s.len(),
{
    if s.len() > 0 {
        law_escaped_text_is_inert(s.drop_last());
        let front = util::escaped(s.drop_last());
        let last = util::escaped_char(s.last());
        assert(is_inert(last)) by {
            reveal_strlit("&amp;");
            reveal_strlit("&lt;");
            reveal_strlit("&gt;");
            reveal_strlit("&quot;");
            reveal_strlit("&#39;");
        }
        let all = front + last;
        assert forall|i: int| 0 <= i < all.len() implies (#[trigger] all[i]) != '<' && all[i] != '>'
            && all[i] != '"' && all[i] != '\'' by {
            if i < front.len() {
                assert(all[i] == front[i]);
            } else {
                assert(all[i] == last[i - front.len()]);
            }
        }
    }
}

/// Whether a reply is one to what a handler waits for.
pub open spec fn fits(pending: PendingView, reply: ReplyView) -> bool {
    match pending {
        PendingView::Root => reply is Info,
        PendingView::Target { .. } => reply is Info,
        PendingView::Index { .. } => reply is Info,
        PendingView::File { .. } => reply is Contents,
        PendingView::Listing => reply is Entries,
        PendingView::Page { .. } => reply is Contents,
        PendingView::Removal => reply is Done,
        PendingView::Store { .. } => reply is Done,
        PendingView::RawName { .. } => reply is Millis,
        PendingView::Candidate { .. } => reply is Info,
        PendingView::LastName { .. } => reply is Millis,
        PendingView::Saving { .. } => reply is Done,
    }
}

/// Whether a handler waits for the reply to the action.
pub open spec fn awaits(pending: PendingView, action: ActionView) -> bool {
    match action {
        ActionView::Inspect(_) => pending is Root || pending is Target || pending is Index
            || pending is Candidate,
        ActionView::Read(_) => pending is File || pending is Page,
        ActionView::List(_) => pending is Listing,
        ActionView::CreateDirs(_) => pending is Store,
        ActionView::Write(_, _) => pending is Saving,
        ActionView::Remove(_) => pending is Removal,
        ActionView::Clock => pending is RawName || pending is LastName,
    }
}

/// Whether a step that asks for something waits for the reply to it.
pub open spec fn is_coherent(step: StepView) -> bool {
    step matches StepView::Ask(action, next) ==> awaits(next, action)
}

/// A handler starts by waiting for the reply to what it asked for.
pub proof fn law_first_question_is_coherent(
    request: RequestView,
    server: ServerView,
    session: SessionView,
)
    ensures
        is_coherent(router::started(request, server, session)),
{
}

proof fn lemma_after_store(
    request: RequestView,
    server: ServerView,
    store: Seq<char>,
    made: Result<(), IoFailure>,
)
    ensures
        is_coherent(router::after_store(request, server, store, made)),
{
}

/// A handler goes on by waiting for the reply to what it asked for.
pub proof fn law_questions_are_coherent(
    request: RequestView,
    server: ServerView,
    pending: PendingView,
    reply: ReplyView,
)
    ensures
        is_coherent(router::resumed(request, server, pending, reply)),
{
    match (pending, reply) {
        (PendingView::Root, ReplyView::Info(info)) => {
            assert(is_coherent(router::after_root(request, server, info)));
        },
        (PendingView::Target { target, root }, ReplyView::Info(info)) => {
            assert(is_coherent(router::after_target(request, server, target, info, root)));
        },
        (PendingView::Store { store }, ReplyView::Done(made)) => {
            lemma_after_store(request, server, store, made);
        },
        _ => {},
    }
}

/// How far a handler is from its end, the first number before the second and that before
/// the third.
pub open spec fn distance(pending: PendingView) -> (nat, nat, nat) {
    match pending {
        PendingView::Root => (6, 0, 0),
        PendingView::Target { .. } => (5, 0, 0),
        PendingView::Index { .. } => (4, 0, 0),
        PendingView::Store { .. } => (4, 0, 0),
        PendingView::RawName { .. } => (3, 0, 0),
        PendingView::Candidate { upload, .. } => (
            2,
            2 * upload.left.len(),
            if upload.attempt < MAX_NAME_ATTEMPTS {
                (MAX_NAME_ATTEMPTS - upload.attempt + 1) as nat
            } else {
                1
            },
        ),
        PendingView::LastName { upload } => (2, 2 * upload.left.len(), 0),
        PendingView::Saving { upload, .. } => (2, 2 * upload.left.len() + 1, 0),
        PendingView::File { .. } => (1, 0, 0),
        PendingView::Listing => (1, 0, 0),
        PendingView::Removal => (1, 0, 0),
        PendingView::Page { .. } => (0, 0, 0),
    }
}

/// Whether the one distance is less than the other.
pub open spec fn is_nearer(a: (nat, nat, nat), b: (nat, nat, nat)) -> bool {
    ||| a.0 < b.0
    ||| a.0 == b.0 && a.1 < b.1
    ||| a.0 == b.0 && a.1 == b.1 && a.2 < b.2
}

/// Every reply brings a handler nearer to its end, so that every request is answered.
pub proof fn law_handlers_end(
    request: RequestView,
    server: ServerView,
    pending: PendingView,
    reply: ReplyView,
)
    requires
        fits(pending, reply),
    ensures
        router::resumed(request, server, pending, reply) matches StepView::Ask(_, next)
            ==> is_nearer(distance(next), distance(pending)),
{
    if let PendingView::Candidate { upload, path } = pending {
        if let ReplyView::Info(info) = reply {
            if info.exists && upload.attempt < MAX_NAME_ATTEMPTS {
                let next = UploadView { attempt: (upload.attempt + 1) as u64, ..upload };
                assert(router::resumed(request, server, pending, reply) == router::next_file(next));
            }
        }
    }
}

} // verus!
