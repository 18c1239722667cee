//! What holds of the way from a request to what is done for it.
use vstd::prelude::*;
use vstd::utf8::*;

use crate::config::{RouteView, ServerView};
use crate::http;
use crate::http::{MethodView, RequestView, ResponseView};
use crate::laws;
use crate::order;
use crate::path;
use crate::router;
use crate::router::{
    ActionView, HandlerView, InfoView, IoFailure, PendingView, ReplyView, StepView, UploadView,
};
use crate::session::SessionView;
use crate::text;
use crate::text::Pattern;
use crate::util;

verus! {

/// The path of something below a route.
pub open spec fn under(route_path: Seq<char>, rest: Seq<char>) -> Seq<char> {
    route_path.push('/') + rest
}

/// Whether a route is for a path: the route of everything, one with that very path, or one
/// that the path lies below.
pub open spec fn is_for(route: RouteView, path: Seq<char>) -> bool {
    ||| route.path == seq!['/']
    ||| route.path == path
    ||| exists|rest: Seq<char>| path == #[trigger] under(route.path, rest)
}

/// Whether the route of that index is the first one for the path.
pub open spec fn is_route(server: ServerView, path: Seq<char>, i: int) -> bool {
    &&& 0 <= i < server.routes.len()
    &&& is_for(server.routes[i], path)
    &&& forall|j: int| 0 <= j < i ==> !is_for(#[trigger] server.routes[j], path)
}

/// Whether no route is for the path.
pub open spec fn has_no_route(server: ServerView, path: Seq<char>) -> bool {
    forall|j: int| 0 <= j < server.routes.len() ==> !is_for(#[trigger] server.routes[j], path)
}

/// Whether a route takes a method: it lists it, or lists none.
pub open spec fn takes(route: RouteView, method: MethodView) -> bool {
    route.methods.len() == 0 || exists|i: int|
        0 <= i < route.methods.len() && #[trigger] route.methods[i] == method
}

proof fn lemma_is_for(route: RouteView, path: Seq<char>)
    ensures
        router::route_matches(route, path) <==> is_for(route, path),
{
    reveal_strlit("/");
    assert("/"@ == seq!['/']);
    let n = route.path.len() as int;
    if route.path.is_prefix_of(path) && n < path.len() && path[n] == '/' {
        let rest = path.skip(n + 1);
        assert(path.subrange(0, n) == route.path);
        assert forall|i: int| 0 <= i < path.len() implies path[i] == under(route.path, rest)[i] by {
            if i < n {
                assert(path[i] == path.subrange(0, n)[i]);
            }
        }
        assert(path == under(route.path, rest));
    }
    if exists|rest: Seq<char>| path == #[trigger] under(route.path, rest) {
        let rest = choose|rest: Seq<char>| path == #[trigger] under(route.path, rest);
        assert(path.subrange(0, n) == route.path);
        assert(path[n] == '/');
    }
}

proof fn lemma_route(server: ServerView, path: Seq<char>, i: int)
    ensures
        is_route(server, path, i) ==> router::route_for(server, path) == Some(server.routes[i]),
        has_no_route(server, path) ==> router::route_for(server, path) is None,
{
    laws::routing::lemma_route_index(server.routes, path);
    let k = router::route_index(server.routes, path);
    assert forall|j: int| 0 <= j < server.routes.len() implies (router::route_matches(
        #[trigger] server.routes[j],
        path,
    ) <==> is_for(server.routes[j], path)) by {
        lemma_is_for(server.routes[j], path);
    }
    if is_route(server, path, i) && k != i {
        if k < i {
            assert(is_for(server.routes[k], path));
        } else {
            assert(!router::route_matches(server.routes[i], path));
        }
    }
}

/// A request goes to the first route that is for its path, and to none where none is.
pub proof fn law_first_route(server: ServerView, path: Seq<char>, i: int)
    ensures
        is_route(server, path, i) ==> router::route_for(server, path) == Some(server.routes[i]),
        has_no_route(server, path) ==> router::route_for(server, path) is None,
{
    lemma_route(server, path, i);
}

/// The page for a status of which none is configured.
pub open spec fn plain_page(status: u16) -> Seq<char> {
    let title = text::decimal(status as nat) + seq![' '] + http::reason(status);
    "<!doctype html><html><head><meta charset=\"utf-8\"><title>"@ + title
        + "</title></head><body><h1>"@ + title + "</h1></body></html>"@
}

/// Whether a response is a page of HTML with the text.
pub open spec fn is_page(response: ResponseView, status: u16, page: Seq<char>) -> bool {
    &&& response.status == status
    &&& response.body == encode_utf8(page)
    &&& laws::http::header_value(response.headers, "Content-Type"@) == Some(
        "text/html; charset=utf-8"@,
    )
}

/// Whether a step ends with a page of HTML.
pub open spec fn shows(step: StepView, status: u16, page: Seq<char>) -> bool {
    step matches StepView::Done(HandlerView::Response(response)) && is_page(response, status, page)
}

/// Whether a step refuses a request with the status: the page configured for it is read, or
/// the plain one is the answer; the header `Allow` has the value, or is not set.
pub open spec fn refuses(
    step: StepView,
    server: ServerView,
    status: u16,
    allow: Option<Seq<char>>,
) -> bool {
    if server.error_pages.contains_key(status) {
        step == StepView::Ask(
            ActionView::Read(encode_utf8(server.error_pages[status])),
            PendingView::Page { status, allow },
        )
    } else {
        step matches StepView::Done(HandlerView::Response(response)) && is_page(
            response,
            status,
            plain_page(status),
        ) && laws::http::header_value(response.headers, "Allow"@) == allow
    }
}

proof fn lemma_header_names()
    ensures
        text::lowered("Allow"@) != text::lowered("Content-Type"@),
        text::lowered("Location"@) != text::lowered("Content-Type"@),
        text::lowered("Cache-Control"@) != text::lowered("Content-Type"@),
{
    reveal_strlit("Allow");
    reveal_strlit("Content-Type");
    reveal_strlit("Location");
    reveal_strlit("Cache-Control");
    assert(text::lowered("Allow"@).len() == 5);
    assert(text::lowered("Content-Type"@).len() == 12);
    assert(text::lowered("Location"@).len() == 8);
    assert(text::lowered("Cache-Control"@).len() == 13);
}

pub proof fn lemma_html(status: u16, page: Seq<char>)
    ensures
        is_page(ResponseView::html(status, page), status, page),
        laws::http::header_value(ResponseView::html(status, page).headers, "Allow"@) is None,
{
    let start = ResponseView::new(status, encode_utf8(page));
    let kind = "text/html; charset=utf-8"@;
    lemma_header_names();
    laws::http::law_set_header(start, "Content-Type"@, kind, "Content-Type"@);
    laws::http::law_set_header(start, "Content-Type"@, kind, "Allow"@);
    assert(laws::http::header_value(start.headers, "Allow"@) is None);
}

pub proof fn lemma_refuses(server: ServerView, status: u16, allow: Option<Seq<char>>)
    ensures
        refuses(router::failed(status, server, allow), server, status, allow),
{
    if !server.error_pages.contains_key(status) {
        reveal_strlit(" ");
        assert(" "@ == seq![' ']);
        let code = text::decimal(status as nat);
        let front = "<!doctype html><html><head><meta charset=\"utf-8\"><title>"@;
        let middle = "</title></head><body><h1>"@;
        let reason = http::reason(status);
        let back = "</h1></body></html>"@;
        let page = front + code + " "@ + reason + middle + code + " "@ + reason + back;
        assert(page == plain_page(status));
        lemma_html(status, page);
        lemma_header_names();
        let response = ResponseView::html(status, page);
        assert(router::error_view(status, server, None) == response);
        if let Some(methods) = allow {
            laws::http::law_set_header(response, "Allow"@, methods, "Allow"@);
            laws::http::law_set_header(response, "Allow"@, methods, "Content-Type"@);
        }
    }
}

/// What a refused request is answered once the page for the status was read: that page, as
/// the type of its file, or the plain one where it could not be read.
pub proof fn law_pages_of_refusals(
    request: RequestView,
    server: ServerView,
    status: u16,
    allow: Option<Seq<char>>,
    contents: Result<Seq<u8>, IoFailure>,
)
    requires
        server.error_pages.contains_key(status),
    ensures
        router::resumed(
            request,
            server,
            PendingView::Page { status, allow },
            ReplyView::Contents(contents),
        ) matches StepView::Done(HandlerView::Response(response)) && response.status == status
            && laws::http::header_value(response.headers, "Allow"@) == allow && match contents {
            Ok(bytes) => response.body == bytes && laws::http::header_value(
                response.headers,
                "Content-Type"@,
            ) == Some(util::media_type(path::extension(server.error_pages[status]))),
            Err(_) => is_page(response, status, plain_page(status)),
        },
{
    lemma_header_names();
    let page = server.error_pages[status];
    laws::paths::law_extensions_of_texts(page);
    let before = match contents {
        Ok(bytes) => {
            let kind = util::media_type(path::extension(page));
            let start = ResponseView::new(status, bytes);
            laws::http::law_set_header(start, "Content-Type"@, kind, "Content-Type"@);
            laws::http::law_set_header(start, "Content-Type"@, kind, "Allow"@);
            assert(laws::http::header_value(start.headers, "Allow"@) is None);
            start.with("Content-Type"@, kind)
        },
        Err(_) => {
            let other = ServerView { error_pages: Map::empty(), ..server };
            lemma_refuses(other, status, None);
            assert(router::error_view(status, other, None) == router::error_view(
                status,
                server,
                None,
            ));
            router::error_view(status, server, None)
        },
    };
    if let Some(methods) = allow {
        laws::http::law_set_header(before, "Allow"@, methods, "Allow"@);
        laws::http::law_set_header(before, "Allow"@, methods, "Content-Type"@);
    }
}

/// The first step: too large a body is refused; the path of the session shows it; a path
/// without a route is not found; a method that its route does not take is refused with the
/// methods that it does; a route that redirects answers with the other place; and for any
/// other route its root is looked at.
pub proof fn law_first_steps(
    request: RequestView,
    server: ServerView,
    session: SessionView,
    i: int,
)
    ensures
        ({
            let step = router::started(request, server, session);
            let route = server.routes[i];
            let method = request.method;
            &&& request.body.len() > server.client_max_body_size ==> refuses(
                step,
                server,
                413,
                None,
            )
            &&& request.body.len() <= server.client_max_body_size ==> {
                &&& request.path == "/session"@ ==> shows(
                    step,
                    200,
                    "<!doctype html><html><body><h1>Session</h1><p>id: "@ + util::escaped(
                        session.id,
                    ) + "</p><p>visits: "@ + text::decimal(session.visits as nat)
                        + "</p></body></html>"@,
                )
                &&& request.path != "/session"@ ==> {
                    &&& has_no_route(server, request.path) ==> refuses(step, server, 404, None)
                    &&& is_route(server, request.path, i) ==> {
                        &&& !takes(route, method) ==> refuses(
                            step,
                            server,
                            405,
                            Some(route.allowed()),
                        )
                        &&& takes(route, method) && route.redirect is Some ==> redirects(
                            step,
                            route.redirect->Some_0.0,
                            route.redirect->Some_0.1,
                        )
                        &&& takes(route, method) && route.redirect is None && method is Other
                            ==> refuses(step, server, 405, Some(route.allowed()))
                        &&& takes(route, method) && route.redirect is None && method !is Other
                            ==> match route.root {
                            Some(root) => step == StepView::Ask(
                                ActionView::Inspect(encode_utf8(root)),
                                PendingView::Root,
                            ),
                            None => refuses(step, server, 404, None),
                        }
                    }
                }
            }
        }),
{
    let route = server.routes[i];
    lemma_route(server, request.path, i);
    lemma_refuses(server, 413, None);
    lemma_refuses(server, 404, None);
    lemma_refuses(server, 405, Some(route.allowed()));
    lemma_html(
        200,
        "<!doctype html><html><body><h1>Session</h1><p>id: "@ + util::escaped(session.id)
            + "</p><p>visits: "@ + text::decimal(session.visits as nat) + "</p></body></html>"@,
    );
    assert(takes(route, request.method) <==> router::allows(route, request.method));
    if let Some(redirect) = route.redirect {
        lemma_redirects(redirect.0, redirect.1);
    }
}

/// Whether a step answers with the place to go to instead.
pub open spec fn redirects(step: StepView, status: u16, location: Seq<char>) -> bool {
    step matches StepView::Done(HandlerView::Response(response)) && is_page(
        response,
        status,
        "<!doctype html><title>"@ + http::reason(status) + "</title><h1>"@ + http::reason(status)
            + "</h1><p>Redirecting to <a href=\""@ + util::escaped(location) + "\">"@
            + util::escaped(location) + "</a>.</p>"@,
    ) && laws::http::header_value(response.headers, "Location"@) == Some(location)
}

proof fn lemma_redirects(status: u16, location: Seq<char>)
    ensures
        redirects(router::done(router::redirect_view(status, location)), status, location),
{
    lemma_header_names();
    let page = "<!doctype html><title>"@ + http::reason(status) + "</title><h1>"@ + http::reason(
        status,
    ) + "</h1><p>Redirecting to <a href=\""@ + util::escaped(location) + "\">"@ + util::escaped(
        location,
    ) + "</a>.</p>"@;
    lemma_html(status, page);
    let response = ResponseView::html(status, page);
    laws::http::law_set_header(response, "Location"@, location, "Location"@);
    laws::http::law_set_header(response, "Location"@, location, "Content-Type"@);
}

proof fn lemma_leading(s: Seq<char>, p: Pattern)
    ensures
        0 <= text::leading(s, p) <= s.len(),
    decreases s.len(),
{
    if s.len() > 0 && p.has(s[0]) {
        lemma_leading(s.drop_first(), p);
    }
}

proof fn lemma_no_leading_slashes(s: Seq<char>)
    ensures
        path::segments(text::trimmed_start(s, Pattern::Char('/'))) == path::segments(s),
    decreases s.len(),
{
    let p = Pattern::Char('/');
    if s.len() > 0 && s[0] == '/' {
        let rest = s.drop_first();
        lemma_no_leading_slashes(rest);
        let empty = Seq::<char>::empty();
        assert(s == empty.push('/') + rest);
        laws::texts::lemma_segments_concat(empty, rest);
        let pred = |part: Seq<char>| path::is_segment(part);
        laws::texts::lemma_split_whole(empty, p);
        seq![empty].lemma_all_neg_filter_empty(pred);
        assert(path::segments(empty) == Seq::<Seq<char>>::empty());
        assert(path::segments(s) == path::segments(rest));
        lemma_leading(rest, p);
        let n = text::leading(rest, p);
        assert(text::leading(s, p) == n + 1);
        assert(s.skip(n + 1) == rest.skip(n));
    } else {
        assert(text::leading(s, p) == 0);
        assert(s.skip(0) == s);
    }
}

/// The target of a request is the root of its route, where that is a file; and else what is
/// reached from the root by way of the parts of the path behind that of the route. A path
/// with a part that leads upwards is refused.
pub proof fn law_targets_of_requests(
    request: RequestView,
    server: ServerView,
    i: int,
    root: Seq<char>,
    parts: Seq<Seq<char>>,
    info: InfoView,
)
    requires
        is_route(server, request.path, i),
        server.routes[i].root == Some(root),
        laws::places::are_parts(parts),
        request.path == (if server.routes[i].path == seq!['/'] {
            Seq::empty()
        } else {
            server.routes[i].path
        }) + laws::places::slashed(parts),
    ensures
        ({
            let step = router::resumed(request, server, PendingView::Root, ReplyView::Info(info));
            let target = if info.is_file {
                root
            } else {
                laws::places::reached(root, parts)
            };
            if !info.is_file && parts.contains(seq!['.', '.']) {
                refuses(step, server, 403, None)
            } else {
                step == StepView::Ask(
                    ActionView::Inspect(encode_utf8(target)),
                    PendingView::Target { target, root: info.canonical },
                )
            }
        }),
{
    reveal_strlit("/");
    assert("/"@ == seq!['/']);
    let route = server.routes[i];
    let all = laws::places::slashed(parts);
    lemma_route(server, request.path, i);
    lemma_refuses(server, 403, None);
    laws::places::lemma_reached(root, parts);
    laws::places::lemma_leads_upwards(parts);
    if route.path == "/"@ {
        assert(request.path == all);
    } else {
        let n = route.path.len() as int;
        assert(request.path.subrange(0, n) == route.path);
        assert(request.path.skip(n) == all);
    }
    lemma_no_leading_slashes(all);
}

/// What stands at a place, with its path free of links.
pub open spec fn stands(info: InfoView, names: Seq<Seq<u8>>) -> bool {
    &&& info.exists
    &&& laws::places::are_names(names)
    &&& info.canonical == Some(laws::places::place(names))
}

/// Whether a file is a script that the route has the program for: its name is something, a
/// dot and an ending, and the first entry of the route for that ending gives the program.
pub open spec fn is_script(
    route: RouteView,
    names: Seq<Seq<u8>>,
    stem: Seq<u8>,
    ending: Seq<char>,
    program: Seq<char>,
    k: int,
) -> bool {
    &&& names.len() > 0
    &&& stem.len() > 0
    &&& names.last() == stem.push(46) + encode_utf8(ending)
    &&& forall|i: int| 0 <= i < ending.len() ==> (#[trigger] ending[i]) != '.'
    &&& 0 <= k < route.cgi.len()
    &&& route.cgi[k] == (seq!['.'] + ending, program)
    &&& forall|j: int| 0 <= j < k ==> (#[trigger] route.cgi[j]).0 != seq!['.'] + ending
}

/// Whether a file is no script: there is no program for it, however its name is divided.
pub open spec fn is_no_script(route: RouteView, names: Seq<Seq<u8>>) -> bool {
    forall|stem: Seq<u8>, ending: Seq<char>, program: Seq<char>, k: int|
        !(#[trigger] is_script(route, names, stem, ending, program, k))
}

proof fn lemma_no_script(route: RouteView, names: Seq<Seq<u8>>)
    requires
        laws::places::are_names(names),
        is_no_script(route, names),
    ensures
        router::interpreter_for(route, laws::places::place(names)) is None,
{
    let path = laws::places::place(names);
    if let Some(extension) = path::raw_extension(path) {
        laws::places::lemma_place_components(names);
        let shapes = laws::places::shapes(names);
        if names.len() == 0 {
            assert(shapes == Seq::<Seq<char>>::empty());
            assert(path::components(path::bytewise(path)) == seq!["/"@]);
        }
        let last = names.last();
        let name = path::bytewise(last);
        assert(path::components(path::bytewise(path)).last() == shapes[names.len() - 1]);
        let k = path::last_dot(name);
        laws::paths::lemma_last_dot(name);
        let rest = name.skip(k + 1);
        let behind = path::bytes_behind(rest);
        decode_utf8_encode_utf8(behind);
        assert(encode_utf8(extension) == behind);
        let stem = last.take(k);
        assert forall|j: int| k < j < last.len() implies behind[j - k - 1] == #[trigger] last[j] by {
            let b = last[j];
            assert(name[j] == b as char);
            assert(rest[j - k - 1] == name[j]);
            assert((b as char) as u8 == b);
        }
        assert(last[k] == 46) by {
            assert(name[k] == last[k] as char);
            assert(name[k] == '.');
        }
        assert(last == stem.push(46) + behind);
        assert forall|j: int| 0 <= j < extension.len() implies (#[trigger] extension[j]) != '.' by {
            if extension[j] == '.' {
                laws::paths::lemma_image_with(extension, j);
                let image = laws::paths::image(extension);
                let m = choose|m: int| 0 <= m < image.len() && (#[trigger] image[m]) == '.';
                assert(image[m] == behind[m] as char);
                assert(behind[m] == last[m + k + 1]);
                assert(name[m + k + 1] == last[m + k + 1] as char);
            }
        }
        reveal_strlit(".");
        assert("."@ == seq!['.']);
        let ending = "."@ + extension;
        http::lemma_field_index(route.cgi, ending);
        let n = http::field_index(route.cgi, ending);
        if n < route.cgi.len() {
            assert(is_script(route, names, stem, extension, route.cgi[n].1, n));
        }
    }
}

proof fn lemma_script(
    route: RouteView,
    names: Seq<Seq<u8>>,
    stem: Seq<u8>,
    ending: Seq<char>,
    program: Seq<char>,
    k: int,
)
    requires
        laws::places::are_names(names),
        is_script(route, names, stem, ending, program, k),
    ensures
        router::interpreter_for(route, laws::places::place(names)) == Some(program),
{
    let front = names.drop_last();
    let last = names.last();
    assert(laws::places::is_name(names[names.len() - 1]));
    assert forall|i: int| 0 <= i < front.len() implies laws::places::is_name(#[trigger] front[i]) by {
        assert(front[i] == names[i]);
    }
    assert(front.push(last) == names);
    laws::places::law_extensions_of_places(front, last, stem, ending);
    reveal_strlit(".");
    assert("."@ == seq!['.']);
    http::lemma_field_index_is(route.cgi, "."@ + ending, k);
}

proof fn lemma_inside(
    target: Seq<char>,
    info: InfoView,
    names: Seq<Seq<u8>>,
    top: Seq<Seq<u8>>,
)
    requires
        stands(info, names),
        laws::places::are_names(top),
    ensures
        router::protected(target, info, Some(laws::places::place(top))) == (
        if laws::places::is_below(names, top) {
            Ok::<Seq<u8>, u16>(laws::places::place(names))
        } else {
            Err(403u16)
        }),
{
    laws::places::law_places(names, top);
}

/// A file that is asked for and can be run by no program is read, and exactly that file,
/// whatever else its route configures; and what is read is the answer, byte for byte, as the
/// type of the file.
pub proof fn law_files_are_served(
    request: RequestView,
    server: ServerView,
    i: int,
    target: Seq<char>,
    info: InfoView,
    names: Seq<Seq<u8>>,
    top: Seq<Seq<u8>>,
    bytes: Seq<u8>,
)
    requires
        is_route(server, request.path, i),
        request.method is Get,
        stands(info, names),
        info.is_file && !info.is_dir,
        laws::places::are_names(top),
        laws::places::is_below(names, top),
        is_no_script(server.routes[i], names),
    ensures
        ({
            let place = laws::places::place(names);
            &&& router::resumed(
                request,
                server,
                PendingView::Target { target, root: Some(laws::places::place(top)) },
                ReplyView::Info(info),
            ) == StepView::Ask(ActionView::Read(place), PendingView::File { file: place })
            &&& router::resumed(
                request,
                server,
                PendingView::File { file: place },
                ReplyView::Contents(Ok(bytes)),
            ) matches StepView::Done(HandlerView::Response(response)) && response.status == 200
                && response.body == bytes && laws::http::header_value(
                response.headers,
                "Content-Type"@,
            ) == Some(util::media_type(path::raw_extension(place)))
        }),
{
    lemma_route(server, request.path, i);
    lemma_inside(target, info, names, top);
    lemma_no_script(server.routes[i], names);
    let place = laws::places::place(names);
    laws::http::law_set_header(
        ResponseView::new(200, bytes),
        "Content-Type"@,
        util::media_type(path::raw_extension(place)),
        "Content-Type"@,
    );
}

/// A script that is asked for or posted to is run, with the program that its route has for
/// files of its ending.
pub proof fn law_scripts_are_run(
    request: RequestView,
    server: ServerView,
    i: int,
    target: Seq<char>,
    info: InfoView,
    names: Seq<Seq<u8>>,
    top: Seq<Seq<u8>>,
    stem: Seq<u8>,
    ending: Seq<char>,
    program: Seq<char>,
    k: int,
)
    requires
        is_route(server, request.path, i),
        request.method is Get && info.is_file && !info.is_dir || request.method is Post,
        stands(info, names),
        laws::places::are_names(top),
        laws::places::is_below(names, top),
        is_script(server.routes[i], names, stem, ending, program, k),
    ensures
        router::resumed(
            request,
            server,
            PendingView::Target { target, root: Some(laws::places::place(top)) },
            ReplyView::Info(info),
        ) == StepView::Done(
            HandlerView::Cgi { script: laws::places::place(names), interpreter: program },
        ),
{
    lemma_route(server, request.path, i);
    lemma_inside(target, info, names, top);
    lemma_script(server.routes[i], names, stem, ending, program, k);
}

/// A directory that is asked for is served by its index file, where the route names one and
/// it is there; and else by the list of its entries, where the route allows that.
pub proof fn law_directories_are_served(
    request: RequestView,
    server: ServerView,
    i: int,
    target: Seq<char>,
    info: InfoView,
    names: Seq<Seq<u8>>,
    top: Seq<Seq<u8>>,
    found: InfoView,
)
    requires
        is_route(server, request.path, i),
        request.method is Get,
        stands(info, names),
        info.is_dir,
        laws::places::are_names(top),
        laws::places::is_below(names, top),
    ensures
        ({
            let place = laws::places::place(names);
            let route = server.routes[i];
            let step = router::resumed(
                request,
                server,
                PendingView::Target { target, root: Some(laws::places::place(top)) },
                ReplyView::Info(info),
            );
            match route.index {
                Some(index) => {
                    let file = index_file(names, index);
                    let pending = PendingView::Index { directory: place, index: file };
                    let next = router::resumed(request, server, pending, ReplyView::Info(found));
                    &&& step == StepView::Ask(ActionView::Inspect(file), pending)
                    &&& found.is_file ==> next == StepView::Ask(
                        ActionView::Read(file),
                        PendingView::File { file },
                    )
                    &&& !found.is_file ==> lists(next, route, server, place)
                },
                None => lists(step, route, server, place),
            }
        }),
{
    lemma_route(server, request.path, i);
    lemma_inside(target, info, names, top);
    lemma_refuses(server, 403, None);
    if let Some(index) = server.routes[i].index {
        lemma_index_file(names, index);
    }
}

/// The path of the index file of a directory: a name or a path from the directory on, or a
/// path from the top.
pub open spec fn index_file(names: Seq<Seq<u8>>, index: Seq<char>) -> Seq<u8> {
    if index.len() > 0 && index[0] == '/' {
        encode_utf8(index)
    } else if names.len() == 0 {
        seq![47u8] + encode_utf8(index)
    } else {
        laws::places::place(names).push(47) + encode_utf8(index)
    }
}

proof fn lemma_index_file(names: Seq<Seq<u8>>, index: Seq<char>)
    requires
        laws::places::are_names(names),
    ensures
        path::raw_joined(laws::places::place(names), encode_utf8(index)) == index_file(names, index),
{
    laws::paths::lemma_first_byte(index);
    if names.len() > 0 {
        let last = names.last();
        assert(laws::places::is_name(names[names.len() - 1]));
        assert(last[last.len() - 1] != 47);
        assert(laws::places::place(names).last() == last[last.len() - 1]);
    }
}

/// Whether a step lists the directory, or refuses to where the route does not allow it.
pub open spec fn lists(
    step: StepView,
    route: RouteView,
    server: ServerView,
    place: Seq<u8>,
) -> bool {
    if route.directory_listing {
        step == StepView::Ask(ActionView::List(place), PendingView::Listing)
    } else {
        refuses(step, server, 403, None)
    }
}

/// What is posted to something that is no script goes to the store of the route, where it
/// has one; and else it is only counted.
pub proof fn law_posts_are_taken(
    request: RequestView,
    server: ServerView,
    i: int,
    target: Seq<char>,
    info: InfoView,
    names: Seq<Seq<u8>>,
    top: Seq<Seq<u8>>,
)
    requires
        is_route(server, request.path, i),
        request.method is Post,
        laws::places::are_names(top),
        info.exists ==> stands(info, names) && laws::places::is_below(names, top) && is_no_script(
            server.routes[i],
            names,
        ),
    ensures
        ({
            let step = router::resumed(
                request,
                server,
                PendingView::Target { target, root: Some(laws::places::place(top)) },
                ReplyView::Info(info),
            );
            match server.routes[i].upload_store {
                Some(store) => step == StepView::Ask(
                    ActionView::CreateDirs(encode_utf8(store)),
                    PendingView::Store { store },
                ),
                None => step matches StepView::Done(HandlerView::Response(response))
                    && response.status == 200 && response.body == encode_utf8(
                    "received "@ + text::decimal(request.body.len()) + " bytes\n"@,
                ) && laws::http::header_value(response.headers, "Cache-Control"@) == Some(
                    "no-store"@,
                ) && laws::http::header_value(response.headers, "Content-Type"@) == Some(
                    "text/plain; charset=utf-8"@,
                ),
            }
        }),
{
    lemma_route(server, request.path, i);
    if info.exists {
        lemma_inside(target, info, names, top);
        lemma_no_script(server.routes[i], names);
    }
    lemma_header_names();
    let body = encode_utf8("received "@ + text::decimal(request.body.len()) + " bytes\n"@);
    let start = ResponseView::new(200, body);
    let kind = "text/plain; charset=utf-8"@;
    laws::http::law_set_header(start, "Content-Type"@, kind, "Content-Type"@);
    let typed = start.with("Content-Type"@, kind);
    laws::http::law_set_header(typed, "Cache-Control"@, "no-store"@, "Content-Type"@);
    laws::http::law_set_header(typed, "Cache-Control"@, "no-store"@, "Cache-Control"@);
}

/// What a request asks to delete is removed, and exactly that, where it is there and no
/// directory; and the answer to a removal is that there is nothing to show.
pub proof fn law_files_are_deleted(
    request: RequestView,
    server: ServerView,
    i: int,
    target: Seq<char>,
    info: InfoView,
    names: Seq<Seq<u8>>,
    top: Seq<Seq<u8>>,
)
    requires
        is_route(server, request.path, i),
        request.method is Delete,
        stands(info, names),
        !info.is_dir,
        laws::places::are_names(top),
        laws::places::is_below(names, top),
    ensures
        router::resumed(
            request,
            server,
            PendingView::Target { target, root: Some(laws::places::place(top)) },
            ReplyView::Info(info),
        ) == StepView::Ask(ActionView::Remove(laws::places::place(names)), PendingView::Removal),
        router::resumed(request, server, PendingView::Removal, ReplyView::Done(Ok(())))
            == StepView::Done(
            HandlerView::Response(
                ResponseView { status: 204, headers: Seq::empty(), body: Seq::empty() },
            ),
        ),
{
    lemma_route(server, request.path, i);
    lemma_inside(target, info, names, top);
}

/// Whether a step removes something.
pub open spec fn removes(step: StepView) -> bool {
    step matches StepView::Ask(ActionView::Remove(_), _)
}

proof fn lemma_start_removes_nothing(
    request: RequestView,
    server: ServerView,
    session: SessionView,
)
    ensures
        !removes(router::started(request, server, session)),
{
}

proof fn lemma_root_removes_nothing(request: RequestView, server: ServerView, info: InfoView)
    ensures
        !removes(router::after_root(request, server, info)),
{
}

proof fn lemma_store_removes_nothing(
    request: RequestView,
    server: ServerView,
    store: Seq<char>,
    made: Result<(), IoFailure>,
)
    ensures
        !removes(router::after_store(request, server, store, made)),
{
    if made is Ok {
        if let Some(boundary) = router::request_boundary(request) {
            let files = router::multipart_files(request.body, encode_utf8("--"@ + boundary));
            assert(!removes(
                router::next_file(
                    UploadView { store, left: files, saved: seq![], attempt: 0, failure: 400 },
                ),
            ));
        }
    }
}

proof fn lemma_index_removes_nothing(
    request: RequestView,
    server: ServerView,
    directory: Seq<u8>,
    index: Seq<u8>,
    info: InfoView,
)
    ensures
        !removes(router::after_index(request, server, directory, index, info)),
{
}

proof fn lemma_upload_removes_nothing(
    server: ServerView,
    upload: UploadView,
    path: Seq<char>,
    info: InfoView,
    written: Result<(), IoFailure>,
)
    ensures
        !removes(router::after_candidate(upload, path, info)),
        !removes(router::write_file(upload, path)),
        !removes(router::after_save(server, upload, path, written)),
{
}

proof fn lemma_target_removes(
    request: RequestView,
    server: ServerView,
    target: Seq<char>,
    info: InfoView,
    root: Option<Seq<u8>>,
)
    ensures
        router::after_target(request, server, target, info, root) matches StepView::Ask(
            ActionView::Remove(path),
            next,
        ) ==> {
            &&& request.method is Delete
            &&& next is Removal
            &&& info.exists && !info.is_dir && info.canonical == Some(path)
            &&& root matches Some(top) && path::raw_within(path, top)
        },
{
}

/// Nothing is removed but for a request to delete it: whatever was asked before and whatever
/// came back, a step that removes something removes what the target of such a request is,
/// which is there, is no directory and stands within the root.
pub proof fn law_only_deletions_remove(
    request: RequestView,
    server: ServerView,
    session: SessionView,
    pending: PendingView,
    reply: ReplyView,
)
    ensures
        !removes(router::started(request, server, session)),
        router::resumed(request, server, pending, reply) matches StepView::Ask(
            ActionView::Remove(path),
            next,
        ) ==> {
            &&& request.method is Delete
            &&& next is Removal
            &&& pending is Target
            &&& reply matches ReplyView::Info(info) && info.exists && !info.is_dir
                && info.canonical == Some(path)
            &&& pending->root matches Some(root) && path::raw_within(path, root)
        },
{
    lemma_start_removes_nothing(request, server, session);
    match (pending, reply) {
        (PendingView::Root, ReplyView::Info(info)) => {
            lemma_root_removes_nothing(request, server, info);
        },
        (PendingView::Target { target, root }, ReplyView::Info(info)) => {
            lemma_target_removes(request, server, target, info, root);
        },
        (PendingView::Index { directory, index }, ReplyView::Info(info)) => {
            lemma_index_removes_nothing(request, server, directory, index, info);
        },
        (PendingView::Store { store }, ReplyView::Done(made)) => {
            lemma_store_removes_nothing(request, server, store, made);
        },
        (PendingView::Candidate { upload, path }, ReplyView::Info(info)) => {
            lemma_upload_removes_nothing(server, upload, path, info, Ok(()));
        },
        (PendingView::LastName { upload }, ReplyView::Millis(millis)) => {
            let path = path::joined(upload.store, router::timed_name(millis));
            let info = InfoView { exists: false, is_file: false, is_dir: false, canonical: None };
            lemma_upload_removes_nothing(server, upload, path, info, Ok(()));
        },
        (PendingView::Saving { upload, path }, ReplyView::Done(written)) => {
            let info = InfoView { exists: false, is_file: false, is_dir: false, canonical: None };
            lemma_upload_removes_nothing(server, upload, path, info, written);
        },
        _ => {},
    }
}

/// Whatever is asked for: a target outside the root is refused, links followed, and so is one
/// whose place or whose root cannot be told.
pub proof fn law_targets_outside_are_refused(
    request: RequestView,
    server: ServerView,
    i: int,
    target: Seq<char>,
    info: InfoView,
    names: Seq<Seq<u8>>,
    top: Seq<Seq<u8>>,
    root: Option<Seq<u8>>,
)
    requires
        is_route(server, request.path, i),
        request.method !is Other,
        info.exists,
        laws::places::are_names(top),
    ensures
        stands(info, names) && !laws::places::is_below(names, top) ==> refuses(
            router::resumed(
                request,
                server,
                PendingView::Target { target, root: Some(laws::places::place(top)) },
                ReplyView::Info(info),
            ),
            server,
            403,
            None,
        ),
        info.canonical is None || root is None ==> refuses(
            router::resumed(
                request,
                server,
                PendingView::Target { target, root },
                ReplyView::Info(info),
            ),
            server,
            404,
            None,
        ),
{
    lemma_route(server, request.path, i);
    lemma_refuses(server, 403, None);
    lemma_refuses(server, 404, None);
    if stands(info, names) {
        lemma_inside(target, info, names, top);
    }
}

/// What is not there is not found; what is neither a file nor a directory is not served, and
/// a directory is not deleted.
pub proof fn law_unfit_targets_are_refused(
    request: RequestView,
    server: ServerView,
    i: int,
    target: Seq<char>,
    info: InfoView,
    names: Seq<Seq<u8>>,
    top: Seq<Seq<u8>>,
)
    requires
        is_route(server, request.path, i),
        laws::places::are_names(top),
        info.is_dir ==> info.exists,
        info.exists ==> stands(info, names) && laws::places::is_below(names, top),
    ensures
        ({
            let step = router::resumed(
                request,
                server,
                PendingView::Target { target, root: Some(laws::places::place(top)) },
                ReplyView::Info(info),
            );
            &&& !info.exists && (request.method is Get || request.method is Delete) ==> refuses(
                step,
                server,
                404,
                None,
            )
            &&& info.exists && !info.is_dir && !info.is_file && request.method is Get ==> refuses(
                step,
                server,
                403,
                None,
            )
            &&& info.is_dir && request.method is Delete ==> refuses(step, server, 403, None)
            &&& request.method is Other ==> refuses(
                step,
                server,
                405,
                Some(server.routes[i].allowed()),
            )
        }),
{
    lemma_route(server, request.path, i);
    lemma_refuses(server, 403, None);
    lemma_refuses(server, 404, None);
    lemma_refuses(server, 405, Some(server.routes[i].allowed()));
    if info.exists {
        lemma_inside(target, info, names, top);
    }
}

/// A file that cannot be read or removed is not found where it is gone, refused where it may
/// not be touched, and else an error of the server; and so is a directory that cannot be
/// listed, but for one that is gone.
pub proof fn law_failures_are_told(
    request: RequestView,
    server: ServerView,
    file: Seq<u8>,
    failure: IoFailure,
)
    ensures
        ({
            let status: u16 = if failure is PermissionDenied {
                403
            } else if failure is NotFound {
                404
            } else {
                500
            };
            &&& refuses(
                router::resumed(
                    request,
                    server,
                    PendingView::File { file },
                    ReplyView::Contents(Err(failure)),
                ),
                server,
                status,
                None,
            )
            &&& refuses(
                router::resumed(
                    request,
                    server,
                    PendingView::Removal,
                    ReplyView::Done(Err(failure)),
                ),
                server,
                status,
                None,
            )
            &&& refuses(
                router::resumed(
                    request,
                    server,
                    PendingView::Listing,
                    ReplyView::Entries(Err(failure)),
                ),
                server,
                if failure is PermissionDenied {
                    403
                } else {
                    500
                },
                None,
            )
        }),
{
    lemma_refuses(server, 403, None);
    lemma_refuses(server, 404, None);
    lemma_refuses(server, 500, None);
}

/// A reply to something else than what was asked is an error of the server.
pub proof fn law_strange_replies_are_refused(
    request: RequestView,
    server: ServerView,
    pending: PendingView,
    reply: ReplyView,
)
    requires
        !laws::routing::fits(pending, reply),
    ensures
        refuses(router::resumed(request, server, pending, reply), server, 500, None),
{
    lemma_refuses(server, 500, None);
}

/// An entry as it is shown in a list: a directory has a slash behind its name.
pub open spec fn shown(entry: (Seq<char>, bool)) -> Seq<char> {
    if entry.1 {
        entry.0.push('/')
    } else {
        entry.0
    }
}

/// A link for each of the names.
pub open spec fn links(names: Seq<Seq<char>>) -> Seq<char>
    decreases names.len(),
{
    if names.len() == 0 {
        seq![]
    } else {
        "<li><a href=\""@ + util::escaped(names[0]) + "\">"@ + util::escaped(names[0])
            + "</a></li>"@ + links(names.drop_first())
    }
}

proof fn lemma_links(names: Seq<Seq<char>>)
    ensures
        router::link_items(names) == links(names),
    decreases names.len(),
{
    if names.len() > 0 {
        lemma_links(names.drop_last());
        lemma_links_push(names.drop_last(), names.last());
        assert(names.drop_last().push(names.last()) == names);
    }
}

proof fn lemma_links_push(names: Seq<Seq<char>>, name: Seq<char>)
    ensures
        links(names.push(name)) == links(names) + "<li><a href=\""@ + util::escaped(name) + "\">"@
            + util::escaped(name) + "</a></li>"@,
    decreases names.len(),
{
    let item = "<li><a href=\""@ + util::escaped(name) + "\">"@ + util::escaped(name)
        + "</a></li>"@;
    let all = names.push(name);
    if names.len() == 0 {
        assert(all.drop_first() == names);
        assert(all[0] == name);
        assert(links(all) == item + links(names));
        assert(links(all) == links(names) + item);
    } else {
        lemma_links_push(names.drop_first(), name);
        assert(all.drop_first() == names.drop_first().push(name));
        let first = "<li><a href=\""@ + util::escaped(names[0]) + "\">"@ + util::escaped(names[0])
            + "</a></li>"@;
        assert(all[0] == names[0]);
        assert(links(all) == first + (links(names.drop_first()) + item));
        assert(links(names) == first + links(names.drop_first()));
        assert(links(all) == links(names) + item);
    }
    assert(links(names) + item == links(names) + "<li><a href=\""@ + util::escaped(name) + "\">"@
        + util::escaped(name) + "</a></li>"@);
}

/// The page that lists names under a path.
pub open spec fn listing(path: Seq<char>, names: Seq<Seq<char>>) -> Seq<char> {
    "<!doctype html><html><head><meta charset=\"utf-8\"><title>Directory listing</title></head><body>"@
        + "<h1>Index of "@ + util::escaped(path) + "</h1><ul>"@ + (if path == seq!['/'] {
        Seq::empty()
    } else {
        "<li><a href=\"../\">../</a></li>"@
    }) + links(names) + "</ul></body></html>"@
}

/// A list of a directory holds a link for each entry and for nothing else, in the order of
/// the names, behind a link to the directory above, but for the list of the topmost one.
pub proof fn law_listings(
    request: RequestView,
    server: ServerView,
    entries: Seq<(Seq<char>, bool)>,
)
    ensures
        exists|names: Seq<Seq<char>>|
            {
                &&& names.to_multiset() == entries.map_values(
                    |entry: (Seq<char>, bool)| shown(entry),
                ).to_multiset()
                &&& forall|i: int, j: int|
                    0 <= i < j < names.len() ==> text::text_le(
                        #[trigger] names[i],
                        #[trigger] names[j],
                    )
                &&& shows(
                    router::resumed(
                        request,
                        server,
                        PendingView::Listing,
                        ReplyView::Entries(Ok(entries)),
                    ),
                    200,
                    #[trigger] listing(request.path, names),
                )
            },
{
    reveal_strlit("/");
    assert("/"@ == seq!['/']);
    let own = entries.map_values(|entry: (Seq<char>, bool)| shown(entry));
    let other = entries.map_values(|entry: (Seq<char>, bool)| router::shown_name(entry));
    assert forall|i: int| 0 <= i < entries.len() implies own[i] == #[trigger] other[i] by {
        if entries[i].1 {
            assert(entries[i].0 + "/"@ == entries[i].0.push('/'));
        }
    }
    assert(own == other);
    laws::routing::law_listings_are_sorted(entries);
    let names = order::stable_sort(other, text::text_order());
    lemma_links(names);
    let le = text::text_order();
    assert forall|i: int, j: int| 0 <= i < j < names.len() implies text::text_le(
        #[trigger] names[i],
        #[trigger] names[j],
    ) by {
        assert(le(names[i], names[j]));
    }
    lemma_html(200, listing(request.path, names));
}

} // verus!
