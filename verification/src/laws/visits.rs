//! What holds of the sessions that requests bring back.
use vstd::prelude::*;

use crate::http::{RequestView, ResponseView};
use crate::laws;
use crate::session;
use crate::session::{SessionData, SessionView, SessionsView};
use crate::text;
use crate::text::Pattern;

verus! {

/// Whether the parts of a header bring back the identifier of a session: in the first part
/// that starts with the name of the cookie, behind it.
pub open spec fn brings(
    parts: Seq<Seq<char>>,
    k: int,
    id: Seq<char>,
    front: Seq<char>,
    back: Seq<char>,
) -> bool {
    &&& laws::words::parts_without(parts, ';')
    &&& 0 <= k < parts.len()
    &&& parts[k] == front + ("LOCALHOST_SESSION="@ + id) + back
    &&& laws::words::is_blank(front)
    &&& laws::words::is_blank(back)
    &&& id.len() > 0 ==> !text::is_whitespace(id.last())
    &&& forall|j: int| 0 <= j < k ==> !laws::storing::opens(#[trigger] parts[j], "LOCALHOST_SESSION="@)
}

/// Whether no part of a header brings back the identifier of a session.
pub open spec fn brings_none(parts: Seq<Seq<char>>) -> bool {
    &&& parts.len() > 0
    &&& laws::words::parts_without(parts, ';')
    &&& forall|j: int|
        0 <= j < parts.len() ==> !laws::storing::opens(#[trigger] parts[j], "LOCALHOST_SESSION="@)
}

proof fn lemma_key()
    ensures
        "LOCALHOST_SESSION="@ == session::cookie_name().push('='),
        session::cookie_name().len() == 17,
        forall|i: int| 0 <= i < 17 ==> (#[trigger] session::cookie_name()[i]) != '=',
        !text::is_whitespace("LOCALHOST_SESSION="@[0]),
        !text::is_whitespace("LOCALHOST_SESSION="@.last()),
        "LOCALHOST_SESSION="@.len() == 18,
{
    reveal_strlit("LOCALHOST_SESSION");
    reveal_strlit("LOCALHOST_SESSION=");
    assert("LOCALHOST_SESSION="@ == session::cookie_name().push('='));
}

proof fn lemma_other_part(part: Seq<char>)
    requires
        !laws::storing::opens(part, "LOCALHOST_SESSION="@),
    ensures
        text::split_once(text::trimmed(part), '=') matches Some(pair) ==> pair.0
            != session::cookie_name(),
{
    lemma_key();
    let whole = text::trimmed(part);
    let p = Pattern::Char('=');
    text::lemma_position_bounds(whole, p);
    let i = text::position(whole, p);
    if i < whole.len() && whole.take(i) == session::cookie_name() {
        let key = "LOCALHOST_SESSION="@;
        assert(whole.subrange(0, 18) == key) by {
            assert forall|j: int| 0 <= j < 18 implies whole[j] == key[j] by {
                if j < 17 {
                    assert(whole.take(i)[j] == session::cookie_name()[j]);
                }
            }
        }
        laws::storing::lemma_opens(part, key);
    }
}

proof fn lemma_cookie_at(parts: Seq<Seq<char>>, k: int)
    requires
        0 <= k <= parts.len(),
        forall|j: int|
            0 <= j < k ==> !laws::storing::opens(#[trigger] parts[j], "LOCALHOST_SESSION="@),
    ensures
        session::cookie_in(parts, session::cookie_name()) == session::cookie_in(
            parts.skip(k),
            session::cookie_name(),
        ),
    decreases k,
{
    if k == 0 {
        assert(parts.skip(0) == parts);
    } else {
        lemma_cookie_at(parts, k - 1);
        assert(!laws::storing::opens(parts[k - 1], "LOCALHOST_SESSION="@));
        let rest = parts.skip(k - 1);
        assert(rest[0] == parts[k - 1]);
        lemma_other_part(parts[k - 1]);
        assert(rest.drop_first() == parts.skip(k));
    }
}

/// The session that a request asks for is the one whose identifier its cookie holds,
/// whichever other cookies it brings; without that cookie it asks for none.
pub proof fn law_requested_sessions(
    request: RequestView,
    parts: Seq<Seq<char>>,
    k: int,
    id: Seq<char>,
    front: Seq<char>,
    back: Seq<char>,
)
    ensures
        laws::storing::says(request.headers, "cookie"@, Some(laws::storing::parted(parts)))
            && brings(parts, k, id, front, back) ==> session::requested_id(request) == Some(id),
        laws::storing::says(request.headers, "cookie"@, Some(laws::storing::parted(parts)))
            && brings_none(parts) ==> session::requested_id(request) is None,
        laws::storing::says(request.headers, "cookie"@, None) ==> session::requested_id(
            request,
        ) is None,
{
    reveal_strlit("cookie");
    lemma_key();
    let header = laws::storing::parted(parts);
    if laws::storing::says(request.headers, "cookie"@, None) {
        laws::storing::law_headers_are_found(request, "cookie"@, "cookie"@, None);
    }
    if laws::storing::says(request.headers, "cookie"@, Some(header)) {
        laws::storing::law_headers_are_found(request, "cookie"@, "cookie"@, Some(header));
        if brings_none(parts) {
            laws::storing::lemma_split_parted(parts);
            lemma_cookie_at(parts, parts.len() as int);
        }
        if brings(parts, k, id, front, back) {
            laws::storing::lemma_split_parted(parts);
            lemma_cookie_at(parts, k);
            let key = "LOCALHOST_SESSION="@;
            let whole = key + id;
            if id.len() > 0 {
                assert(whole.last() == id.last());
            } else {
                assert(whole == key);
            }
            laws::words::law_trimming(front, whole, back);
            assert(parts.skip(k)[0] == parts[k]);
            let p = Pattern::Char('=');
            assert forall|j: int| 0 <= j < 17 implies !p.has(#[trigger] whole[j]) by {
                assert(whole[j] == session::cookie_name()[j]);
            }
            assert(whole[17] == '=');
            text::lemma_position_is(whole, p, 17);
            assert(whole.take(17) == session::cookie_name());
            assert(whole.skip(18) == id);
        }
    }
}

/// A request that asks for a session that is there goes on with it: it is one visit more,
/// counted as used now. Any other request gets a new session with one visit, named after the
/// time, the process and the number of sessions so far. Either way every other session stays
/// as it is.
pub proof fn law_requests_have_sessions(
    sessions: SessionsView,
    request: RequestView,
    asked: Option<Seq<char>>,
    now: u64,
    millis: u64,
    process: u64,
)
    requires
        session::requested_id(request) == asked,
        sessions.counter < u64::MAX,
    ensures
        ({
            let (after, own) = sessions.touched(request, now, millis, process);
            let is_known = asked is Some && sessions.by_id.contains_key(asked->Some_0);
            if is_known {
                let id = asked->Some_0;
                let visits = sessions.by_id[id].visits;
                &&& own.id == id
                &&& !own.is_new
                &&& visits < u64::MAX ==> own.visits == visits + 1
                &&& visits == u64::MAX ==> own.visits == visits
                &&& after.counter == sessions.counter
                &&& after.by_id == sessions.by_id.insert(
                    id,
                    SessionData { last_seen: now, visits: own.visits },
                )
            } else {
                let number = (sessions.counter + 1) as nat;
                &&& own.id == text::digits(millis as nat, 16) + text::digits(process as nat, 16)
                    + text::digits(number, 16)
                &&& own.is_new
                &&& own.visits == 1
                &&& after.counter == number
                &&& after.by_id == sessions.by_id.insert(
                    own.id,
                    SessionData { last_seen: now, visits: 1 },
                )
            }
        }),
{
}

/// A session is kept for an hour after it was used last, and no longer.
pub proof fn law_sessions_last_an_hour(sessions: SessionsView, now: u64, id: Seq<char>)
    ensures
        sessions.expired(now).by_id.contains_key(id) <==> sessions.by_id.contains_key(id) && now
            - sessions.by_id[id].last_seen < 3600 * 1000000000,
        sessions.expired(now).by_id.contains_key(id) ==> sessions.expired(now).by_id[id]
            == sessions.by_id[id],
        sessions.expired(now).counter == sessions.counter,
{
}

/// What is sent to a client: the response, with the number of visits; with the cookie, where
/// the session is new; and with what becomes of the connection, where that is not what its
/// version has for a rule. Nothing else of the response changes.
pub proof fn law_answers_are_marked(
    response: ResponseView,
    own: SessionView,
    close: bool,
    http10: bool,
    name: Seq<char>,
)
    requires
        text::lowered(name) != text::lowered("Set-Cookie"@),
        text::lowered(name) != text::lowered("X-Session-Visits"@),
        text::lowered(name) != text::lowered("Connection"@),
    ensures
        ({
            let answer = session::decorated(response, own, close, http10);
            &&& answer.status == response.status
            &&& answer.body == response.body
            &&& laws::http::header_value(answer.headers, name) == laws::http::header_value(
                response.headers,
                name,
            )
            &&& own.is_new ==> laws::http::header_value(answer.headers, "Set-Cookie"@) == Some(
                "LOCALHOST_SESSION="@ + own.id + "; Path=/; HttpOnly; SameSite=Lax"@,
            )
        }),
{
    lemma_key();
    reveal_strlit("=");
    assert("="@ == seq!['=']);
    laws::sessions::law_answers_show_the_session(response, own, close, http10);
    let value = session::cookie_name() + "="@ + own.id + "; Path=/; HttpOnly; SameSite=Lax"@;
    assert(value == "LOCALHOST_SESSION="@ + own.id + "; Path=/; HttpOnly; SameSite=Lax"@);
    let first = if own.is_new {
        response.with("Set-Cookie"@, value)
    } else {
        response
    };
    let count = text::decimal(own.visits as nat);
    let second = first.with("X-Session-Visits"@, count);
    laws::http::law_set_header(response, "Set-Cookie"@, value, name);
    laws::http::law_set_header(first, "X-Session-Visits"@, count, name);
    laws::http::law_set_header(second, "Connection"@, "close"@, name);
    laws::http::law_set_header(second, "Connection"@, "keep-alive"@, name);
}

} // verus!
