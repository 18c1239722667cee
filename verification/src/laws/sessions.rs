//! What holds of sessions.
use vstd::prelude::*;

use crate::http::{RequestView, ResponseView};
use crate::laws;
use crate::session;
use crate::session::{SessionView, SessionsView, SESSION_TTL};
use crate::text;
use crate::text::Pattern;

verus! {

proof fn lemma_cookie_in_concat(a: Seq<Seq<char>>, b: Seq<Seq<char>>, name: Seq<char>)
    requires
        session::cookie_in(a, name) is None,
    ensures
        session::cookie_in(a + b, name) == session::cookie_in(b, name),
    decreases a.len(),
{
    if a.len() == 0 {
        assert(a + b == b);
    } else {
        assert((a + b)[0] == a[0]);
        assert((a + b).drop_first() == a.drop_first() + b);
        lemma_cookie_in_concat(a.drop_first(), b, name);
    }
}

/// Whether a text can be the value of a cookie: not empty, without semicolons, and without
/// whitespace at its end.
pub open spec fn is_cookie_value(value: Seq<char>) -> bool {
    &&& value.len() > 0
    &&& !text::is_whitespace(value.last())
    &&& forall|i: int| 0 <= i < value.len() ==> (#[trigger] value[i]) != ';'
}

proof fn lemma_cookie_pair(lead: Seq<char>, value: Seq<char>)
    requires
        is_cookie_value(value),
        lead == Seq::<char>::empty() || lead == seq![' '],
    ensures
        session::cookie_in(
            text::split(lead + session::cookie_name() + "="@ + value, Pattern::Char(';')),
            session::cookie_name(),
        ) == Some(value),
{
    let name = session::cookie_name();
    let part = lead + name + "="@ + value;
    let pair = name + "="@ + value;
    reveal_strlit("LOCALHOST_SESSION");
    reveal_strlit("=");
    assert(name.len() == 17);
    assert(text::is_whitespace(' '));
    assert(forall|i: int| 0 <= i < name.len() ==> (#[trigger] name[i]) != ';' && name[i] != '=');
    assert(!text::is_whitespace('L'));
    let n = lead.len();
    assert forall|i: int| 0 <= i < part.len() implies !Pattern::Char(';').has(
        #[trigger] part[i],
    ) by {
        if i < n {
            assert(part[i] == lead[i]);
        } else if i < n + 17 {
            assert(part[i] == name[i - n]);
        } else if i == n + 17 {
            assert(part[i] == '=');
        } else {
            assert(part[i] == value[i - n - 18]);
        }
    }
    laws::texts::lemma_split_whole(part, Pattern::Char(';'));
    assert(part[n as int] == name[0]);
    text::lemma_leading_is(part, Pattern::Whitespace, n as int);
    assert(part.skip(n as int) == pair);
    assert(pair.last() == value.last());
    text::lemma_end_position_is(pair, Pattern::Whitespace, pair.len() as int);
    assert(pair.take(pair.len() as int) == pair);
    assert(text::trimmed(part) == pair);
    assert forall|i: int| 0 <= i < 17 implies !Pattern::Char('=').has(#[trigger] pair[i]) by {
        assert(pair[i] == name[i]);
    }
    assert(pair[17] == '=');
    text::lemma_position_is(pair, Pattern::Char('='), 17);
    assert(pair.take(17) == name);
    assert(pair.skip(18) == value);
    assert(seq![part][0] == part);
}

/// The cookie of a session is found in the header `Cookie`, alone or behind others.
pub proof fn law_cookie_is_found(before: Seq<char>, value: Seq<char>)
    requires
        is_cookie_value(value),
        session::cookie(before, session::cookie_name()) is None,
    ensures
        session::cookie(session::cookie_name() + "="@ + value, session::cookie_name()) == Some(
            value,
        ),
        session::cookie(
            before.push(';') + (seq![' '] + session::cookie_name() + "="@ + value),
            session::cookie_name(),
        ) == Some(value),
{
    let empty = Seq::<char>::empty();
    let p = Pattern::Char(';');
    lemma_cookie_pair(empty, value);
    assert(empty + session::cookie_name() == session::cookie_name());
    let pair = seq![' '] + session::cookie_name() + "="@ + value;
    lemma_cookie_pair(seq![' '], value);
    laws::texts::lemma_split_concat(before, ';', pair, p);
    lemma_cookie_in_concat(text::split(before, p), text::split(pair, p), session::cookie_name());
}

/// The identifier of a new session can be the value of a cookie.
pub proof fn law_identifiers_are_cookie_values(millis: u64, process: u64, number: u64)
    ensures
        is_cookie_value(session::new_id(millis, process, number)),
{
    text::lemma_digits_read_back(millis as nat, 16);
    text::lemma_digits_read_back(process as nat, 16);
    text::lemma_digits_read_back(number as nat, 16);
    let a = text::digits(millis as nat, 16);
    let b = text::digits(process as nat, 16);
    let c = text::digits(number as nat, 16);
    let id = session::new_id(millis, process, number);
    assert forall|i: int| 0 <= i < id.len() implies (#[trigger] id[i]) != ';' by {
        if i < a.len() {
            assert(id[i] == a[i]);
        } else if i < a.len() + b.len() {
            assert(id[i] == b[i - a.len()]);
        } else {
            assert(id[i] == c[i - a.len() - b.len()]);
        }
    }
    assert(id.last() == c[c.len() - 1]);
}

/// A request without a known session gets a new one with one visit, which is kept; no other
/// session changes.
pub proof fn law_new_sessions(
    sessions: SessionsView,
    request: RequestView,
    now: u64,
    millis: u64,
    process: u64,
    other: Seq<char>,
)
    requires
        sessions.known_id(request) is None,
    ensures
        ({
            let (after, info) = sessions.touched(request, now, millis, process);
            &&& info.is_new
            &&& info.visits == 1
            &&& after.by_id.contains_key(info.id)
            &&& after.by_id[info.id].visits == 1
            &&& after.by_id[info.id].last_seen == now
            &&& other != info.id ==> after.by_id.contains_key(other)
                == sessions.by_id.contains_key(other)
            &&& other != info.id && sessions.by_id.contains_key(other) ==> after.by_id[other]
                == sessions.by_id[other]
        }),
{
}

/// A request that brings back the cookie of the answer before gets the same session, with
/// one more visit.
pub proof fn law_sessions_go_on(
    sessions: SessionsView,
    first: RequestView,
    second: RequestView,
    now: u64,
    millis: u64,
    process: u64,
    later: u64,
    later_millis: u64,
)
    requires
        session::requested_id(second) == Some(
            sessions.touched(first, now, millis, process).1.id,
        ),
    ensures
        ({
            let (after, info) = sessions.touched(first, now, millis, process);
            let (_, next) = after.touched(second, later, later_millis, process);
            &&& next.id == info.id
            &&& !next.is_new
            &&& next.visits == session::successor(info.visits)
        }),
{
}

/// A session that was used within the hour is kept as it is; one that was not is dropped.
pub proof fn law_sessions_expire(sessions: SessionsView, now: u64, id: Seq<char>)
    requires
        sessions.by_id.contains_key(id),
    ensures
        sessions.expired(now).by_id.contains_key(id) == (now - sessions.by_id[id].last_seen
            < SESSION_TTL),
        sessions.expired(now).by_id.contains_key(id) ==> sessions.expired(now).by_id[id]
            == sessions.by_id[id],
{
}

/// The answer shows the number of visits, and sets the cookie exactly if the session is new.
pub proof fn law_answers_show_the_session(
    response: ResponseView,
    info: SessionView,
    close: bool,
    http10: bool,
)
    ensures
        ({
            let answer = session::decorated(response, info, close, http10);
            &&& answer.status == response.status
            &&& answer.body == response.body
            &&& laws::http::header_value(answer.headers, "X-Session-Visits"@) == Some(
                text::decimal(info.visits as nat),
            )
            &&& laws::http::header_value(answer.headers, "Set-Cookie"@) == (if info.is_new {
                Some(
                    session::cookie_name() + "="@ + info.id + "; Path=/; HttpOnly; SameSite=Lax"@,
                )
            } else {
                laws::http::header_value(response.headers, "Set-Cookie"@)
            })
            &&& laws::http::header_value(answer.headers, "Connection"@) == (if close {
                Some("close"@)
            } else if http10 {
                Some("keep-alive"@)
            } else {
                laws::http::header_value(response.headers, "Connection"@)
            })
        }),
{
    let visits = "X-Session-Visits"@;
    let cookie = "Set-Cookie"@;
    let connection = "Connection"@;
    let value = session::cookie_name() + "="@ + info.id + "; Path=/; HttpOnly; SameSite=Lax"@;
    let count = text::decimal(info.visits as nat);
    assert(text::lowered(visits) != text::lowered(cookie) && text::lowered(visits)
        != text::lowered(connection) && text::lowered(cookie) != text::lowered(connection)) by {
        reveal_strlit("X-Session-Visits");
        reveal_strlit("Set-Cookie");
        reveal_strlit("Connection");
        assert(text::lowered(visits).len() == 16);
        assert(text::lowered(cookie).len() == 10);
        assert(text::lowered(connection).len() == 10);
        assert(text::lowered(cookie)[0] == 's');
        assert(text::lowered(connection)[0] == 'c');
    }
    let first = if info.is_new {
        response.with(cookie, value)
    } else {
        response
    };
    let second = first.with(visits, count);
    laws::http::law_set_header(response, cookie, value, cookie);
    laws::http::law_set_header(response, cookie, value, connection);
    laws::http::law_set_header(first, visits, count, visits);
    laws::http::law_set_header(first, visits, count, cookie);
    laws::http::law_set_header(first, visits, count, connection);
    laws::http::law_set_header(second, connection, "close"@, visits);
    laws::http::law_set_header(second, connection, "close"@, cookie);
    laws::http::law_set_header(second, connection, "close"@, connection);
    laws::http::law_set_header(second, connection, "keep-alive"@, visits);
    laws::http::law_set_header(second, connection, "keep-alive"@, cookie);
    laws::http::law_set_header(second, connection, "keep-alive"@, connection);
}

} // verus!
