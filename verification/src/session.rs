//! Sessions: how they are found by their cookie, counted, and dropped.
use vstd::prelude::*;

use crate::http::{Request, RequestView, Response, ResponseView};
use crate::text;
use crate::text::{append_number, chars_of, is_text, same_str, split_at_char, split_on, string_of};
use crate::text::{trim, Pattern};

verus! {

/// The number of nanoseconds after which a session that was not used is dropped.
pub const SESSION_TTL: u64 = 3600000000000;

/// The session of a request, as the answer shows it.
#[derive(Debug)]
pub struct SessionInfo {
    pub id: String,
    pub visits: u64,
    pub is_new: bool,
}

pub struct SessionView {
    pub id: Seq<char>,
    pub visits: u64,
    pub is_new: bool,
}

impl View for SessionInfo {
    type V = SessionView;

    open spec fn view(&self) -> SessionView {
        SessionView { id: self.id@, visits: self.visits, is_new: self.is_new }
    }
}

impl Clone for SessionInfo {
    fn clone(&self) -> (r: Self)
        ensures
            r@ == self@,
    {
        SessionInfo { id: self.id.clone(), visits: self.visits, is_new: self.is_new }
    }
}

/// The name of the cookie that holds the identifier of a session.
pub open spec fn cookie_name() -> Seq<char> {
    "LOCALHOST_SESSION"@
}

/// The value of a cookie among the parts of a header `Cookie`.
pub open spec fn cookie_in(parts: Seq<Seq<char>>, name: Seq<char>) -> Option<Seq<char>>
    decreases parts.len(),
{
    if parts.len() == 0 {
        None
    } else {
        match text::split_once(text::trimmed(parts[0]), '=') {
            Some(pair) if pair.0 == name => Some(pair.1),
            _ => cookie_in(parts.drop_first(), name),
        }
    }
}

/// The value of a cookie in a header `Cookie`.
pub open spec fn cookie(header: Seq<char>, name: Seq<char>) -> Option<Seq<char>> {
    cookie_in(text::split(header, Pattern::Char(';')), name)
}

/// The identifier of the session that a request asks for.
pub open spec fn requested_id(request: RequestView) -> Option<Seq<char>> {
    match request.header("cookie"@) {
        Some(header) => cookie(header, cookie_name()),
        None => None,
    }
}

/// What is kept of a session: when it was last used, in nanoseconds, and how often.
pub struct SessionData {
    pub last_seen: u64,
    pub visits: u64,
}

/// The sessions by their identifiers, and the number of them that were made.
pub struct SessionsView {
    pub by_id: Map<Seq<char>, SessionData>,
    pub counter: u64,
}

/// The number after `n`, which the largest one is itself.
pub open spec fn successor(n: u64) -> u64 {
    if n < u64::MAX {
        (n + 1) as u64
    } else {
        n
    }
}

/// The identifier of a new session: the time, the process and the number of the session,
/// in hexadecimal digits.
pub open spec fn new_id(millis: u64, process: u64, number: u64) -> Seq<char> {
    text::digits(millis as nat, 16) + text::digits(process as nat, 16) + text::digits(
        number as nat,
        16,
    )
}

impl SessionsView {
    /// The identifier of the session that a request goes on with.
    pub open spec fn known_id(self, request: RequestView) -> Option<Seq<char>> {
        match requested_id(request) {
            Some(id) if self.by_id.contains_key(id) => Some(id),
            _ => None,
        }
    }

    /// The sessions after a request, and the session of the request: the known one with one
    /// more visit, or a new one.
    pub open spec fn touched(
        self,
        request: RequestView,
        now: u64,
        millis: u64,
        process: u64,
    ) -> (SessionsView, SessionView) {
        match self.known_id(request) {
            Some(id) => {
                let visits = successor(self.by_id[id].visits);
                (
                    SessionsView {
                        by_id: self.by_id.insert(id, SessionData { last_seen: now, visits }),
                        ..self
                    },
                    SessionView { id, visits, is_new: false },
                )
            },
            None => {
                let counter = successor(self.counter);
                let id = new_id(millis, process, counter);
                (
                    SessionsView {
                        by_id: self.by_id.insert(id, SessionData { last_seen: now, visits: 1 }),
                        counter,
                    },
                    SessionView { id, visits: 1, is_new: true },
                )
            },
        }
    }

    /// The sessions that were used recently enough.
    pub open spec fn expired(self, now: u64) -> SessionsView {
        SessionsView {
            by_id: self.by_id.restrict(
                Set::new(
                    |id: Seq<char>|
                        self.by_id.contains_key(id) && now - self.by_id[id].last_seen < SESSION_TTL,
                ),
            ),
            ..self
        }
    }
}

/// The value of a cookie in a header `Cookie`.
pub fn find_cookie(cookie_header: &str, name: &str) -> (r: Option<String>)
    ensures
        match r {
            Some(value) => cookie(cookie_header@, name@) == Some(value@),
            None => cookie(cookie_header@, name@) is None,
        },
{
    let chars = chars_of(cookie_header);
    let parts = split_on(chars.as_slice(), Pattern::Char(';'));
    let ghost all = text::texts(parts@);
    assert(all.skip(0) == all);
    for i in 0..parts.len()
        invariant
            all == text::texts(parts@),
            cookie(cookie_header@, name@) == cookie_in(all.skip(i as int), name@),
    {
        assert(all.skip(i as int)[0] == parts@[i as int]@);
        assert(all.skip(i as int).drop_first() == all.skip(i + 1));
        match split_at_char(trim(parts[i]), '=') {
            Some((key, value)) => {
                if is_text(key, name) {
                    return Some(string_of(value));
                }
            },
            None => {},
        }
    }
    None
}

#[derive(Debug)]
struct Record {
    id: String,
    last_seen: u64,
    visits: u64,
}

/// The sessions, in memory.
#[derive(Debug)]
pub struct Sessions {
    records: Vec<Record>,
    counter: u64,
}

spec fn data_of(record: Record) -> SessionData {
    SessionData { last_seen: record.last_seen, visits: record.visits }
}

spec fn map_of(records: Seq<Record>) -> Map<Seq<char>, SessionData>
    decreases records.len(),
{
    if records.len() == 0 {
        Map::empty()
    } else {
        map_of(records.drop_last()).insert(records.last().id@, data_of(records.last()))
    }
}

spec fn ids_distinct(records: Seq<Record>) -> bool {
    forall|i: int, j: int|
        0 <= i < j < records.len() ==> (#[trigger] records[i]).id@ != (#[trigger] records[j]).id@
}

proof fn lemma_map_of(records: Seq<Record>)
    requires
        ids_distinct(records),
    ensures
        forall|i: int|
            0 <= i < records.len() ==> map_of(records).contains_key((#[trigger] records[i]).id@)
                && map_of(records)[records[i].id@] == data_of(records[i]),
        forall|id: Seq<char>| #[trigger]
            map_of(records).contains_key(id) ==> exists|i: int|
                0 <= i < records.len() && (#[trigger] records[i]).id@ == id,
    decreases records.len(),
{
    if records.len() > 0 {
        let front = records.drop_last();
        lemma_map_of(front);
        assert forall|i: int| 0 <= i < records.len() implies map_of(records).contains_key(
            (#[trigger] records[i]).id@,
        ) && map_of(records)[records[i].id@] == data_of(records[i]) by {
            if i < front.len() {
                assert(front[i] == records[i]);
                assert(records[i].id@ != records[front.len() as int].id@);
            }
        }
        assert forall|id: Seq<char>| #[trigger] map_of(records).contains_key(id) implies exists|
            i: int,
        |
            0 <= i < records.len() && (#[trigger] records[i]).id@ == id by {
            if id == records.last().id@ {
                assert(records[records.len() - 1].id@ == id);
            } else {
                assert(map_of(front).contains_key(id));
                let i = choose|i: int| 0 <= i < front.len() && (#[trigger] front[i]).id@ == id;
                assert(records[i].id@ == id);
            }
        }
    }
}

impl View for Sessions {
    type V = SessionsView;

    closed spec fn view(&self) -> SessionsView {
        SessionsView { by_id: map_of(self.records@), counter: self.counter }
    }
}

impl Sessions {
    /// No identifier stands for two sessions.
    pub closed spec fn wf(&self) -> bool {
        ids_distinct(self.records@)
    }

    pub fn new() -> (r: Self)
        ensures
            r.wf(),
            r@ == (SessionsView { by_id: Map::empty(), counter: 0 }),
    {
        Sessions { records: Vec::new(), counter: 0 }
    }

    /// The index of the record of the identifier, or the number of records.
    fn index_of(&self, id: &str) -> (i: usize)
        requires
            self.wf(),
        ensures
            i <= self.records@.len(),
            i < self.records@.len() ==> self.records@[i as int].id@ == id@,
            (i < self.records@.len()) == self@.by_id.contains_key(id@),
    {
        for i in 0..self.records.len()
            invariant
                self.wf(),
                forall|j: int| 0 <= j < i ==> (#[trigger] self.records@[j]).id@ != id@,
        {
            if same_str(self.records[i].id.as_str(), id) {
                proof {
                    lemma_map_of(self.records@);
                }
                return i;
            }
        }
        proof {
            lemma_map_of(self.records@);
        }
        self.records.len()
    }

    /// Puts a session in the place of the one of the identifier, or adds it.
    fn put(&mut self, id: String, last_seen: u64, visits: u64)
        requires
            old(self).wf(),
        ensures
            final(self).wf(),
            final(self)@ == (SessionsView {
                by_id: old(self)@.by_id.insert(id@, SessionData { last_seen, visits }),
                ..old(self)@
            }),
    {
        let ghost before = self.records@;
        let i: usize = self.index_of(id.as_str());
        proof {
            lemma_map_of(before);
        }
        let record = Record { id, last_seen, visits };
        if i < self.records.len() {
            self.records.set(i, record);
            proof {
                let after = self.records@;
                assert(ids_distinct(after));
                lemma_map_of(after);
                let wanted = map_of(before).insert(id@, SessionData { last_seen, visits });
                assert forall|k: Seq<char>| map_of(after).contains_key(k)
                    == wanted.contains_key(k) by {
                    if map_of(after).contains_key(k) {
                        let j = choose|j: int|
                            0 <= j < after.len() && (#[trigger] after[j]).id@ == k;
                        assert(before[j].id@ == k);
                    }
                    if map_of(before).contains_key(k) {
                        let j = choose|j: int|
                            0 <= j < before.len() && (#[trigger] before[j]).id@ == k;
                        assert(after[j].id@ == k);
                    }
                    assert(after[i as int].id@ == id@);
                }
                assert forall|k: Seq<char>| map_of(after).contains_key(k) implies map_of(after)[k]
                    == wanted[k] by {
                    let j = choose|j: int| 0 <= j < after.len() && (#[trigger] after[j]).id@ == k;
                    if j != i {
                        assert(before[j] == after[j]);
                        assert(k != id@);
                    }
                }
                assert(map_of(after) == wanted);
            }
        } else {
            self.records.push(record);
            proof {
                let after = self.records@;
                assert(after.drop_last() == before);
                assert forall|j: int| 0 <= j < before.len() implies (#[trigger] before[j]).id@
                    != id@ by {
                    assert(map_of(before).contains_key(before[j].id@));
                }
                assert forall|x: int, y: int| 0 <= x < y < after.len() implies (
                #[trigger] after[x]).id@ != (#[trigger] after[y]).id@ by {
                    assert(after[x] == before[x]);
                    if y < before.len() {
                        assert(after[y] == before[y]);
                    }
                }
            }
        }
    }

    /// The session of a request: the one of its cookie with one more visit, or a new one.
    pub fn touch_session(&mut self, request: &Request, now: u64, millis: u64, process: u64) -> (r:
        SessionInfo)
        requires
            old(self).wf(),
        ensures
            final(self).wf(),
            (final(self)@, r@) == old(self)@.touched(request@, now, millis, process),
    {
        let requested = match request.header("cookie") {
            Some(header) => find_cookie(header, "LOCALHOST_SESSION"),
            None => None,
        };
        match requested {
            Some(id) => {
                let i: usize = self.index_of(id.as_str());
                if i < self.records.len() {
                    proof {
                        lemma_map_of(self.records@);
                    }
                    let visits: u64 = if self.records[i].visits < u64::MAX {
                        self.records[i].visits + 1
                    } else {
                        self.records[i].visits
                    };
                    self.put(id.clone(), now, visits);
                    return SessionInfo { id, visits, is_new: false };
                }
            },
            None => {},
        }
        if self.counter < u64::MAX {
            self.counter += 1;
        }
        let mut id = String::new();
        append_number(&mut id, millis, 16);
        append_number(&mut id, process, 16);
        append_number(&mut id, self.counter, 16);
        assert(id@ == new_id(millis, process, self.counter));
        self.put(id.clone(), now, 1);
        SessionInfo { id, visits: 1, is_new: true }
    }

    /// Drops the sessions that were not used for an hour.
    pub fn expire_sessions(&mut self, now: u64)
        requires
            old(self).wf(),
        ensures
            final(self).wf(),
            final(self)@ == old(self)@.expired(now),
    {
        let ghost all = self.records@;
        let mut kept: Vec<Record> = Vec::new();
        let mut records: Vec<Record> = Vec::new();
        std::mem::swap(&mut records, &mut self.records);
        proof {
            lemma_map_of(all);
        }
        for record in it: records
            invariant
                all == it.seq(),
                ids_distinct(all),
                ids_distinct(kept@),
                forall|j: int|
                    0 <= j < kept@.len() ==> is_fresh(#[trigger] kept@[j], now) && all.take(
                        it.index() as int,
                    ).contains(kept@[j]),
                forall|j: int|
                    0 <= j < it.index() && is_fresh(#[trigger] all[j], now) ==> kept@.contains(
                        all[j],
                    ),
        {
            let ghost k = it.index() as int;
            let ghost before = kept@;
            let ghost front = all.take(k);
            proof {
                assert(all.take(k + 1) == front.push(record));
                assert(front.push(record)[k] == record);
                assert forall|x: Record| front.contains(x) implies front.push(record).contains(
                    x,
                ) by {
                    let j = choose|j: int| 0 <= j < front.len() && front[j] == x;
                    assert(front.push(record)[j] == x);
                }
            }
            if record.last_seen > now || now - record.last_seen < SESSION_TTL {
                kept.push(record);
                proof {
                    assert(kept@[before.len() as int] == record);
                    assert forall|j: int| 0 <= j < before.len() implies (#[trigger] before[j]).id@
                        != record.id@ by {
                        assert(kept@[j] == before[j]);
                        let m = choose|m: int| 0 <= m < front.len() && front[m] == before[j];
                        assert(all[m].id@ != all[k].id@);
                    }
                    assert forall|x: int, y: int| 0 <= x < y < kept@.len() implies (
                    #[trigger] kept@[x]).id@ != (#[trigger] kept@[y]).id@ by {
                        assert(kept@[x] == before[x]);
                        if y < before.len() {
                            assert(kept@[y] == before[y]);
                        }
                    }
                    assert forall|x: Record| before.contains(x) implies kept@.contains(x) by {
                        let j = choose|j: int| 0 <= j < before.len() && before[j] == x;
                        assert(kept@[j] == x);
                    }
                }
            }
        }
        self.records = kept;
        proof {
            assert(all.take(all.len() as int) == all);
            lemma_map_of(kept@);
            let wanted = old(self)@.expired(now).by_id;
            assert forall|id: Seq<char>| map_of(kept@).contains_key(id) implies wanted.contains_key(
                id,
            ) && map_of(kept@)[id] == wanted[id] by {
                let j = choose|j: int| 0 <= j < kept@.len() && (#[trigger] kept@[j]).id@ == id;
                let m = choose|m: int| 0 <= m < all.len() && all[m] == kept@[j];
                assert(map_of(all).contains_key(all[m].id@));
            }
            assert forall|id: Seq<char>| wanted.contains_key(id) implies map_of(kept@).contains_key(
                id,
            ) by {
                let m = choose|m: int| 0 <= m < all.len() && (#[trigger] all[m]).id@ == id;
                assert(is_fresh(all[m], now));
                let j = choose|j: int| 0 <= j < kept@.len() && kept@[j] == all[m];
                assert(kept@[j].id@ == id);
            }
            assert(map_of(kept@) == wanted);
        }
    }
}

spec fn is_fresh(record: Record, now: u64) -> bool {
    now - record.last_seen < SESSION_TTL
}

/// The response with what the session and the connection add to it.
pub open spec fn decorated(
    response: ResponseView,
    session: SessionView,
    close: bool,
    http10: bool,
) -> ResponseView {
    let response = if session.is_new {
        response.with(
            "Set-Cookie"@,
            cookie_name() + "="@ + session.id + "; Path=/; HttpOnly; SameSite=Lax"@,
        )
    } else {
        response
    };
    let response = response.with("X-Session-Visits"@, text::decimal(session.visits as nat));
    if close {
        response.with("Connection"@, "close"@)
    } else if http10 {
        response.with("Connection"@, "keep-alive"@)
    } else {
        response
    }
}

/// Adds to a response what the session and the connection ask for.
pub fn decorate_response(
    response: &mut Response,
    session: &SessionInfo,
    close_after_write: bool,
    http10: bool,
)
    ensures
        final(response)@ == decorated(old(response)@, session@, close_after_write, http10),
{
    if session.is_new {
        let mut value = "LOCALHOST_SESSION".to_owned();
        value.append("=");
        value.append(session.id.as_str());
        value.append("; Path=/; HttpOnly; SameSite=Lax");
        response.set_header("Set-Cookie", value.as_str());
    }
    let mut visits = String::new();
    append_number(&mut visits, session.visits, 10);
    assert(visits@ == text::decimal(session.visits as nat));
    response.set_header("X-Session-Visits", visits.as_str());
    if close_after_write {
        response.set_header("Connection", "close");
    } else if http10 {
        response.set_header("Connection", "keep-alive");
    }
}

} // verus!
