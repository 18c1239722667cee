//! What holds of the scripts that answer requests: the variables that they see, the bytes
//! that they are given and give, and the answer that is made of what they put out.
use vstd::prelude::*;
use vstd::utf8::*;

use crate::bytes;
use crate::cgi;
use crate::cgi::{CgiErrorView, CgiView, ExitEvent, Variables};
use crate::http;
use crate::http::{Fields, MethodView, ParseView, RequestView, ResponseView};
use crate::laws;
use crate::laws::targets::Unit;
use crate::text;
use crate::text::Pattern;
use crate::transfer::{ReadView, WriteView};

verus! {

/// Whether a variable has the value once all of the list have been set in turn.
pub open spec fn holds(list: Variables, name: Seq<char>, value: Seq<u8>) -> bool {
    exists|i: int|
        {
            &&& 0 <= i < list.len()
            &&& #[trigger] list[i] == (name, value)
            &&& forall|j: int| i < j < list.len() ==> (#[trigger] list[j]).0 != name
        }
}

/// Whether a variable is not set.
pub open spec fn lacks(list: Variables, name: Seq<char>) -> bool {
    forall|i: int| 0 <= i < list.len() ==> (#[trigger] list[i]).0 != name
}

/// Whether a name is that of the variable for a header: `HTTP_`, and behind it the name of
/// the header in capitals, with underscores in place of hyphens.
pub open spec fn names_header(variable: Seq<char>, header: Seq<char>) -> bool {
    &&& variable.len() == header.len() + 5
    &&& variable.take(5) == seq!['H', 'T', 'T', 'P', '_']
    &&& forall|i: int|
        0 <= i < header.len() ==> {
            let c = #[trigger] header[i];
            let v = variable[i + 5];
            &&& c == '-' ==> v == '_'
            &&& 'a' <= c <= 'z' ==> v as int == c as int - 32
            &&& c != '-' && !('a' <= c <= 'z') ==> v == c
        }
}

proof fn lemma_names_header(variable: Seq<char>, header: Seq<char>)
    ensures
        names_header(variable, header) <==> variable == cgi::variable_name(header),
        cgi::variable_name(header).len() > 0,
        cgi::variable_name(header)[0] == 'H',
{
    reveal_strlit("HTTP_");
    let front = "HTTP_"@;
    assert(front == seq!['H', 'T', 'T', 'P', '_']);
    let tail = cgi::variable_tail(header);
    let own = cgi::variable_name(header);
    assert(own.take(5) == front);
    assert(own[0] == front[0]);
    assert forall|i: int| 0 <= i < header.len() implies own[i + 5] == #[trigger] tail[i] by {}
    if names_header(variable, header) {
        assert forall|i: int| 0 <= i < own.len() implies variable[i] == own[i] by {
            if i < 5 {
                assert(variable[i] == variable.take(5)[i]);
                assert(own[i] == own.take(5)[i]);
            } else {
                let c = header[i - 5];
                assert(own[i] == tail[i - 5]);
            }
        }
        assert(variable == own);
    }
    if variable == own {
        assert forall|i: int| 0 <= i < header.len() implies {
            let c = #[trigger] header[i];
            let v = variable[i + 5];
            &&& c == '-' ==> v == '_'
            &&& 'a' <= c <= 'z' ==> v as int == c as int - 32
            &&& c != '-' && !('a' <= c <= 'z') ==> v == c
        } by {
            assert(variable[i + 5] == tail[i]);
        }
    }
}

/// The names of the variables that every script has, and of the one for the type of the
/// body.
pub open spec fn own_names() -> Seq<Seq<char>> {
    seq![
        "GATEWAY_INTERFACE"@,
        "REQUEST_METHOD"@,
        "SCRIPT_FILENAME"@,
        "SCRIPT_NAME"@,
        "PATH_INFO"@,
        "REQUEST_URI"@,
        "QUERY_STRING"@,
        "SERVER_PROTOCOL"@,
        "CONTENT_LENGTH"@,
        "CONTENT_TYPE"@,
    ]
}

proof fn lemma_own_names(i: int, j: int)
    requires
        0 <= i < 10,
        0 <= j < 10,
    ensures
        own_names()[i].len() > 0,
        own_names()[i][0] != 'H',
        i != j ==> own_names()[i] != own_names()[j],
{
    reveal_strlit("GATEWAY_INTERFACE");
    reveal_strlit("REQUEST_METHOD");
    reveal_strlit("SCRIPT_FILENAME");
    reveal_strlit("SCRIPT_NAME");
    reveal_strlit("PATH_INFO");
    reveal_strlit("REQUEST_URI");
    reveal_strlit("QUERY_STRING");
    reveal_strlit("SERVER_PROTOCOL");
    reveal_strlit("CONTENT_LENGTH");
    reveal_strlit("CONTENT_TYPE");
    let all = own_names();
    assert(all[0].len() == 17 && all[0][0] == 'G');
    assert(all[1].len() == 14 && all[1][0] == 'R');
    assert(all[2].len() == 15 && all[2][0] == 'S' && all[2][1] == 'C');
    assert(all[3].len() == 11 && all[3][0] == 'S');
    assert(all[4].len() == 9 && all[4][0] == 'P');
    assert(all[5].len() == 11 && all[5][0] == 'R');
    assert(all[6].len() == 12 && all[6][0] == 'Q');
    assert(all[7].len() == 15 && all[7][0] == 'S' && all[7][1] == 'E');
    assert(all[8].len() == 14 && all[8][0] == 'C');
    assert(all[9].len() == 12 && all[9][0] == 'C');
}

/// What a request says of the type of its body.
pub open spec fn gives_type(headers: Fields, value: Option<Seq<char>>) -> bool {
    match value {
        Some(value) => exists|i: int|
            {
                &&& 0 <= i < headers.len()
                &&& #[trigger] headers[i] == ("content-type"@, value)
                &&& forall|j: int| 0 <= j < i ==> (#[trigger] headers[j]).0 != "content-type"@
            },
        None => forall|i: int|
            0 <= i < headers.len() ==> (#[trigger] headers[i]).0 != "content-type"@,
    }
}

proof fn lemma_type(request: RequestView, value: Option<Seq<char>>)
    requires
        gives_type(request.headers, value),
    ensures
        request.header("content-type"@) == value,
{
    let name = "content-type"@;
    reveal_strlit("content-type");
    assert(text::lowered(name) == name);
    match value {
        Some(value) => {
            let i = choose|i: int|
                {
                    &&& 0 <= i < request.headers.len()
                    &&& #[trigger] request.headers[i] == (name, value)
                    &&& forall|j: int| 0 <= j < i ==> (#[trigger] request.headers[j]).0 != name
                };
            http::lemma_field_index_is(request.headers, name, i);
        },
        None => {
            http::lemma_field_index_is(request.headers, name, request.headers.len() as int);
        },
    }
}

proof fn lemma_environment(request: RequestView, script: Seq<u8>, value: Option<Seq<char>>)
    requires
        gives_type(request.headers, value),
    ensures
        ({
            let list = cgi::environment_of(request, script);
            let n = if value is Some {
                10int
            } else {
                9int
            };
            &&& list.len() == n + request.headers.len()
            &&& forall|i: int| 0 <= i < n ==> (#[trigger] list[i]).0 == own_names()[i]
            &&& value matches Some(value) ==> list[9].1 == encode_utf8(value)
            &&& forall|i: int|
                0 <= i < request.headers.len() ==> #[trigger] list[n + i] == (
                    cgi::variable_name(request.headers[i].0),
                    encode_utf8(request.headers[i].1),
                )
            &&& list[0].1 == encode_utf8("CGI/1.1"@)
            &&& list[1].1 == encode_utf8(request.method.token())
            &&& list[2].1 == script
            &&& list[3].1 == encode_utf8(request.path)
            &&& list[4].1 == script
            &&& list[5].1 == encode_utf8(request.target)
            &&& list[6].1 == encode_utf8(request.query)
            &&& list[7].1 == encode_utf8(request.version)
            &&& list[8].1 == encode_utf8(text::decimal(request.body.len()))
        }),
{
    lemma_type(request, value);
    let list = cgi::environment_of(request, script);
    let all = cgi::header_variables(request.headers);
    let n = list.len() - all.len();
    assert forall|i: int| 0 <= i < request.headers.len() implies #[trigger] list[n + i] == (
        cgi::variable_name(request.headers[i].0),
        encode_utf8(request.headers[i].1),
    ) by {
        assert(list[n + i] == all[i]);
    }
}

proof fn lemma_own_variable(
    request: RequestView,
    script: Seq<u8>,
    value: Option<Seq<char>>,
    i: int,
)
    requires
        gives_type(request.headers, value),
        0 <= i < (if value is Some {
            10int
        } else {
            9int
        }),
    ensures
        holds(
            cgi::environment_of(request, script),
            own_names()[i],
            cgi::environment_of(request, script)[i].1,
        ),
{
    lemma_environment(request, script, value);
    let list = cgi::environment_of(request, script);
    let name = own_names()[i];
    let n = list.len() - request.headers.len();
    lemma_own_names(i, i);
    assert forall|j: int| i < j < list.len() implies (#[trigger] list[j]).0 != name by {
        if j < n {
            lemma_own_names(i, j);
        } else {
            let k = j - n;
            assert(list[n + k].0 == cgi::variable_name(request.headers[k].0));
            lemma_names_header(name, request.headers[k].0);
        }
    }
    assert(list[i] == (name, list[i].1));
}

/// A script sees the request: each variable holds its part of it, whatever the method is
/// and whatever the other headers say.
pub proof fn law_scripts_see_the_request(
    request: RequestView,
    script: Seq<u8>,
    token: Seq<char>,
    value: Option<Seq<char>>,
)
    requires
        laws::targets::names_method(token, request.method),
        gives_type(request.headers, value),
    ensures
        ({
            let list = cgi::environment_of(request, script);
            &&& holds(list, "GATEWAY_INTERFACE"@, encode_utf8("CGI/1.1"@))
            &&& holds(list, "REQUEST_METHOD"@, encode_utf8(token))
            &&& holds(list, "SCRIPT_FILENAME"@, script)
            &&& holds(list, "SCRIPT_NAME"@, encode_utf8(request.path))
            &&& holds(list, "PATH_INFO"@, script)
            &&& holds(list, "REQUEST_URI"@, encode_utf8(request.target))
            &&& holds(list, "QUERY_STRING"@, encode_utf8(request.query))
            &&& holds(list, "SERVER_PROTOCOL"@, encode_utf8(request.version))
            &&& holds(list, "CONTENT_LENGTH"@, encode_utf8(text::decimal(request.body.len())))
            &&& value matches Some(value) ==> holds(list, "CONTENT_TYPE"@, encode_utf8(value))
            &&& value is None ==> lacks(list, "CONTENT_TYPE"@)
        }),
{
    laws::targets::law_method_names(token, request.method);
    lemma_environment(request, script, value);
    lemma_own_variable(request, script, value, 0);
    lemma_own_variable(request, script, value, 1);
    lemma_own_variable(request, script, value, 2);
    lemma_own_variable(request, script, value, 3);
    lemma_own_variable(request, script, value, 4);
    lemma_own_variable(request, script, value, 5);
    lemma_own_variable(request, script, value, 6);
    lemma_own_variable(request, script, value, 7);
    lemma_own_variable(request, script, value, 8);
    let list = cgi::environment_of(request, script);
    if value is Some {
        lemma_own_variable(request, script, value, 9);
    } else {
        assert forall|i: int| 0 <= i < list.len() implies (#[trigger] list[i]).0
            != "CONTENT_TYPE"@ by {
            if i < 9 {
                lemma_own_names(i, 9);
            } else {
                let k = i - 9;
                assert(list[9 + k].0 == cgi::variable_name(request.headers[k].0));
                lemma_names_header(list[i].0, request.headers[k].0);
                lemma_own_names(9, 9);
            }
        }
    }
}

/// A script sees the headers: the variable for a header holds its value, unless a later one
/// goes by the same name of a variable; and no variable stands for anything else.
pub proof fn law_scripts_see_the_headers(
    request: RequestView,
    script: Seq<u8>,
    value: Option<Seq<char>>,
    variable: Seq<char>,
    i: int,
)
    requires
        gives_type(request.headers, value),
    ensures
        ({
            let list = cgi::environment_of(request, script);
            &&& 0 <= i < request.headers.len() && names_header(variable, request.headers[i].0) && (
            forall|j: int|
                i < j < request.headers.len() ==> !names_header(
                    variable,
                    (#[trigger] request.headers[j]).0,
                )) ==> holds(list, variable, encode_utf8(request.headers[i].1))
            &&& !own_names().contains(variable) && (forall|j: int|
                0 <= j < request.headers.len() ==> !names_header(
                    variable,
                    (#[trigger] request.headers[j]).0,
                )) ==> lacks(list, variable)
        }),
{
    lemma_environment(request, script, value);
    let list = cgi::environment_of(request, script);
    let n = list.len() - request.headers.len();
    assert forall|j: int|
        0 <= j < list.len() && (j < n ==> !own_names().contains(variable)) && (j >= n
            ==> !names_header(variable, request.headers[j - n].0)) implies (#[trigger] list[j]).0
        != variable by {
        if j < n {
            assert(own_names()[j] == list[j].0);
        } else {
            let k = j - n;
            assert(list[n + k].0 == cgi::variable_name(request.headers[k].0));
            lemma_names_header(variable, request.headers[k].0);
        }
    }
    if 0 <= i < request.headers.len() && names_header(variable, request.headers[i].0) {
        lemma_names_header(variable, request.headers[i].0);
        assert(list[n + i] == (variable, encode_utf8(request.headers[i].1)));
    }
}

/// A script that answers a request as it came in sees the bytes behind the first question
/// mark of the target as its query, and the target as it was sent, whatever the method is.
pub proof fn law_scripts_see_the_query(
    token: Seq<char>,
    method: MethodView,
    raw: Seq<char>,
    units: Seq<Unit>,
    path: Seq<char>,
    query: Option<Seq<char>>,
    version: Seq<char>,
    headers: Fields,
    body: Seq<u8>,
    t: Seq<u8>,
    max: int,
    script: Seq<u8>,
    value: Option<Seq<char>>,
)
    requires
        laws::targets::names_method(token, method),
        laws::targets::writes(raw, units, path),
        laws::targets::parts_fit(token, laws::targets::target_of(raw, query), version, headers),
        laws::targets::gives_length(headers, body),
        body.len() <= max <= usize::MAX,
        gives_type(headers, value),
    ensures
        http::parsed_request(
            laws::requests::request_bytes(
                token,
                laws::targets::target_of(raw, query),
                version,
                headers,
                body,
            ) + t,
            max,
        ) matches ParseView::Complete(request, _) && {
            let list = cgi::environment_of(request, script);
            &&& query matches Some(query) ==> holds(list, "QUERY_STRING"@, encode_utf8(query))
            &&& query is None ==> holds(list, "QUERY_STRING"@, Seq::empty())
            &&& query matches Some(query) ==> holds(
                list,
                "REQUEST_URI"@,
                encode_utf8(raw + seq!['?'] + query),
            )
            &&& query is None ==> holds(list, "REQUEST_URI"@, encode_utf8(raw))
            &&& holds(list, "SCRIPT_NAME"@, encode_utf8(path))
            &&& holds(list, "REQUEST_METHOD"@, encode_utf8(token))
            &&& holds(list, "SERVER_PROTOCOL"@, encode_utf8(version))
            &&& holds(list, "CONTENT_LENGTH"@, encode_utf8(text::decimal(body.len())))
            &&& value matches Some(value) ==> holds(list, "CONTENT_TYPE"@, encode_utf8(value))
        },
{
    laws::targets::law_requests_are_read(
        token,
        method,
        raw,
        units,
        path,
        query,
        version,
        headers,
        body,
        t,
        max,
    );
    let request = RequestView {
        method,
        target: laws::targets::target_of(raw, query),
        path,
        query: laws::targets::query_text(query),
        version,
        headers,
        body,
    };
    law_scripts_see_the_request(request, script, token, value);
    if let Some(text) = query {
        assert(laws::targets::target_of(raw, query) == raw + seq!['?'] + text);
    }
}

/// A script starts with all of the body before it and nothing put out, with its input open
/// exactly if there is a body; its time ends the given number of seconds later.
pub proof fn law_scripts_start(body: Seq<u8>, now: u64, timeout: u64, t: u64, event: ExitEvent)
    ensures
        ({
            let process = CgiView::new(body, now, timeout);
            &&& process.wf()
            &&& process.body.skip(process.written) == body
            &&& process.stdin_open <==> body.len() > 0
            &&& process.stdout_open
            &&& process.output.len() == 0
            &&& process.is_late(t) <==> t - now >= timeout * 1000000000
            &&& !process.is_late(t) && event !is Failed ==> process.outcome(t, event) is None
        }),
{
    assert(body.skip(0) == body);
}

/// What a script puts out is gathered in order until its output ends, and nothing after
/// that; an attempt that brings nothing changes nothing, and one that fails is an error.
pub proof fn law_scripts_are_heard(process: CgiView, data: Seq<u8>, message: Seq<char>)
    requires
        data.len() > 0,
    ensures
        process.stdout_open ==> {
            &&& process.after_read(ReadView::Bytes(data)) == (
                CgiView { output: process.output + data, ..process },
                Ok::<bool, CgiErrorView>(false),
            )
            &&& process.after_read(ReadView::Bytes(Seq::empty())) == (
                CgiView { stdout_open: false, ..process },
                Ok::<bool, CgiErrorView>(true),
            )
            &&& process.after_read(ReadView::Retry) == (process, Ok::<bool, CgiErrorView>(false))
            &&& process.after_read(ReadView::Failed(message)) == (
                process,
                Err::<bool, CgiErrorView>(CgiErrorView::Io(message)),
            )
        },
        !process.stdout_open ==> process.after_read(ReadView::Bytes(data)) == (
            process,
            Ok::<bool, CgiErrorView>(true),
        ),
{
}

/// Of the body, a script is given what was written and no more; a write that brings nothing
/// forward changes nothing, and one that fails is an error.
pub proof fn law_scripts_are_fed(process: CgiView, n: usize, message: Seq<char>)
    requires
        process.wf(),
    ensures
        ({
            let after = process.after_write(WriteView::Bytes(n)).0;
            &&& after.wf()
            &&& after == CgiView { written: after.written, stdin_open: after.stdin_open, ..process }
            &&& process.stdin_open && n <= process.body.len() - process.written ==> after.written
                == process.written + n
            &&& !process.stdin_open ==> after == process
        }),
        process.stdin_open ==> {
            &&& process.after_write(WriteView::Bytes(0)) == (
                process,
                Ok::<bool, CgiErrorView>(false),
            )
            &&& process.after_write(WriteView::Retry) == (process, Ok::<bool, CgiErrorView>(false))
            &&& process.after_write(WriteView::Failed(message)) == (
                process,
                Err::<bool, CgiErrorView>(CgiErrorView::Io(message)),
            )
        },
        !process.stdin_open ==> process.after_write(WriteView::Bytes(n)).1 == Ok::<
            bool,
            CgiErrorView,
        >(true),
{
}

/// How a script ended is kept, and a script of which nothing can be learned is an error.
pub proof fn law_scripts_end(process: CgiView, now: u64, event: ExitEvent)
    requires
        now < process.deadline,
    ensures
        process.exit is None ==> (event matches ExitEvent::Exited(success) ==> process.polled(
            now,
            event,
        ).exit == Some(success)),
        event is Running ==> process.polled(now, event) == process,
        process.exit is Some ==> process.polled(now, event) == process,
        process.polled(now, event) == (CgiView { exit: process.polled(now, event).exit, ..process }),
        process.exit is None && event is Failed ==> process.outcome(now, event) == Some(
            Err::<ResponseView, CgiErrorView>(CgiErrorView::Io(event->Failed_0@)),
        ),
        process.exit == Some(true) && !process.stdout_open ==> process.outcome(now, event) == Some(
            Ok::<ResponseView, CgiErrorView>(cgi::output_response(process.output)),
        ),
        process.exit == Some(false) && !process.stdout_open ==> process.outcome(now, event)
            == Some(Err::<ResponseView, CgiErrorView>(CgiErrorView::InvalidOutput)),
        process.exit is Some && process.stdout_open ==> process.outcome(now, event) is None,
{
}

/// Of a script whose time is over only counts how it ended once it was stopped: what was
/// known of it before does not, and it is told as late.
pub proof fn law_late_scripts(process: CgiView, now: u64, event: ExitEvent)
    requires
        now >= process.deadline,
    ensures
        process.polled(now, event) == (CgiView {
            exit: match event {
                ExitEvent::Exited(success) => Some(success),
                _ => None,
            },
            ..process
        }),
        process.outcome(now, event) == Some(
            Err::<ResponseView, CgiErrorView>(CgiErrorView::Timeout),
        ),
{
}

/// Whether a header can stand in the output of a script: its name is not empty and holds no
/// colon, and neither part has whitespace at its ends or a line ending within.
pub open spec fn output_fits(header: (Seq<char>, Seq<char>)) -> bool {
    &&& header.0.len() > 0
    &&& laws::words::is_tight(header.0)
    &&& laws::words::is_tight(header.1)
    &&& laws::http::is_one_line(header.0)
    &&& laws::http::is_one_line(header.1)
    &&& forall|i: int| 0 <= i < header.0.len() ==> (#[trigger] header.0[i]) != ':'
}

/// The names of the headers that a script cannot set, in small letters.
pub open spec fn kept_back() -> Seq<Seq<char>> {
    seq!["connection"@, "content-length"@, "server"@, "transfer-encoding"@]
}

proof fn lemma_kept_back(name: Seq<char>)
    ensures
        cgi::is_reserved(name) <==> kept_back().contains(text::lowered(name)),
{
    let all = kept_back();
    assert(all[0] == "connection"@ && all[1] == "content-length"@ && all[2] == "server"@ && all[3]
        == "transfer-encoding"@);
}

proof fn lemma_output_line(response: ResponseView, header: (Seq<char>, Seq<char>))
    requires
        output_fits(header),
    ensures
        ({
            let line = header.0 + ": "@ + header.1;
            let after = cgi::with_output_line(response, line);
            let name = text::lowered(header.0);
            &&& line.len() > 0 && laws::http::is_one_line(line)
            &&& name == "status"@ ==> after.headers == response.headers && after.body
                == response.body && match cgi::status_value(header.1) {
                Some(status) => after.status == status as u16,
                None => after.status == response.status,
            }
            &&& name != "status"@ && kept_back().contains(name) ==> after == response
            &&& name != "status"@ && !kept_back().contains(name) ==> after == response.with(
                header.0,
                header.1,
            )
        }),
{
    let (name, value) = header;
    lemma_kept_back(name);
    reveal_strlit(": ");
    let line = name + ": "@ + value;
    let n = name.len() as int;
    assert forall|i: int| 0 <= i < n implies !Pattern::Char(':').has(#[trigger] line[i]) by {
        assert(line[i] == name[i]);
    }
    assert(line[n] == ':');
    text::lemma_position_is(line, Pattern::Char(':'), n);
    assert(line.take(n) == name);
    assert(line.skip(n + 1) == seq![' '] + value + Seq::<char>::empty());
    assert(Seq::<char>::empty() + name + Seq::<char>::empty() == name);
    assert(text::is_whitespace(' '));
    laws::words::law_trimming(Seq::empty(), name, Seq::empty());
    laws::words::law_trimming(seq![' '], value, Seq::empty());
    laws::http::lemma_one_line_concat(name, ": "@);
    laws::http::lemma_one_line_concat(name + ": "@, value);
}

proof fn lemma_output_headers(response: ResponseView, headers: Fields, i: int, name: Seq<char>)
    requires
        forall|k: int| 0 <= k < headers.len() ==> output_fits(#[trigger] headers[k]),
        -1 <= i < headers.len(),
        text::lowered(name) != "status"@,
        !kept_back().contains(text::lowered(name)),
        i >= 0 ==> text::lowered(headers[i].0) == text::lowered(name),
        forall|k: int|
            i < k < headers.len() ==> text::lowered((#[trigger] headers[k]).0) != text::lowered(name),
    ensures
        ({
            let after = cgi::with_output_lines(response, laws::http::header_lines(headers));
            &&& after.body == response.body
            &&& laws::http::header_value(after.headers, name) == (if i >= 0 {
                Some(headers[i].1)
            } else {
                laws::http::header_value(response.headers, name)
            })
        }),
    decreases headers.len(),
{
    let lines = laws::http::header_lines(headers);
    if headers.len() > 0 {
        let front = headers.drop_last();
        let last = headers.last();
        let before = cgi::with_output_lines(response, laws::http::header_lines(front));
        assert(lines.drop_last() == laws::http::header_lines(front));
        assert(output_fits(headers[headers.len() - 1]));
        assert(lines.last() == last.0 + ": "@ + last.1);
        assert forall|k: int| 0 <= k < front.len() implies output_fits(#[trigger] front[k]) by {
            assert(front[k] == headers[k]);
        }
        lemma_output_line(before, last);
        laws::http::law_set_header(before, last.0, last.1, name);
        if i == headers.len() - 1 {
            lemma_output_body(response, front);
        } else {
            assert(text::lowered(headers[headers.len() - 1].0) != text::lowered(name));
            assert forall|k: int| i < k < front.len() implies text::lowered(
                (#[trigger] front[k]).0,
            ) != text::lowered(name) by {
                assert(front[k] == headers[k]);
            }
            lemma_output_headers(response, front, i, name);
        }
    }
}

proof fn lemma_output_body(response: ResponseView, headers: Fields)
    requires
        forall|k: int| 0 <= k < headers.len() ==> output_fits(#[trigger] headers[k]),
    ensures
        cgi::with_output_lines(response, laws::http::header_lines(headers)).body == response.body,
    decreases headers.len(),
{
    if headers.len() > 0 {
        let front = headers.drop_last();
        let last = headers.last();
        let before = cgi::with_output_lines(response, laws::http::header_lines(front));
        assert(laws::http::header_lines(headers).drop_last() == laws::http::header_lines(front));
        assert(output_fits(headers[headers.len() - 1]));
        assert forall|k: int| 0 <= k < front.len() implies output_fits(#[trigger] front[k]) by {
            assert(front[k] == headers[k]);
        }
        lemma_output_line(before, last);
        laws::http::law_set_header(before, last.0, last.1, last.0);
        lemma_output_body(response, front);
    }
}

proof fn lemma_output_status(response: ResponseView, headers: Fields, i: int)
    requires
        forall|k: int| 0 <= k < headers.len() ==> output_fits(#[trigger] headers[k]),
        -1 <= i < headers.len(),
        i >= 0 ==> text::lowered(headers[i].0) == "status"@ && cgi::status_value(
            headers[i].1,
        ) is Some,
        forall|k: int|
            i < k < headers.len() ==> text::lowered((#[trigger] headers[k]).0) != "status"@,
    ensures
        cgi::with_output_lines(response, laws::http::header_lines(headers)).status == (if i >= 0 {
            cgi::status_value(headers[i].1)->Some_0 as u16
        } else {
            response.status
        }),
    decreases headers.len(),
{
    if headers.len() > 0 {
        let front = headers.drop_last();
        let last = headers.last();
        let before = cgi::with_output_lines(response, laws::http::header_lines(front));
        assert(laws::http::header_lines(headers).drop_last() == laws::http::header_lines(front));
        assert(output_fits(headers[headers.len() - 1]));
        assert forall|k: int| 0 <= k < front.len() implies output_fits(#[trigger] front[k]) by {
            assert(front[k] == headers[k]);
        }
        lemma_output_line(before, last);
        laws::http::law_set_header(before, last.0, last.1, last.0);
        if i < headers.len() - 1 {
            assert(text::lowered(headers[headers.len() - 1].0) != "status"@);
            assert forall|k: int| i < k < front.len() implies text::lowered((#[trigger] front[k]).0)
                != "status"@ by {
                assert(front[k] == headers[k]);
            }
            lemma_output_status(response, front, i);
        }
    }
}

/// The bytes that a script puts out: its headers, a blank line and the body.
pub open spec fn output_bytes(headers: Fields, body: Seq<u8>) -> Seq<u8> {
    encode_utf8(laws::http::line_block(laws::http::header_lines(headers))) + bytes::crlf() + body
}

/// The text of the headers that a script puts out, without the last line ending.
pub open spec fn output_head(headers: Fields) -> Seq<char> {
    laws::requests::between(laws::http::header_lines(headers))
}

proof fn lemma_output(headers: Fields, body: Seq<u8>)
    requires
        headers.len() > 0,
        forall|k: int| 0 <= k < headers.len() ==> output_fits(#[trigger] headers[k]),
        text::lossy_utf8(encode_utf8(output_head(headers))) == output_head(headers),
    ensures
        cgi::output_response(output_bytes(headers, body)) == cgi::with_plain_type(
            cgi::with_output_lines(
                ResponseView::new(200, body),
                laws::http::header_lines(headers),
            ),
        ),
{
    let lines = laws::http::header_lines(headers);
    assert forall|k: int| 0 <= k < lines.len() implies laws::http::is_one_line(#[trigger] lines[k])
        && lines[k].len() > 0 by {
        assert(output_fits(headers[k]));
        lemma_output_line(ResponseView::new(200, body), headers[k]);
    }
    let block = encode_utf8(laws::http::line_block(lines));
    let s = block + (bytes::crlf() + body);
    assert(output_bytes(headers, body) == s);
    laws::http::lemma_block_end(lines, bytes::crlf() + body);
    let end = block.len() - 2;
    let between = laws::requests::between(lines);
    laws::http::lemma_crlf_bytes();
    laws::http::lemma_encode_concat(between, "\r\n"@);
    assert(laws::http::line_block(lines) == between + "\r\n"@);
    assert(s.take(end) == encode_utf8(between));
    assert(s.skip(end + 4) == body);
    laws::requests::lemma_lines(lines);
}

/// The answer to a request is what its script put out: the headers that it gave, each with
/// the last value where it was repeated, but for those that are kept back; the status that
/// the last header `Status` starts with, or 200; and the body. Where it gave no type, the
/// body is plain text. (How the bytes of the headers are read as text is left to the reading
/// of UTF-8.)
pub proof fn law_scripts_answer(
    headers: Fields,
    body: Seq<u8>,
    i: int,
    name: Seq<char>,
    at: int,
    status: nat,
    reason: Seq<char>,
)
    requires
        headers.len() > 0,
        forall|k: int| 0 <= k < headers.len() ==> output_fits(#[trigger] headers[k]),
        -1 <= i < headers.len(),
        i >= 0 ==> text::lowered(headers[i].0) == text::lowered(name),
        forall|k: int|
            i < k < headers.len() ==> text::lowered((#[trigger] headers[k]).0) != text::lowered(name),
        text::lowered(name) != "status"@,
        -1 <= at < headers.len(),
        at >= 0 ==> text::lowered(headers[at].0) == "status"@ && headers[at].1 == text::decimal(
            status,
        ) + (if reason.len() == 0 {
            reason
        } else {
            seq![' '] + reason
        }),
        forall|k: int|
            at < k < headers.len() ==> text::lowered((#[trigger] headers[k]).0) != "status"@,
        status <= u16::MAX,
    ensures
        text::lossy_utf8(encode_utf8(output_head(headers))) == output_head(headers) ==> {
            let answer = cgi::output_response(output_bytes(headers, body));
            &&& answer.body == body
            &&& answer.status == (if at >= 0 {
                status as int
            } else {
                200int
            })
            &&& kept_back().contains(text::lowered(name)) ==> laws::http::header_value(
                answer.headers,
                name,
            ) is None
            &&& !kept_back().contains(text::lowered(name)) && i >= 0 ==> laws::http::header_value(
                answer.headers,
                name,
            ) == Some(headers[i].1)
            &&& !kept_back().contains(text::lowered(name)) && i < 0 ==> laws::http::header_value(
                answer.headers,
                name,
            ) == (if text::lowered(name) == text::lowered("Content-Type"@) {
                Some("text/plain; charset=utf-8"@)
            } else {
                None
            })
        },
{
    if text::lossy_utf8(encode_utf8(output_head(headers))) == output_head(headers) {
        lemma_output(headers, body);
        let start = ResponseView::new(200, body);
        let before = cgi::with_output_lines(start, laws::http::header_lines(headers));
        let kind = "Content-Type"@;
        let plain = "text/plain; charset=utf-8"@;
        lemma_output_body(start, headers);
        assert(cgi::output_response(output_bytes(headers, body)) == cgi::with_plain_type(before));
        if at >= 0 {
            lemma_status_value(status, reason);
        }
        lemma_output_status(start, headers, at);
        laws::http::law_set_header(before, kind, plain, name);
        http::lemma_header_index(before.headers, kind);
        http::lemma_header_index(before.headers, name);
        if kept_back().contains(text::lowered(name)) {
            lemma_kept_back(name);
            laws::serving::law_script_output(output_bytes(headers, body));
        } else {
            lemma_output_headers(start, headers, i, name);
            assert(laws::http::header_value(start.headers, name) is None);
            if text::lowered(name) == text::lowered(kind) {
                http::lemma_header_index_is(
                    before.headers,
                    kind,
                    http::header_index(before.headers, name),
                );
            }
        }
    }
}

proof fn lemma_status_value(status: nat, reason: Seq<char>)
    requires
        status <= u16::MAX,
    ensures
        cgi::status_value(
            text::decimal(status) + (if reason.len() == 0 {
                reason
            } else {
                seq![' '] + reason
            }),
        ) == Some(status as int),
{
    let p = Pattern::Whitespace;
    let digits = text::decimal(status);
    laws::words::law_written_numbers(status, 10);
    assert forall|k: int| 0 <= k < digits.len() implies !p.has(#[trigger] digits[k]) by {}
    laws::texts::lemma_split_whole(digits, p);
    let value = digits + (if reason.len() == 0 {
        reason
    } else {
        seq![' '] + reason
    });
    let keep = |w: Seq<char>| w.len() > 0;
    if reason.len() == 0 {
        assert(value == digits);
        laws::config::lemma_filter_all(seq![digits], keep);
    } else {
        assert(value == digits.push(' ') + reason);
        assert(text::is_whitespace(' '));
        laws::texts::lemma_split_concat(digits, ' ', reason, p);
        let rest = text::split(reason, p);
        Seq::filter_distributes_over_add(seq![digits], rest, keep);
        laws::config::lemma_filter_all(seq![digits], keep);
        assert(text::words(value) == seq![digits] + rest.filter(keep));
    }
    assert(text::words(value)[0] == digits);
    assert(text::number(digits, 10) == Some(status as int));
}

/// Output without a blank line is the body, as plain text.
pub proof fn law_bare_output(output: Seq<u8>)
    requires
        bytes::header_end(output) is None,
    ensures
        cgi::output_response(output) == (ResponseView {
            status: 200,
            headers: seq![("Content-Type"@, "text/plain; charset=utf-8"@)],
            body: output,
        }),
{
    let none = Fields::empty();
    assert(none.push(("Content-Type"@, "text/plain; charset=utf-8"@)) == seq![
        ("Content-Type"@, "text/plain; charset=utf-8"@),
    ]);
}

/// Lines of output are taken in order. One that is no header says nothing, and so does a
/// status that does not start with a number.
pub proof fn law_idle_lines_of_output(
    response: ResponseView,
    lines: Seq<Seq<char>>,
    line: Seq<char>,
    value: Seq<char>,
)
    requires
        forall|i: int| 0 <= i < line.len() ==> (#[trigger] line[i]) != ':',
        laws::words::is_tight(value),
        laws::http::is_one_line(value),
        cgi::status_value(value) is None,
    ensures
        cgi::with_output_lines(response, Seq::empty()) == response,
        cgi::with_output_lines(response, lines.push(line)) == cgi::with_output_lines(
            response,
            lines,
        ),
        cgi::with_output_lines(response, lines.push("Status"@ + ": "@ + value))
            == cgi::with_output_lines(response, lines),
{
    let p = Pattern::Char(':');
    assert(lines.push(line).drop_last() == lines);
    assert forall|i: int| 0 <= i < line.len() implies !p.has(#[trigger] line[i]) by {}
    text::lemma_position_is(line, p, line.len() as int);
    reveal_strlit("Status");
    reveal_strlit("status");
    assert(text::lowered("Status"@) == "status"@);
    assert(!text::is_whitespace('S') && !text::is_whitespace('s'));
    let before = cgi::with_output_lines(response, lines);
    let other = "Status"@ + ": "@ + value;
    assert(lines.push(other).drop_last() == lines);
    lemma_output_line(before, ("Status"@, value));
}

/// A status is told by the first word of its value, where that is a number.
pub proof fn law_no_status(value: Seq<char>)
    ensures
        text::words(value).len() == 0 ==> cgi::status_value(value) is None,
        text::words(value).len() > 0 && text::number_up_to(text::words(value)[0], 10, 65535)
            is None ==> cgi::status_value(value) is None,
{
}

} // verus!
