//! What holds of uploads.
use vstd::prelude::*;
use vstd::utf8::*;

use crate::bytes;
use crate::http::RequestView;
use crate::laws;
use crate::path;
use crate::router;
use crate::router::{
    ActionView, InfoView, PendingView, ReplyView, StepView, UploadView, MAX_NAME_ATTEMPTS,
};
use crate::config::ServerView;
use crate::text;
use crate::util;

verus! {

/// Whether all characters may stand in a file name, and the whole is a name of a file.
pub open spec fn is_safe_name(name: Seq<char>) -> bool {
    &&& forall|i: int| 0 <= i < name.len() ==> util::is_name_char(#[trigger] name[i])
    &&& !util::all_dots(name)
}

/// The name that an upload is stored under is a safe one, whatever name was asked for.
pub proof fn law_stored_names_are_safe(name: Seq<char>)
    ensures
        util::safe_file_name(name) matches Some(safe) ==> is_safe_name(safe),
{
}

pub proof fn lemma_safe_name(name: Seq<char>)
    requires
        is_safe_name(name),
    ensures
        laws::texts::is_plain_segment(name),
        name != ".."@,
        path::file_name(name) == Some(name),
{
    reveal_strlit(".");
    reveal_strlit("..");
    reveal_strlit("/");
    assert(util::all_dots("."@));
    assert(util::all_dots(".."@));
    assert forall|i: int| 0 <= i < name.len() implies (#[trigger] name[i]) != '/' by {
        assert(util::is_name_char(name[i]));
    }
    laws::texts::lemma_plain_segment(name);
    assert(name != "/"@) by {
        if name == "/"@ {
            assert(name[0] == '/');
        }
    }
}

/// The parts of a name that is numbered: what stands before and behind the number.
pub open spec fn around_number(name: Seq<char>) -> (Seq<char>, Seq<char>) {
    let dot = path::last_dot(name);
    if dot > 0 {
        (name.take(dot) + "-"@, "."@ + name.skip(dot + 1))
    } else {
        (name + "-"@, Seq::empty())
    }
}

proof fn lemma_candidate(name: Seq<char>, attempt: u64)
    requires
        is_safe_name(name),
        attempt > 0,
    ensures
        router::candidate_name(name, attempt) == around_number(name).0 + text::decimal(
            attempt as nat,
        ) + around_number(name).1,
        around_number(name).0.len() + around_number(name).1.len() > name.len(),
{
    lemma_safe_name(name);
    laws::paths::lemma_last_dot(name);
    reveal_strlit("-");
    reveal_strlit(".");
    let number = text::decimal(attempt as nat);
    let dot = path::last_dot(name);
    if dot > 0 {
        let ext = name.skip(dot + 1);
        assert(name.take(dot) + "-"@ + number + "."@ + ext == name.take(dot) + "-"@ + number + ("."@
            + ext));
    } else {
        assert(name + "-"@ + number + Seq::<char>::empty() == name + "-"@ + number);
    }
}

/// No two of the names that are tried for an upload are the same.
pub proof fn law_candidates_differ(name: Seq<char>, i: u64, j: u64)
    requires
        is_safe_name(name),
        i < j,
    ensures
        router::candidate_name(name, i) != router::candidate_name(name, j),
{
    let (front, back) = around_number(name);
    let b = text::decimal(j as nat);
    lemma_candidate(name, j);
    text::lemma_digits_read_back(j as nat, 10);
    let y = router::candidate_name(name, j);
    if i > 0 {
        let a = text::decimal(i as nat);
        lemma_candidate(name, i);
        text::lemma_digits_read_back(i as nat, 10);
        let x = router::candidate_name(name, i);
        if x == y {
            assert(x.len() == front.len() + a.len() + back.len());
            assert(y.len() == front.len() + b.len() + back.len());
            assert(x.subrange(front.len() as int, (front.len() + a.len()) as int) == a);
            assert(y.subrange(front.len() as int, (front.len() + b.len()) as int) == b);
        }
    }
}

proof fn lemma_safe_concat(a: Seq<char>, b: Seq<char>)
    requires
        forall|i: int| 0 <= i < a.len() ==> util::is_name_char(#[trigger] a[i]),
        forall|i: int| 0 <= i < b.len() ==> util::is_name_char(#[trigger] b[i]),
    ensures
        forall|i: int| 0 <= i < (a + b).len() ==> util::is_name_char(#[trigger] (a + b)[i]),
{
    assert forall|i: int| 0 <= i < (a + b).len() implies util::is_name_char(
        #[trigger] (a + b)[i],
    ) by {
        if i < a.len() {
            assert((a + b)[i] == a[i]);
        } else {
            assert((a + b)[i] == b[i - a.len()]);
        }
    }
}

proof fn lemma_candidate_is_safe(name: Seq<char>, attempt: u64)
    requires
        is_safe_name(name),
    ensures
        is_safe_name(router::candidate_name(name, attempt)),
{
    if attempt > 0 {
        let (front, back) = around_number(name);
        let number = text::decimal(attempt as nat);
        let all = router::candidate_name(name, attempt);
        lemma_candidate(name, attempt);
        laws::paths::lemma_last_dot(name);
        text::lemma_digits_read_back(attempt as nat, 10);
        reveal_strlit("-");
        reveal_strlit(".");
        let dot = path::last_dot(name);
        if dot > 0 {
            let stem = name.take(dot);
            let ext = name.skip(dot + 1);
            assert forall|i: int| 0 <= i < ext.len() implies util::is_name_char(
                #[trigger] ext[i],
            ) by {
                assert(ext[i] == name[i + dot + 1]);
            }
            lemma_safe_concat(stem, "-"@);
            lemma_safe_concat("."@, ext);
        } else {
            lemma_safe_concat(name, "-"@);
        }
        lemma_safe_concat(front, number);
        lemma_safe_concat(front + number, back);
        assert(all[front.len() as int] == number[0]);
        assert(all[front.len() as int] != '.');
    }
}

/// Every name that is tried for an upload stands directly in the directory for uploads.
pub proof fn law_uploads_stay_in_the_store(store: Seq<char>, name: Seq<char>, attempt: u64)
    requires
        is_safe_name(name),
    ensures
        ({
            let file = router::candidate_name(name, attempt);
            path::components(path::joined(store, file)) == path::components(store).push(file)
        }),
{
    let file = router::candidate_name(name, attempt);
    lemma_candidate_is_safe(name, attempt);
    lemma_safe_name(file);
    laws::texts::lemma_plain_segment(file);
    if store.len() > 0 {
        laws::texts::lemma_components_joined(store, file);
        assert(path::components(store) + seq![file] == path::components(store).push(file));
    } else {
        assert(path::components(store) == Seq::<Seq<char>>::empty()) by {
            let empty = Seq::<char>::empty();
            assert(store == empty);
            laws::texts::lemma_split_whole(empty, text::Pattern::Char('/'));
            let pred = |part: Seq<char>| path::is_segment(part);
            seq![empty].lemma_all_neg_filter_empty(pred);
            reveal_strlit(".");
        }
        assert(Seq::<Seq<char>>::empty().push(file) == seq![file]);
    }
}

/// A file of an upload is written to a name that was looked at, and only where nothing
/// stands under it; its bytes are those that were uploaded. The one exception is the name
/// after the time, which is taken unseen once all the numbered names were tried in vain.
pub proof fn law_files_go_to_vacant_names(
    request: RequestView,
    server: ServerView,
    pending: PendingView,
    reply: ReplyView,
)
    ensures
        router::resumed(request, server, pending, reply) matches StepView::Ask(
            ActionView::Write(place, bytes),
            _,
        ) ==> match pending {
            PendingView::Candidate { upload, path } => {
                &&& reply matches ReplyView::Info(info) && !info.exists
                &&& place == encode_utf8(path)
                &&& bytes == upload.left[0].1
            },
            PendingView::LastName { upload } => {
                &&& reply matches ReplyView::Millis(millis) && place == encode_utf8(
                    path::joined(upload.store, router::timed_name(millis)),
                )
                &&& bytes == upload.left[0].1
            },
            _ => false,
        },
        router::resumed(request, server, pending, reply) matches StepView::Ask(
            _,
            PendingView::LastName { upload },
        ) ==> upload.attempt >= MAX_NAME_ATTEMPTS,
{
}

/// A body without parts is stored as it is, under the first vacant name: a name is looked
/// at, the whole body is written there, and the answer names the file.
pub proof fn law_raw_uploads(
    request: RequestView,
    server: ServerView,
    store: Seq<char>,
    name: Seq<char>,
    info: InfoView,
)
    requires
        !info.exists,
    ensures
        router::raw_upload(request, store, name) matches StepView::Ask(
            ActionView::Inspect(place),
            pending,
        ) && place == encode_utf8(path::joined(store, name)) && (router::resumed(
            request,
            server,
            pending,
            ReplyView::Info(info),
        ) matches StepView::Ask(ActionView::Write(target, bytes), saving) && target == place
            && bytes == request.body && router::resumed(
            request,
            server,
            saving,
            ReplyView::Done(Ok(())),
        ) == router::done(router::uploaded_page(seq![path::joined(store, name)]))),
{
    let upload = UploadView {
        store,
        left: seq![(name, request.body)],
        saved: seq![],
        attempt: 0,
        failure: 500,
    };
    let place = path::joined(store, name);
    assert(upload.left[0] == (name, request.body));
    assert(upload.left.drop_first().len() == 0);
    assert(Seq::<Seq<char>>::empty().push(place) == seq![place]);
}

/// The files of an upload are stored one after the other: once one is written, the next
/// one follows, and the paths of those that are written are kept in order.
pub proof fn law_files_are_stored_in_turn(
    request: RequestView,
    server: ServerView,
    upload: UploadView,
    path: Seq<char>,
    info: InfoView,
)
    requires
        upload.left.len() > 0,
        !info.exists,
    ensures
        router::resumed(
            request,
            server,
            PendingView::Candidate { upload, path },
            ReplyView::Info(info),
        ) matches StepView::Ask(ActionView::Write(place, bytes), saving) && place == encode_utf8(path)
            && bytes == upload.left[0].1 && router::resumed(
            request,
            server,
            saving,
            ReplyView::Done(Ok(())),
        ) == router::next_file(
            UploadView {
                left: upload.left.drop_first(),
                saved: upload.saved.push(path),
                attempt: 0,
                ..upload
            },
        ),
{
}

/// A part of a multipart body: its header block, and its contents.
pub type PartBytes = (Seq<u8>, Seq<u8>);

/// A multipart body: each part behind a marker, and a marker with two dashes at the end.
pub open spec fn multipart_body(parts: Seq<PartBytes>, marker: Seq<u8>, t: Seq<u8>) -> Seq<u8>
    decreases parts.len(),
{
    if parts.len() == 0 {
        marker + router::dashes() + t
    } else {
        marker + bytes::crlf() + parts[0].0 + bytes::crlf_crlf() + parts[0].1 + bytes::crlf()
            + multipart_body(parts.drop_first(), marker, t)
    }
}

/// Whether the blank line behind the header block of a part is the first one, and the marker
/// behind its contents is the first one.
pub open spec fn part_fits(part: PartBytes, marker: Seq<u8>) -> bool {
    &&& bytes::first_occurrence(part.0 + bytes::crlf_crlf(), bytes::crlf_crlf()) == Some(
        part.0.len() as int,
    )
    &&& bytes::first_occurrence(part.1 + bytes::crlf() + marker, marker) == Some(
        part.1.len() + 2int,
    )
}

/// The files among the parts.
pub open spec fn files_of(parts: Seq<PartBytes>) -> Seq<(Seq<char>, Seq<u8>)>
    decreases parts.len(),
{
    if parts.len() == 0 {
        seq![]
    } else {
        let more = files_of(parts.drop_first());
        match router::part_name(parts[0].0) {
            Some(name) => seq![(name, parts[0].1)] + more,
            None => more,
        }
    }
}

/// The header block of a part ends at the blank line behind it.
proof fn lemma_part_block(part: PartBytes, marker: Seq<u8>, tail: Seq<u8>)
    requires
        part_fits(part, marker),
    ensures
        ({
            let rest = part.0 + bytes::crlf_crlf() + tail;
            &&& bytes::header_end(rest) == Some((part.0.len() as int, 4int))
            &&& rest.take(part.0.len() as int) == part.0
            &&& rest.skip(part.0.len() + 4int) == tail
        }),
{
    let block = part.0;
    let rest = block + bytes::crlf_crlf() + tail;
    laws::http::lemma_occurs_in_front(block + bytes::crlf_crlf(), tail, bytes::crlf_crlf());
    assert(rest.take(block.len() as int) == block);
    assert(rest.skip(block.len() + 4int) == tail);
}

/// The contents of a part end at the marker behind them, without the line ending between.
proof fn lemma_part_contents(part: PartBytes, marker: Seq<u8>, more: Seq<u8>)
    requires
        part_fits(part, marker),
        marker.len() <= more.len(),
        more.take(marker.len() as int) == marker,
    ensures
        ({
            let tail = part.1 + bytes::crlf() + more;
            let length = part.1.len() + 2int;
            &&& bytes::first_occurrence(tail, marker) == Some(length)
            &&& router::without_newline(tail.take(length)) == part.1
            &&& tail.skip(length) == more
        }),
{
    let content = part.1;
    let tail = content + bytes::crlf() + more;
    let length = content.len() + 2int;
    let after = more.skip(marker.len() as int);
    assert(more == marker + after);
    assert(tail == (content + bytes::crlf() + marker) + after);
    laws::http::lemma_occurs_in_front(content + bytes::crlf() + marker, after, marker);
    let kept = tail.take(length);
    assert(kept == content + bytes::crlf());
    assert(kept.subrange(kept.len() - 2, kept.len() as int) == bytes::crlf());
    assert(kept.take(content.len() as int) == content);
    assert(tail.skip(length) == more);
}

/// The marker with two dashes behind it ends the parts.
proof fn lemma_last_marker(marker: Seq<u8>, t: Seq<u8>)
    requires
        marker.len() > 0,
    ensures
        router::multipart_files(marker + router::dashes() + t, marker) == Seq::<
            (Seq<char>, Seq<u8>),
        >::empty(),
{
    let s = marker + router::dashes() + t;
    let behind = s.skip(marker.len() as int);
    assert(s.take(marker.len() as int) == marker);
    assert(bytes::first_occurrence(s, marker) == Some(0int));
    assert(s.skip(0 + marker.len() as int) == behind);
    assert(behind.subrange(0, 2) == router::dashes());
    assert(bytes::occurs_at(behind, router::dashes(), 0));
}

/// A part is read, and the rest follows.
proof fn lemma_first_part(part: PartBytes, marker: Seq<u8>, more: Seq<u8>)
    requires
        marker.len() > 0,
        part_fits(part, marker),
        marker.len() <= more.len(),
        more.take(marker.len() as int) == marker,
    ensures
        router::multipart_files(
            marker + (bytes::crlf() + (part.0 + bytes::crlf_crlf() + (part.1 + bytes::crlf()
                + more))),
            marker,
        ) == (match router::part_name(part.0) {
            Some(name) => seq![(name, part.1)] + router::multipart_files(more, marker),
            None => router::multipart_files(more, marker),
        }),
{
    let tail = part.1 + bytes::crlf() + more;
    let rest = part.0 + bytes::crlf_crlf() + tail;
    let behind = bytes::crlf() + rest;
    let s = marker + behind;
    assert(s.take(marker.len() as int) == marker);
    assert(bytes::first_occurrence(s, marker) == Some(0int));
    assert(s.skip(0 + marker.len() as int) == behind);
    assert(behind[0] == 13 && behind[1] == 10);
    assert(!bytes::occurs_at(behind, router::dashes(), 0)) by {
        assert(behind.subrange(0, 2)[0] == 13);
    }
    assert(bytes::newline_len(behind) == 2) by {
        laws::http::lemma_newline(behind);
    }
    assert(behind.skip(2) == rest);
    lemma_part_block(part, marker, tail);
    lemma_part_contents(part, marker, more);
}

proof fn lemma_starts_with_marker(parts: Seq<PartBytes>, marker: Seq<u8>, t: Seq<u8>)
    ensures
        marker.len() <= multipart_body(parts, marker, t).len(),
        multipart_body(parts, marker, t).take(marker.len() as int) == marker,
{
    let s = multipart_body(parts, marker, t);
    if parts.len() == 0 {
        assert(s == marker + (router::dashes() + t));
    }
    assert(s.take(marker.len() as int) == marker);
}

/// A multipart body is read back as its files, in order and byte for byte.
pub proof fn law_multipart_reads_back(parts: Seq<PartBytes>, marker: Seq<u8>, t: Seq<u8>)
    requires
        marker.len() > 0,
        forall|i: int| 0 <= i < parts.len() ==> part_fits(#[trigger] parts[i], marker),
    ensures
        router::multipart_files(multipart_body(parts, marker, t), marker) == files_of(parts),
    decreases parts.len(),
{
    if parts.len() == 0 {
        lemma_last_marker(marker, t);
    } else {
        let part = parts[0];
        let others = parts.drop_first();
        let more = multipart_body(others, marker, t);
        assert forall|i: int| 0 <= i < others.len() implies part_fits(
            #[trigger] others[i],
            marker,
        ) by {
            assert(others[i] == parts[i + 1]);
        }
        law_multipart_reads_back(others, marker, t);
        lemma_starts_with_marker(others, marker, t);
        lemma_first_part(part, marker, more);
        assert(multipart_body(parts, marker, t) == marker + (bytes::crlf() + (part.0
            + bytes::crlf_crlf() + (part.1 + bytes::crlf() + more))));
    }
}

} // verus!
