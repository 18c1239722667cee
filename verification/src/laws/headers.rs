//! What holds of the heads of requests and responses: words, header lines, and what they
//! mean for the connection and the body.
use vstd::prelude::*;
use vstd::utf8::*;

use crate::bytes;
use crate::http;
use crate::http::{
    BodyView, Fields, HeadView, LineView, MethodView, ParseView, RequestView, ResponseView,
};
use crate::laws;
use crate::text;
use crate::text::Pattern;

verus! {

/// A header line as it may be written: with whitespace around the name and the value.
pub struct HeaderText {
    pub before: Seq<char>,
    pub name: Seq<char>,
    pub after: Seq<char>,
    pub lead: Seq<char>,
    pub value: Seq<char>,
    pub back: Seq<char>,
}

impl HeaderText {
    pub open spec fn line(self) -> Seq<char> {
        self.before + self.name + self.after + seq![':'] + (self.lead + self.value + self.back)
    }

    /// Whether the line is one: the whitespace is whitespace, the name is not empty and holds
    /// no colon, and there is no line ending within.
    pub open spec fn fits(self) -> bool {
        &&& laws::words::is_blank(self.before)
        &&& laws::words::is_blank(self.after)
        &&& laws::words::is_blank(self.lead)
        &&& laws::words::is_blank(self.back)
        &&& self.name.len() > 0
        &&& laws::words::is_tight(self.name)
        &&& laws::words::is_tight(self.value)
        &&& laws::http::is_one_line(self.line())
        &&& forall|i: int| 0 <= i < self.name.len() ==> (#[trigger] self.name[i]) != ':'
    }
}

/// The lines of the headers.
pub open spec fn header_texts(list: Seq<HeaderText>) -> Seq<Seq<char>> {
    list.map_values(|header: HeaderText| header.line())
}

/// The lines without the whitespace at their ends.
pub open spec fn cut(lines: Seq<Seq<char>>) -> Seq<Seq<char>> {
    lines.map_values(|line: Seq<char>| text::trimmed_end(line, Pattern::Whitespace))
}

/// What the headers say under a name in small letters: the values of all that go by it, in
/// order, with commas between.
pub open spec fn said(list: Seq<HeaderText>, name: Seq<char>) -> Option<Seq<char>>
    decreases list.len(),
{
    if list.len() == 0 {
        None
    } else {
        let before = said(list.drop_last(), name);
        let last = list.last();
        if text::lowered(last.name) != name {
            before
        } else {
            match before {
                Some(value) => Some(value + seq![',', ' '] + last.value),
                None => Some(last.value),
            }
        }
    }
}

proof fn lemma_header_text(header: HeaderText)
    requires
        header.fits(),
    ensures
        http::header_line(text::trimmed_end(header.line(), Pattern::Whitespace))
            == LineView::Field(text::lowered(header.name), header.value),
{
    let p = Pattern::Whitespace;
    let head = header.before + header.name + header.after + seq![':'];
    let line = header.line();
    let n = header.before.len() + header.name.len() + header.after.len();
    assert(!text::is_whitespace(':'));
    // Behind the colon only whitespace can go.
    let lead = if header.value.len() == 0 {
        Seq::empty()
    } else {
        header.lead
    };
    let kept = head + (lead + header.value);
    assert forall|j: int| kept.len() <= j < line.len() implies p.has(#[trigger] line[j]) by {
        if header.value.len() == 0 {
            if j < head.len() + header.lead.len() {
                assert(line[j] == header.lead[j - head.len()]);
            } else {
                assert(line[j] == header.back[j - head.len() - header.lead.len()]);
            }
        } else {
            assert(line[j] == header.back[j - kept.len()]);
        }
    }
    assert(!p.has(line[kept.len() - 1])) by {
        if header.value.len() == 0 {
            assert(line[kept.len() - 1] == ':');
        } else {
            assert(line[kept.len() - 1] == header.value.last());
        }
    }
    text::lemma_end_position_is(line, p, kept.len() as int);
    assert(line.take(kept.len() as int) == kept);
    let colon = Pattern::Char(':');
    assert(!text::is_whitespace(':'));
    assert forall|j: int| 0 <= j < n implies !colon.has(#[trigger] kept[j]) by {
        if j < header.before.len() {
            assert(kept[j] == header.before[j]);
        } else if j < header.before.len() + header.name.len() {
            assert(kept[j] == header.name[j - header.before.len()]);
        } else {
            assert(kept[j] == header.after[j - header.before.len() - header.name.len()]);
        }
    }
    assert(kept[n as int] == ':');
    text::lemma_position_is(kept, colon, n as int);
    assert(kept.take(n as int) == header.before + header.name + header.after);
    assert(kept.skip(n + 1int) == lead + header.value + Seq::<char>::empty());
    laws::words::law_trimming(header.before, header.name, header.after);
    laws::words::law_trimming(lead, header.value, Seq::empty());
    assert(text::lowered(header.name).len() == header.name.len());
}

proof fn lemma_with_line(fields: Fields, name: Seq<char>, value: Seq<char>, other: Seq<char>)
    requires
        http::names_distinct(fields),
    ensures
        http::names_distinct(http::with_line(fields, name, value)),
        http::field_value(http::with_line(fields, name, value), other) == (if other != name {
            http::field_value(fields, other)
        } else {
            match http::field_value(fields, name) {
                Some(before) => Some(before + seq![',', ' '] + value),
                None => Some(value),
            }
        }),
{
    reveal_strlit(", ");
    assert(", "@ == seq![',', ' ']);
    http::lemma_field_index(fields, name);
    http::lemma_field_index(fields, other);
    let i = http::field_index(fields, name);
    let k = http::field_index(fields, other);
    let after = http::with_line(fields, name, value);
    assert forall|j: int| 0 <= j < fields.len() implies (#[trigger] after[j]).0 == fields[j].0 by {}
    assert forall|a: int, b: int| 0 <= a < b < after.len() implies (#[trigger] after[a]).0 != (
    #[trigger] after[b]).0 by {
        if b < fields.len() {
            assert(fields[a].0 != fields[b].0);
        }
    }
    if other == name {
        http::lemma_field_index_is(after, other, i);
    } else {
        if k < fields.len() {
            http::lemma_field_index_is(after, other, k);
        } else {
            http::lemma_field_index_is(after, other, after.len() as int);
        }
    }
}

proof fn lemma_header_texts(list: Seq<HeaderText>, name: Seq<char>)
    requires
        forall|i: int| 0 <= i < list.len() ==> (#[trigger] list[i]).fits(),
    ensures
        http::header_fields(cut(header_texts(list))) matches Ok(fields) && http::names_distinct(
            fields,
        ) && http::field_value(fields, name) == said(list, name),
    decreases list.len(),
{
    let lines = cut(header_texts(list));
    if list.len() > 0 {
        let front = list.drop_last();
        let last = list.last();
        assert forall|i: int| 0 <= i < front.len() implies (#[trigger] front[i]).fits() by {
            assert(front[i] == list[i]);
        }
        lemma_header_texts(front, name);
        lemma_header_texts(front, text::lowered(last.name));
        assert(lines.drop_last() == cut(header_texts(front)));
        assert(list[list.len() - 1].fits());
        lemma_header_text(last);
        let fields = http::header_fields(lines.drop_last())->Ok_0;
        lemma_with_line(fields, text::lowered(last.name), last.value, name);
    }
}

proof fn lemma_words_concat(a: Seq<char>, c: char, b: Seq<char>)
    requires
        text::is_whitespace(c),
    ensures
        text::words(a.push(c) + b) == text::words(a) + text::words(b),
{
    let p = Pattern::Whitespace;
    let keep = |w: Seq<char>| w.len() > 0;
    laws::texts::lemma_split_concat(a, c, b, p);
    Seq::filter_distributes_over_add(text::split(a, p), text::split(b, p), keep);
}

proof fn lemma_one_word(w: Seq<char>)
    requires
        laws::requests::is_word(w),
    ensures
        text::words(w) == seq![w],
{
    let p = Pattern::Whitespace;
    laws::texts::lemma_split_whole(w, p);
    laws::config::lemma_filter_all(seq![w], |w: Seq<char>| w.len() > 0);
}

proof fn lemma_no_word()
    ensures
        text::words(Seq::empty()) == Seq::<Seq<char>>::empty(),
{
    let p = Pattern::Whitespace;
    let empty = Seq::<char>::empty();
    laws::texts::lemma_split_whole(empty, p);
    seq![empty].lemma_all_neg_filter_empty(|w: Seq<char>| w.len() > 0);
}

proof fn lemma_words_behind(blank: Seq<char>, s: Seq<char>)
    requires
        laws::words::is_blank(blank),
    ensures
        text::words(blank + s) == text::words(s),
    decreases blank.len(),
{
    if blank.len() == 0 {
        assert(blank + s == s);
    } else {
        let rest = blank.drop_first();
        assert(text::is_whitespace(blank[0]));
        assert forall|i: int| 0 <= i < rest.len() implies text::is_whitespace(#[trigger] rest[i]) by {
            assert(rest[i] == blank[i + 1]);
        }
        lemma_words_behind(rest, s);
        lemma_no_word();
        lemma_words_concat(Seq::empty(), blank[0], rest + s);
        assert(Seq::<char>::empty().push(blank[0]) + (rest + s) == blank + s);
    }
}

/// Words, each with the whitespace behind it.
pub open spec fn spread(words: Seq<Seq<char>>, blanks: Seq<Seq<char>>) -> Seq<char>
    decreases words.len(),
{
    if words.len() == 0 {
        seq![]
    } else {
        words[0] + blanks[0] + spread(words.drop_first(), blanks.drop_first())
    }
}

/// Whether the words are words, and the whitespace is whitespace, with some behind each
/// word that another follows.
pub open spec fn is_spread(words: Seq<Seq<char>>, blanks: Seq<Seq<char>>) -> bool {
    &&& blanks.len() == words.len()
    &&& forall|i: int| 0 <= i < words.len() ==> laws::requests::is_word(#[trigger] words[i])
    &&& forall|i: int| 0 <= i < blanks.len() ==> laws::words::is_blank(#[trigger] blanks[i])
    &&& forall|i: int| 0 <= i < blanks.len() - 1 ==> (#[trigger] blanks[i]).len() > 0
}

/// Words with whitespace between are taken apart as these words, however much there is of
/// it, and whatever whitespace stands around them.
pub proof fn law_words(words: Seq<Seq<char>>, blanks: Seq<Seq<char>>, front: Seq<char>)
    requires
        is_spread(words, blanks),
        laws::words::is_blank(front),
    ensures
        text::words(front + spread(words, blanks)) == words,
    decreases words.len(),
{
    lemma_words_behind(front, spread(words, blanks));
    if words.len() == 0 {
        lemma_no_word();
        assert(words == Seq::<Seq<char>>::empty());
    } else {
        let word = words[0];
        let gap = blanks[0];
        let more = words.drop_first();
        let rest = blanks.drop_first();
        let tail = spread(more, rest);
        assert(laws::requests::is_word(words[0]) && laws::words::is_blank(blanks[0]));
        assert forall|i: int| 0 <= i < more.len() implies laws::requests::is_word(
            #[trigger] more[i],
        ) by {
            assert(more[i] == words[i + 1]);
        }
        assert forall|i: int| 0 <= i < rest.len() implies laws::words::is_blank(
            #[trigger] rest[i],
        ) by {
            assert(rest[i] == blanks[i + 1]);
        }
        assert forall|i: int| 0 <= i < rest.len() - 1 implies (#[trigger] rest[i]).len() > 0 by {
            assert(rest[i] == blanks[i + 1]);
        }
        law_words(more, rest, Seq::empty());
        assert(Seq::<char>::empty() + tail == tail);
        lemma_one_word(word);
        if gap.len() == 0 {
            assert(more.len() == 0);
            assert(spread(words, blanks) == word);
            assert(words == seq![word]);
        } else {
            let others = gap.drop_first();
            assert(text::is_whitespace(gap[0]));
            assert forall|i: int| 0 <= i < others.len() implies text::is_whitespace(
                #[trigger] others[i],
            ) by {
                assert(others[i] == gap[i + 1]);
            }
            lemma_words_concat(word, gap[0], others + tail);
            lemma_words_behind(others, tail);
            assert(word.push(gap[0]) + (others + tail) == word + gap + tail);
            assert(seq![word] + more == words);
        }
    }
}

/// The lines of a head: the first line, and one for each of the headers.
pub open spec fn head_texts(first: Seq<char>, list: Seq<HeaderText>) -> Seq<Seq<char>> {
    seq![first] + header_texts(list)
}

proof fn lemma_head(first: Seq<char>, list: Seq<HeaderText>)
    requires
        laws::http::is_one_line(first),
        first.len() > 0,
        !text::is_whitespace(first[0]),
        forall|i: int| 0 <= i < list.len() ==> (#[trigger] list[i]).fits(),
    ensures
        laws::http::are_lines(head_texts(first, list)),
        http::parsed_head(encode_utf8(laws::requests::between(head_texts(first, list))))
            == http::parsed_start(
            text::words(text::trimmed_end(first, Pattern::Whitespace)),
            http::header_fields(cut(header_texts(list))),
        ),
{
    let lines = head_texts(first, list);
    assert forall|i: int| 0 <= i < lines.len() implies laws::http::is_one_line(#[trigger] lines[i])
        && lines[i].len() > 0 by {
        if i > 0 {
            assert(lines[i] == list[i - 1].line());
            assert(list[i - 1].fits());
        }
    }
    let block = laws::requests::between(lines);
    encode_utf8_valid_utf8(block);
    encode_utf8_decode_utf8(block);
    laws::requests::lemma_lines(lines);
    assert(cut(lines).drop_first() == cut(header_texts(list)));
    assert(cut(lines)[0] == text::trimmed_end(first, Pattern::Whitespace));
    lemma_cut_position(first);
}

proof fn lemma_cut_position(s: Seq<char>)
    requires
        s.len() > 0,
        !text::is_whitespace(s[0]),
    ensures
        0 < text::end_position(s, Pattern::Whitespace) <= s.len(),
    decreases s.len(),
{
    if text::is_whitespace(s.last()) {
        assert(s.len() > 1);
        lemma_cut_position(s.drop_last());
    }
}

/// The words of a line, where it starts with one, and the whitespace behind its last word
/// is gone.
proof fn lemma_words_of_cut(words: Seq<Seq<char>>, blanks: Seq<Seq<char>>)
    requires
        is_spread(words, blanks),
        words.len() > 0,
    ensures
        text::words(text::trimmed_end(spread(words, blanks), Pattern::Whitespace)) == words,
        spread(words, blanks).len() > 0,
        !text::is_whitespace(spread(words, blanks)[0]),
{
    let p = Pattern::Whitespace;
    let n = words.len();
    let shut = blanks.update(n - 1, Seq::empty());
    let all = spread(words, blanks);
    let kept = spread(words, shut);
    let tail = blanks[n - 1];
    lemma_spread_end(words, blanks);
    assert(all == kept + tail);
    assert(laws::words::is_blank(blanks[n - 1]));
    assert forall|j: int| kept.len() <= j < all.len() implies p.has(#[trigger] all[j]) by {
        assert(all[j] == tail[j - kept.len()]);
    }
    text::lemma_end_position_is(all, p, kept.len() as int);
    assert(all.take(kept.len() as int) == kept);
    assert forall|i: int| 0 <= i < shut.len() implies laws::words::is_blank(#[trigger] shut[i]) by {
        if i < n - 1 {
            assert(shut[i] == blanks[i]);
        }
    }
    assert forall|i: int| 0 <= i < shut.len() - 1 implies (#[trigger] shut[i]).len() > 0 by {
        assert(shut[i] == blanks[i]);
    }
    law_words(words, shut, Seq::empty());
    assert(Seq::<char>::empty() + kept == kept);
    assert(laws::requests::is_word(words[0]));
    assert(all[0] == words[0][0]);
}

proof fn lemma_spread_end(words: Seq<Seq<char>>, blanks: Seq<Seq<char>>)
    requires
        is_spread(words, blanks),
        words.len() > 0,
    ensures
        ({
            let n = words.len();
            let kept = spread(words, blanks.update(n - 1, Seq::empty()));
            &&& spread(words, blanks) == kept + blanks[n - 1]
            &&& kept.len() > 0
            &&& !text::is_whitespace(kept.last())
        }),
    decreases words.len(),
{
    let n = words.len();
    let shut = blanks.update(n - 1, Seq::empty());
    let kept = spread(words, shut);
    assert(laws::requests::is_word(words[0]));
    let more = words.drop_first();
    let rest = blanks.drop_first();
    if n == 1 {
        assert(spread(more, rest) == Seq::<char>::empty());
        assert(spread(more, shut.drop_first()) == Seq::<char>::empty());
        assert(kept == words[0]);
        assert(spread(words, blanks) == words[0] + blanks[0]);
        assert(kept.last() == words[0][words[0].len() - 1]);
    } else {
        assert forall|i: int| 0 <= i < more.len() implies laws::requests::is_word(
            #[trigger] more[i],
        ) by {
            assert(more[i] == words[i + 1]);
        }
        assert forall|i: int| 0 <= i < rest.len() implies laws::words::is_blank(
            #[trigger] rest[i],
        ) by {
            assert(rest[i] == blanks[i + 1]);
        }
        assert forall|i: int| 0 <= i < rest.len() - 1 implies (#[trigger] rest[i]).len() > 0 by {
            assert(rest[i] == blanks[i + 1]);
        }
        lemma_spread_end(more, rest);
        assert(shut.drop_first() == rest.update(n - 2, Seq::empty()));
        let last = spread(more, shut.drop_first());
        assert(shut[0] == blanks[0]);
        assert(kept == words[0] + blanks[0] + last);
        assert(kept.last() == last.last());
        assert(spread(words, blanks) == kept + blanks[n - 1]);
    }
}

/// The head of a request is read as what it says, with whatever whitespace it is written:
/// the three words of its first line are the method, the target and the version, and each
/// header has the values that go by its name, in whatever case the name is written.
pub proof fn law_heads_are_read(
    token: Seq<char>,
    method: MethodView,
    target: Seq<char>,
    version: Seq<char>,
    blanks: Seq<Seq<char>>,
    list: Seq<HeaderText>,
    name: Seq<char>,
)
    requires
        laws::targets::names_method(token, method),
        is_spread(seq![token, target, version], blanks),
        laws::http::is_one_line(spread(seq![token, target, version], blanks)),
        version == "HTTP/1.0"@ || version == "HTTP/1.1"@,
        forall|i: int| 0 <= i < list.len() ==> (#[trigger] list[i]).fits(),
        version == "HTTP/1.1"@ ==> said(list, "host"@) is Some,
    ensures
        http::parsed_head(
            encode_utf8(
                laws::requests::between(
                    head_texts(spread(seq![token, target, version], blanks), list),
                ),
            ),
        ) matches Ok(head) && {
            &&& head.method == method
            &&& head.target == target
            &&& head.version == version
            &&& http::names_distinct(head.headers)
            &&& http::field_value(head.headers, name) == said(list, name)
        },
{
    let words = seq![token, target, version];
    assert(words[0] == token && words[1] == target && words[2] == version);
    lemma_words_of_cut(words, blanks);
    lemma_head(spread(words, blanks), list);
    lemma_header_texts(list, name);
    lemma_header_texts(list, "host"@);
    laws::targets::law_method_names(token, method);
}

/// A head that is not in order is refused: one whose first line has not three words, whose
/// version is another, that asks by version 1.1 without a host, or that holds a line that
/// is no header.
pub proof fn law_bad_heads_are_refused(
    words: Seq<Seq<char>>,
    blanks: Seq<Seq<char>>,
    list: Seq<HeaderText>,
)
    requires
        is_spread(words, blanks),
        words.len() > 0,
        laws::http::is_one_line(spread(words, blanks)),
        forall|i: int| 0 <= i < list.len() ==> (#[trigger] list[i]).fits(),
        words.len() != 3 || words[2] != "HTTP/1.0"@ && words[2] != "HTTP/1.1"@ || words[2]
            == "HTTP/1.1"@ && said(list, "host"@) is None,
    ensures
        http::parsed_head(
            encode_utf8(laws::requests::between(head_texts(spread(words, blanks), list))),
        ) is Err,
{
    lemma_words_of_cut(words, blanks);
    lemma_head(spread(words, blanks), list);
    lemma_header_texts(list, "host"@);
}

/// Whether a line is no header: it holds no colon, or nothing but whitespace before it.
pub open spec fn is_no_header(line: Seq<char>, n: int) -> bool {
    &&& laws::http::is_one_line(line)
    &&& line.len() > 0
    &&& !text::is_whitespace(line.last())
    &&& (forall|i: int| 0 <= i < line.len() ==> (#[trigger] line[i]) != ':') || (0 <= n < line.len()
        && line[n] == ':' && laws::words::is_blank(line.take(n)))
}

/// A head with a line that is no header is refused, whatever lines stand around it.
pub proof fn law_bad_lines_are_refused(lines: Seq<Seq<char>>, k: int, n: int)
    requires
        laws::http::are_lines(lines),
        0 < k < lines.len(),
        is_no_header(lines[k], n),
    ensures
        http::parsed_head(encode_utf8(laws::requests::between(lines))) is Err,
{
    let p = Pattern::Whitespace;
    let line = lines[k];
    let block = laws::requests::between(lines);
    encode_utf8_valid_utf8(block);
    encode_utf8_decode_utf8(block);
    laws::requests::lemma_lines(lines);
    text::lemma_end_position_is(line, p, line.len() as int);
    assert(line.take(line.len() as int) == line);
    let colon = Pattern::Char(':');
    if forall|i: int| 0 <= i < line.len() ==> (#[trigger] line[i]) != ':' {
        assert forall|i: int| 0 <= i < line.len() implies !colon.has(#[trigger] line[i]) by {}
        text::lemma_position_is(line, colon, line.len() as int);
    } else {
        assert(!text::is_whitespace(':'));
        let front = line.take(n);
        assert forall|i: int| 0 <= i < n implies !colon.has(#[trigger] line[i]) by {
            assert(text::is_whitespace(front[i]));
        }
        text::lemma_position_is(line, colon, n);
        laws::words::law_trimming(front, Seq::empty(), Seq::empty());
        assert(front + Seq::<char>::empty() + Seq::<char>::empty() == front);
    }
    assert(http::header_line(line) is Invalid);
    let rest = cut(lines).drop_first();
    assert(rest[k - 1] == line);
    lemma_bad_line(rest, k - 1);
}

proof fn lemma_bad_line(lines: Seq<Seq<char>>, k: int)
    requires
        0 <= k < lines.len(),
        http::header_line(lines[k]) is Invalid,
    ensures
        http::header_fields(lines) is Err,
    decreases lines.len(),
{
    if k < lines.len() - 1 {
        assert(lines.drop_last()[k] == lines[k]);
        lemma_bad_line(lines.drop_last(), k);
    }
}

/// A head without a first line is refused: an empty one, and one that starts with a blank
/// line.
pub proof fn law_heads_have_a_first_line(lines: Seq<(Seq<char>, bool)>, last: Seq<char>)
    requires
        forall|i: int| 0 <= i < lines.len() ==> laws::words::is_line((#[trigger] lines[i]).0),
        laws::words::is_line(last),
        lines.len() > 0 ==> laws::words::is_blank(lines[0].0),
        lines.len() == 0 ==> laws::words::is_blank(last),
    ensures
        http::parsed_head(encode_utf8(laws::words::ended(lines) + last)) is Err,
{
    let p = Pattern::Whitespace;
    let block = laws::words::ended(lines) + last;
    encode_utf8_valid_utf8(block);
    encode_utf8_decode_utf8(block);
    laws::words::law_lines(lines, last);
    let all = text::lines(block);
    let first = if lines.len() > 0 {
        lines[0].0
    } else {
        last
    };
    if all.len() > 0 {
        assert(all[0] == first);
        assert forall|j: int| 0 <= j < first.len() implies p.has(#[trigger] first[j]) by {}
        text::lemma_end_position_is(first, p, 0);
        assert(http::head_lines(block)[0] == text::trimmed_end(all[0], p));
    } else {
        assert(http::head_lines(block).len() == 0);
    }
}

/// The body of a request stands behind the blank line that ends its head, whichever way that
/// line is written, and the request ends where its body does.
pub proof fn law_bodies_follow_their_head(
    s: Seq<u8>,
    end: (int, int),
    head: HeadView,
    max: int,
)
    requires
        bytes::header_end(s) == Some(end),
        http::parsed_head(s.take(end.0)) == Ok::<HeadView, Seq<char>>(head),
    ensures
        ({
            let result = http::parsed_request(s, max);
            match http::framed_body(head.headers, s.skip(end.0 + end.1), max) {
                BodyView::Complete(body, n) => match http::parsed_target(head.target) {
                    Ok(parts) => result == ParseView::Complete(
                        RequestView {
                            method: head.method,
                            target: head.target,
                            path: parts.0,
                            query: parts.1,
                            version: head.version,
                            headers: head.headers,
                            body,
                        },
                        end.0 + end.1 + n,
                    ),
                    Err(_) => result is BadRequest,
                },
                BodyView::Incomplete => result is Incomplete,
                BodyView::TooLarge => result is TooLarge,
                BodyView::BadRequest(_) => result is BadRequest,
            }
        }),
{
}

/// A body that does not come in chunks is as long as its header says, or empty where it says
/// nothing: with fewer bytes there it is awaited, and over the limit it is refused, whether
/// or not it is there.
pub proof fn law_lengths_of_bodies(
    headers: Fields,
    digits: Seq<char>,
    values: Seq<int>,
    s: Seq<u8>,
    max: int,
)
    requires
        http::field_value(headers, "transfer-encoding"@) is None,
        digits.len() == values.len(),
        digits.len() > 0,
        forall|i: int|
            0 <= i < digits.len() ==> 0 <= (#[trigger] values[i]) < 10 && laws::words::is_digit(
                digits[i],
                values[i],
            ),
        0 <= max <= usize::MAX,
    ensures
        ({
            let n = laws::words::positional(values, 10);
            &&& http::field_value(headers, "content-length"@) is None ==> http::framed_body(
                headers,
                s,
                max,
            ) == BodyView::Complete(Seq::empty(), 0)
            &&& http::field_value(headers, "content-length"@) == Some(digits) && n <= usize::MAX
                ==> {
                &&& n > max ==> http::framed_body(headers, s, max) is TooLarge
                &&& n <= max && s.len() < n ==> http::framed_body(headers, s, max) is Incomplete
                &&& 0 <= n <= max && s.len() >= n ==> http::framed_body(headers, s, max)
                    == BodyView::Complete(s.take(n), n)
            }
        }),
{
    laws::words::law_numbers(digits, values, 10, usize::MAX as int);
    assert(s.take(0) == Seq::<u8>::empty());
}

/// A request is refused where its head is, whatever follows; and so is one with a head that
/// is no text, one whose head has not ended after sixteen kibibytes, and one with a length
/// that is no number. A head that has not ended and is shorter is awaited.
pub proof fn law_bad_requests_are_refused(s: Seq<u8>, value: Seq<char>, max: int)
    ensures
        match bytes::header_end(s) {
            Some(end) => {
                let block = s.take(end.0);
                &&& !valid_utf8(block) ==> http::parsed_request(s, max) is BadRequest
                &&& match http::parsed_head(block) {
                    Ok(head) => http::field_value(head.headers, "transfer-encoding"@) is None
                        && http::field_value(head.headers, "content-length"@) == Some(value)
                        && text::number_up_to(value, 10, usize::MAX as int) is None
                        ==> http::parsed_request(s, max) is BadRequest,
                    Err(_) => http::parsed_request(s, max) is BadRequest,
                }
            },
            None => if s.len() > 16384 {
                http::parsed_request(s, max) is BadRequest
            } else {
                http::parsed_request(s, max) is Incomplete
            },
        },
{
}

proof fn lemma_lowered_listed(parts: Seq<Seq<char>>)
    ensures
        text::lowered(laws::words::listed(parts)) == laws::words::listed(lowered_parts(parts)),
    decreases parts.len(),
{
    let low = lowered_parts(parts);
    if parts.len() > 1 {
        let rest = parts.drop_first();
        lemma_lowered_listed(rest);
        assert(low.drop_first() == lowered_parts(rest));
        assert(text::lowered(parts[0].push(',') + laws::words::listed(rest)) == text::lowered(
            parts[0],
        ).push(',') + text::lowered(laws::words::listed(rest)));
    } else if parts.len() == 0 {
        assert(text::lowered(laws::words::listed(parts)) == Seq::<char>::empty());
    }
}

/// The parts in small letters.
pub open spec fn lowered_parts(parts: Seq<Seq<char>>) -> Seq<Seq<char>> {
    parts.map_values(|part: Seq<char>| text::lowered(part))
}

/// Whether one of the parts of a list is the token, in any case and with any whitespace
/// around it.
pub open spec fn is_listed(parts: Seq<Seq<char>>, token: Seq<char>) -> bool {
    exists|i: int|
        0 <= i < parts.len() && text::trimmed(text::lowered(#[trigger] parts[i])) == token
}

proof fn lemma_is_listed(parts: Seq<Seq<char>>, token: Seq<char>)
    requires
        parts.len() > 0,
        laws::words::parts_without(parts, ','),
    ensures
        text::lists(text::lowered(laws::words::listed(parts)), token) <==> is_listed(parts, token),
{
    let low = lowered_parts(parts);
    lemma_lowered_listed(parts);
    assert forall|i: int, j: int| 0 <= i < low.len() && 0 <= j < low[i].len() implies #[trigger] low[i][j]
        != ',' by {
        assert(parts[i][j] != ',');
        laws::words::law_lower_case(parts[i], j);
    }
    laws::words::law_lists(low, token);
    if is_listed(parts, token) {
        let i = choose|i: int|
            0 <= i < parts.len() && text::trimmed(text::lowered(#[trigger] parts[i])) == token;
        assert(text::trimmed(low[i]) == token);
    }
    if exists|i: int| 0 <= i < low.len() && text::trimmed(#[trigger] low[i]) == token {
        let i = choose|i: int| 0 <= i < low.len() && text::trimmed(#[trigger] low[i]) == token;
        assert(text::trimmed(text::lowered(parts[i])) == token);
    }
}

/// A connection ends with a request that asks for it, by version 1.1, and with one that does
/// not ask to keep it, by version 1.0; the header that asks is a list.
pub proof fn law_connections(request: RequestView, parts: Seq<Seq<char>>)
    requires
        parts.len() > 0,
        laws::words::parts_without(parts, ','),
    ensures
        laws::storing::says(
            request.headers,
            "connection"@,
            Some(laws::words::listed(parts)),
        ) ==> request.should_close() == (if request.version == "HTTP/1.0"@ {
            !is_listed(parts, "keep-alive"@)
        } else {
            is_listed(parts, "close"@)
        }),
        laws::storing::says(request.headers, "connection"@, None) ==> request.should_close() == (
        request.version == "HTTP/1.0"@),
{
    reveal_strlit("connection");
    let name = "connection"@;
    lemma_is_listed(parts, "keep-alive"@);
    lemma_is_listed(parts, "close"@);
    let value = Some(laws::words::listed(parts));
    if laws::storing::says(request.headers, name, value) {
        laws::storing::law_headers_are_found(request, name, name, value);
    }
    if laws::storing::says(request.headers, name, None) {
        laws::storing::law_headers_are_found(request, name, name, None);
    }
}

/// The host that a request asks for is what its header says, and none where it says none.
pub proof fn law_hosts(request: RequestView, value: Option<Seq<char>>)
    requires
        laws::storing::says(request.headers, "host"@, value),
    ensures
        match value {
            Some(value) => request.host() == Some(crate::util::hostname(value)),
            None => request.host() is None,
        },
{
    reveal_strlit("host");
    laws::storing::law_headers_are_found(request, "host"@, "host"@, value);
}

/// A body comes in chunks exactly if the list of how it is transferred says so.
pub proof fn law_chunked_bodies(headers: Fields, parts: Seq<Seq<char>>)
    requires
        parts.len() > 0,
        laws::words::parts_without(parts, ','),
    ensures
        http::field_value(headers, "transfer-encoding"@) == Some(laws::words::listed(parts)) ==> (
        http::is_chunked(headers) <==> is_listed(parts, "chunked"@)),
        http::field_value(headers, "transfer-encoding"@) is None ==> !http::is_chunked(headers),
{
    lemma_is_listed(parts, "chunked"@);
}

/// The size of a chunk is what its line says in hexadecimal digits, in either case and with
/// whitespace around them; what stands behind a semicolon does not count.
pub proof fn law_chunk_lines(
    front: Seq<char>,
    digits: Seq<char>,
    values: Seq<int>,
    back: Seq<char>,
    more: Seq<char>,
)
    requires
        laws::words::is_blank(front),
        laws::words::is_blank(back),
        digits.len() == values.len(),
        digits.len() > 0,
        forall|i: int|
            0 <= i < digits.len() ==> 0 <= (#[trigger] values[i]) < 16 && laws::words::is_digit(
                digits[i],
                values[i],
            ),
        laws::words::positional(values, 16) <= usize::MAX,
    ensures
        http::chunk_size(encode_utf8(front + digits + back)) == Some(
            laws::words::positional(values, 16),
        ),
        http::chunk_size(encode_utf8(front + digits + back + seq![';'] + more)) == Some(
            laws::words::positional(values, 16),
        ),
{
    let p = Pattern::Char(';');
    let size = front + digits + back;
    let line = size + seq![';'] + more;
    encode_utf8_valid_utf8(size);
    encode_utf8_decode_utf8(size);
    encode_utf8_valid_utf8(line);
    encode_utf8_decode_utf8(line);
    assert(!text::is_whitespace(';'));
    assert forall|i: int| 0 <= i < size.len() implies (#[trigger] size[i]) != ';' by {
        if i < front.len() {
            assert(size[i] == front[i]);
        } else if i < front.len() + digits.len() {
            let k = i - front.len();
            assert(size[i] == digits[k]);
            assert(laws::words::is_digit(digits[k], values[k]));
        } else {
            assert(size[i] == back[i - front.len() - digits.len()]);
        }
    }
    assert forall|i: int| 0 <= i < size.len() implies !p.has(#[trigger] line[i]) by {
        assert(line[i] == size[i]);
    }
    text::lemma_position_is(size, p, size.len() as int);
    text::lemma_position_is(line, p, size.len() as int);
    assert(size.take(size.len() as int) == size);
    assert(line.take(size.len() as int) == size);
    assert(laws::words::is_tight(digits)) by {
        assert(laws::words::is_digit(digits[0], values[0]));
        assert(laws::words::is_digit(digits[digits.len() - 1], values[digits.len() - 1]));
    }
    laws::words::law_trimming(front, digits, back);
    laws::words::law_numbers(digits, values, 16, usize::MAX as int);
}

/// The statuses that have a reason phrase.
pub open spec fn known_reasons() -> Seq<(u16, Seq<char>)> {
    seq![
        (200u16, "OK"@),
        (201u16, "Created"@),
        (204u16, "No Content"@),
        (301u16, "Moved Permanently"@),
        (302u16, "Found"@),
        (303u16, "See Other"@),
        (307u16, "Temporary Redirect"@),
        (308u16, "Permanent Redirect"@),
        (400u16, "Bad Request"@),
        (403u16, "Forbidden"@),
        (404u16, "Not Found"@),
        (405u16, "Method Not Allowed"@),
        (408u16, "Request Timeout"@),
        (413u16, "Payload Too Large"@),
        (500u16, "Internal Server Error"@),
        (504u16, "Gateway Timeout"@),
    ]
}

/// Each status that has a reason phrase is told by it, and any other one is unknown.
pub proof fn law_reasons(status: u16, i: int)
    requires
        0 <= i < known_reasons().len(),
    ensures
        status == known_reasons()[i].0 ==> http::reason(status) == known_reasons()[i].1,
        (forall|k: int| 0 <= k < known_reasons().len() ==> (#[trigger] known_reasons()[k]).0 != status)
            ==> http::reason(status) == "Unknown"@,
{
    let all = known_reasons();
    assert(all[0].0 == 200 && all[1].0 == 201 && all[2].0 == 204 && all[3].0 == 301 && all[4].0
        == 302 && all[5].0 == 303 && all[6].0 == 307 && all[7].0 == 308 && all[8].0 == 400
        && all[9].0 == 403 && all[10].0 == 404 && all[11].0 == 405 && all[12].0 == 408
        && all[13].0 == 413 && all[14].0 == 500 && all[15].0 == 504);
}

/// A response has a header exactly if one of its headers goes by the name, in any case; and
/// one that was just made has the one for the type of its text, or none.
pub proof fn law_responses(response: ResponseView, name: Seq<char>, status: u16, body: Seq<u8>, content: Seq<char>)
    ensures
        response.has(name) <==> exists|i: int|
            0 <= i < response.headers.len() && text::lowered((#[trigger] response.headers[i]).0)
                == text::lowered(name),
        ResponseView::new(status, body) == (ResponseView { status, headers: Seq::empty(), body }),
        ResponseView::text(status, content) == (ResponseView {
            status,
            headers: seq![("Content-Type"@, "text/plain; charset=utf-8"@)],
            body: encode_utf8(content),
        }),
        ResponseView::html(status, content) == (ResponseView {
            status,
            headers: seq![("Content-Type"@, "text/html; charset=utf-8"@)],
            body: encode_utf8(content),
        }),
{
    http::lemma_header_index(response.headers, name);
    let none = Fields::empty();
    assert(none.push(("Content-Type"@, "text/plain; charset=utf-8"@)) == seq![
        ("Content-Type"@, "text/plain; charset=utf-8"@),
    ]);
    assert(none.push(("Content-Type"@, "text/html; charset=utf-8"@)) == seq![
        ("Content-Type"@, "text/html; charset=utf-8"@),
    ]);
}

} // verus!
