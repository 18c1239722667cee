//! What holds of the small things that texts are made of: whitespace, letters, numbers,
//! lists, lines, host names, types of content and markup.
use vstd::prelude::*;

use crate::laws;
use crate::text;
use crate::text::Pattern;
use crate::util;

verus! {

/// The characters that count as whitespace.
pub open spec fn blanks() -> Seq<char> {
    seq![
        '\t', '\n', '\u{b}', '\u{c}', '\r', ' ', '\u{85}', '\u{a0}', '\u{1680}', '\u{2000}',
        '\u{2001}', '\u{2002}', '\u{2003}', '\u{2004}', '\u{2005}', '\u{2006}', '\u{2007}',
        '\u{2008}', '\u{2009}', '\u{200a}', '\u{2028}', '\u{2029}', '\u{202f}', '\u{205f}',
        '\u{3000}',
    ]
}

/// A character is whitespace exactly if it is one of the blanks.
pub proof fn law_whitespace(c: char)
    ensures
        text::is_whitespace(c) <==> blanks().contains(c),
{
    let list = blanks();
    if text::is_whitespace(c) {
        let i = if '\t' <= c <= '\r' {
            c as int - 9
        } else if c == ' ' {
            5
        } else if c == '\u{85}' {
            6
        } else if c == '\u{a0}' {
            7
        } else if c == '\u{1680}' {
            8
        } else if '\u{2000}' <= c <= '\u{200a}' {
            c as int - 0x2000 + 9
        } else if c == '\u{2028}' {
            20
        } else if c == '\u{2029}' {
            21
        } else if c == '\u{202f}' {
            22
        } else if c == '\u{205f}' {
            23
        } else {
            24
        };
        assert(list[i] == c);
    }
}

/// Whether a text is whitespace throughout.
pub open spec fn is_blank(s: Seq<char>) -> bool {
    forall|i: int| 0 <= i < s.len() ==> text::is_whitespace(#[trigger] s[i])
}

/// Whether a text has no whitespace at its ends.
pub open spec fn is_tight(s: Seq<char>) -> bool {
    s.len() > 0 ==> !text::is_whitespace(s[0]) && !text::is_whitespace(s.last())
}

/// Of a text with whitespace around it, the text is left.
pub proof fn law_trimming(front: Seq<char>, s: Seq<char>, back: Seq<char>)
    requires
        is_blank(front),
        is_blank(back),
        is_tight(s),
    ensures
        text::trimmed(front + s + back) == s,
        text::trimmed_end(s + back, Pattern::Whitespace) == s,
{
    let p = Pattern::Whitespace;
    let all = front + s + back;
    let tail = s + back;
    text::lemma_end_position_is(tail, p, s.len() as int);
    assert(tail.take(s.len() as int) == s);
    if s.len() > 0 {
        assert(all[front.len() as int] == s[0]);
        assert forall|j: int| 0 <= j < front.len() implies p.has(#[trigger] all[j]) by {
            assert(all[j] == front[j]);
        }
        text::lemma_leading_is(all, p, front.len() as int);
        assert(all.skip(front.len() as int) == tail);
    } else {
        assert forall|j: int| 0 <= j < all.len() implies p.has(#[trigger] all[j]) by {
            if j < front.len() {
                assert(all[j] == front[j]);
            } else {
                assert(all[j] == back[j - front.len()]);
            }
        }
        text::lemma_leading_is(all, p, all.len() as int);
        let none = all.skip(all.len() as int);
        assert(none == s);
        text::lemma_end_position_is(none, p, 0);
        assert(none.take(0) == s);
    }
}

/// The letters from A to Z are put in lower case, one for one, and nothing else changes.
pub proof fn law_lower_case(s: Seq<char>, i: int)
    requires
        0 <= i < s.len(),
    ensures
        text::lowered(s).len() == s.len(),
        'A' <= s[i] <= 'Z' ==> text::lowered(s)[i] as int == s[i] as int + 32,
        !('A' <= s[i] <= 'Z') ==> text::lowered(s)[i] == s[i],
{
}

/// A list is its parts with commas between.
pub open spec fn listed(parts: Seq<Seq<char>>) -> Seq<char>
    decreases parts.len(),
{
    if parts.len() == 0 {
        seq![]
    } else if parts.len() == 1 {
        parts[0]
    } else {
        parts[0].push(',') + listed(parts.drop_first())
    }
}

/// Whether no part holds the separator.
pub open spec fn parts_without(parts: Seq<Seq<char>>, c: char) -> bool {
    forall|i: int, j: int|
        0 <= i < parts.len() && 0 <= j < parts[i].len() ==> #[trigger] parts[i][j] != c
}

proof fn lemma_split_listed(parts: Seq<Seq<char>>)
    requires
        parts.len() > 0,
        parts_without(parts, ','),
    ensures
        text::split(listed(parts), Pattern::Char(',')) == parts,
    decreases parts.len(),
{
    let p = Pattern::Char(',');
    let first = parts[0];
    assert forall|j: int| 0 <= j < first.len() implies !p.has(#[trigger] first[j]) by {
        assert(parts[0][j] != ',');
    }
    laws::texts::lemma_split_whole(first, p);
    if parts.len() == 1 {
        assert(seq![first] == parts);
    } else {
        let rest = parts.drop_first();
        assert forall|i: int, j: int|
            0 <= i < rest.len() && 0 <= j < rest[i].len() implies #[trigger] rest[i][j] != ',' by {
            assert(rest[i] == parts[i + 1]);
            assert(parts[i + 1][j] != ',');
        }
        lemma_split_listed(rest);
        laws::texts::lemma_split_concat(first, ',', listed(rest), p);
        assert(seq![first] + rest == parts);
    }
}

/// A list holds a token exactly if one of its parts is the token, whitespace aside.
pub proof fn law_lists(parts: Seq<Seq<char>>, token: Seq<char>)
    requires
        parts.len() > 0,
        parts_without(parts, ','),
    ensures
        text::lists(listed(parts), token) <==> exists|i: int|
            0 <= i < parts.len() && text::trimmed(#[trigger] parts[i]) == token,
{
    lemma_split_listed(parts);
    let all = text::split(listed(parts), Pattern::Char(','));
    if exists|i: int| 0 <= i < parts.len() && text::trimmed(#[trigger] parts[i]) == token {
        let i = choose|i: int| 0 <= i < parts.len() && text::trimmed(#[trigger] parts[i]) == token;
        assert(text::trimmed(all[i]) == token);
    }
    if text::lists(listed(parts), token) {
        let i = choose|i: int| 0 <= i < all.len() && text::trimmed(#[trigger] all[i]) == token;
        assert(text::trimmed(parts[i]) == token);
    }
}

/// What a character stands for as a digit: 0 to 9, and from there on the letters, in either
/// case.
pub open spec fn is_digit(c: char, v: int) -> bool {
    ||| 0 <= v < 10 && c as int == '0' as int + v
    ||| 10 <= v < 36 && (c as int == 'a' as int + (v - 10) || c as int == 'A' as int + (v - 10))
}

/// The number of digits that stand for the values, the first of them for the most.
pub open spec fn positional(values: Seq<int>, radix: int) -> int
    decreases values.len(),
{
    if values.len() == 0 {
        0
    } else {
        positional(values.drop_last(), radix) * radix + values.last()
    }
}

proof fn lemma_positional(s: Seq<char>, values: Seq<int>, radix: int)
    requires
        s.len() == values.len(),
        forall|i: int|
            0 <= i < s.len() ==> 0 <= (#[trigger] values[i]) < radix && is_digit(s[i], values[i]),
    ensures
        text::digits_value(s, radix) == Some(positional(values, radix)),
    decreases s.len(),
{
    if s.len() > 0 {
        let front = s.drop_last();
        let rest = values.drop_last();
        assert forall|i: int| 0 <= i < front.len() implies 0 <= (#[trigger] rest[i]) < radix
            && is_digit(front[i], rest[i]) by {
            assert(rest[i] == values[i] && front[i] == s[i]);
        }
        lemma_positional(front, rest, radix);
        assert(is_digit(s[s.len() - 1], values[s.len() - 1]));
        assert(0 <= values[s.len() - 1] < radix);
    }
}

/// A text of digits is the number that they stand for, up to the largest that is allowed; a
/// plus in front changes nothing.
pub proof fn law_numbers(s: Seq<char>, values: Seq<int>, radix: int, max: int)
    requires
        s.len() == values.len(),
        s.len() > 0,
        forall|i: int|
            0 <= i < s.len() ==> 0 <= (#[trigger] values[i]) < radix && is_digit(s[i], values[i]),
    ensures
        positional(values, radix) <= max ==> text::number_up_to(s, radix, max) == Some(
            positional(values, radix),
        ) && text::number_up_to(seq!['+'] + s, radix, max) == Some(positional(values, radix)),
        positional(values, radix) > max ==> text::number_up_to(s, radix, max) is None,
{
    lemma_positional(s, values, radix);
    assert(is_digit(s[0], values[0]));
    assert((seq!['+'] + s).skip(1) == s);
}

/// A text that is empty, or that holds something else than digits behind its first
/// character, is no number.
pub proof fn law_no_numbers(s: Seq<char>, radix: int, max: int, i: int)
    requires
        s.len() == 0 || (0 <= i < s.len() && (i == 0 ==> s[0] != '+') && forall|v: int|
            0 <= v < radix ==> !#[trigger] is_digit(s[i], v)),
        2 <= radix <= 36,
    ensures
        text::number_up_to(s, radix, max) is None,
{
    if s.len() > 0 {
        let digits = if s[0] == '+' {
            s.skip(1)
        } else {
            s
        };
        let k = if s[0] == '+' {
            i - 1
        } else {
            i
        };
        assert(digits[k] == s[i]);
        if text::digit_value(s[i], radix) is Some {
            assert(is_digit(s[i], text::digit_value(s[i], radix)->Some_0));
        }
        lemma_no_digit(digits, radix, k);
    }
}

proof fn lemma_no_digit(s: Seq<char>, radix: int, i: int)
    requires
        0 <= i < s.len(),
        text::digit_value(s[i], radix) is None,
    ensures
        text::digits_value(s, radix) is None,
    decreases s.len(),
{
    if i < s.len() - 1 {
        assert(s.drop_last()[i] == s[i]);
        lemma_no_digit(s.drop_last(), radix, i);
    }
}

/// Whether a text is spelled by digits in the radix, the first of them not zero.
pub open spec fn is_canonical(s: Seq<char>, radix: int) -> bool {
    &&& s.len() > 0
    &&& forall|i: int|
        0 <= i < s.len() ==> '0' <= (#[trigger] s[i]) <= '9' || 'a' <= s[i] <= 'z'
    &&& s.len() > 1 ==> s[0] != '0'
}

proof fn lemma_canonical(n: nat, radix: nat)
    requires
        2 <= radix <= 36,
    ensures
        is_canonical(text::digits(n, radix), radix as int),
        n > 0 ==> text::digits(n, radix)[0] != '0',
    decreases n,
{
    text::lemma_digits_read_back(n, radix);
    if n >= radix {
        vstd::arithmetic::div_mod::lemma_div_decreases(n as int, radix as int);
        vstd::arithmetic::div_mod::lemma_div_non_zero(n as int, radix as int);
        lemma_canonical(n / radix, radix);
        assert(text::digits(n, radix)[0] == text::digits(n / radix, radix)[0]);
    }
}

/// A number is written without leading zeros, with small letters, and reading it gives the
/// number back.
pub proof fn law_written_numbers(n: nat, radix: nat)
    requires
        2 <= radix <= 36,
    ensures
        is_canonical(text::digits(n, radix), radix as int),
        text::number(text::digits(n, radix), radix as int) == Some(n as int),
        text::decimal(n) == text::digits(n, 10),
{
    lemma_canonical(n, radix);
    text::lemma_digits_read_back(n, radix);
    assert(text::digits(n, radix)[0] != '+');
}

/// A host is its name in small letters: what stands around it, and the port behind it, do
/// not count. An address in brackets is kept as it is.
pub proof fn law_host_names(
    front: Seq<char>,
    name: Seq<char>,
    port: Seq<char>,
    inner: Seq<char>,
    back: Seq<char>,
)
    requires
        is_blank(front),
        is_blank(back),
        is_tight(name),
        is_tight(port),
        port.len() > 0,
        name.len() > 0 ==> name[0] != '[',
        forall|i: int| 0 <= i < name.len() ==> (#[trigger] name[i]) != ':',
        forall|i: int| 0 <= i < inner.len() ==> (#[trigger] inner[i]) != ']',
    ensures
        util::hostname(front + name + back) == text::lowered(name),
        name.len() > 0 ==> util::hostname(front + (name + seq![':'] + port) + back)
            == text::lowered(name),
        util::hostname(front + (seq!['['] + inner + seq![']'] + seq![':'] + port) + back)
            == text::lowered(seq!['['] + inner + seq![']']),
        util::hostname(front + (seq!['['] + inner + seq![']']) + back) == text::lowered(
            seq!['['] + inner + seq![']'],
        ),
{
    let colon = Pattern::Char(':');
    let bracket = Pattern::Char(']');
    assert(!text::is_whitespace('[') && !text::is_whitespace(']'));
    law_trimming(front, name, back);
    assert forall|i: int| 0 <= i < name.len() implies !colon.has(#[trigger] name[i]) by {}
    text::lemma_position_is(name, colon, name.len() as int);
    assert(name.take(name.len() as int) == name);
    let full = name + seq![':'] + port;
    if name.len() > 0 {
        law_trimming(front, full, back);
        assert forall|i: int| 0 <= i < name.len() implies !colon.has(#[trigger] full[i]) by {
            assert(full[i] == name[i]);
        }
        text::lemma_position_is(full, colon, name.len() as int);
        assert(full.take(name.len() as int) == name);
    }
    let address = seq!['['] + inner + seq![']'];
    let with_port = address + seq![':'] + port;
    let n = inner.len() + 1int;
    law_trimming(front, address, back);
    law_trimming(front, with_port, back);
    assert forall|i: int| 0 <= i < n implies !bracket.has(#[trigger] address[i]) by {
        if i > 0 {
            assert(address[i] == inner[i - 1]);
        }
    }
    text::lemma_position_is(address, bracket, n);
    assert forall|i: int| 0 <= i < n implies !bracket.has(#[trigger] with_port[i]) by {
        assert(with_port[i] == address[i]);
    }
    text::lemma_position_is(with_port, bracket, n);
    assert(address.take(n + 1) == address);
    assert(with_port.take(n + 1) == address);
}

/// The extensions that have a type of content of their own, in small letters.
pub open spec fn known_types() -> Seq<(Seq<char>, Seq<char>)> {
    seq![
        ("html"@, "text/html; charset=utf-8"@),
        ("htm"@, "text/html; charset=utf-8"@),
        ("css"@, "text/css; charset=utf-8"@),
        ("js"@, "application/javascript; charset=utf-8"@),
        ("json"@, "application/json"@),
        ("txt"@, "text/plain; charset=utf-8"@),
        ("png"@, "image/png"@),
        ("jpg"@, "image/jpeg"@),
        ("jpeg"@, "image/jpeg"@),
        ("gif"@, "image/gif"@),
        ("svg"@, "image/svg+xml"@),
        ("ico"@, "image/x-icon"@),
        ("pdf"@, "application/pdf"@),
    ]
}

/// A file has the type of content that its extension stands for, in either case; one with
/// another extension, or with none, is a stream of bytes.
pub proof fn law_content_types(extension: Option<Seq<char>>, i: int)
    requires
        0 <= i < known_types().len(),
    ensures
        extension matches Some(name) ==> (text::lowered(name) == known_types()[i].0
            ==> util::media_type(extension) == known_types()[i].1),
        extension is None ==> util::media_type(extension) == "application/octet-stream"@,
        extension matches Some(name) ==> ((forall|k: int|
            0 <= k < known_types().len() ==> (#[trigger] known_types()[k]).0 != text::lowered(name))
            ==> util::media_type(extension) == "application/octet-stream"@),
{
    let all = known_types();
    reveal_strlit("html");
    reveal_strlit("htm");
    reveal_strlit("css");
    reveal_strlit("js");
    reveal_strlit("json");
    reveal_strlit("txt");
    reveal_strlit("png");
    reveal_strlit("jpg");
    reveal_strlit("jpeg");
    reveal_strlit("gif");
    reveal_strlit("svg");
    reveal_strlit("ico");
    reveal_strlit("pdf");
    assert("html"@.len() == 4 && "htm"@.len() == 3 && "css"@.len() == 3 && "js"@.len() == 2
        && "json"@.len() == 4 && "txt"@.len() == 3 && "png"@.len() == 3 && "jpg"@.len() == 3
        && "jpeg"@.len() == 4 && "gif"@.len() == 3 && "svg"@.len() == 3 && "ico"@.len() == 3
        && "pdf"@.len() == 3);
    assert("html"@[0] == 'h' && "htm"@[0] == 'h' && "css"@[0] == 'c' && "json"@[0] == 'j'
        && "txt"@[0] == 't' && "png"@[0] == 'p' && "jpg"@[0] == 'j' && "jpeg"@[0] == 'j'
        && "gif"@[0] == 'g' && "svg"@[0] == 's' && "ico"@[0] == 'i' && "pdf"@[0] == 'p');
    assert("png"@[1] == 'n' && "pdf"@[1] == 'd' && "json"@[1] == 's' && "jpeg"@[1] == 'p');
    assert(all[0].0 == "html"@ && all[1].0 == "htm"@ && all[2].0 == "css"@ && all[3].0 == "js"@
        && all[4].0 == "json"@ && all[5].0 == "txt"@ && all[6].0 == "png"@ && all[7].0 == "jpg"@
        && all[8].0 == "jpeg"@ && all[9].0 == "gif"@ && all[10].0 == "svg"@ && all[11].0
        == "ico"@ && all[12].0 == "pdf"@);
}

/// Text is escaped one character after the other: the five that mean something in markup
/// are replaced by their names, and every other one stays.
pub proof fn law_escaping(a: Seq<char>, b: Seq<char>, c: char)
    ensures
        util::escaped(a + b) == util::escaped(a) + util::escaped(b),
        util::escaped(seq!['&']) == "&amp;"@,
        util::escaped(seq!['<']) == "&lt;"@,
        util::escaped(seq!['>']) == "&gt;"@,
        util::escaped(seq!['"']) == "&quot;"@,
        util::escaped(seq!['\'']) == "&#39;"@,
        c != '&' && c != '<' && c != '>' && c != '"' && c != '\'' ==> util::escaped(seq![c])
            == seq![c],
    decreases b.len(),
{
    if b.len() == 0 {
        assert(a + b == a);
        assert(util::escaped(a) + util::escaped(b) == util::escaped(a));
    } else {
        law_escaping(a, b.drop_last(), c);
        assert((a + b).drop_last() == a + b.drop_last());
        assert(util::escaped(a) + (util::escaped(b.drop_last()) + util::escaped_char(b.last()))
            == util::escaped(a) + util::escaped(b.drop_last()) + util::escaped_char(b.last()));
    }
    lemma_escaped_one('&');
    lemma_escaped_one('<');
    lemma_escaped_one('>');
    lemma_escaped_one('"');
    lemma_escaped_one('\'');
    lemma_escaped_one(c);
}

proof fn lemma_escaped_one(c: char)
    ensures
        util::escaped(seq![c]) == util::escaped_char(c),
{
    let none = Seq::<char>::empty();
    assert(seq![c].drop_last() == none);
    assert(util::escaped(none) == none);
    assert(none + util::escaped_char(c) == util::escaped_char(c));
}

/// Lines with their endings, each of them LF or CRLF.
pub open spec fn ended(lines: Seq<(Seq<char>, bool)>) -> Seq<char>
    decreases lines.len(),
{
    if lines.len() == 0 {
        seq![]
    } else {
        lines[0].0 + (if lines[0].1 {
            seq!['\r', '\n']
        } else {
            seq!['\n']
        }) + ended(lines.drop_first())
    }
}

/// Whether a text holds no line ending.
pub open spec fn is_line(s: Seq<char>) -> bool {
    forall|i: int| 0 <= i < s.len() ==> (#[trigger] s[i]) != '\n' && s[i] != '\r'
}

proof fn lemma_parts_of_ended(lines: Seq<(Seq<char>, bool)>, last: Seq<char>)
    requires
        forall|i: int| 0 <= i < lines.len() ==> is_line((#[trigger] lines[i]).0),
        is_line(last),
    ensures
        text::split(ended(lines) + last, Pattern::Char('\n')) == lines.map_values(
            |line: (Seq<char>, bool)|
                if line.1 {
                    line.0.push('\r')
                } else {
                    line.0
                },
        ).push(last),
    decreases lines.len(),
{
    let p = Pattern::Char('\n');
    let whole = |line: (Seq<char>, bool)|
        if line.1 {
            line.0.push('\r')
        } else {
            line.0
        };
    if lines.len() == 0 {
        assert(ended(lines) + last == last);
        assert forall|i: int| 0 <= i < last.len() implies !p.has(#[trigger] last[i]) by {}
        laws::texts::lemma_split_whole(last, p);
        assert(lines.map_values(whole).push(last) == seq![last]);
    } else {
        let rest = lines.drop_first();
        let first = whole(lines[0]);
        assert forall|i: int| 0 <= i < rest.len() implies is_line((#[trigger] rest[i]).0) by {
            assert(rest[i] == lines[i + 1]);
        }
        lemma_parts_of_ended(rest, last);
        assert(is_line(lines[0].0));
        assert(ended(lines) + last == first.push('\n') + (ended(rest) + last));
        assert forall|i: int| 0 <= i < first.len() implies !p.has(#[trigger] first[i]) by {
            if i < lines[0].0.len() {
                assert(first[i] == lines[0].0[i]);
            }
        }
        laws::texts::lemma_split_whole(first, p);
        laws::texts::lemma_split_concat(first, '\n', ended(rest) + last, p);
        assert(lines.map_values(whole).push(last) == seq![first] + rest.map_values(whole).push(
            last,
        ));
    }
}

/// A text is read as its lines, whichever way they end; the last one may have no ending.
pub proof fn law_lines(lines: Seq<(Seq<char>, bool)>, last: Seq<char>)
    requires
        forall|i: int| 0 <= i < lines.len() ==> is_line((#[trigger] lines[i]).0),
        is_line(last),
    ensures
        text::lines(ended(lines) + last) == lines.map_values(|line: (Seq<char>, bool)| line.0) + (
        if last.len() > 0 {
            seq![last]
        } else {
            seq![]
        }),
{
    lemma_parts_of_ended(lines, last);
    let parts = text::split(ended(lines) + last, Pattern::Char('\n'));
    let plain = lines.map_values(|line: (Seq<char>, bool)| line.0);
    let ended_lines = parts.drop_last().map_values(|line: Seq<char>| text::without_cr(line));
    assert forall|i: int| 0 <= i < lines.len() implies ended_lines[i] == #[trigger] plain[i] by {
        let line = lines[i];
        assert(is_line(line.0));
        if line.1 {
            assert(line.0.push('\r').drop_last() == line.0);
        } else if line.0.len() > 0 {
            assert(line.0[line.0.len() - 1] != '\r');
        }
    }
    assert(ended_lines == plain);
    if last.len() == 0 {
        assert(plain + Seq::<Seq<char>>::empty() == plain);
    } else {
        assert(plain.push(last) == plain + seq![last]);
    }
}

/// Texts are in the order of the first characters that differ; one that another starts with
/// comes before it.
pub proof fn law_order_of_texts(front: Seq<char>, a: Seq<char>, b: Seq<char>)
    ensures
        text::text_le(front, front + b),
        b.len() > 0 ==> !text::text_le(front + b, front),
        a.len() > 0 && b.len() > 0 && a[0] != b[0] ==> (text::text_le(front + a, front + b)
            <==> (a[0] as int) < (b[0] as int)),
    decreases front.len(),
{
    if front.len() == 0 {
        assert(front + a == a && front + b == b);
    } else {
        let rest = front.drop_first();
        law_order_of_texts(rest, a, b);
        assert((front + a).drop_first() == rest + a);
        assert((front + b).drop_first() == rest + b);
        assert((front + a)[0] == front[0] && (front + b)[0] == front[0]);
    }
}

/// Texts are joined in order with the other text between each and the next.
pub proof fn law_joined_lists(parts: Seq<Seq<char>>, part: Seq<char>, sep: Seq<char>)
    ensures
        text::join(Seq::empty(), sep) == Seq::<char>::empty(),
        text::join(seq![part], sep) == part,
        parts.len() > 0 ==> text::join(parts.push(part), sep) == text::join(parts, sep) + sep
            + part,
{
    assert(parts.push(part).drop_last() == parts);
}

} // verus!
