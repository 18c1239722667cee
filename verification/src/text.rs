//! Text as sequences of characters: searching, trimming, splitting, joining,
//! ASCII case, and numbers in a given radix.
use vstd::prelude::*;
use vstd::slice::*;
use vstd::string::*;
use vstd::utf8::*;

use crate::order;

verus! {

/// `String::push` appends one character at the end of the string.
pub assume_specification[ String::push ](s: &mut String, c: char)
    ensures
        final(s)@ == old(s)@.push(c),
;

/// What `String::from_utf8_lossy` makes of a sequence of bytes.
pub uninterp spec fn lossy_utf8(bytes: Seq<u8>) -> Seq<char>;

/// `std::str::from_utf8` accepts exactly the bytes that are valid UTF-8, and the
/// text that it hands back is the one they encode.
#[verifier::external_body]
pub(crate) fn utf8_text<'a>(bytes: &'a [u8]) -> (text: Option<&'a str>)
    ensures
        match text {
            Some(text) => valid_utf8(bytes@) && text@ == decode_utf8(bytes@),
            None => !valid_utf8(bytes@),
        },
{
    match std::str::from_utf8(bytes) {
        Ok(text) => Some(text),
        Err(_) => None,
    }
}

/// `String::from_utf8_lossy` is a function of the bytes alone, and on valid UTF-8 it
/// gives the text that the bytes encode. What stands in place of invalid bytes is
/// left to its name.
#[verifier::external_body]
pub(crate) fn utf8_text_lossy(bytes: &[u8]) -> (text: String)
    ensures
        text@ == lossy_utf8(bytes@),
        valid_utf8(bytes@) ==> text@ == decode_utf8(bytes@),
{
    String::from_utf8_lossy(bytes).into_owned()
}

/// A class of characters to search, trim or split by.
#[derive(Clone, Copy)]
pub enum Pattern {
    /// One character.
    Char(char),
    /// The characters with the Unicode property White_Space.
    Whitespace,
}

/// The Unicode property White_Space.
pub open spec fn is_whitespace(c: char) -> bool {
    ||| '\u{9}' <= c <= '\u{d}'
    ||| c == '\u{20}'
    ||| c == '\u{85}'
    ||| c == '\u{a0}'
    ||| c == '\u{1680}'
    ||| '\u{2000}' <= c <= '\u{200a}'
    ||| c == '\u{2028}'
    ||| c == '\u{2029}'
    ||| c == '\u{202f}'
    ||| c == '\u{205f}'
    ||| c == '\u{3000}'
}

impl Pattern {
    pub open spec fn has(self, c: char) -> bool {
        match self {
            Pattern::Char(x) => c == x,
            Pattern::Whitespace => is_whitespace(c),
        }
    }

    pub fn matches(&self, c: char) -> (b: bool)
        ensures
            b == self.has(c),
    {
        match self {
            Pattern::Char(x) => c == *x,
            Pattern::Whitespace => {
                ('\u{9}' <= c && c <= '\u{d}') || c == '\u{20}' || c == '\u{85}' || c == '\u{a0}'
                    || c == '\u{1680}' || ('\u{2000}' <= c && c <= '\u{200a}') || c == '\u{2028}'
                    || c == '\u{2029}' || c == '\u{202f}' || c == '\u{205f}' || c == '\u{3000}'
            },
        }
    }
}

/// The index of the first character of the class, or the length where there is none.
pub open spec fn position(s: Seq<char>, p: Pattern) -> int
    decreases s.len(),
{
    if s.len() == 0 || p.has(s[0]) {
        0
    } else {
        1 + position(s.drop_first(), p)
    }
}

/// The length of what stays after the characters of the class are dropped from the end.
pub open spec fn end_position(s: Seq<char>, p: Pattern) -> int
    decreases s.len(),
{
    if s.len() > 0 && p.has(s.last()) {
        end_position(s.drop_last(), p)
    } else {
        s.len() as int
    }
}

/// The number of characters of the class at the start.
pub open spec fn leading(s: Seq<char>, p: Pattern) -> int
    decreases s.len(),
{
    if s.len() > 0 && p.has(s[0]) {
        1 + leading(s.drop_first(), p)
    } else {
        0
    }
}

/// `s` without the characters of the class at its start.
pub open spec fn trimmed_start(s: Seq<char>, p: Pattern) -> Seq<char> {
    s.skip(leading(s, p))
}

/// `s` without the characters of the class at its end.
pub open spec fn trimmed_end(s: Seq<char>, p: Pattern) -> Seq<char> {
    s.take(end_position(s, p))
}

/// `s` without the characters of the class at its two ends.
pub open spec fn trimmed_matches(s: Seq<char>, p: Pattern) -> Seq<char> {
    trimmed_end(trimmed_start(s, p), p)
}

/// `s` without the whitespace at its two ends.
pub open spec fn trimmed(s: Seq<char>) -> Seq<char> {
    trimmed_matches(s, Pattern::Whitespace)
}

/// The parts of `s` between the characters of the class.
pub open spec fn split(s: Seq<char>, p: Pattern) -> Seq<Seq<char>>
    decreases s.len(),
    via split_decreases
{
    let i = position(s, p);
    if i == s.len() {
        seq![s]
    } else {
        seq![s.take(i)] + split(s.skip(i + 1), p)
    }
}

#[via_fn]
proof fn split_decreases(s: Seq<char>, p: Pattern) {
    lemma_position_bounds(s, p);
}

/// The two parts of `s` before and after the first character `c`.
pub open spec fn split_once(s: Seq<char>, c: char) -> Option<(Seq<char>, Seq<char>)> {
    let i = position(s, Pattern::Char(c));
    if i == s.len() {
        None
    } else {
        Some((s.take(i), s.skip(i + 1)))
    }
}

/// The non-empty parts of `s` between whitespace.
pub open spec fn words(s: Seq<char>) -> Seq<Seq<char>> {
    split(s, Pattern::Whitespace).filter(|w: Seq<char>| w.len() > 0)
}

/// A line without the carriage return that its line feed followed.
pub open spec fn without_cr(s: Seq<char>) -> Seq<char> {
    if s.len() > 0 && s.last() == '\r' {
        s.drop_last()
    } else {
        s
    }
}

/// The lines of `s`: each ends with a line feed, or a carriage return and a line feed;
/// the ending of the last one may be missing.
pub open spec fn lines(s: Seq<char>) -> Seq<Seq<char>> {
    let parts = split(s, Pattern::Char('\n'));
    let ended = parts.drop_last().map_values(|line: Seq<char>| without_cr(line));
    if parts.last().len() == 0 {
        ended
    } else {
        ended.push(parts.last())
    }
}

/// The parts, with `sep` between each and the next.
pub open spec fn join(parts: Seq<Seq<char>>, sep: Seq<char>) -> Seq<char>
    decreases parts.len(),
{
    if parts.len() == 0 {
        seq![]
    } else if parts.len() == 1 {
        parts[0]
    } else {
        join(parts.drop_last(), sep) + sep + parts.last()
    }
}

/// The ASCII upper case letters turned to lower case, all else as it is.
pub open spec fn lower_char(c: char) -> char {
    if 'A' <= c <= 'Z' {
        ((c as u8) + 32) as char
    } else {
        c
    }
}

/// The ASCII lower case letters turned to upper case, all else as it is.
pub open spec fn upper_char(c: char) -> char {
    if 'a' <= c <= 'z' {
        ((c as u8) - 32) as char
    } else {
        c
    }
}

pub open spec fn lowered(s: Seq<char>) -> Seq<char> {
    s.map_values(|c: char| lower_char(c))
}

/// What a digit stands for in the radix.
pub open spec fn digit_value(c: char, radix: int) -> Option<int> {
    let v = if '0' <= c <= '9' {
        c as int - '0' as int
    } else if 'a' <= c <= 'z' {
        c as int - 'a' as int + 10
    } else if 'A' <= c <= 'Z' {
        c as int - 'A' as int + 10
    } else {
        radix
    };
    if v < radix {
        Some(v)
    } else {
        None
    }
}

/// What a sequence of digits stands for in the radix.
pub open spec fn digits_value(s: Seq<char>, radix: int) -> Option<int>
    decreases s.len(),
{
    if s.len() == 0 {
        Some(0)
    } else {
        match (digits_value(s.drop_last(), radix), digit_value(s.last(), radix)) {
            (Some(v), Some(d)) => Some(v * radix + d),
            _ => None,
        }
    }
}

/// What `s` stands for as an unsigned number: at least one digit, after an optional plus.
pub open spec fn number(s: Seq<char>, radix: int) -> Option<int> {
    let digits = if s.len() > 0 && s[0] == '+' {
        s.skip(1)
    } else {
        s
    };
    if digits.len() == 0 {
        None
    } else {
        digits_value(digits, radix)
    }
}

/// The number that `s` stands for, where it is at most `max`.
pub open spec fn number_up_to(s: Seq<char>, radix: int, max: int) -> Option<int> {
    match number(s, radix) {
        Some(v) if v <= max => Some(v),
        _ => None,
    }
}

/// The digit that stands for `v`.
pub open spec fn digit_char(v: int) -> char {
    if v < 10 {
        (v + 48) as u8 as char
    } else {
        (v + 87) as u8 as char
    }
}

/// `n` written in the radix, without leading zeros.
pub open spec fn digits(n: nat, radix: nat) -> Seq<char>
    decreases n,
{
    if n < radix || radix < 2 {
        seq![digit_char(n as int)]
    } else {
        proof {
            vstd::arithmetic::div_mod::lemma_div_decreases(n as int, radix as int);
        }
        digits(n / radix, radix).push(digit_char((n % radix) as int))
    }
}

/// `n` written in decimal.
pub open spec fn decimal(n: nat) -> Seq<char> {
    digits(n, 10)
}

/// The order of strings: that of the first characters that differ, and a prefix first.
pub open spec fn text_le(a: Seq<char>, b: Seq<char>) -> bool
    decreases a.len(),
{
    if a.len() == 0 {
        true
    } else if b.len() == 0 {
        false
    } else if a[0] != b[0] {
        a[0] < b[0]
    } else {
        text_le(a.drop_first(), b.drop_first())
    }
}

/// The order of strings.
pub open spec fn text_order() -> spec_fn(Seq<char>, Seq<char>) -> bool {
    |a: Seq<char>, b: Seq<char>| text_le(a, b)
}

/// The texts of a list of slices.
pub open spec fn texts(v: Seq<&[char]>) -> Seq<Seq<char>> {
    v.map_values(|x: &[char]| x@)
}

/// The texts of a list of strings.
pub open spec fn string_texts(v: Seq<String>) -> Seq<Seq<char>> {
    v.map_values(|x: String| x@)
}

pub proof fn lemma_position_bounds(s: Seq<char>, p: Pattern)
    ensures
        0 <= position(s, p) <= s.len(),
        forall|j: int| 0 <= j < position(s, p) ==> !p.has(#[trigger] s[j]),
        position(s, p) < s.len() ==> p.has(s[position(s, p)]),
    decreases s.len(),
{
    if s.len() > 0 && !p.has(s[0]) {
        let t = s.drop_first();
        lemma_position_bounds(t, p);
        assert forall|j: int| 0 <= j < position(s, p) implies !p.has(#[trigger] s[j]) by {
            if j > 0 {
                assert(s[j] == t[j - 1]);
            }
        }
    }
}

pub proof fn lemma_position_is(s: Seq<char>, p: Pattern, i: int)
    requires
        0 <= i <= s.len(),
        forall|j: int| 0 <= j < i ==> !p.has(#[trigger] s[j]),
        i < s.len() ==> p.has(s[i]),
    ensures
        position(s, p) == i,
{
    lemma_position_bounds(s, p);
    let k = position(s, p);
    if k < i {
        assert(!p.has(s[k]));
    } else if i < k {
        assert(!p.has(s[i]));
    }
}

pub proof fn lemma_leading_is(s: Seq<char>, p: Pattern, i: int)
    requires
        0 <= i <= s.len(),
        forall|j: int| 0 <= j < i ==> p.has(#[trigger] s[j]),
        i < s.len() ==> !p.has(s[i]),
    ensures
        leading(s, p) == i,
    decreases s.len(),
{
    if i > 0 {
        assert(p.has(s[0]));
        lemma_leading_is(s.drop_first(), p, i - 1);
    }
}

pub proof fn lemma_end_position_is(s: Seq<char>, p: Pattern, i: int)
    requires
        0 <= i <= s.len(),
        forall|j: int| i <= j < s.len() ==> p.has(#[trigger] s[j]),
        i > 0 ==> !p.has(s[i - 1]),
    ensures
        end_position(s, p) == i,
    decreases s.len(),
{
    if i < s.len() {
        assert(p.has(s[s.len() - 1]));
        lemma_end_position_is(s.drop_last(), p, i);
    }
}

pub proof fn lemma_split_nonempty(s: Seq<char>, p: Pattern)
    ensures
        split(s, p).len() > 0,
{
    lemma_position_bounds(s, p);
}

/// A longer sequence of digits stands for no smaller number.
proof fn lemma_digits_value_grows(s: Seq<char>, n: int, radix: int)
    requires
        0 <= n <= s.len(),
        radix >= 2,
    ensures
        digits_value(s, radix) matches Some(v) ==> (digits_value(s.take(n), radix) matches Some(u)
            && 0 <= u <= v),
    decreases s.len(),
{
    if s.len() > 0 {
        lemma_digits_value_grows(s.drop_last(), s.len() - 1, radix);
        if digits_value(s, radix) is Some {
            let u = digits_value(s.drop_last(), radix).unwrap();
            assert(s.drop_last().take(s.len() - 1) == s.drop_last());
            assert(u * radix >= u) by (nonlinear_arith)
                requires
                    u >= 0,
                    radix >= 2,
            ;
            if n < s.len() {
                lemma_digits_value_grows(s.drop_last(), n, radix);
                assert(s.drop_last().take(n) == s.take(n));
            } else {
                assert(s.take(n) == s);
            }
        }
    } else {
        assert(s.take(n) == s);
    }
}

/// A number is not negative.
pub proof fn lemma_number(s: Seq<char>, radix: int)
    requires
        radix >= 2,
    ensures
        number(s, radix) matches Some(v) ==> v >= 0,
{
    let digits = if s.len() > 0 && s[0] == '+' {
        s.skip(1)
    } else {
        s
    };
    lemma_digits_value_grows(digits, digits.len() as int, radix);
}

/// Reading the digits of a number gives the number back.
pub proof fn lemma_digits_read_back(n: nat, radix: nat)
    requires
        2 <= radix <= 36,
    ensures
        digits(n, radix).len() > 0,
        digits_value(digits(n, radix), radix as int) == Some(n as int),
        forall|i: int|
            0 <= i < digits(n, radix).len() ==> {
                let c = #[trigger] digits(n, radix)[i];
                '0' <= c <= '9' || 'a' <= c <= 'z'
            },
    decreases n,
{
    let s = digits(n, radix);
    if n < radix {
        let empty = Seq::<char>::empty();
        assert(s.drop_last() == empty);
        assert(digits_value(empty, radix as int) == Some(0int));
        assert(digit_value(digit_char(n as int), radix as int) == Some(n as int));
        assert(0 * radix == 0) by (nonlinear_arith);
    } else {
        let q = n / radix;
        let r = n % radix;
        vstd::arithmetic::div_mod::lemma_div_decreases(n as int, radix as int);
        vstd::arithmetic::div_mod::lemma_fundamental_div_mod(n as int, radix as int);
        vstd::arithmetic::div_mod::lemma_mod_bound(n as int, radix as int);
        lemma_digits_read_back(q, radix);
        assert(s.drop_last() == digits(q, radix));
        assert(digit_value(digit_char(r as int), radix as int) == Some(r as int));
        assert(q * radix == radix * q) by (nonlinear_arith);
        assert forall|i: int| 0 <= i < s.len() implies {
            let c = #[trigger] s[i];
            '0' <= c <= '9' || 'a' <= c <= 'z'
        } by {
            if i < s.len() - 1 {
                assert(s[i] == digits(q, radix)[i]);
            }
        }
    }
}

/// The characters of `s`.
pub fn chars_of(s: &str) -> (v: Vec<char>)
    ensures
        v@ == s@,
{
    let mut v: Vec<char> = Vec::new();
    for c in it: s.chars()
        invariant
            v@ == it.seq().take(it.index()),
    {
        v.push(c);
    }
    v
}

/// The string made of the characters `v`.
pub fn string_of(v: &[char]) -> (s: String)
    ensures
        s@ == v@,
{
    let mut s = String::new();
    append_chars(&mut s, v);
    s
}

/// Appends the characters `v`.
pub fn append_chars(s: &mut String, v: &[char])
    ensures
        final(s)@ == old(s)@ + v@,
{
    let ghost before = s@;
    for i in 0..v.len()
        invariant
            s@ == before + v@.take(i as int),
    {
        s.push(v[i]);
        assert(v@.take(i as int).push(v@[i as int]) == v@.take(i + 1));
    }
    assert(v@.take(v@.len() as int) == v@);
}

/// Whether two texts are the same.
pub fn same(a: &[char], b: &[char]) -> (r: bool)
    ensures
        r == (a@ == b@),
{
    if a.len() != b.len() {
        return false;
    }
    for i in 0..a.len()
        invariant
            a@.len() == b@.len(),
            a@.take(i as int) == b@.take(i as int),
    {
        if a[i] != b[i] {
            assert(a@[i as int] != b@[i as int]);
            return false;
        }
        assert(a@.take(i + 1) == a@.take(i as int).push(a@[i as int]));
        assert(b@.take(i + 1) == b@.take(i as int).push(b@[i as int]));
    }
    assert(a@.take(a@.len() as int) == a@);
    assert(b@.take(b@.len() as int) == b@);
    true
}

/// Whether a text is the given string.
pub fn is_text(a: &[char], b: &str) -> (r: bool)
    ensures
        r == (a@ == b@),
{
    let b = chars_of(b);
    same(a, b.as_slice())
}

/// Whether two strings are the same.
pub fn same_str(a: &str, b: &str) -> (r: bool)
    ensures
        r == (a@ == b@),
{
    let x = a.as_bytes();
    let y = b.as_bytes();
    proof {
        encode_utf8_decode_utf8(a@);
        encode_utf8_decode_utf8(b@);
    }
    if x.len() != y.len() {
        return false;
    }
    for i in 0..x.len()
        invariant
            x@ == encode_utf8(a@),
            y@ == encode_utf8(b@),
            x@.len() == y@.len(),
            forall|j: int| 0 <= j < i ==> x@[j] == y@[j],
    {
        if x[i] != y[i] {
            return false;
        }
    }
    assert(x@ == y@);
    true
}

/// The index of the first character of the class, or the length where there is none.
pub fn find(s: &[char], p: Pattern) -> (i: usize)
    ensures
        i == position(s@, p),
        i <= s@.len(),
{
    let mut i: usize = 0;
    while i < s.len() && !p.matches(s[i])
        invariant
            i <= s@.len(),
            forall|j: int| 0 <= j < i ==> !p.has(#[trigger] s@[j]),
        decreases s@.len() - i,
    {
        i += 1;
    }
    proof {
        lemma_position_is(s@, p, i as int);
    }
    i
}

pub fn trim_start(s: &[char], p: Pattern) -> (t: &[char])
    ensures
        t@ == trimmed_start(s@, p),
{
    let mut i: usize = 0;
    while i < s.len() && p.matches(s[i])
        invariant
            i <= s@.len(),
            forall|j: int| 0 <= j < i ==> p.has(#[trigger] s@[j]),
        decreases s@.len() - i,
    {
        i += 1;
    }
    proof {
        lemma_leading_is(s@, p, i as int);
    }
    slice_subrange(s, i, s.len())
}

pub fn trim_end(s: &[char], p: Pattern) -> (t: &[char])
    ensures
        t@ == trimmed_end(s@, p),
{
    let mut i: usize = s.len();
    while i > 0 && p.matches(s[i - 1])
        invariant
            i <= s@.len(),
            forall|j: int| i <= j < s@.len() ==> p.has(#[trigger] s@[j]),
        decreases i,
    {
        i -= 1;
    }
    proof {
        lemma_end_position_is(s@, p, i as int);
    }
    slice_subrange(s, 0, i)
}

pub fn trim_matches(s: &[char], p: Pattern) -> (t: &[char])
    ensures
        t@ == trimmed_matches(s@, p),
{
    trim_end(trim_start(s, p), p)
}

pub fn trim(s: &[char]) -> (t: &[char])
    ensures
        t@ == trimmed(s@),
{
    trim_matches(s, Pattern::Whitespace)
}

/// The parts of `s` between the characters of the class.
pub fn split_on(s: &[char], p: Pattern) -> (parts: Vec<&[char]>)
    ensures
        texts(parts@) == split(s@, p),
        parts@.len() > 0,
{
    let mut parts: Vec<&[char]> = Vec::new();
    let mut start: usize = 0;
    let mut i: usize = 0;
    assert(s@.skip(0) == s@);
    assert(texts(parts@) + split(s@.skip(0), p) == split(s@, p));
    while i < s.len()
        invariant
            start <= i <= s@.len(),
            forall|j: int| start <= j < i ==> !p.has(#[trigger] s@[j]),
            texts(parts@) + split(s@.skip(start as int), p) == split(s@, p),
        decreases s@.len() - i,
    {
        if p.matches(s[i]) {
            let ghost rest = s@.skip(start as int);
            let ghost before = parts@;
            proof {
                lemma_position_is(rest, p, i - start);
                assert(rest.take(i - start) == s@.subrange(start as int, i as int));
                assert(rest.skip(i - start + 1) == s@.skip(i + 1));
            }
            parts.push(slice_subrange(s, start, i));
            assert(texts(parts@) == texts(before).push(s@.subrange(start as int, i as int)));
            assert(texts(before) + (seq![s@.subrange(start as int, i as int)] + split(
                s@.skip(i + 1),
                p,
            )) == texts(parts@) + split(s@.skip(i + 1), p));
            start = i + 1;
        }
        i += 1;
    }
    let ghost rest = s@.skip(start as int);
    let ghost before = parts@;
    proof {
        lemma_position_is(rest, p, rest.len() as int);
    }
    parts.push(slice_subrange(s, start, s.len()));
    assert(texts(parts@) == texts(before).push(s@.subrange(start as int, s@.len() as int)));
    assert(s@.subrange(start as int, s@.len() as int) == rest);
    parts
}

/// The two parts of `s` before and after the first character `c`.
pub fn split_at_char(s: &[char], c: char) -> (parts: Option<(&[char], &[char])>)
    ensures
        match parts {
            Some(parts) => split_once(s@, c) == Some((parts.0@, parts.1@)),
            None => split_once(s@, c) is None,
        },
{
    let i: usize = find(s, Pattern::Char(c));
    if i == s.len() {
        None
    } else {
        Some((slice_subrange(s, 0, i), slice_subrange(s, i + 1, s.len())))
    }
}

/// The non-empty parts of `s` between whitespace.
pub fn split_words(s: &[char]) -> (parts: Vec<&[char]>)
    ensures
        texts(parts@) == words(s@),
{
    let all = split_on(s, Pattern::Whitespace);
    let ghost pred = |w: Seq<char>| w.len() > 0;
    let mut parts: Vec<&[char]> = Vec::new();
    assert(texts(all@).take(0).filter(pred) == texts(parts@)) by {
        assert(texts(all@).take(0).len() == 0);
        reveal(Seq::filter);
    }
    for i in 0..all.len()
        invariant
            pred == (|w: Seq<char>| w.len() > 0),
            texts(parts@) == texts(all@).take(i as int).filter(pred),
    {
        let ghost before = parts@;
        proof {
            texts(all@).take(i as int).lemma_filter_push(texts(all@)[i as int], pred);
            assert(texts(all@).take(i + 1) == texts(all@).take(i as int).push(
                texts(all@)[i as int],
            ));
        }
        if all[i].len() > 0 {
            parts.push(all[i]);
            assert(texts(parts@) == texts(before).push(all@[i as int]@));
        }
    }
    assert(texts(all@).take(all@.len() as int) == texts(all@));
    parts
}

/// The lines of `s`.
pub fn split_lines(s: &[char]) -> (parts: Vec<&[char]>)
    ensures
        texts(parts@) == lines(s@),
{
    let all = split_on(s, Pattern::Char('\n'));
    let n: usize = all.len() - 1;
    let mut parts: Vec<&[char]> = Vec::new();
    let ghost strip = |line: Seq<char>| without_cr(line);
    for i in 0..n
        invariant
            n + 1 == all@.len(),
            strip == (|line: Seq<char>| without_cr(line)),
            texts(parts@) == texts(all@).take(i as int).map_values(strip),
    {
        let line = all[i];
        let ghost before = parts@;
        if line.len() > 0 && line[line.len() - 1] == '\r' {
            parts.push(slice_subrange(line, 0, line.len() - 1));
        } else {
            parts.push(line);
        }
        assert(parts@.last()@ == without_cr(line@));
        assert(texts(parts@) == texts(before).push(without_cr(texts(all@)[i as int])));
        assert(texts(all@).take(i + 1).map_values(strip) == texts(all@).take(i as int).map_values(
            strip,
        ).push(strip(texts(all@)[i as int])));
    }
    assert(texts(all@).take(n as int) == texts(all@).drop_last());
    if all[n].len() > 0 {
        let ghost before = parts@;
        parts.push(all[n]);
        assert(texts(parts@) == texts(before).push(texts(all@).last()));
    }
    parts
}

/// What follows `prefix` in `s`, where `s` starts with it.
pub fn strip_prefix<'a>(s: &'a [char], prefix: &str) -> (rest: Option<&'a [char]>)
    ensures
        match rest {
            Some(rest) => prefix@.is_prefix_of(s@) && rest@ == s@.skip(prefix@.len() as int),
            None => !prefix@.is_prefix_of(s@),
        },
{
    let p = chars_of(prefix);
    if s.len() < p.len() {
        return None;
    }
    let front = slice_subrange(s, 0, p.len());
    if same(front, p.as_slice()) {
        Some(slice_subrange(s, p.len(), s.len()))
    } else {
        None
    }
}

/// Whether one of the parts of `s` between commas is `token`, whitespace aside.
pub open spec fn lists(s: Seq<char>, token: Seq<char>) -> bool {
    exists|i: int|
        0 <= i < split(s, Pattern::Char(',')).len() && trimmed(
            #[trigger] split(s, Pattern::Char(','))[i],
        ) == token
}

/// Whether one of the parts of `s` between commas is `token`, whitespace aside.
pub fn list_has(s: &[char], token: &str) -> (b: bool)
    ensures
        b == lists(s@, token@),
{
    let parts = split_on(s, Pattern::Char(','));
    let ghost all = split(s@, Pattern::Char(','));
    for i in 0..parts.len()
        invariant
            texts(parts@) == all,
            all == split(s@, Pattern::Char(',')),
            forall|j: int| 0 <= j < i ==> trimmed(#[trigger] all[j]) != token@,
    {
        assert(all[i as int] == parts@[i as int]@);
        if is_text(trim(parts[i]), token) {
            return true;
        }
    }
    false
}

/// The ASCII upper case letters turned to lower case.
pub fn lower(s: &[char]) -> (t: Vec<char>)
    ensures
        t@ == lowered(s@),
{
    let mut t: Vec<char> = Vec::new();
    for i in 0..s.len()
        invariant
            t@ == lowered(s@.take(i as int)),
    {
        let c = s[i];
        if 'A' <= c && c <= 'Z' {
            t.push(((c as u8) + 32) as char);
        } else {
            t.push(c);
        }
        assert(lowered(s@.take(i + 1)) == lowered(s@.take(i as int)).push(lower_char(s@[i as int])));
    }
    assert(s@.take(s@.len() as int) == s@);
    t
}

/// The ASCII lower case letter turned to upper case.
pub fn to_upper(c: char) -> (u: char)
    ensures
        u == upper_char(c),
{
    if 'a' <= c && c <= 'z' {
        ((c as u8) - 32) as char
    } else {
        c
    }
}

/// What a digit stands for in the radix.
fn digit(c: char, radix: u64) -> (d: Option<u64>)
    requires
        2 <= radix <= 36,
    ensures
        match d {
            Some(d) => digit_value(c, radix as int) == Some(d as int) && d < radix,
            None => digit_value(c, radix as int) is None,
        },
{
    let v: u64 = if '0' <= c && c <= '9' {
        c as u64 - 48
    } else if 'a' <= c && c <= 'z' {
        c as u64 - 87
    } else if 'A' <= c && c <= 'Z' {
        c as u64 - 55
    } else {
        radix
    };
    if v < radix {
        Some(v)
    } else {
        None
    }
}

/// The number that `s` stands for in the radix, where it is at most `max`.
pub fn parse_number(s: &[char], radix: u64, max: u64) -> (n: Option<u64>)
    requires
        2 <= radix <= 36,
    ensures
        match n {
            Some(n) => number_up_to(s@, radix as int, max as int) == Some(n as int) && n <= max,
            None => number_up_to(s@, radix as int, max as int) is None,
        },
{
    let start: usize = if s.len() > 0 && s[0] == '+' {
        1
    } else {
        0
    };
    let digits = slice_subrange(s, start, s.len());
    assert(start == 0 ==> digits@ == s@);
    if digits.len() == 0 {
        return None;
    }
    let ghost r = radix as int;
    let mut value: u64 = 0;
    assert(digits@.take(0) == Seq::<char>::empty());
    for i in 0..digits.len()
        invariant
            r == radix,
            2 <= radix <= 36,
            digits@.len() > 0,
            number(s@, r) == digits_value(digits@, r),
            digits_value(digits@.take(i as int), r) == Some(value as int),
            value <= max,
    {
        proof {
            assert(digits@.take(i + 1).drop_last() == digits@.take(i as int));
            assert(digits@.take(i + 1).last() == digits@[i as int]);
            lemma_digits_value_grows(digits@, i + 1, r);
        }
        let d: u64 = match digit(digits[i], radix) {
            Some(d) => d,
            None => {
                return None;
            },
        };
        if d > max || value > (max - d) / radix {
            proof {
                if d <= max {
                    let q = (max - d) / r;
                    vstd::arithmetic::div_mod::lemma_fundamental_div_mod(max - d, r);
                    vstd::arithmetic::div_mod::lemma_mod_bound(max - d, r);
                    assert(value * r + d > max) by (nonlinear_arith)
                        requires
                            value >= q + 1,
                            max - d == r * q + (max - d) % r,
                            (max - d) % r < r,
                            r >= 2,
                    ;
                } else {
                    assert(value * r >= 0) by (nonlinear_arith)
                        requires
                            value >= 0,
                            r >= 2,
                    ;
                }
            }
            return None;
        }
        proof {
            let q = (max - d) / r;
            vstd::arithmetic::div_mod::lemma_fundamental_div_mod(max - d, r);
            vstd::arithmetic::div_mod::lemma_mod_bound(max - d, r);
            assert(value * r + d <= max) by (nonlinear_arith)
                requires
                    value <= q,
                    max - d == r * q + (max - d) % r,
                    (max - d) % r >= 0,
                    r >= 2,
            ;
        }
        value = value * radix + d;
    }
    assert(digits@.take(digits@.len() as int) == digits@);
    Some(value)
}

/// Appends `n` written in the radix.
pub fn append_number(s: &mut String, n: u64, radix: u64)
    requires
        2 <= radix <= 36,
    ensures
        final(s)@ == old(s)@ + digits(n as nat, radix as nat),
    decreases n,
{
    if n >= radix {
        proof {
            vstd::arithmetic::div_mod::lemma_div_decreases(n as int, radix as int);
        }
        append_number(s, n / radix, radix);
    }
    let d: u64 = n % radix;
    proof {
        if n < radix {
            vstd::arithmetic::div_mod::lemma_small_mod(n as nat, radix as nat);
        } else {
            vstd::arithmetic::div_mod::lemma_mod_bound(n as int, radix as int);
        }
    }
    if d < 10 {
        s.push((d as u8 + 48) as char);
    } else {
        s.push((d as u8 + 87) as char);
    }
    assert(s@ == old(s)@ + digits(n as nat, radix as nat));
}

proof fn lemma_text_le_total(a: Seq<char>, b: Seq<char>)
    ensures
        text_le(a, b) || text_le(b, a),
    decreases a.len(),
{
    if a.len() > 0 && b.len() > 0 && a[0] == b[0] {
        lemma_text_le_total(a.drop_first(), b.drop_first());
    }
}

proof fn lemma_text_le_transitive(a: Seq<char>, b: Seq<char>, c: Seq<char>)
    requires
        text_le(a, b),
        text_le(b, c),
    ensures
        text_le(a, c),
    decreases a.len(),
{
    if a.len() > 0 && a[0] == b[0] && b[0] == c[0] {
        lemma_text_le_transitive(a.drop_first(), b.drop_first(), c.drop_first());
    }
}

/// The order of strings compares any two of them.
pub proof fn lemma_text_order()
    ensures
        order::total_preorder(text_order()),
{
    let le = text_order();
    assert forall|a: Seq<char>, b: Seq<char>| #[trigger] le(a, b) || le(b, a) by {
        lemma_text_le_total(a, b);
    }
    assert forall|a: Seq<char>, b: Seq<char>, c: Seq<char>| #[trigger]
        le(a, b) && #[trigger] le(b, c) implies le(a, c) by {
        lemma_text_le_transitive(a, b, c);
    }
}

/// Whether `a` comes before `b` or is the same.
pub fn ordered(a: &[char], b: &[char]) -> (r: bool)
    ensures
        r == text_le(a@, b@),
{
    let mut i: usize = 0;
    assert(a@.skip(0) == a@ && b@.skip(0) == b@);
    while i < a.len() && i < b.len()
        invariant
            i <= a@.len(),
            i <= b@.len(),
            text_le(a@, b@) == text_le(a@.skip(i as int), b@.skip(i as int)),
        decreases a@.len() - i,
    {
        assert(a@.skip(i as int).drop_first() == a@.skip(i + 1));
        assert(b@.skip(i as int).drop_first() == b@.skip(i + 1));
        if a[i] != b[i] {
            return a[i] < b[i];
        }
        i += 1;
    }
    i == a.len()
}

/// The strings in order.
pub fn sort_texts(list: Vec<String>) -> (r: Vec<String>)
    ensures
        string_texts(r@) == order::stable_sort(string_texts(list@), text_order()),
{
    let ghost all = string_texts(list@);
    let mut sorted: Vec<String> = Vec::new();
    assert(string_texts(sorted@) == order::stable_sort(all.take(0), text_order()));
    for item in it: list
        invariant
            all == string_texts(it.seq()),
            string_texts(sorted@) == order::stable_sort(
                all.take(it.index() as int),
                text_order(),
            ),
    {
        let ghost done = all.take(it.index() as int);
        let ghost before = string_texts(sorted@);
        let ghost added = item@;
        let key = chars_of(item.as_str());
        let mut i: usize = 0;
        while i < sorted.len() && ordered(chars_of(sorted[i].as_str()).as_slice(), key.as_slice())
            invariant
                i <= sorted@.len(),
                before == string_texts(sorted@),
                key@ == added,
                forall|j: int| 0 <= j < i ==> text_le(#[trigger] before[j], added),
            ensures
                i <= sorted@.len(),
                before == string_texts(sorted@),
                forall|j: int| 0 <= j < i ==> text_le(#[trigger] before[j], added),
                i < sorted@.len() ==> !text_le(before[i as int], added),
            decreases sorted@.len() - i,
        {
            i += 1;
        }
        proof {
            order::lemma_insert_position_is(before, added, text_order(), i as int);
            assert(all.take(it.index() + 1).drop_last() == done);
            assert(all.take(it.index() + 1).last() == added);
        }
        sorted.insert(i, item);
        assert(string_texts(sorted@) == before.insert(i as int, added));
    }
    assert(all.take(all.len() as int) == all);
    sorted
}

/// The strings one after the other, with a separator between.
pub fn join_texts(parts: &Vec<String>, sep: &str) -> (r: String)
    ensures
        r@ == join(string_texts(parts@), sep@),
{
    let ghost all = string_texts(parts@);
    let mut r = String::new();
    for i in 0..parts.len()
        invariant
            all == string_texts(parts@),
            r@ == join(all.take(i as int), sep@),
    {
        assert(all.take(i + 1).drop_last() == all.take(i as int));
        assert(all.take(i + 1).last() == parts@[i as int]@);
        if i > 0 {
            r.append(sep);
        }
        r.append(parts[i].as_str());
    }
    assert(all.take(all.len() as int) == all);
    r
}

} // verus!
