//! Helpers for host names, percent encoding, HTML, content types and file names.
use vstd::prelude::*;
use vstd::slice::*;
use vstd::string::*;
use vstd::utf8::*;

use crate::path;
use crate::path::raw_extension_of;
use crate::text;
use crate::text::{chars_of, find, is_text, lower, string_of, trim, utf8_text, Pattern};

verus! {

/// A host in lower case, without the whitespace around it and without the port.
pub open spec fn hostname(host: Seq<char>) -> Seq<char> {
    let host = text::trimmed(host);
    let bracket = text::position(host, Pattern::Char(']'));
    text::lowered(
        if host.len() > 0 && host[0] == '[' && bracket < host.len() {
            host.take(bracket + 1)
        } else {
            host.take(text::position(host, Pattern::Char(':')))
        },
    )
}

/// What a byte stands for as a hexadecimal digit.
pub open spec fn hex_value(b: u8) -> Option<int> {
    if 48 <= b <= 57 {
        Some(b - 48)
    } else if 97 <= b <= 102 {
        Some(b - 87)
    } else if 65 <= b <= 70 {
        Some(b - 55)
    } else {
        None
    }
}

/// The bytes with each percent sign and the two hexadecimal digits after it replaced by
/// the byte that they stand for.
pub open spec fn percent_bytes(s: Seq<u8>) -> Option<Seq<u8>>
    decreases s.len(),
{
    if s.len() == 0 {
        Some(seq![])
    } else if s[0] != 37 {
        match percent_bytes(s.skip(1)) {
            Some(rest) => Some(seq![s[0]] + rest),
            None => None,
        }
    } else if s.len() < 3 {
        None
    } else {
        match (hex_value(s[1]), hex_value(s[2]), percent_bytes(s.skip(3))) {
            (Some(high), Some(low), Some(rest)) => Some(seq![(high * 16 + low) as u8] + rest),
            _ => None,
        }
    }
}

/// The text that percent-encoded text stands for, where it is well formed.
pub open spec fn percent_decoded(s: Seq<char>) -> Option<Seq<char>> {
    match percent_bytes(encode_utf8(s)) {
        Some(bytes) => if valid_utf8(bytes) {
            Some(decode_utf8(bytes))
        } else {
            None
        },
        None => None,
    }
}

pub open spec fn escaped_char(c: char) -> Seq<char> {
    if c == '&' {
        "&amp;"@
    } else if c == '<' {
        "&lt;"@
    } else if c == '>' {
        "&gt;"@
    } else if c == '"' {
        "&quot;"@
    } else if c == '\'' {
        "&#39;"@
    } else {
        seq![c]
    }
}

/// The text with the characters that mean something in HTML replaced.
pub open spec fn escaped(s: Seq<char>) -> Seq<char>
    decreases s.len(),
{
    if s.len() == 0 {
        seq![]
    } else {
        escaped(s.drop_last()) + escaped_char(s.last())
    }
}

/// The content type of a file with the extension.
pub open spec fn media_type(ext: Option<Seq<char>>) -> Seq<char> {
    match ext {
        Some(ext) => {
            let ext = text::lowered(ext);
            if ext == "html"@ || ext == "htm"@ {
                "text/html; charset=utf-8"@
            } else if ext == "css"@ {
                "text/css; charset=utf-8"@
            } else if ext == "js"@ {
                "application/javascript; charset=utf-8"@
            } else if ext == "json"@ {
                "application/json"@
            } else if ext == "txt"@ {
                "text/plain; charset=utf-8"@
            } else if ext == "png"@ {
                "image/png"@
            } else if ext == "jpg"@ || ext == "jpeg"@ {
                "image/jpeg"@
            } else if ext == "gif"@ {
                "image/gif"@
            } else if ext == "svg"@ {
                "image/svg+xml"@
            } else if ext == "ico"@ {
                "image/x-icon"@
            } else if ext == "pdf"@ {
                "application/pdf"@
            } else {
                "application/octet-stream"@
            }
        },
        None => "application/octet-stream"@,
    }
}

/// The characters that a file name may hold.
pub open spec fn is_name_char(c: char) -> bool {
    ||| 'a' <= c <= 'z'
    ||| 'A' <= c <= 'Z'
    ||| '0' <= c <= '9'
    ||| c == '.'
    ||| c == '-'
    ||| c == '_'
}

pub open spec fn safe_char(c: char) -> char {
    if is_name_char(c) {
        c
    } else {
        '_'
    }
}

/// The index after the last slash or backslash.
pub open spec fn base_name_start(s: Seq<char>) -> int
    decreases s.len(),
{
    if s.len() == 0 || s.last() == '/' || s.last() == '\\' {
        s.len() as int
    } else {
        base_name_start(s.drop_last())
    }
}

pub open spec fn all_dots(s: Seq<char>) -> bool {
    forall|i: int| 0 <= i < s.len() ==> s[i] == '.'
}

/// The file name to store an upload under: the part after the last slash, with an
/// underscore in place of each character that a file name may not hold. There is none
/// where nothing but dots is left.
pub open spec fn safe_file_name(name: Seq<char>) -> Option<Seq<char>> {
    let base = text::trimmed(name.skip(base_name_start(name)));
    let safe = base.map_values(|c: char| safe_char(c));
    if all_dots(safe) {
        None
    } else {
        Some(safe)
    }
}

/// A host in lower case, without the whitespace around it and without the port.
pub fn host_without_port(host: &str) -> (r: String)
    ensures
        r@ == hostname(host@),
{
    let chars = chars_of(host);
    let host = trim(chars.as_slice());
    let bracket: usize = find(host, Pattern::Char(']'));
    let end: usize = if host.len() > 0 && host[0] == '[' && bracket < host.len() {
        bracket + 1
    } else {
        find(host, Pattern::Char(':'))
    };
    let name = lower(slice_subrange(host, 0, end));
    string_of(name.as_slice())
}

fn hex_digit(b: u8) -> (v: Option<u8>)
    ensures
        match v {
            Some(v) => hex_value(b) == Some(v as int) && v < 16,
            None => hex_value(b) is None,
        },
{
    if 48 <= b && b <= 57 {
        Some(b - 48)
    } else if 97 <= b && b <= 102 {
        Some(b - 87)
    } else if 65 <= b && b <= 70 {
        Some(b - 55)
    } else {
        None
    }
}

/// The text that percent-encoded text stands for, where it is well formed.
pub fn percent_decode(s: &str) -> (r: Option<String>)
    ensures
        match r {
            Some(r) => percent_decoded(s@) == Some(r@),
            None => percent_decoded(s@) is None,
        },
{
    let bytes = s.as_bytes();
    let ghost whole = percent_bytes(bytes@);
    let mut out: Vec<u8> = Vec::new();
    let mut i: usize = 0;
    assert(bytes@.skip(0) == bytes@);
    while i < bytes.len()
        invariant
            i <= bytes@.len(),
            bytes@ == encode_utf8(s@),
            whole == percent_bytes(bytes@),
            match percent_bytes(bytes@.skip(i as int)) {
                Some(rest) => whole == Some(out@ + rest),
                None => whole is None,
            },
        decreases bytes@.len() - i,
    {
        let ghost rest = bytes@.skip(i as int);
        let ghost before = out@;
        if bytes[i] != 37 {
            out.push(bytes[i]);
            proof {
                assert(rest.skip(1) == bytes@.skip(i + 1));
                match percent_bytes(rest.skip(1)) {
                    Some(tail) => {
                        assert(before + (seq![rest[0]] + tail) == out@ + tail);
                    },
                    None => {},
                }
            }
            i += 1;
        } else {
            if bytes.len() - i < 3 {
                return None;
            }
            match (hex_digit(bytes[i + 1]), hex_digit(bytes[i + 2])) {
                (Some(high), Some(low)) => {
                    out.push(high * 16 + low);
                    proof {
                        assert(rest.skip(3) == bytes@.skip(i + 3));
                        match percent_bytes(rest.skip(3)) {
                            Some(tail) => {
                                assert(before + (seq![(high * 16 + low) as u8] + tail) == out@
                                    + tail);
                            },
                            None => {},
                        }
                    }
                },
                _ => {
                    return None;
                },
            }
            i += 3;
        }
    }
    assert(bytes@.skip(i as int) == Seq::<u8>::empty());
    assert(out@ + Seq::<u8>::empty() == out@);
    match utf8_text(out.as_slice()) {
        Some(text) => Some(text.to_owned()),
        None => None,
    }
}

/// Appends the text with the characters that mean something in HTML replaced.
pub fn append_escaped(out: &mut String, s: &str)
    ensures
        final(out)@ == old(out)@ + escaped(s@),
{
    let chars = chars_of(s);
    let ghost before = out@;
    assert(escaped(chars@.take(0)) == Seq::<char>::empty());
    for i in 0..chars.len()
        invariant
            out@ == before + escaped(chars@.take(i as int)),
    {
        let c = chars[i];
        let ghost done = chars@.take(i as int);
        assert(chars@.take(i + 1).drop_last() == done);
        if c == '&' {
            out.append("&amp;");
        } else if c == '<' {
            out.append("&lt;");
        } else if c == '>' {
            out.append("&gt;");
        } else if c == '"' {
            out.append("&quot;");
        } else if c == '\'' {
            out.append("&#39;");
        } else {
            out.push(c);
        }
        assert(out@ == before + (escaped(done) + escaped_char(c)));
    }
    assert(chars@.take(chars@.len() as int) == chars@);
}

/// The text with the characters that mean something in HTML replaced.
pub fn html_escape(s: &str) -> (r: String)
    ensures
        r@ == escaped(s@),
{
    let mut r = String::new();
    append_escaped(&mut r, s);
    assert(Seq::<char>::empty() + escaped(s@) == escaped(s@));
    r
}

/// The content type of the file at the path.
pub fn content_type(path: &[u8]) -> (r: &'static str)
    ensures
        r@ == media_type(path::raw_extension(path@)),
{
    match raw_extension_of(path) {
        Some(ext) => {
            let ext = lower(ext.as_slice());
            let ext = ext.as_slice();
            if is_text(ext, "html") || is_text(ext, "htm") {
                "text/html; charset=utf-8"
            } else if is_text(ext, "css") {
                "text/css; charset=utf-8"
            } else if is_text(ext, "js") {
                "application/javascript; charset=utf-8"
            } else if is_text(ext, "json") {
                "application/json"
            } else if is_text(ext, "txt") {
                "text/plain; charset=utf-8"
            } else if is_text(ext, "png") {
                "image/png"
            } else if is_text(ext, "jpg") || is_text(ext, "jpeg") {
                "image/jpeg"
            } else if is_text(ext, "gif") {
                "image/gif"
            } else if is_text(ext, "svg") {
                "image/svg+xml"
            } else if is_text(ext, "ico") {
                "image/x-icon"
            } else if is_text(ext, "pdf") {
                "application/pdf"
            } else {
                "application/octet-stream"
            }
        },
        None => "application/octet-stream",
    }
}

proof fn lemma_base_name_start_is(s: Seq<char>, i: int)
    requires
        0 <= i <= s.len(),
        forall|j: int| i <= j < s.len() ==> s[j] != '/' && s[j] != '\\',
        i > 0 ==> s[i - 1] == '/' || s[i - 1] == '\\',
    ensures
        base_name_start(s) == i,
    decreases s.len(),
{
    if i < s.len() {
        assert(s[s.len() - 1] != '/' && s[s.len() - 1] != '\\');
        lemma_base_name_start_is(s.drop_last(), i);
    }
}

/// The file name to store an upload under, where there is one.
pub fn sanitize_filename(name: &str) -> (r: Option<String>)
    ensures
        match r {
            Some(r) => safe_file_name(name@) == Some(r@),
            None => safe_file_name(name@) is None,
        },
{
    let chars = chars_of(name);
    let mut start: usize = chars.len();
    while start > 0 && chars[start - 1] != '/' && chars[start - 1] != '\\'
        invariant
            start <= chars@.len(),
            forall|j: int| start <= j < chars@.len() ==> chars@[j] != '/' && chars@[j] != '\\',
        decreases start,
    {
        start -= 1;
    }
    proof {
        lemma_base_name_start_is(chars@, start as int);
    }
    let base = trim(slice_subrange(chars.as_slice(), start, chars.len()));
    let ghost safe = base@.map_values(|c: char| safe_char(c));
    let mut r = String::new();
    let mut dots = true;
    for i in 0..base.len()
        invariant
            safe == base@.map_values(|c: char| safe_char(c)),
            r@ == safe.take(i as int),
            dots == all_dots(safe.take(i as int)),
    {
        let c = base[i];
        let kept = if ('a' <= c && c <= 'z') || ('A' <= c && c <= 'Z') || ('0' <= c && c <= '9')
            || c == '.' || c == '-' || c == '_' {
            c
        } else {
            '_'
        };
        r.push(kept);
        dots = dots && kept == '.';
        proof {
            assert(safe.take(i + 1) == safe.take(i as int).push(kept));
            assert(all_dots(safe.take(i + 1)) == (all_dots(safe.take(i as int)) && kept == '.'))
                by {
                let longer = safe.take(i + 1);
                let shorter = safe.take(i as int);
                assert(longer[i as int] == kept);
                assert forall|j: int| 0 <= j < i implies shorter[j] == longer[j] by {}
            }
        }
    }
    assert(safe.take(base@.len() as int) == safe);
    if dots {
        None
    } else {
        Some(r)
    }
}

} // verus!
