//! Unix paths, as text and as the bytes that the system knows them by: their components, and
//! how they are joined.
use vstd::prelude::*;
use vstd::slice::*;
use vstd::string::*;
use vstd::utf8::*;

use crate::text;
use crate::text::{
    append_chars, chars_of, is_text, same, split_on, string_of, utf8_text, Pattern,
};

verus! {

/// Whether a part of a path between slashes counts as a component.
pub open spec fn is_segment(part: Seq<char>) -> bool {
    part.len() > 0 && part != "."@
}

/// The parts of a path between its slashes, without the empty ones and the dots.
pub open spec fn segments(path: Seq<char>) -> Seq<Seq<char>> {
    text::split(path, Pattern::Char('/')).filter(|part: Seq<char>| is_segment(part))
}

pub open spec fn is_absolute(path: Seq<char>) -> bool {
    path.len() > 0 && path[0] == '/'
}

/// The components of a path: a slash where the path is absolute, a dot where it
/// starts with one, and then its segments.
pub open spec fn components(path: Seq<char>) -> Seq<Seq<char>> {
    let front = if is_absolute(path) {
        seq!["/"@]
    } else if text::split(path, Pattern::Char('/'))[0] == "."@ {
        seq!["."@]
    } else {
        seq![]
    };
    front + segments(path)
}

/// Whether the components of `base` are the first ones of `path`.
pub open spec fn within(path: Seq<char>, base: Seq<char>) -> bool {
    components(base).is_prefix_of(components(path))
}

/// The last component, where it is the name of a file or a directory.
pub open spec fn file_name(path: Seq<char>) -> Option<Seq<char>> {
    let all = components(path);
    if all.len() > 0 && all.last() != "/"@ && all.last() != "."@ && all.last() != ".."@ {
        Some(all.last())
    } else {
        None
    }
}

/// The index of the last dot, or a negative number where there is none.
pub open spec fn last_dot(name: Seq<char>) -> int
    decreases name.len(),
{
    if name.len() == 0 || name.last() == '.' {
        name.len() - 1
    } else {
        last_dot(name.drop_last())
    }
}

/// What stands in the file name before its last dot, if that is not its first character.
pub open spec fn file_stem(path: Seq<char>) -> Option<Seq<char>> {
    match file_name(path) {
        Some(name) => Some(
            if last_dot(name) > 0 {
                name.take(last_dot(name))
            } else {
                name
            },
        ),
        None => None,
    }
}

/// What stands in the file name after its last dot, if that is not its first character.
pub open spec fn extension(path: Seq<char>) -> Option<Seq<char>> {
    match file_name(path) {
        Some(name) => if last_dot(name) > 0 {
            Some(name.skip(last_dot(name) + 1))
        } else {
            None
        },
        None => None,
    }
}

/// `path` as seen from the directory `base`.
pub open spec fn joined(base: Seq<char>, path: Seq<char>) -> Seq<char> {
    if is_absolute(path) || base.len() == 0 {
        path
    } else if base.last() == '/' {
        base + path
    } else {
        base + "/"@ + path
    }
}

/// A character for each byte. No byte but those of the slash and the dot matters to a path.
pub open spec fn bytewise(path: Seq<u8>) -> Seq<char> {
    path.map_values(|b: u8| b as char)
}

/// The bytes that stand behind the characters.
pub open spec fn bytes_behind(chars: Seq<char>) -> Seq<u8> {
    chars.map_values(|c: char| c as u8)
}

/// Whether the components of `base` are the first ones of `path`.
pub open spec fn raw_within(path: Seq<u8>, base: Seq<u8>) -> bool {
    within(bytewise(path), bytewise(base))
}

/// What stands in the file name after its last dot, if that is not its first byte and the
/// rest is text.
pub open spec fn raw_extension(path: Seq<u8>) -> Option<Seq<char>> {
    match extension(bytewise(path)) {
        Some(extension) => if valid_utf8(bytes_behind(extension)) {
            Some(decode_utf8(bytes_behind(extension)))
        } else {
            None
        },
        None => None,
    }
}

/// `path` as seen from the directory `base`.
pub open spec fn raw_joined(base: Seq<u8>, path: Seq<u8>) -> Seq<u8> {
    if path.len() > 0 && path[0] == 47 || base.len() == 0 {
        path
    } else if base.last() == 47 {
        base + path
    } else {
        base.push(47) + path
    }
}

proof fn lemma_last_dot_is(name: Seq<char>, i: int)
    requires
        -1 <= i < name.len(),
        forall|j: int| i < j < name.len() ==> name[j] != '.',
        i >= 0 ==> name[i] == '.',
    ensures
        last_dot(name) == i,
    decreases name.len(),
{
    if name.len() > 0 && i < name.len() - 1 {
        assert(name[name.len() - 1] != '.');
        lemma_last_dot_is(name.drop_last(), i);
    }
}

/// The parts of a path between its slashes, without the empty ones and the dots.
pub fn split_segments(path: &[char]) -> (parts: Vec<&[char]>)
    ensures
        text::texts(parts@) == segments(path@),
{
    let all = split_on(path, Pattern::Char('/'));
    let ghost pred = |part: Seq<char>| is_segment(part);
    let mut parts: Vec<&[char]> = Vec::new();
    assert(text::texts(all@).take(0).filter(pred) == text::texts(parts@)) by {
        assert(text::texts(all@).take(0).len() == 0);
        reveal(Seq::filter);
    }
    for i in 0..all.len()
        invariant
            pred == (|part: Seq<char>| is_segment(part)),
            text::texts(parts@) == text::texts(all@).take(i as int).filter(pred),
    {
        let ghost before = parts@;
        proof {
            text::texts(all@).take(i as int).lemma_filter_push(text::texts(all@)[i as int], pred);
            assert(text::texts(all@).take(i + 1) == text::texts(all@).take(i as int).push(
                text::texts(all@)[i as int],
            ));
        }
        if all[i].len() > 0 && !is_text(all[i], ".") {
            parts.push(all[i]);
            assert(text::texts(parts@) == text::texts(before).push(all@[i as int]@));
        }
    }
    assert(text::texts(all@).take(all@.len() as int) == text::texts(all@));
    parts
}

/// The components of a path.
fn split_components(path: &[char]) -> (parts: Vec<Vec<char>>)
    ensures
        parts@.map_values(|part: Vec<char>| part@) == components(path@),
{
    let mut parts: Vec<Vec<char>> = Vec::new();
    if path.len() > 0 && path[0] == '/' {
        parts.push(chars_of("/"));
        assert(parts@.map_values(|part: Vec<char>| part@) == seq!["/"@]);
    } else {
        let all = split_on(path, Pattern::Char('/'));
        assert(text::texts(all@)[0] == all@[0]@);
        if is_text(all[0], ".") {
            parts.push(chars_of("."));
            assert(parts@.map_values(|part: Vec<char>| part@) == seq!["."@]);
        }
    }
    let ghost front = parts@.map_values(|part: Vec<char>| part@);
    let rest = split_segments(path);
    for i in 0..rest.len()
        invariant
            parts@.map_values(|part: Vec<char>| part@) == front + text::texts(rest@).take(i as int),
    {
        let ghost before = parts@;
        parts.push(slice_to_vec(rest[i]));
        assert(parts@.map_values(|part: Vec<char>| part@) == before.map_values(
            |part: Vec<char>| part@,
        ).push(text::texts(rest@)[i as int]));
        assert(text::texts(rest@).take(i + 1) == text::texts(rest@).take(i as int).push(
            text::texts(rest@)[i as int],
        ));
    }
    assert(text::texts(rest@).take(rest@.len() as int) == text::texts(rest@));
    parts
}

/// A character for each byte.
fn chars_for(path: &[u8]) -> (chars: Vec<char>)
    ensures
        chars@ == bytewise(path@),
{
    let mut chars: Vec<char> = Vec::new();
    for i in 0..path.len()
        invariant
            chars@ == bytewise(path@).take(i as int),
    {
        chars.push(path[i] as char);
        assert(bytewise(path@).take(i + 1) == bytewise(path@).take(i as int).push(
            path@[i as int] as char,
        ));
    }
    assert(bytewise(path@).take(path@.len() as int) == bytewise(path@));
    chars
}

/// Whether the components of `base` are the first ones of `path`.
pub fn is_within(path: &[u8], base: &[u8]) -> (b: bool)
    ensures
        b == raw_within(path@, base@),
{
    let path_chars = chars_for(path);
    let base_chars = chars_for(base);
    let x = split_components(path_chars.as_slice());
    let y = split_components(base_chars.as_slice());
    let ghost xs = x@.map_values(|part: Vec<char>| part@);
    let ghost ys = y@.map_values(|part: Vec<char>| part@);
    if x.len() < y.len() {
        return false;
    }
    for i in 0..y.len()
        invariant
            xs == components(bytewise(path@)),
            ys == components(bytewise(base@)),
            xs == x@.map_values(|part: Vec<char>| part@),
            ys == y@.map_values(|part: Vec<char>| part@),
            y@.len() <= x@.len(),
            forall|j: int| 0 <= j < i ==> xs[j] == ys[j],
    {
        let same_part = same(x[i].as_slice(), y[i].as_slice());
        assert(xs[i as int] == x@[i as int]@ && ys[i as int] == y@[i as int]@);
        if !same_part {
            assert(xs.subrange(0, ys.len() as int)[i as int] != ys[i as int]);
            return false;
        }
    }
    assert(xs.subrange(0, ys.len() as int) == ys);
    true
}

/// The last component, where it is the name of a file or a directory.
pub fn file_name_of(path: &[char]) -> (name: Option<Vec<char>>)
    ensures
        match name {
            Some(name) => file_name(path@) == Some(name@),
            None => file_name(path@) is None,
        },
{
    let mut all = split_components(path);
    let ghost views = all@.map_values(|part: Vec<char>| part@);
    match all.pop() {
        Some(name) => {
            assert(views.last() == name@);
            if is_text(name.as_slice(), "/") || is_text(name.as_slice(), ".") || is_text(
                name.as_slice(),
                "..",
            ) {
                None
            } else {
                Some(name)
            }
        },
        None => None,
    }
}

/// The length of the file name up to its last dot, zero where there is none or where it
/// is the first character.
fn dot_index(name: &[char]) -> (i: usize)
    ensures
        last_dot(name@) > 0 ==> i == last_dot(name@),
        last_dot(name@) <= 0 ==> i == 0,
        i == 0 || i < name@.len(),
{
    let mut i: usize = name.len();
    while i > 0 && name[i - 1] != '.'
        invariant
            i <= name@.len(),
            forall|j: int| i <= j < name@.len() ==> name@[j] != '.',
        decreases i,
    {
        i -= 1;
    }
    proof {
        lemma_last_dot_is(name@, i - 1);
    }
    if i == 0 {
        0
    } else {
        i - 1
    }
}

/// What stands in the file name after its last dot, if that is not its first character.
pub fn extension_of(path: &[char]) -> (ext: Option<Vec<char>>)
    ensures
        match ext {
            Some(ext) => extension(path@) == Some(ext@),
            None => extension(path@) is None,
        },
{
    match file_name_of(path) {
        Some(name) => {
            let n: usize = name.len();
            let i: usize = dot_index(name.as_slice());
            if i == 0 {
                None
            } else {
                Some(slice_to_vec(slice_subrange(name.as_slice(), i + 1, n)))
            }
        },
        None => None,
    }
}

/// What stands in the file name after its last dot, if that is not its first byte and the
/// rest is text.
pub fn raw_extension_of(path: &[u8]) -> (r: Option<Vec<char>>)
    ensures
        match r {
            Some(extension) => raw_extension(path@) == Some(extension@),
            None => raw_extension(path@) is None,
        },
{
    let chars = chars_for(path);
    let found = match extension_of(chars.as_slice()) {
        Some(found) => found,
        None => {
            return None;
        },
    };
    let mut bytes: Vec<u8> = Vec::new();
    let ghost all = bytes_behind(found@);
    for i in 0..found.len()
        invariant
            all == bytes_behind(found@),
            bytes@ == all.take(i as int),
    {
        let c: char = found[i];
        bytes.push(c as u8);
        assert(all.take(i + 1) == all.take(i as int).push(c as u8));
    }
    assert(all.take(all.len() as int) == all);
    match utf8_text(bytes.as_slice()) {
        Some(text) => Some(chars_of(text)),
        None => None,
    }
}

/// What stands in the file name before its last dot, if that is not its first character.
pub fn file_stem_of(path: &[char]) -> (stem: Option<Vec<char>>)
    ensures
        match stem {
            Some(stem) => file_stem(path@) == Some(stem@),
            None => file_stem(path@) is None,
        },
{
    match file_name_of(path) {
        Some(name) => {
            let i: usize = dot_index(name.as_slice());
            if i == 0 {
                Some(name)
            } else {
                Some(slice_to_vec(slice_subrange(name.as_slice(), 0, i)))
            }
        },
        None => None,
    }
}

/// `path` as seen from the directory `base`.
pub fn join_path(base: &str, path: &[char]) -> (r: String)
    ensures
        r@ == joined(base@, path@),
{
    if path.len() > 0 && path[0] == '/' {
        return string_of(path);
    }
    let base_chars = chars_of(base);
    let mut r = string_of(base_chars.as_slice());
    if base_chars.len() > 0 && base_chars[base_chars.len() - 1] != '/' {
        r.append("/");
    }
    append_chars(&mut r, path);
    assert(r@ == joined(base@, path@));
    r
}

/// `path` as seen from the directory `base`.
pub fn join_raw(base: &[u8], path: &[u8]) -> (r: Vec<u8>)
    ensures
        r@ == raw_joined(base@, path@),
{
    if path.len() > 0 && path[0] == 47 {
        return slice_to_vec(path);
    }
    let mut r = slice_to_vec(base);
    if r.len() > 0 && r[r.len() - 1] != 47 {
        r.push(47);
    }
    r.extend_from_slice(path);
    assert(r@ == raw_joined(base@, path@));
    r
}

} // verus!
