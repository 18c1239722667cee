//! What holds of absolute paths, taken as the names from the top of the file system down.
use vstd::prelude::*;
use vstd::utf8::*;

use crate::laws;
use crate::path;
use crate::text;
use crate::text::Pattern;

verus! {

/// Whether bytes are the name of a file or a directory: not empty, not a dot, and without a
/// slash.
pub open spec fn is_name(name: Seq<u8>) -> bool {
    &&& name.len() > 0
    &&& name != seq![46u8]
    &&& name != seq![46u8, 46u8]
    &&& forall|i: int| 0 <= i < name.len() ==> (#[trigger] name[i]) != 47
}

pub open spec fn are_names(names: Seq<Seq<u8>>) -> bool {
    forall|i: int| 0 <= i < names.len() ==> is_name(#[trigger] names[i])
}

/// A slash and a name for each of the names.
pub open spec fn chain(names: Seq<Seq<u8>>) -> Seq<u8>
    decreases names.len(),
{
    if names.len() == 0 {
        seq![]
    } else {
        chain(names.drop_last()).push(47) + names.last()
    }
}

/// The path of the place that is reached from the top by way of the names.
pub open spec fn place(names: Seq<Seq<u8>>) -> Seq<u8> {
    if names.len() == 0 {
        seq![47u8]
    } else {
        chain(names)
    }
}

/// Whether the first place is the other or lies below it.
pub open spec fn is_below(names: Seq<Seq<u8>>, top: Seq<Seq<u8>>) -> bool {
    &&& top.len() <= names.len()
    &&& forall|i: int| 0 <= i < top.len() ==> #[trigger] names[i] == top[i]
}

/// The names as texts of one character for each byte.
pub open spec fn shapes(names: Seq<Seq<u8>>) -> Seq<Seq<char>> {
    names.map_values(|name: Seq<u8>| path::bytewise(name))
}

proof fn lemma_same_shape(a: Seq<u8>, b: Seq<u8>)
    ensures
        path::bytewise(a) == path::bytewise(b) <==> a == b,
{
    if path::bytewise(a) == path::bytewise(b) {
        assert(path::bytewise(a).len() == a.len() && path::bytewise(b).len() == b.len());
        assert forall|i: int| 0 <= i < a.len() implies a[i] == b[i] by {
            assert(path::bytewise(a)[i] == path::bytewise(b)[i]);
            assert(a[i] as char == b[i] as char);
        }
        assert(a == b);
    }
}

proof fn lemma_name(name: Seq<u8>)
    requires
        is_name(name),
    ensures
        laws::texts::is_plain_segment(path::bytewise(name)),
        path::bytewise(name) != "."@,
        path::bytewise(name) != ".."@,
        path::bytewise(name) != "/"@,
{
    let shape = path::bytewise(name);
    reveal_strlit(".");
    reveal_strlit("..");
    reveal_strlit("/");
    assert(path::bytewise(seq![46u8]) == "."@);
    assert(path::bytewise(seq![46u8, 46u8]) == ".."@);
    lemma_same_shape(name, seq![46u8]);
    lemma_same_shape(name, seq![46u8, 46u8]);
    assert forall|i: int| 0 <= i < shape.len() implies (#[trigger] shape[i]) != '/' by {
        assert(name[i] != 47);
        assert(shape[i] == name[i] as char);
    }
    if shape == "/"@ {
        assert(shape[0] == '/');
    }
}

proof fn lemma_chain_segments(names: Seq<Seq<u8>>)
    requires
        are_names(names),
    ensures
        path::segments(path::bytewise(chain(names))) == shapes(names),
        names.len() > 0 ==> chain(names).len() > 0 && chain(names)[0] == 47,
    decreases names.len(),
{
    let p = Pattern::Char('/');
    if names.len() == 0 {
        let empty = Seq::<char>::empty();
        assert(path::bytewise(chain(names)) == empty);
        laws::texts::lemma_split_whole(empty, p);
        let pred = |part: Seq<char>| path::is_segment(part);
        seq![empty].lemma_all_neg_filter_empty(pred);
        assert(shapes(names) == Seq::<Seq<char>>::empty());
    } else {
        let front = names.drop_last();
        let last = names.last();
        assert(is_name(names[names.len() - 1]));
        assert forall|i: int| 0 <= i < front.len() implies is_name(#[trigger] front[i]) by {
            assert(front[i] == names[i]);
        }
        lemma_chain_segments(front);
        lemma_name(last);
        laws::texts::lemma_plain_segment(path::bytewise(last));
        laws::texts::lemma_segments_concat(path::bytewise(chain(front)), path::bytewise(last));
        assert(path::bytewise(chain(names)) == path::bytewise(chain(front)).push('/')
            + path::bytewise(last));
        assert(shapes(names) == shapes(front) + seq![path::bytewise(last)]);
        if front.len() == 0 {
            assert(chain(front).len() == 0);
        }
    }
}

pub proof fn lemma_place_components(names: Seq<Seq<u8>>)
    requires
        are_names(names),
    ensures
        path::components(path::bytewise(place(names))) == seq!["/"@] + shapes(names),
{
    lemma_chain_segments(names);
    let all = path::bytewise(place(names));
    assert(all[0] == '/');
    if names.len() == 0 {
        let empty = Seq::<char>::empty();
        assert(all == empty.push('/') + empty);
        laws::texts::lemma_segments_concat(empty, empty);
        assert(path::bytewise(chain(names)) == empty);
        assert(shapes(names) == Seq::<Seq<char>>::empty());
        assert(path::segments(all) == shapes(names));
    }
}

/// A place counts as standing within another exactly if it is that one or lies below it.
pub proof fn law_places(names: Seq<Seq<u8>>, top: Seq<Seq<u8>>)
    requires
        are_names(names),
        are_names(top),
    ensures
        path::raw_within(place(names), place(top)) <==> is_below(names, top),
{
    lemma_place_components(names);
    lemma_place_components(top);
    let xs = path::components(path::bytewise(place(names)));
    let ys = path::components(path::bytewise(place(top)));
    if is_below(names, top) {
        assert forall|i: int| 0 <= i < ys.len() implies ys[i] == xs[i] by {
            if i > 0 {
                assert(names[i - 1] == top[i - 1]);
            }
        }
        assert(xs.subrange(0, ys.len() as int) == ys);
    }
    if path::raw_within(place(names), place(top)) {
        assert forall|i: int| 0 <= i < top.len() implies #[trigger] names[i] == top[i] by {
            assert(ys[i + 1] == xs.subrange(0, ys.len() as int)[i + 1]);
            assert(ys[i + 1] == shapes(top)[i]);
            assert(xs[i + 1] == shapes(names)[i]);
            lemma_same_shape(names[i], top[i]);
        }
    }
}

/// The extension of a place is what stands behind the last dot of its name, where something
/// stands before that dot and the rest is text; a name without such a dot has none.
pub proof fn law_extensions_of_places(
    names: Seq<Seq<u8>>,
    name: Seq<u8>,
    stem: Seq<u8>,
    extension: Seq<char>,
)
    requires
        are_names(names),
        is_name(name),
        forall|i: int| 0 <= i < extension.len() ==> (#[trigger] extension[i]) != '.',
    ensures
        stem.len() > 0 && name == stem.push(46) + encode_utf8(extension) ==> path::raw_extension(
            place(names.push(name)),
        ) == Some(extension),
        (forall|i: int| 0 < i < name.len() ==> (#[trigger] name[i]) != 46) ==> path::raw_extension(
            place(names.push(name)),
        ) is None,
        path::raw_extension(place(Seq::empty())) is None,
{
    let all = names.push(name);
    assert forall|i: int| 0 <= i < all.len() implies is_name(#[trigger] all[i]) by {
        if i < names.len() {
            assert(all[i] == names[i]);
        }
    }
    lemma_place_components(all);
    lemma_place_components(Seq::empty());
    let shape = path::bytewise(name);
    lemma_name(name);
    let parts = path::components(path::bytewise(place(all)));
    assert(parts.last() == shapes(all)[all.len() - 1]);
    assert(parts.last() == shape);
    assert(path::file_name(path::bytewise(place(all))) == Some(shape));
    laws::paths::lemma_last_dot(shape);
    if stem.len() > 0 && name == stem.push(46) + encode_utf8(extension) {
        let n = stem.len() as int;
        laws::paths::lemma_image_without(extension, '.');
        assert(shape[n] == name[n] as char);
        assert(name[n] == 46);
        assert(shape[n] == '.');
        assert forall|j: int| n < j < shape.len() implies (#[trigger] shape[j]) != '.' by {
            assert(shape[j] == laws::paths::image(extension)[j - n - 1]);
        }
        assert(path::last_dot(shape) == n);
        let rest = shape.skip(n + 1);
        assert(rest == path::bytewise(encode_utf8(extension)));
        assert(path::bytes_behind(rest) == encode_utf8(extension)) by {
            assert forall|i: int| 0 <= i < rest.len() implies #[trigger] path::bytes_behind(rest)[i]
                == encode_utf8(extension)[i] by {
                let b = encode_utf8(extension)[i];
                assert((b as char) as u8 == b);
            }
        }
        encode_utf8_valid_utf8(extension);
        encode_utf8_decode_utf8(extension);
    }
    if forall|i: int| 0 < i < name.len() ==> (#[trigger] name[i]) != 46 {
        let k = path::last_dot(shape);
        if k > 0 {
            assert(name[k] != 46);
            assert(shape[k] == name[k] as char);
        }
    }
    reveal_strlit("/");
    assert(shapes(Seq::empty()) == Seq::<Seq<char>>::empty());
    assert(path::components(path::bytewise(place(Seq::empty()))) == seq!["/"@]);
}

/// What is looked for in a directory under a name stands below the directory, under that
/// name.
pub proof fn law_entries_of_places(names: Seq<Seq<u8>>, name: Seq<u8>)
    requires
        are_names(names),
        is_name(name),
    ensures
        path::raw_joined(place(names), name) == place(names.push(name)),
{
    let all = names.push(name);
    assert(all.drop_last() == names);
    assert(name[0] != 47);
    if names.len() == 0 {
        assert(chain(names).push(47) + name == place(names) + name);
    } else {
        let last = names.last();
        assert(is_name(names[names.len() - 1]));
        assert(last[last.len() - 1] != 47);
        assert(place(names).last() == last[last.len() - 1]);
    }
}

/// The texts with a slash before each.
pub open spec fn slashed(parts: Seq<Seq<char>>) -> Seq<char>
    decreases parts.len(),
{
    if parts.len() == 0 {
        seq![]
    } else {
        slashed(parts.drop_last()).push('/') + parts.last()
    }
}

/// Whether a part of a path stands for nothing.
pub open spec fn is_void(part: Seq<char>) -> bool {
    part.len() == 0 || part == seq!['.']
}

/// The path that is reached from a directory by way of the parts: those that stand for
/// nothing are passed over, and each other one goes behind a slash.
pub open spec fn reached(base: Seq<char>, parts: Seq<Seq<char>>) -> Seq<char>
    decreases parts.len(),
{
    if parts.len() == 0 {
        base
    } else {
        let front = reached(base, parts.drop_last());
        let part = parts.last();
        if is_void(part) {
            front
        } else if front.len() == 0 || front.last() == '/' {
            front + part
        } else {
            front.push('/') + part
        }
    }
}

/// Whether no part holds a slash.
pub open spec fn are_parts(parts: Seq<Seq<char>>) -> bool {
    forall|i: int, j: int|
        0 <= i < parts.len() && 0 <= j < parts[i].len() ==> #[trigger] parts[i][j] != '/'
}

proof fn lemma_slashed_segments(parts: Seq<Seq<char>>)
    requires
        are_parts(parts),
    ensures
        path::segments(slashed(parts)) == parts.filter(|part: Seq<char>| path::is_segment(part)),
    decreases parts.len(),
{
    let p = Pattern::Char('/');
    let pred = |part: Seq<char>| path::is_segment(part);
    reveal_strlit(".");
    if parts.len() == 0 {
        let empty = Seq::<char>::empty();
        assert(slashed(parts) == empty);
        laws::texts::lemma_split_whole(empty, p);
        seq![empty].lemma_all_neg_filter_empty(pred);
        parts.lemma_all_neg_filter_empty(pred);
    } else {
        let front = parts.drop_last();
        let last = parts.last();
        assert forall|i: int, j: int|
            0 <= i < front.len() && 0 <= j < front[i].len() implies #[trigger] front[i][j]
            != '/' by {
            assert(parts[i][j] != '/');
        }
        lemma_slashed_segments(front);
        assert forall|j: int| 0 <= j < last.len() implies !p.has(#[trigger] last[j]) by {
            assert(parts[parts.len() - 1][j] != '/');
        }
        laws::texts::lemma_split_whole(last, p);
        laws::texts::lemma_segments_concat(slashed(front), last);
        Seq::filter_distributes_over_add(front, seq![last], pred);
        assert(parts == front + seq![last]);
    }
}

/// The parts of a path are passed over or kept one for one.
pub proof fn lemma_reached(base: Seq<char>, parts: Seq<Seq<char>>)
    requires
        are_parts(parts),
    ensures
        crate::router::descend(base, path::segments(slashed(parts))) == reached(base, parts),
    decreases parts.len(),
{
    let pred = |part: Seq<char>| path::is_segment(part);
    lemma_slashed_segments(parts);
    reveal_strlit(".");
    assert("."@ == seq!['.']);
    reveal_strlit("/");
    assert("/"@ == seq!['/']);
    if parts.len() == 0 {
        parts.lemma_all_neg_filter_empty(pred);
    } else {
        let front = parts.drop_last();
        let last = parts.last();
        assert forall|i: int, j: int|
            0 <= i < front.len() && 0 <= j < front[i].len() implies #[trigger] front[i][j]
            != '/' by {
            assert(parts[i][j] != '/');
        }
        lemma_slashed_segments(front);
        lemma_reached(base, front);
        assert(parts == front.push(last));
        front.lemma_filter_push(last, pred);
        if pred(last) {
            assert(parts.filter(pred).drop_last() == front.filter(pred));
            assert(parts[parts.len() - 1][0] != '/');
            let before = reached(base, front);
            if before.len() == 0 {
                assert(before + last == last);
            } else {
                assert(before + "/"@ + last == before.push('/') + last);
            }
        }
    }
}

/// Whether a path leads upwards is whether one of its parts is two dots.
pub proof fn lemma_leads_upwards(parts: Seq<Seq<char>>)
    requires
        are_parts(parts),
    ensures
        path::segments(slashed(parts)).contains(".."@) <==> parts.contains(seq!['.', '.']),
{
    let pred = |part: Seq<char>| path::is_segment(part);
    reveal_strlit(".");
    reveal_strlit("..");
    assert(".."@ == seq!['.', '.']);
    lemma_slashed_segments(parts);
    if parts.contains(".."@) {
        assert(pred(".."@));
        let i = choose|i: int| 0 <= i < parts.len() && parts[i] == ".."@;
        parts.lemma_filter_contains(pred, i);
    }
    if parts.filter(pred).contains(".."@) {
        parts.lemma_filter_contains_rev(pred, ".."@);
    }
}

} // verus!
