//! What holds of paths as text and as bytes.
use vstd::prelude::*;
use vstd::utf8::*;

use crate::laws;
use crate::path;
use crate::text;
use crate::text::Pattern;

verus! {

/// The characters for the bytes of a text.
pub open spec fn image(s: Seq<char>) -> Seq<char> {
    path::bytewise(encode_utf8(s))
}

/// The bytes behind the characters for bytes are these bytes.
proof fn lemma_bytes_behind(bytes: Seq<u8>)
    ensures
        path::bytes_behind(path::bytewise(bytes)) == bytes,
{
    assert forall|i: int| 0 <= i < bytes.len() implies #[trigger] path::bytes_behind(
        path::bytewise(bytes),
    )[i] == bytes[i] by {
        let b = bytes[i];
        assert((b as char) as u8 == b);
    }
    assert(path::bytes_behind(path::bytewise(bytes)) =~= bytes);
}

/// Texts with the same image are the same.
proof fn lemma_image_differs(a: Seq<char>, b: Seq<char>)
    ensures
        image(a) == image(b) <==> a == b,
{
    lemma_bytes_behind(encode_utf8(a));
    lemma_bytes_behind(encode_utf8(b));
    encode_utf8_decode_utf8(a);
    encode_utf8_decode_utf8(b);
}

proof fn lemma_image_concat(a: Seq<char>, b: Seq<char>)
    ensures
        image(a + b) == image(a) + image(b),
{
    laws::http::lemma_encode_concat(a, b);
    assert(image(a + b) =~= image(a) + image(b));
}

/// A text of ASCII characters is its own image.
proof fn lemma_image_of_ascii(s: Seq<char>)
    requires
        is_ascii_chars(s),
    ensures
        image(s) == s,
{
    is_ascii_chars_encode_utf8(s);
    assert(image(s) =~= s);
}

proof fn lemma_image_of_one(c: char)
    requires
        (c as u32) < 128,
    ensures
        image(seq![c]) == seq![c],
{
    assert(is_ascii_chars(seq![c]));
    lemma_image_of_ascii(seq![c]);
}

proof fn lemma_image_empty(s: Seq<char>)
    ensures
        image(s).len() == 0 <==> s.len() == 0,
{
    let none = Seq::<char>::empty();
    assert(is_ascii_chars(none));
    lemma_image_of_ascii(none);
    lemma_image_differs(s, none);
    if image(s).len() == 0 {
        assert(image(s) =~= none);
    }
    if s.len() == 0 {
        assert(s =~= none);
    }
}

proof fn lemma_scalar_without(c: char, x: char)
    requires
        (x as u32) < 128,
        c != x,
    ensures
        forall|i: int|
            0 <= i < encode_scalar(c as u32).len() ==> (#[trigger] encode_scalar(
                c as u32,
            )[i]) as char != x,
{
    let v = c as u32;
    char_is_scalar(c);
    assert(v <= 0x7f ==> (v & 0x7F) as u8 == v) by (bit_vector);
    assert((0xC0u8 | ((v >> 6) & 0x1F) as u8) >= 0x80) by (bit_vector);
    assert((0xE0u8 | ((v >> 12) & 0x0F) as u8) >= 0x80) by (bit_vector);
    assert((0xF0u8 | ((v >> 18) & 0x7) as u8) >= 0x80) by (bit_vector);
    assert((0x80u8 | (v & 0x3F) as u8) >= 0x80) by (bit_vector);
    assert((0x80u8 | ((v >> 6) & 0x3F) as u8) >= 0x80) by (bit_vector);
    assert((0x80u8 | ((v >> 12) & 0x3F) as u8) >= 0x80) by (bit_vector);
}

/// An ASCII character that stands in a text stands in its image.
pub proof fn lemma_image_with(s: Seq<char>, i: int)
    requires
        0 <= i < s.len(),
        (s[i] as u32) < 128,
    ensures
        exists|k: int| 0 <= k < image(s).len() && (#[trigger] image(s)[k]) == s[i],
{
    let front = s.take(i);
    let rest = s.skip(i + 1);
    assert(s =~= front + (seq![s[i]] + rest));
    lemma_image_concat(front, seq![s[i]] + rest);
    lemma_image_concat(seq![s[i]], rest);
    lemma_image_of_one(s[i]);
    assert(image(s)[image(front).len() as int] == s[i]);
}

/// An ASCII character that does not stand in a text does not stand in its image.
pub proof fn lemma_image_without(s: Seq<char>, x: char)
    requires
        (x as u32) < 128,
        forall|i: int| 0 <= i < s.len() ==> (#[trigger] s[i]) != x,
    ensures
        forall|i: int| 0 <= i < image(s).len() ==> (#[trigger] image(s)[i]) != x,
    decreases s.len(),
{
    if s.len() > 0 {
        let rest = s.drop_first();
        lemma_scalar_without(s[0], x);
        assert forall|i: int| 0 <= i < rest.len() implies (#[trigger] rest[i]) != x by {
            assert(rest[i] == s[i + 1]);
        }
        lemma_image_without(rest, x);
        let first = encode_scalar(s[0] as u32);
        let all = encode_utf8(s);
        assert forall|i: int| 0 <= i < image(s).len() implies (#[trigger] image(s)[i]) != x by {
            assert(image(s)[i] == all[i] as char);
            if i < first.len() {
                assert(all[i] == first[i]);
            } else {
                assert(all[i] == encode_utf8(rest)[i - first.len()]);
                assert(image(rest)[i - first.len()] == encode_utf8(rest)[i - first.len()] as char);
            }
        }
    }
}

/// The images of texts.
pub open spec fn images(list: Seq<Seq<char>>) -> Seq<Seq<char>> {
    list.map_values(|s: Seq<char>| image(s))
}

/// The image of a text is split where the text is.
proof fn lemma_split_image(s: Seq<char>)
    ensures
        text::split(image(s), Pattern::Char('/')) == images(text::split(s, Pattern::Char('/'))),
    decreases s.len(),
{
    let p = Pattern::Char('/');
    let i = text::position(s, p);
    text::lemma_position_bounds(s, p);
    let front = s.take(i);
    assert forall|j: int| 0 <= j < front.len() implies (#[trigger] front[j]) != '/' by {
        assert(!p.has(s[j]));
    }
    lemma_image_without(front, '/');
    if i < s.len() {
        let rest = s.skip(i + 1);
        assert(s =~= front + (seq!['/'] + rest));
        lemma_image_concat(front, seq!['/'] + rest);
        lemma_image_concat(seq!['/'], rest);
        lemma_image_of_one('/');
        let all = image(s);
        assert(all =~= image(front) + (seq!['/'] + image(rest)));
        let k = image(front).len() as int;
        assert forall|j: int| 0 <= j < k implies !p.has(#[trigger] all[j]) by {
            assert(all[j] == image(front)[j]);
        }
        text::lemma_position_is(all, p, k);
        assert(all.take(k) =~= image(front));
        assert(all.skip(k + 1) =~= image(rest));
        lemma_split_image(rest);
        assert(text::split(all, p) =~= images(text::split(s, p)));
    } else {
        assert(front =~= s);
        let all = image(s);
        assert forall|j: int| 0 <= j < all.len() implies !p.has(#[trigger] all[j]) by {}
        text::lemma_position_is(all, p, all.len() as int);
        assert(text::split(all, p) =~= images(text::split(s, p)));
    }
}

proof fn lemma_dots()
    ensures
        image("."@) == "."@,
        image(".."@) == ".."@,
        image("/"@) == "/"@,
{
    reveal_strlit(".");
    reveal_strlit("..");
    reveal_strlit("/");
    lemma_image_of_ascii("."@);
    lemma_image_of_ascii(".."@);
    lemma_image_of_ascii("/"@);
}

proof fn lemma_filtered_images(list: Seq<Seq<char>>)
    ensures
        images(list).filter(|part: Seq<char>| path::is_segment(part)) == images(
            list.filter(|part: Seq<char>| path::is_segment(part)),
        ),
    decreases list.len(),
{
    let pred = |part: Seq<char>| path::is_segment(part);
    if list.len() == 0 {
        reveal(Seq::filter);
        assert(images(list) =~= Seq::<Seq<char>>::empty());
        assert(images(list).filter(pred) =~= images(list.filter(pred)));
    } else {
        let front = list.drop_last();
        let last = list.last();
        lemma_filtered_images(front);
        front.lemma_filter_push(last, pred);
        images(front).lemma_filter_push(image(last), pred);
        assert(list =~= front.push(last));
        assert(images(list) =~= images(front).push(image(last)));
        lemma_dots();
        lemma_image_empty(last);
        lemma_image_differs(last, "."@);
        assert(path::is_segment(image(last)) == path::is_segment(last));
        assert(images(front.filter(pred).push(last)) =~= images(front.filter(pred)).push(
            image(last),
        ));
    }
}

/// The components of a text as bytes are those of the text.
proof fn lemma_components_image(s: Seq<char>)
    ensures
        path::components(image(s)) == images(path::components(s)),
{
    let p = Pattern::Char('/');
    lemma_split_image(s);
    lemma_filtered_images(text::split(s, p));
    lemma_dots();
    lemma_image_empty(s);
    text::lemma_split_nonempty(s, p);
    let first = text::split(s, p)[0];
    lemma_image_differs(first, "."@);
    assert(path::is_absolute(image(s)) == path::is_absolute(s)) by {
        if s.len() > 0 {
            let one = seq![s[0]];
            assert(s =~= one + s.drop_first());
            lemma_image_concat(one, s.drop_first());
            if s[0] == '/' {
                lemma_image_of_one('/');
            } else {
                lemma_image_without(one, '/');
                lemma_image_empty(one);
                assert(image(s)[0] == image(one)[0]);
            }
        }
    }
    assert(images(seq!["/"@]) =~= seq!["/"@]);
    assert(images(seq!["."@]) =~= seq!["."@]);
    assert(path::components(image(s)) =~= images(path::components(s)));
}

pub proof fn lemma_last_dot(name: Seq<char>)
    ensures
        -1 <= path::last_dot(name) < name.len(),
        path::last_dot(name) >= 0 ==> name[path::last_dot(name)] == '.',
        forall|j: int| path::last_dot(name) < j < name.len() ==> (#[trigger] name[j]) != '.',
    decreases name.len(),
{
    if name.len() > 0 && name.last() != '.' {
        let front = name.drop_last();
        lemma_last_dot(front);
        assert forall|j: int| path::last_dot(name) < j < name.len() implies (#[trigger] name[j])
            != '.' by {
            if j < front.len() {
                assert(front[j] == name[j]);
            }
        }
    }
}

proof fn lemma_last_dot_is(name: Seq<char>, i: int)
    requires
        -1 <= i < name.len(),
        i >= 0 ==> name[i] == '.',
        forall|j: int| i < j < name.len() ==> (#[trigger] name[j]) != '.',
    ensures
        path::last_dot(name) == i,
{
    lemma_last_dot(name);
}

/// The last dot of a text as bytes is that of the text, and so is what stands behind it.
proof fn lemma_last_dot_image(name: Seq<char>)
    ensures
        path::last_dot(image(name)) > 0 <==> path::last_dot(name) > 0,
        path::last_dot(name) > 0 ==> image(name).skip(path::last_dot(image(name)) + 1) == image(
            name.skip(path::last_dot(name) + 1),
        ),
{
    lemma_last_dot(name);
    let i = path::last_dot(name);
    if i < 0 {
        lemma_image_without(name, '.');
        lemma_last_dot_is(image(name), -1);
    } else {
        let front = name.take(i);
        let rest = name.skip(i + 1);
        assert(name =~= front + (seq!['.'] + rest));
        lemma_image_concat(front, seq!['.'] + rest);
        lemma_image_concat(seq!['.'], rest);
        lemma_image_of_one('.');
        lemma_image_empty(front);
        assert forall|j: int| 0 <= j < rest.len() implies (#[trigger] rest[j]) != '.' by {
            assert(rest[j] == name[j + i + 1]);
        }
        lemma_image_without(rest, '.');
        let all = image(name);
        assert(all =~= image(front) + (seq!['.'] + image(rest)));
        let k = image(front).len() as int;
        assert forall|j: int| k < j < all.len() implies (#[trigger] all[j]) != '.' by {
            assert(all[j] == image(rest)[j - k - 1]);
        }
        lemma_last_dot_is(all, k);
        assert(all.skip(k + 1) =~= image(rest));
    }
}

/// The extension of a path that is text is the same for the text and for its bytes.
pub proof fn law_extensions_of_texts(s: Seq<char>)
    ensures
        path::raw_extension(encode_utf8(s)) == path::extension(s),
{
    lemma_components_image(s);
    lemma_dots();
    let all = path::components(s);
    if all.len() > 0 {
        let name = all.last();
        assert(path::components(image(s)).last() == image(name));
        lemma_image_differs(name, "/"@);
        lemma_image_differs(name, "."@);
        lemma_image_differs(name, ".."@);
        lemma_last_dot_image(name);
        if path::last_dot(name) > 0 {
            let found = name.skip(path::last_dot(name) + 1);
            lemma_bytes_behind(encode_utf8(found));
            encode_utf8_valid_utf8(found);
            encode_utf8_decode_utf8(found);
        }
    }
}

/// Whether a path lies below another is the same for texts and for their bytes.
pub proof fn law_texts_within_texts(s: Seq<char>, base: Seq<char>)
    ensures
        path::raw_within(encode_utf8(s), encode_utf8(base)) == path::within(s, base),
{
    lemma_components_image(s);
    lemma_components_image(base);
    let xs = path::components(s);
    let ys = path::components(base);
    let n = ys.len() as int;
    if n <= xs.len() {
        if xs.subrange(0, n) == ys {
            assert forall|i: int| 0 <= i < n implies images(xs).subrange(0, n)[i]
                == #[trigger] images(ys)[i] by {
                assert(xs.subrange(0, n)[i] == ys[i]);
                assert(xs[i] == ys[i]);
            }
            assert(images(xs).subrange(0, n) =~= images(ys));
        }
        if images(xs).subrange(0, n) == images(ys) {
            assert forall|i: int| 0 <= i < n implies xs.subrange(0, n)[i] == #[trigger] ys[i] by {
                assert(images(xs).subrange(0, n)[i] == images(ys)[i]);
                lemma_image_differs(xs[i], ys[i]);
            }
            assert(xs.subrange(0, n) =~= ys);
        }
    }
}

/// To join paths is the same for texts and for their bytes.
pub proof fn law_joined_texts(base: Seq<char>, s: Seq<char>)
    ensures
        path::raw_joined(encode_utf8(base), encode_utf8(s)) == encode_utf8(path::joined(base, s)),
{
    let slash = encode_utf8("/"@);
    reveal_strlit("/");
    assert("/"@ =~= seq!['/']);
    assert(is_ascii_chars("/"@));
    is_ascii_chars_encode_utf8("/"@);
    assert(slash =~= seq![47u8]);
    laws::http::lemma_encode_concat(base, s);
    laws::http::lemma_encode_concat(base + "/"@, s);
    laws::http::lemma_encode_concat(base, "/"@);
    assert(encode_utf8(base).push(47) =~= encode_utf8(base) + slash);
    lemma_first_byte(s);
    lemma_last_byte(base);
}

pub proof fn lemma_first_byte(s: Seq<char>)
    ensures
        encode_utf8(s).len() == 0 <==> s.len() == 0,
        s.len() > 0 ==> (encode_utf8(s)[0] == 47 <==> s[0] == '/'),
{
    lemma_image_empty(s);
    if s.len() > 0 {
        let one = seq![s[0]];
        assert(s =~= one + s.drop_first());
        lemma_image_concat(one, s.drop_first());
        assert(image(s)[0] == encode_utf8(s)[0] as char);
        if s[0] == '/' {
            lemma_image_of_one('/');
        } else {
            lemma_image_without(one, '/');
            lemma_image_empty(one);
            assert(image(s)[0] == image(one)[0]);
        }
    }
}

proof fn lemma_last_byte(s: Seq<char>)
    ensures
        encode_utf8(s).len() == 0 <==> s.len() == 0,
        s.len() > 0 ==> (encode_utf8(s).last() == 47 <==> s.last() == '/'),
{
    lemma_image_empty(s);
    if s.len() > 0 {
        let one = seq![s.last()];
        assert(s =~= s.drop_last() + one);
        lemma_image_concat(s.drop_last(), one);
        lemma_image_empty(one);
        assert(image(s).last() == encode_utf8(s).last() as char);
        assert(image(s).last() == image(one).last());
        if s.last() == '/' {
            lemma_image_of_one('/');
        } else {
            lemma_image_without(one, '/');
        }
    }
}

} // verus!
