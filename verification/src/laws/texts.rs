//! What holds of texts that are split, and of paths that are joined.
use vstd::prelude::*;

use crate::path;
use crate::text;
use crate::text::Pattern;

verus! {

/// Text that is split at a separator is split on its two sides.
pub proof fn lemma_split_concat(a: Seq<char>, c: char, b: Seq<char>, p: Pattern)
    requires
        p.has(c),
    ensures
        text::split(a.push(c) + b, p) == text::split(a, p) + text::split(b, p),
    decreases a.len(),
{
    let s = a.push(c) + b;
    let i = text::position(a, p);
    text::lemma_position_bounds(a, p);
    assert forall|j: int| 0 <= j < i implies !p.has(#[trigger] s[j]) by {
        assert(s[j] == a[j]);
    }
    assert(i < a.len() ==> s[i] == a[i]);
    assert(i == a.len() ==> s[i] == c);
    text::lemma_position_is(s, p, i);
    if i == a.len() {
        assert(s.take(i) == a);
        assert(s.skip(i + 1) == b);
    } else {
        let rest = a.skip(i + 1);
        assert(s.take(i) == a.take(i));
        assert(s.skip(i + 1) == rest.push(c) + b);
        lemma_split_concat(rest, c, b, p);
        assert(seq![a.take(i)] + (text::split(rest, p) + text::split(b, p)) == seq![a.take(i)]
            + text::split(rest, p) + text::split(b, p));
    }
}

/// Text without a separator is one part.
pub proof fn lemma_split_whole(s: Seq<char>, p: Pattern)
    requires
        forall|i: int| 0 <= i < s.len() ==> !p.has(#[trigger] s[i]),
    ensures
        text::split(s, p) == seq![s],
{
    text::lemma_position_is(s, p, s.len() as int);
}

/// No part holds a separator.
pub proof fn lemma_parts_are_plain(s: Seq<char>, p: Pattern)
    ensures
        forall|k: int, i: int|
            0 <= k < text::split(s, p).len() && 0 <= i < text::split(s, p)[k].len() ==> !p.has(
                #[trigger] text::split(s, p)[k][i],
            ),
    decreases s.len(),
{
    let i = text::position(s, p);
    text::lemma_position_bounds(s, p);
    if i < s.len() {
        let rest = s.skip(i + 1);
        lemma_parts_are_plain(rest, p);
        let parts = text::split(s, p);
        assert forall|k: int, j: int|
            0 <= k < parts.len() && 0 <= j < parts[k].len() implies !p.has(
            #[trigger] parts[k][j],
        ) by {
            if k == 0 {
                assert(parts[0] == s.take(i));
                assert(parts[0][j] == s[j]);
            } else {
                assert(parts[k] == text::split(rest, p)[k - 1]);
            }
        }
    }
}

/// Whether a text is a segment of a path, without a slash.
pub open spec fn is_plain_segment(s: Seq<char>) -> bool {
    path::is_segment(s) && forall|i: int| 0 <= i < s.len() ==> (#[trigger] s[i]) != '/'
}

/// The segments of a path are plain.
pub proof fn lemma_segments_are_plain(s: Seq<char>)
    ensures
        forall|k: int|
            0 <= k < path::segments(s).len() ==> is_plain_segment(#[trigger] path::segments(s)[k]),
{
    let p = Pattern::Char('/');
    let parts = text::split(s, p);
    let pred = |part: Seq<char>| path::is_segment(part);
    let left = path::segments(s);
    lemma_parts_are_plain(s, p);
    assert forall|k: int| 0 <= k < left.len() implies is_plain_segment(#[trigger] left[k]) by {
        assert(pred(parts.filter(pred)[k]));
        assert(parts.filter(pred).contains(left[k]));
        parts.lemma_filter_contains_rev(pred, left[k]);
        let m = choose|m: int| 0 <= m < parts.len() && parts[m] == left[k];
        assert forall|i: int| 0 <= i < left[k].len() implies (#[trigger] left[k][i]) != '/' by {
            assert(!p.has(parts[m][i]));
        }
    }
}

/// The segments of two paths with a slash between are those of the one and of the other.
pub proof fn lemma_segments_concat(a: Seq<char>, b: Seq<char>)
    ensures
        path::segments(a.push('/') + b) == path::segments(a) + path::segments(b),
{
    let p = Pattern::Char('/');
    let pred = |part: Seq<char>| path::is_segment(part);
    lemma_split_concat(a, '/', b, p);
    Seq::filter_distributes_over_add(text::split(a, p), text::split(b, p), pred);
}

/// A path that is joined to a directory has the components of the directory, and its own
/// segments behind them.
pub proof fn lemma_components_joined(base: Seq<char>, s: Seq<char>)
    requires
        !path::is_absolute(s),
        base.len() > 0,
    ensures
        path::components(path::joined(base, s)) == path::components(base) + path::segments(s),
{
    let p = Pattern::Char('/');
    reveal_strlit("/");
    assert("/"@ =~= seq!['/']);
    let all = path::joined(base, s);
    text::lemma_split_nonempty(base, p);
    if base.last() == '/' {
        let front = base.drop_last();
        let empty = Seq::<char>::empty();
        assert(base == front.push('/') + empty);
        assert(all == front.push('/') + s);
        lemma_segments_concat(front, s);
        lemma_segments_concat(front, empty);
        lemma_split_concat(front, '/', s, p);
        lemma_split_concat(front, '/', empty, p);
        text::lemma_split_nonempty(front, p);
        assert(path::segments(empty) == Seq::<Seq<char>>::empty()) by {
            lemma_split_whole(empty, p);
            let pred = |part: Seq<char>| path::is_segment(part);
            seq![empty].lemma_all_neg_filter_empty(pred);
        }
        assert(path::segments(base) == path::segments(front));
    } else {
        assert(all == base.push('/') + s);
        lemma_segments_concat(base, s);
        lemma_split_concat(base, '/', s, p);
    }
    assert(all[0] == base[0]);
    assert(path::components(all) == path::components(base) + path::segments(s));
}

/// A segment is its own only segment.
pub proof fn lemma_plain_segment(s: Seq<char>)
    requires
        is_plain_segment(s),
    ensures
        path::segments(s) == seq![s],
        path::components(s) == seq![s],
        !path::is_absolute(s),
{
    let p = Pattern::Char('/');
    let pred = |part: Seq<char>| path::is_segment(part);
    assert forall|i: int| 0 <= i < s.len() implies !p.has(#[trigger] s[i]) by {}
    lemma_split_whole(s, p);
    let empty = Seq::<Seq<char>>::empty();
    empty.lemma_filter_push(s, pred);
    empty.lemma_filter_len(pred);
    assert(empty.filter(pred) == empty);
    assert(empty.push(s) == seq![s]);
    assert(pred(s));
    assert(s[0] != '/');
    assert(Seq::<Seq<char>>::empty() + seq![s] == seq![s]);
}

} // verus!
