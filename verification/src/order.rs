//! A stable sort, as a function on sequences.
use vstd::prelude::*;

verus! {

/// The index of the first element that `x` has to come before.
pub open spec fn insert_position<A>(s: Seq<A>, x: A, le: spec_fn(A, A) -> bool) -> int
    decreases s.len(),
{
    if s.len() == 0 || !le(s[0], x) {
        0
    } else {
        1 + insert_position(s.drop_first(), x, le)
    }
}

/// The sorted sequence with one more element, after those that it does not have to come
/// before.
pub open spec fn insert_sorted<A>(s: Seq<A>, x: A, le: spec_fn(A, A) -> bool) -> Seq<A> {
    s.insert(insert_position(s, x, le), x)
}

/// The elements in order, those that are equal in the order as they stood.
pub open spec fn stable_sort<A>(s: Seq<A>, le: spec_fn(A, A) -> bool) -> Seq<A>
    decreases s.len(),
{
    if s.len() == 0 {
        s
    } else {
        insert_sorted(stable_sort(s.drop_last(), le), s.last(), le)
    }
}

/// A reflexive, transitive order in which any two elements can be compared.
pub open spec fn total_preorder<A>(le: spec_fn(A, A) -> bool) -> bool {
    &&& forall|x: A, y: A| #[trigger] le(x, y) || le(y, x)
    &&& forall|x: A, y: A, z: A| #[trigger] le(x, y) && #[trigger] le(y, z) ==> le(x, z)
}

/// No element comes before one that it has to follow.
pub open spec fn is_sorted<A>(s: Seq<A>, le: spec_fn(A, A) -> bool) -> bool {
    forall|i: int, j: int| 0 <= i < j < s.len() ==> le(#[trigger] s[i], #[trigger] s[j])
}

pub proof fn lemma_insert_position<A>(s: Seq<A>, x: A, le: spec_fn(A, A) -> bool)
    ensures
        0 <= insert_position(s, x, le) <= s.len(),
        forall|j: int| 0 <= j < insert_position(s, x, le) ==> le(#[trigger] s[j], x),
        insert_position(s, x, le) < s.len() ==> !le(s[insert_position(s, x, le)], x),
    decreases s.len(),
{
    if s.len() > 0 && le(s[0], x) {
        let t = s.drop_first();
        lemma_insert_position(t, x, le);
        assert forall|j: int| 0 <= j < insert_position(s, x, le) implies le(#[trigger] s[j], x) by {
            if j > 0 {
                assert(s[j] == t[j - 1]);
            }
        }
    }
}

pub proof fn lemma_insert_position_is<A>(s: Seq<A>, x: A, le: spec_fn(A, A) -> bool, i: int)
    requires
        0 <= i <= s.len(),
        forall|j: int| 0 <= j < i ==> le(#[trigger] s[j], x),
        i < s.len() ==> !le(s[i], x),
    ensures
        insert_position(s, x, le) == i,
{
    lemma_insert_position(s, x, le);
    let k = insert_position(s, x, le);
    if k < i {
        assert(le(s[k], x));
    } else if i < k {
        assert(le(s[i], x));
    }
}

/// The stable sort puts the elements in order.
pub proof fn lemma_stable_sort_sorted<A>(s: Seq<A>, le: spec_fn(A, A) -> bool)
    requires
        total_preorder(le),
    ensures
        is_sorted(stable_sort(s, le), le),
    decreases s.len(),
{
    if s.len() > 0 {
        let t = stable_sort(s.drop_last(), le);
        let x = s.last();
        let k = insert_position(t, x, le);
        let r = t.insert(k, x);
        lemma_stable_sort_sorted(s.drop_last(), le);
        lemma_insert_position(t, x, le);
        assert forall|i: int, j: int| 0 <= i < j < r.len() implies le(
            #[trigger] r[i],
            #[trigger] r[j],
        ) by {
            if j < k {
                assert(le(t[i], t[j]));
            } else if j == k {
                assert(le(t[i], x));
            } else if i < k {
                assert(le(t[i], t[j - 1]));
            } else if i == k {
                assert(le(x, t[k]) || le(t[k], x));
                if k < j - 1 {
                    assert(le(t[k], t[j - 1]));
                }
            } else {
                assert(le(t[i - 1], t[j - 1]));
            }
        }
    }
}

/// The stable sort keeps the elements.
pub proof fn lemma_stable_sort_multiset<A>(s: Seq<A>, le: spec_fn(A, A) -> bool)
    ensures
        stable_sort(s, le).to_multiset() == s.to_multiset(),
        stable_sort(s, le).len() == s.len(),
    decreases s.len(),
{
    broadcast use vstd::seq_lib::group_to_multiset_ensures;

    if s.len() > 0 {
        let t = stable_sort(s.drop_last(), le);
        let x = s.last();
        lemma_stable_sort_multiset(s.drop_last(), le);
        lemma_insert_position(t, x, le);
        let k = insert_position(t, x, le);
        assert(t.insert(k, x).to_multiset() == t.to_multiset().insert(x));
        assert(s.drop_last().push(x) == s);
    }
}

/// The stable sort keeps the order of elements that are equal in the order: those of any
/// class of equal elements come out as they stood.
pub proof fn lemma_stable_sort_stable<A>(
    s: Seq<A>,
    le: spec_fn(A, A) -> bool,
    class: spec_fn(A) -> bool,
)
    requires
        total_preorder(le),
        forall|x: A, y: A| class(x) && class(y) ==> #[trigger] le(x, y),
    ensures
        stable_sort(s, le).filter(class) == s.filter(class),
    decreases s.len(),
{
    if s.len() > 0 {
        let t = stable_sort(s.drop_last(), le);
        let x = s.last();
        let k = insert_position(t, x, le);
        let r = t.insert(k, x);
        lemma_stable_sort_stable(s.drop_last(), le, class);
        lemma_stable_sort_sorted(s.drop_last(), le);
        lemma_insert_position(t, x, le);
        let front = t.take(k);
        let back = t.skip(k);
        assert(t == front + back);
        assert(r == front.push(x) + back);
        Seq::filter_distributes_over_add(front, back, class);
        Seq::filter_distributes_over_add(front.push(x), back, class);
        front.lemma_filter_push(x, class);
        s.drop_last().lemma_filter_push(x, class);
        assert(s.drop_last().push(x) == s);
        if class(x) {
            assert forall|i: int| 0 <= i < back.len() implies !class(#[trigger] back[i]) by {
                if class(back[i]) {
                    assert(back[i] == t[k + i]);
                    assert(le(t[k + i], x));
                    if i > 0 {
                        assert(le(t[k], t[k + i]));
                    }
                }
            }
            back.lemma_all_neg_filter_empty(class);
            assert(back.filter(class) == Seq::<A>::empty());
            assert(r.filter(class) == front.filter(class).push(x));
            assert(t.filter(class) == front.filter(class));
        } else {
            assert(r.filter(class) == t.filter(class));
        }
    }
}

} // verus!
