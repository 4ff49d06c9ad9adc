//! Stable insertion order: each new element goes after every element that
//! is not greater than it.

use vstd::prelude::*;

verus! {

/// `s` with `x` placed after the last of its trailing elements that `le`
/// puts before or beside `x`.
pub open spec fn insert_by<T>(s: Seq<T>, x: T, le: spec_fn(T, T) -> bool) -> Seq<T>
    decreases s.len(),
{
    if s.len() == 0 {
        seq![x]
    } else if le(s.last(), x) {
        s.push(x)
    } else {
        insert_by(s.drop_last(), x, le).push(s.last())
    }
}

/// The stable sort of `s` by the order `le`.
pub open spec fn sort_by<T>(s: Seq<T>, le: spec_fn(T, T) -> bool) -> Seq<T>
    decreases s.len(),
{
    if s.len() == 0 {
        s
    } else {
        insert_by(sort_by(s.drop_last(), le), s.last(), le)
    }
}

/// Inserting at `p` is `insert_by` when `p` follows the last element that
/// `le` puts before `x` and every later element comes after `x`.
pub proof fn lemma_insert_at<T>(s: Seq<T>, x: T, le: spec_fn(T, T) -> bool, p: int)
    requires
        0 <= p <= s.len(),
        p == 0 || le(s[p - 1], x),
        forall|j: int| p <= j < s.len() ==> !le(#[trigger] s[j], x),
    ensures
        insert_by(s, x, le) == s.take(p) + seq![x] + s.skip(p),
    decreases s.len(),
{
    if s.len() == 0 {
        assert(s.take(p) + seq![x] + s.skip(p) =~= seq![x]);
    } else if p == s.len() {
        assert(s.take(p) + seq![x] + s.skip(p) =~= s.push(x));
    } else {
        let t = s.drop_last();
        lemma_insert_at(t, x, le, p);
        assert(s.take(p) + seq![x] + s.skip(p) =~= (t.take(p) + seq![x] + t.skip(p)).push(s.last()));
    }
}

/// `insert_by` keeps the elements and adds `x`.
pub proof fn lemma_insert_multiset<T>(s: Seq<T>, x: T, le: spec_fn(T, T) -> bool)
    ensures
        insert_by(s, x, le).to_multiset() == s.to_multiset().insert(x),
    decreases s.len(),
{
    broadcast use vstd::seq_lib::group_to_multiset_ensures;

    if s.len() == 0 {
        assert(seq![x] =~= Seq::<T>::empty().push(x));
    } else if le(s.last(), x) {
    } else {
        lemma_insert_multiset(s.drop_last(), x, le);
        assert(s =~= s.drop_last().push(s.last()));
    }
}

/// Sorting keeps the elements.
pub proof fn lemma_sort_multiset<T>(s: Seq<T>, le: spec_fn(T, T) -> bool)
    ensures
        sort_by(s, le).to_multiset() == s.to_multiset(),
    decreases s.len(),
{
    broadcast use vstd::seq_lib::group_to_multiset_ensures;

    if s.len() > 0 {
        lemma_sort_multiset(s.drop_last(), le);
        lemma_insert_multiset(sort_by(s.drop_last(), le), s.last(), le);
        assert(s =~= s.drop_last().push(s.last()));
    }
}

/// `s` is ordered by `le` between neighbours.
pub open spec fn ordered_by<T>(s: Seq<T>, le: spec_fn(T, T) -> bool) -> bool {
    forall|i: int| 0 < i < s.len() ==> le(#[trigger] s[i - 1], s[i])
}

/// A total order: of two elements, one goes before or beside the other.
pub open spec fn total<T>(le: spec_fn(T, T) -> bool) -> bool {
    forall|a: T, b: T| #[trigger] le(a, b) || le(b, a)
}

/// Inserting into an ordered sequence keeps it ordered.
pub proof fn lemma_insert_ordered<T>(s: Seq<T>, x: T, le: spec_fn(T, T) -> bool)
    requires
        ordered_by(s, le),
        total(le),
    ensures
        ordered_by(insert_by(s, x, le), le),
        insert_by(s, x, le).len() == s.len() + 1,
        s.len() > 0 ==> insert_by(s, x, le).last() == x || insert_by(s, x, le).last() == s.last(),
    decreases s.len(),
{
    if s.len() > 0 && !le(s.last(), x) {
        let t = s.drop_last();
        assert(ordered_by(t, le)) by {
            assert forall|i: int| 0 < i < t.len() implies le(#[trigger] t[i - 1], t[i]) by {
                assert(s[i - 1] == t[i - 1] && s[i] == t[i]);
            }
        }
        lemma_insert_ordered(t, x, le);
        let u = insert_by(t, x, le);
        assert(le(x, s.last()));
        if t.len() > 0 {
            assert(le(t.last(), s.last())) by {
                assert(s[s.len() - 2] == t.last());
            }
        }
        assert forall|i: int| 0 < i < u.push(s.last()).len() implies le(
            #[trigger] u.push(s.last())[i - 1],
            u.push(s.last())[i],
        ) by {
            if i < u.len() {
                assert(u.push(s.last())[i - 1] == u[i - 1]);
            }
        }
    }
}

/// Sorting by a total order gives an ordered sequence.
pub proof fn lemma_sort_ordered<T>(s: Seq<T>, le: spec_fn(T, T) -> bool)
    requires
        total(le),
    ensures
        ordered_by(sort_by(s, le), le),
        sort_by(s, le).len() == s.len(),
    decreases s.len(),
{
    if s.len() > 0 {
        lemma_sort_ordered(s.drop_last(), le);
        lemma_insert_ordered(sort_by(s.drop_last(), le), s.last(), le);
    }
}

} // verus!
