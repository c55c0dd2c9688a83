//! Stable ordering of sequences.
use vstd::prelude::*;

verus! {

/// `x` put into `s` right behind the last element that `le` places at or before it.
pub open spec fn insert_by<T>(s: Seq<T>, x: T, le: spec_fn(T, T) -> bool) -> Seq<T>
    decreases s.len(),
{
    if s.len() == 0 || le(s.last(), x) {
        s.push(x)
    } else {
        insert_by(s.drop_last(), x, le).push(s.last())
    }
}

/// `s` in the order of `le`; elements that `le` does not tell apart keep their order.
pub open spec fn sort_by<T>(s: Seq<T>, le: spec_fn(T, T) -> bool) -> Seq<T>
    decreases s.len(),
{
    if s.len() == 0 {
        s
    } else {
        insert_by(sort_by(s.drop_last(), le), s.last(), le)
    }
}

/// Every element of `s` is, by `le`, at or before each one behind it.
pub open spec fn ordered_by<T>(s: Seq<T>, le: spec_fn(T, T) -> bool) -> bool {
    forall|i: int, j: int| 0 <= i < j < s.len() ==> le(#[trigger] s[i], #[trigger] s[j])
}

/// `le` compares any two elements, and chains.
pub open spec fn total_order<T>(le: spec_fn(T, T) -> bool) -> bool {
    &&& forall|a: T, b: T| #[trigger] le(a, b) || le(b, a)
    &&& forall|a: T, b: T, c: T| #[trigger] le(a, b) && #[trigger] le(b, c) ==> le(a, c)
}

/// Insertion adds one element and keeps the others.
pub proof fn lemma_insert_by_multiset<T>(s: Seq<T>, x: T, le: spec_fn(T, T) -> bool)
    ensures
        insert_by(s, x, le).to_multiset() == s.to_multiset().insert(x),
        insert_by(s, x, le).len() == s.len() + 1,
    decreases s.len(),
{
    broadcast use vstd::seq_lib::group_to_multiset_ensures;

    if s.len() == 0 || le(s.last(), x) {
    } else {
        lemma_insert_by_multiset(s.drop_last(), x, le);
        assert(s.drop_last().push(s.last()) =~= s);
        assert(insert_by(s, x, le).to_multiset() =~= s.to_multiset().insert(x));
    }
}

/// Sorting rearranges: nothing is lost, added or repeated.
pub proof fn law_sort_by_permutes<T>(s: Seq<T>, le: spec_fn(T, T) -> bool)
    ensures
        sort_by(s, le).to_multiset() == s.to_multiset(),
        sort_by(s, le).len() == s.len(),
    decreases s.len(),
{
    broadcast use vstd::seq_lib::group_to_multiset_ensures;

    if s.len() > 0 {
        law_sort_by_permutes(s.drop_last(), le);
        lemma_insert_by_multiset(sort_by(s.drop_last(), le), s.last(), le);
        assert(s.drop_last().push(s.last()) =~= s);
    }
}

/// An element of a sequence with one more element inserted is that element or an old one.
pub proof fn lemma_insert_by_elements<T>(s: Seq<T>, x: T, le: spec_fn(T, T) -> bool)
    ensures
        forall|i: int|
            0 <= i < insert_by(s, x, le).len() ==> (#[trigger] insert_by(s, x, le)[i]) == x
                || s.contains(insert_by(s, x, le)[i]),
        insert_by(s, x, le).len() == s.len() + 1,
    decreases s.len(),
{
    if s.len() == 0 || le(s.last(), x) {
        assert forall|i: int| 0 <= i < insert_by(s, x, le).len() implies (
        #[trigger] insert_by(s, x, le)[i]) == x || s.contains(insert_by(s, x, le)[i]) by {
            if i < s.len() {
                assert(s[i] == insert_by(s, x, le)[i]);
            }
        }
    } else {
        let rest = s.drop_last();
        lemma_insert_by_elements(rest, x, le);
        assert forall|i: int| 0 <= i < insert_by(s, x, le).len() implies (
        #[trigger] insert_by(s, x, le)[i]) == x || s.contains(insert_by(s, x, le)[i]) by {
            if i < s.len() {
                let y = insert_by(rest, x, le)[i];
                if y != x {
                    let k = choose|k: int| 0 <= k < rest.len() && rest[k] == y;
                    assert(s[k] == y);
                }
            } else {
                assert(s[s.len() - 1] == insert_by(s, x, le)[i]);
            }
        }
    }
}

/// What a sorted sequence holds was there before.
pub proof fn lemma_sort_by_elements<T>(s: Seq<T>, le: spec_fn(T, T) -> bool)
    ensures
        forall|i: int|
            0 <= i < sort_by(s, le).len() ==> s.contains(#[trigger] sort_by(s, le)[i]),
    decreases s.len(),
{
    if s.len() > 0 {
        let rest = s.drop_last();
        lemma_sort_by_elements(rest, le);
        lemma_insert_by_elements(sort_by(rest, le), s.last(), le);
        assert forall|i: int| 0 <= i < sort_by(s, le).len() implies s.contains(
            #[trigger] sort_by(s, le)[i],
        ) by {
            let y = sort_by(s, le)[i];
            if y == s.last() {
                assert(s[s.len() - 1] == y);
            } else {
                let k = choose|k: int|
                    0 <= k < sort_by(rest, le).len() && sort_by(rest, le)[k] == y;
                assert(rest.contains(sort_by(rest, le)[k]));
                let j = choose|j: int| 0 <= j < rest.len() && rest[j] == y;
                assert(s[j] == y);
            }
        }
    }
}

/// Insertion keeps an ordered sequence ordered.
pub proof fn lemma_insert_by_ordered<T>(s: Seq<T>, x: T, le: spec_fn(T, T) -> bool)
    requires
        total_order(le),
        ordered_by(s, le),
    ensures
        ordered_by(insert_by(s, x, le), le),
    decreases s.len(),
{
    if s.len() == 0 {
    } else if le(s.last(), x) {
        assert forall|i: int, j: int| 0 <= i < j < s.push(x).len() implies le(
            #[trigger] s.push(x)[i],
            #[trigger] s.push(x)[j],
        ) by {
            if j == s.len() && i < s.len() - 1 {
                assert(le(s[i], s[s.len() - 1]));
                assert(le(s.last(), x));
            }
        }
    } else {
        let rest = s.drop_last();
        let placed = insert_by(rest, x, le);
        assert(ordered_by(rest, le)) by {
            assert forall|i: int, j: int| 0 <= i < j < rest.len() implies le(
                #[trigger] rest[i],
                #[trigger] rest[j],
            ) by {
                assert(le(s[i], s[j]));
            }
        }
        lemma_insert_by_ordered(rest, x, le);
        lemma_insert_by_elements(rest, x, le);
        let all = placed.push(s.last());
        assert forall|i: int, j: int| 0 <= i < j < all.len() implies le(
            #[trigger] all[i],
            #[trigger] all[j],
        ) by {
            if j < placed.len() {
                assert(le(placed[i], placed[j]));
            } else if placed[i] == x {
                assert(le(x, s.last()) || le(s.last(), x));
            } else {
                let k = choose|k: int| 0 <= k < rest.len() && rest[k] == placed[i];
                assert(le(s[k], s[s.len() - 1]));
            }
        }
    }
}

/// Sorting by a total order leaves the elements in that order.
pub proof fn law_sort_by_orders<T>(s: Seq<T>, le: spec_fn(T, T) -> bool)
    requires
        total_order(le),
    ensures
        ordered_by(sort_by(s, le), le),
    decreases s.len(),
{
    if s.len() > 0 {
        law_sort_by_orders(s.drop_last(), le);
        lemma_insert_by_ordered(sort_by(s.drop_last(), le), s.last(), le);
    }
}

/// A sequence that is in order already is left as it is.
pub proof fn law_sort_by_keeps_ordered<T>(s: Seq<T>, le: spec_fn(T, T) -> bool)
    requires
        ordered_by(s, le),
    ensures
        sort_by(s, le) == s,
    decreases s.len(),
{
    if s.len() > 0 {
        let rest = s.drop_last();
        assert forall|i: int, j: int| 0 <= i < j < rest.len() implies le(
            #[trigger] rest[i],
            #[trigger] rest[j],
        ) by {
            assert(le(s[i], s[j]));
        }
        law_sort_by_keeps_ordered(rest, le);
        if rest.len() > 0 {
            assert(le(s[rest.len() - 1], s[s.len() - 1]));
        }
        assert(rest.push(s.last()) =~= s);
    }
}

/// Insertion puts an element behind those that it is not told apart from.
proof fn lemma_insert_by_class<T>(
    s: Seq<T>,
    x: T,
    le: spec_fn(T, T) -> bool,
    alike: spec_fn(T) -> bool,
)
    requires
        forall|a: T, b: T| #[trigger] alike(a) && #[trigger] alike(b) ==> le(a, b),
    ensures
        insert_by(s, x, le).filter(alike) == (if alike(x) {
            s.filter(alike).push(x)
        } else {
            s.filter(alike)
        }),
    decreases s.len(),
{
    reveal(Seq::filter);
    if s.len() == 0 || le(s.last(), x) {
        assert(s.push(x).drop_last() =~= s);
    } else {
        let rest = s.drop_last();
        lemma_insert_by_class(rest, x, le, alike);
        assert(insert_by(rest, x, le).push(s.last()).drop_last() =~= insert_by(rest, x, le));
    }
}

/// Sorting is stable: elements that the order does not tell apart keep the order they had.
pub proof fn law_sort_by_is_stable<T>(
    s: Seq<T>,
    le: spec_fn(T, T) -> bool,
    alike: spec_fn(T) -> bool,
)
    requires
        forall|a: T, b: T| #[trigger] alike(a) && #[trigger] alike(b) ==> le(a, b),
    ensures
        sort_by(s, le).filter(alike) == s.filter(alike),
    decreases s.len(),
{
    reveal(Seq::filter);
    if s.len() > 0 {
        law_sort_by_is_stable(s.drop_last(), le, alike);
        lemma_insert_by_class(sort_by(s.drop_last(), le), s.last(), le, alike);
    }
}

/// Where insertion happens: at `at`, when everything from there on lies behind `x` and the
/// element before does not.
pub proof fn lemma_insert_by_at<T>(s: Seq<T>, x: T, le: spec_fn(T, T) -> bool, at: int)
    requires
        0 <= at <= s.len(),
        at > 0 ==> le(s[at - 1], x),
        forall|i: int| at <= i < s.len() ==> !le(#[trigger] s[i], x),
    ensures
        insert_by(s, x, le) == s.insert(at, x),
    decreases s.len(),
{
    if at == s.len() {
        assert(s.insert(at, x) =~= s.push(x));
    } else {
        assert(!le(s[s.len() - 1], x));
        let rest = s.drop_last();
        assert forall|i: int| at <= i < rest.len() implies !le(#[trigger] rest[i], x) by {
            assert(!le(s[i], x));
        }
        lemma_insert_by_at(rest, x, le, at);
        assert(rest.insert(at, x).push(s.last()) =~= s.insert(at, x));
    }
}

} // verus!
