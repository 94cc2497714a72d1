//! Sequences that hold the same things in another order.

use vstd::multiset::Multiset;
use vstd::prelude::*;

verus! {

/// What the items stand for, all together.
pub open spec fn gathered<A, B>(items: Seq<A>, f: spec_fn(A) -> Multiset<B>) -> Multiset<B>
    decreases items.len(),
{
    if items.len() == 0 {
        Multiset::empty()
    } else {
        gathered(items.drop_last(), f).add(f(items.last()))
    }
}

/// The last of `s` stands somewhere in a permutation of `s`, and the rest are
/// permutations of one another.
pub proof fn lemma_find_last<A>(s: Seq<A>, t: Seq<A>) -> (j: int)
    requires
        s.to_multiset() == t.to_multiset(),
        s.len() > 0,
    ensures
        s.len() == t.len(),
        0 <= j < t.len(),
        t[j] == s.last(),
        s.drop_last().to_multiset() == t.remove(j).to_multiset(),
{
    broadcast use vstd::seq_lib::group_to_multiset_ensures;

    lemma_same_len(s, t);
    assert(s.contains(s.last()));
    assert(t.to_multiset().count(s.last()) > 0);
    assert(t.contains(s.last()));
    let j = choose|j: int| 0 <= j < t.len() && t[j] == s.last();
    assert(s.remove(s.len() - 1) =~= s.drop_last());
    assert(s.remove(s.len() - 1).to_multiset() == s.to_multiset().remove(s[s.len() - 1]));
    j
}

/// Any item can be gathered last.
pub proof fn lemma_gathered_remove<A, B>(items: Seq<A>, f: spec_fn(A) -> Multiset<B>, j: int)
    requires
        0 <= j < items.len(),
    ensures
        gathered(items, f) == gathered(items.remove(j), f).add(f(items[j])),
    decreases items.len(),
{
    if j == items.len() - 1 {
        assert(items.remove(j) =~= items.drop_last());
    } else {
        let front = items.drop_last();
        lemma_gathered_remove(front, f, j);
        assert(items.remove(j).drop_last() =~= front.remove(j));
        assert(items.remove(j).last() == items.last());
        assert(gathered(items, f) =~= gathered(items.remove(j), f).add(f(items[j])));
    }
}

/// Gathering does not depend on the order.
pub proof fn lemma_gathered<A, B>(s: Seq<A>, t: Seq<A>, f: spec_fn(A) -> Multiset<B>)
    requires
        s.to_multiset() == t.to_multiset(),
    ensures
        gathered(s, f) == gathered(t, f),
    decreases s.len(),
{
    lemma_same_len(s, t);
    if s.len() > 0 {
        let j = lemma_find_last(s, t);
        lemma_gathered(s.drop_last(), t.remove(j), f);
        lemma_gathered_remove(t, f, j);
    }
}

/// Permutations have one length.
pub proof fn lemma_same_len<A>(s: Seq<A>, t: Seq<A>)
    requires
        s.to_multiset() == t.to_multiset(),
    ensures
        s.len() == t.len(),
{
    vstd::seq_lib::to_multiset_len(s);
    vstd::seq_lib::to_multiset_len(t);
}

/// Each item of `s` stands somewhere in a permutation of `s`.
pub proof fn lemma_find<A>(s: Seq<A>, t: Seq<A>, i: int) -> (j: int)
    requires
        s.to_multiset() == t.to_multiset(),
        0 <= i < s.len(),
    ensures
        0 <= j < t.len(),
        t[j] == s[i],
{
    broadcast use vstd::seq_lib::group_to_multiset_ensures;

    assert(s.contains(s[i]));
    assert(t.to_multiset().count(s[i]) > 0);
    assert(t.contains(s[i]));
    choose|j: int| 0 <= j < t.len() && t[j] == s[i]
}

/// Each item for itself, under `f`.
pub open spec fn image_of<A, B>(f: spec_fn(A) -> B) -> spec_fn(A) -> Multiset<B> {
    |a: A| Multiset::singleton(f(a))
}

proof fn lemma_map_is_gathered<A, B>(s: Seq<A>, f: spec_fn(A) -> B)
    ensures
        s.map_values(f).to_multiset() == gathered(s, image_of(f)),
    decreases s.len(),
{
    broadcast use vstd::seq_lib::group_to_multiset_ensures;

    if s.len() > 0 {
        lemma_map_is_gathered(s.drop_last(), f);
        assert(s.map_values(f) =~= s.drop_last().map_values(f).push(f(s.last())));
        assert(s.map_values(f).to_multiset() =~= gathered(s, image_of(f)));
    } else {
        assert(s.map_values(f) =~= Seq::empty());
        assert(s.map_values(f).to_multiset() =~= Multiset::empty());
    }
}

/// Mapping keeps permutations.
pub proof fn lemma_map<A, B>(s: Seq<A>, t: Seq<A>, f: spec_fn(A) -> B)
    requires
        s.to_multiset() == t.to_multiset(),
    ensures
        s.map_values(f).to_multiset() == t.map_values(f).to_multiset(),
{
    lemma_map_is_gathered(s, f);
    lemma_map_is_gathered(t, f);
    lemma_gathered(s, t, image_of(f));
}

/// Ordered sequences of one content are one sequence, where no two keys are the
/// same.
pub proof fn lemma_ordered_is_unique<A>(s: Seq<A>, t: Seq<A>, key: spec_fn(A) -> int)
    requires
        s.to_multiset() == t.to_multiset(),
        forall|i: int, j: int|
            0 <= i < j < s.len() ==> key(#[trigger] s[i]) < key(#[trigger] s[j]),
        forall|i: int, j: int|
            0 <= i <= j < t.len() ==> key(#[trigger] t[i]) <= key(#[trigger] t[j]),
    ensures
        s == t,
    decreases s.len(),
{
    lemma_same_len(s, t);
    if s.len() > 0 {
        let n = s.len() - 1;
        let j = lemma_find_last(s, t);
        let k = lemma_find(t, s, n);
        assert(key(t[j]) <= key(t[n]));
        assert(k == n) by {
            if k < n {
                assert(key(s[k]) < key(s[n]));
            }
        }
        let u = t.drop_last();
        assert(u.to_multiset() == s.drop_last().to_multiset()) by {
            broadcast use vstd::seq_lib::group_to_multiset_ensures;

            assert(t.remove(n) =~= u);
            assert(t.remove(n).to_multiset() == t.to_multiset().remove(t[n]));
            assert(t.remove(j).to_multiset() == t.to_multiset().remove(t[j]));
        }
        assert forall|i: int, j: int| 0 <= i < j < n implies key(#[trigger] s.drop_last()[i]) < key(
            #[trigger] s.drop_last()[j],
        ) by {
            assert(s.drop_last()[i] == s[i] && s.drop_last()[j] == s[j]);
        }
        assert forall|i: int, j: int| 0 <= i <= j < n implies key(#[trigger] u[i]) <= key(
            #[trigger] u[j],
        ) by {
            assert(u[i] == t[i] && u[j] == t[j]);
        }
        lemma_ordered_is_unique(s.drop_last(), u, key);
        assert(s =~= s.drop_last().push(s.last()));
        assert(t =~= u.push(t[n]));
    } else {
        assert(s =~= t);
    }
}

} // verus!
