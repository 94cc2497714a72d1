//! Stable ordering by an integer key.

use vstd::prelude::*;

verus! {

/// Something that is ordered by an integer.
pub trait Keyed: Sized {
    /// What the value is ordered by.
    spec fn key(&self) -> int;

    /// What the value is ordered by.
    fn sort_key(&self) -> (k: u64)
        ensures
            k == self.key(),
    ;
}

/// `sorted` with `x` behind everything whose key is not greater.
pub open spec fn insert_by_key<T: Keyed>(sorted: Seq<T>, x: T) -> Seq<T>
    decreases sorted.len(),
{
    if sorted.len() == 0 || sorted.last().key() <= x.key() {
        sorted.push(x)
    } else {
        insert_by_key(sorted.drop_last(), x).push(sorted.last())
    }
}

/// The items ordered by key, those of one key in the order they came in.
pub open spec fn ordered<T: Keyed>(items: Seq<T>) -> Seq<T>
    decreases items.len(),
{
    if items.len() == 0 {
        items
    } else {
        insert_by_key(ordered(items.drop_last()), items.last())
    }
}

/// Whether the keys never go down.
pub open spec fn is_ordered<T: Keyed>(items: Seq<T>) -> bool {
    forall|i: int, j: int|
        0 <= i <= j < items.len() ==> (#[trigger] items[i]).key() <= (#[trigger] items[j]).key()
}

/// The items of one key.
pub open spec fn of_key<T: Keyed>(items: Seq<T>, key: int) -> Seq<T>
    decreases items.len(),
{
    if items.len() == 0 {
        Seq::empty()
    } else if items.last().key() == key {
        of_key(items.drop_last(), key).push(items.last())
    } else {
        of_key(items.drop_last(), key)
    }
}

proof fn lemma_insert_at<T: Keyed>(sorted: Seq<T>, x: T, at: int)
    requires
        0 <= at <= sorted.len(),
        forall|k: int| at <= k < sorted.len() ==> x.key() < (#[trigger] sorted[k]).key(),
        at > 0 ==> sorted[at - 1].key() <= x.key(),
    ensures
        insert_by_key(sorted, x) == sorted.insert(at, x),
    decreases sorted.len(),
{
    if at == sorted.len() {
        assert(sorted.insert(at, x) =~= sorted.push(x));
    } else {
        assert(sorted[sorted.len() - 1] == sorted.last());
        assert forall|k: int| at <= k < sorted.drop_last().len() implies x.key() < (
        #[trigger] sorted.drop_last()[k]).key() by {
            assert(sorted.drop_last()[k] == sorted[k]);
        }
        lemma_insert_at(sorted.drop_last(), x, at);
        assert(sorted.insert(at, x) =~= sorted.drop_last().insert(at, x).push(sorted.last()));
    }
}

/// Returns the items ordered by key; items of one key keep their order.
pub fn sort_by_key<T: Keyed + Copy>(items: &[T]) -> (r: Vec<T>)
    ensures
        r@ == ordered(items@),
{
    let mut out: Vec<T> = Vec::new();
    let mut n: usize = 0;
    while n < items.len()
        invariant
            n <= items.len(),
            out@ == ordered(items@.take(n as int)),
            out.len() == n,
        decreases items.len() - n,
    {
        let x: T = items[n];
        let key: u64 = x.sort_key();
        let mut at: usize = out.len();
        while at > 0 && out[at - 1].sort_key() > key
            invariant
                at <= out.len(),
                key == x.key(),
                forall|k: int| at <= k < out.len() ==> x.key() < (#[trigger] out@[k]).key(),
            decreases at,
        {
            at = at - 1;
        }
        proof {
            lemma_insert_at(out@, x, at as int);
            assert(items@.take(n + 1).drop_last() =~= items@.take(n as int));
        }
        out.insert(at, x);
        n = n + 1;
    }
    proof {
        assert(items@.take(n as int) =~= items@);
    }
    out
}

proof fn lemma_insert<T: Keyed>(sorted: Seq<T>, x: T)
    requires
        is_ordered(sorted),
    ensures
        is_ordered(insert_by_key(sorted, x)),
        insert_by_key(sorted, x).to_multiset() == sorted.to_multiset().insert(x),
        insert_by_key(sorted, x).len() == sorted.len() + 1,
        insert_by_key(sorted, x).last() == x || sorted.len() > 0 && insert_by_key(sorted, x).last()
            == sorted.last() && x.key() < sorted.last().key(),
    decreases sorted.len(),
{
    broadcast use vstd::seq_lib::group_to_multiset_ensures;

    let r = insert_by_key(sorted, x);
    if sorted.len() == 0 || sorted.last().key() <= x.key() {
        assert forall|i: int, j: int| 0 <= i <= j < r.len() implies (#[trigger] r[i]).key() <= (
        #[trigger] r[j]).key() by {
            if i < sorted.len() {
                assert(sorted[i].key() <= sorted[sorted.len() - 1].key());
            }
        }
    } else {
        let front = sorted.drop_last();
        let inner = insert_by_key(front, x);
        assert forall|i: int, j: int| 0 <= i <= j < front.len() implies (#[trigger] front[i]).key()
            <= (#[trigger] front[j]).key() by {
            assert(front[i] == sorted[i] && front[j] == sorted[j]);
        }
        lemma_insert(front, x);
        assert(sorted =~= front.push(sorted.last()));
        assert(sorted.to_multiset() =~= front.to_multiset().insert(sorted.last()));
        assert(r.to_multiset() =~= sorted.to_multiset().insert(x));
        assert(inner.last().key() <= sorted.last().key()) by {
            if front.len() > 0 {
                assert(sorted[front.len() - 1].key() <= sorted[sorted.len() - 1].key());
            }
        }
        assert forall|i: int, j: int| 0 <= i <= j < r.len() implies (#[trigger] r[i]).key() <= (
        #[trigger] r[j]).key() by {
            if i < inner.len() {
                assert(inner[i].key() <= inner[inner.len() - 1].key());
                if j < inner.len() {
                    assert(inner[i].key() <= inner[j].key());
                }
            }
        }
    }
}

/// Law: ordering rearranges the items, loses none and makes none up.
pub proof fn law_ordered<T: Keyed>(items: Seq<T>)
    ensures
        is_ordered(ordered(items)),
        ordered(items).to_multiset() == items.to_multiset(),
        ordered(items).len() == items.len(),
    decreases items.len(),
{
    broadcast use vstd::seq_lib::group_to_multiset_ensures;

    if items.len() > 0 {
        law_ordered(items.drop_last());
        lemma_insert(ordered(items.drop_last()), items.last());
        assert(items =~= items.drop_last().push(items.last()));
    }
}

proof fn lemma_insert_stable<T: Keyed>(sorted: Seq<T>, x: T, key: int)
    ensures
        of_key(insert_by_key(sorted, x), key) == if x.key() == key {
            of_key(sorted, key).push(x)
        } else {
            of_key(sorted, key)
        },
    decreases sorted.len(),
{
    let r = insert_by_key(sorted, x);
    if sorted.len() == 0 || sorted.last().key() <= x.key() {
        assert(r.drop_last() =~= sorted);
    } else {
        lemma_insert_stable(sorted.drop_last(), x, key);
        assert(r.drop_last() =~= insert_by_key(sorted.drop_last(), x));
    }
}

/// Law: ordering is stable. The items of any one key stay in their order.
pub proof fn law_ordered_is_stable<T: Keyed>(items: Seq<T>, key: int)
    ensures
        of_key(ordered(items), key) == of_key(items, key),
    decreases items.len(),
{
    if items.len() > 0 {
        law_ordered_is_stable(items.drop_last(), key);
        lemma_insert_stable(ordered(items.drop_last()), items.last(), key);
    }
}

/// Law: what is ordered stays as it is.
pub proof fn law_ordered_is_idle<T: Keyed>(items: Seq<T>)
    requires
        is_ordered(items),
    ensures
        ordered(items) == items,
    decreases items.len(),
{
    if items.len() > 0 {
        let front = items.drop_last();
        assert forall|i: int, j: int| 0 <= i <= j < front.len() implies (#[trigger] front[i]).key()
            <= (#[trigger] front[j]).key() by {
            assert(front[i] == items[i] && front[j] == items[j]);
        }
        law_ordered_is_idle(front);
        if front.len() > 0 {
            assert(items[front.len() - 1].key() <= items[items.len() - 1].key());
        }
        assert(front.push(items.last()) =~= items);
    }
}

} // verus!
