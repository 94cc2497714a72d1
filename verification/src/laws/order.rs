//! Items in order.

use crate::order::Keyed;
use vstd::prelude::*;

verus! {

/// Whether `a` and a later item `b` keep apart: the one with the lower key, `a` if
/// they are equal, ends before the other starts.
pub open spec fn apart<T: Keyed>(a: T, b: T, len: spec_fn(T) -> int) -> bool {
    if a.key() <= b.key() {
        a.key() + len(a) <= b.key()
    } else {
        b.key() + len(b) <= a.key()
    }
}

/// Whether all items keep apart.
pub open spec fn all_apart<T: Keyed>(items: Seq<T>, len: spec_fn(T) -> int) -> bool {
    forall|i: int, j: int|
        0 <= i < j < items.len() ==> apart(#[trigger] items[i], #[trigger] items[j], len)
}

/// Whether each item ends before the later ones start.
pub open spec fn in_turn<T: Keyed>(items: Seq<T>, len: spec_fn(T) -> int) -> bool {
    forall|i: int, j: int|
        0 <= i < j < items.len() ==> (#[trigger] items[i]).key() + len(items[i]) <= (
        #[trigger] items[j]).key()
}

proof fn lemma_insert_keeps<T: Keyed>(sorted: Seq<T>, x: T, y: T)
    ensures
        crate::order::insert_by_key(sorted, x).contains(y) <==> sorted.contains(y) || y == x,
    decreases sorted.len(),
{
    let out = crate::order::insert_by_key(sorted, x);
    if sorted.len() == 0 || sorted.last().key() <= x.key() {
        assert(out == sorted.push(x));
        if sorted.contains(y) {
            let k = choose|k: int| 0 <= k < sorted.len() && sorted[k] == y;
            assert(out[k] == y);
        }
        assert(out[sorted.len() as int] == x);
        if out.contains(y) && y != x {
            let k = choose|k: int| 0 <= k < out.len() && out[k] == y;
            assert(sorted[k] == y);
        }
    } else {
        let front = sorted.drop_last();
        let inner = crate::order::insert_by_key(front, x);
        lemma_insert_keeps(front, x, y);
        assert(out == inner.push(sorted.last()));
        assert(out[inner.len() as int] == sorted.last());
        if inner.contains(y) {
            let k = choose|k: int| 0 <= k < inner.len() && inner[k] == y;
            assert(out[k] == y);
        }
        if sorted.contains(y) {
            let k = choose|k: int| 0 <= k < sorted.len() && sorted[k] == y;
            if k < front.len() {
                assert(front[k] == y);
            }
        }
        if front.contains(y) {
            let k = choose|k: int| 0 <= k < front.len() && front[k] == y;
            assert(sorted[k] == y);
        }
        if out.contains(y) {
            let k = choose|k: int| 0 <= k < out.len() && out[k] == y;
            if k < inner.len() {
                assert(inner[k] == y);
            } else {
                assert(sorted[sorted.len() - 1] == y);
            }
        }
    }
}

/// Ordering keeps the items.
pub(crate) proof fn lemma_order_keeps<T: Keyed>(items: Seq<T>, y: T)
    ensures
        crate::order::ordered(items).contains(y) <==> items.contains(y),
    decreases items.len(),
{
    if items.len() > 0 {
        let front = items.drop_last();
        lemma_order_keeps(front, y);
        lemma_insert_keeps(crate::order::ordered(front), items.last(), y);
        assert(items[items.len() - 1] == items.last());
        if front.contains(y) {
            let k = choose|k: int| 0 <= k < front.len() && front[k] == y;
            assert(items[k] == y);
        }
        if items.contains(y) {
            let k = choose|k: int| 0 <= k < items.len() && items[k] == y;
            if k < front.len() {
                assert(front[k] == y);
            }
        }
    }
}

proof fn lemma_insert_in_turn<T: Keyed>(sorted: Seq<T>, x: T, len: spec_fn(T) -> int)
    requires
        forall|t: T| 0 <= #[trigger] len(t),
    ensures
        in_turn(crate::order::insert_by_key(sorted, x), len) <==> in_turn(sorted, len) && forall|e: T|
            #[trigger] sorted.contains(e) ==> apart(e, x, len),
    decreases sorted.len(),
{
    let out = crate::order::insert_by_key(sorted, x);
    if sorted.len() == 0 {
        assert(!exists|e: T| sorted.contains(e));
    } else if sorted.last().key() <= x.key() {
        assert(out == sorted.push(x));
        let last = sorted.len() - 1;
        assert(sorted.last() == sorted[last]);
        if in_turn(out, len) {
            assert forall|i: int, j: int| 0 <= i < j < sorted.len() implies (
            #[trigger] sorted[i]).key() + len(sorted[i]) <= (#[trigger] sorted[j]).key() by {
                assert(out[i] == sorted[i] && out[j] == sorted[j]);
            }
            assert forall|e: T| #[trigger] sorted.contains(e) implies apart(e, x, len) by {
                let k = choose|k: int| 0 <= k < sorted.len() && sorted[k] == e;
                assert(out[k] == e && out[sorted.len() as int] == x);
            }
        }
        if in_turn(sorted, len) && forall|e: T| #[trigger]
            sorted.contains(e) ==> apart(e, x, len) {
            assert forall|i: int, j: int| 0 <= i < j < out.len() implies (#[trigger] out[i]).key()
                + len(out[i]) <= (#[trigger] out[j]).key() by {
                if j == sorted.len() {
                    assert(sorted.contains(sorted[i]));
                    assert(sorted.contains(sorted[last]));
                    if i < last {
                        assert(sorted[i].key() + len(sorted[i]) <= sorted[last].key());
                    }
                } else {
                    assert(out[i] == sorted[i] && out[j] == sorted[j]);
                }
            }
        }
    } else {
        let front = sorted.drop_last();
        let last = sorted.last();
        let inner = crate::order::insert_by_key(front, x);
        lemma_insert_in_turn(front, x, len);
        assert(out == inner.push(last));
        let n = inner.len() as int;
        assert(out[n] == last);
        assert(sorted[sorted.len() - 1] == last);
        lemma_insert_keeps(front, x, x);
        if in_turn(out, len) {
            assert forall|i: int, j: int| 0 <= i < j < inner.len() implies (
            #[trigger] inner[i]).key() + len(inner[i]) <= (#[trigger] inner[j]).key() by {
                assert(out[i] == inner[i] && out[j] == inner[j]);
            }
            assert(in_turn(front, len));
            assert forall|i: int, j: int| 0 <= i < j < sorted.len() implies (
            #[trigger] sorted[i]).key() + len(sorted[i]) <= (#[trigger] sorted[j]).key() by {
                assert(front[i] == sorted[i]);
                if j < front.len() {
                    assert(front[j] == sorted[j]);
                } else {
                    assert(front.contains(front[i]));
                    lemma_insert_keeps(front, x, front[i]);
                    let k = choose|k: int| 0 <= k < inner.len() && inner[k] == front[i];
                    assert(out[k] == front[i] && k < n);
                }
            }
            assert forall|e: T| #[trigger] sorted.contains(e) implies apart(e, x, len) by {
                let k = choose|k: int| 0 <= k < sorted.len() && sorted[k] == e;
                if k < front.len() {
                    assert(front[k] == e);
                    assert(front.contains(e));
                } else {
                    let m = choose|m: int| 0 <= m < inner.len() && inner[m] == x;
                    assert(out[m] == x && m < n);
                }
            }
        }
        if in_turn(sorted, len) && forall|e: T| #[trigger]
            sorted.contains(e) ==> apart(e, x, len) {
            assert forall|i: int, j: int| 0 <= i < j < front.len() implies (
            #[trigger] front[i]).key() + len(front[i]) <= (#[trigger] front[j]).key() by {
                assert(front[i] == sorted[i] && front[j] == sorted[j]);
            }
            assert forall|e: T| #[trigger] front.contains(e) implies apart(e, x, len) by {
                let k = choose|k: int| 0 <= k < front.len() && front[k] == e;
                assert(sorted[k] == e);
                assert(sorted.contains(e));
            }
            assert(in_turn(inner, len));
            assert(sorted.contains(last));
            assert forall|i: int, j: int| 0 <= i < j < out.len() implies (#[trigger] out[i]).key()
                + len(out[i]) <= (#[trigger] out[j]).key() by {
                assert(out[i] == inner[i]);
                if j == n {
                    let e = inner[i];
                    assert(inner.contains(e));
                    lemma_insert_keeps(front, x, e);
                    if front.contains(e) {
                        let k = choose|k: int| 0 <= k < front.len() && front[k] == e;
                        assert(sorted[k] == e);
                    }
                } else {
                    assert(out[j] == inner[j]);
                }
            }
        }
    }
}

/// Ordering puts items in turn exactly if they keep apart.
pub(crate) proof fn lemma_in_turn<T: Keyed>(items: Seq<T>, len: spec_fn(T) -> int)
    requires
        forall|t: T| 0 <= #[trigger] len(t),
    ensures
        in_turn(crate::order::ordered(items), len) <==> all_apart(items, len),
    decreases items.len(),
{
    if items.len() > 0 {
        let front = items.drop_last();
        let x = items.last();
        let sorted = crate::order::ordered(front);
        lemma_in_turn(front, len);
        lemma_insert_in_turn(sorted, x, len);
        assert(items[items.len() - 1] == x);
        if all_apart(items, len) {
            assert forall|i: int, j: int| 0 <= i < j < front.len() implies apart(
                #[trigger] front[i],
                #[trigger] front[j],
                len,
            ) by {
                assert(front[i] == items[i] && front[j] == items[j]);
            }
            assert forall|e: T| #[trigger] sorted.contains(e) implies apart(e, x, len) by {
                lemma_order_keeps(front, e);
                let k = choose|k: int| 0 <= k < front.len() && front[k] == e;
                assert(items[k] == e);
            }
        }
        if in_turn(crate::order::ordered(items), len) {
            assert forall|i: int, j: int| 0 <= i < j < items.len() implies apart(
                #[trigger] items[i],
                #[trigger] items[j],
                len,
            ) by {
                assert(front[i] == items[i]);
                if j < front.len() {
                    assert(front[j] == items[j]);
                } else {
                    assert(front.contains(front[i]));
                    lemma_order_keeps(front, front[i]);
                }
            }
        }
    }
}

proof fn lemma_insert_position<T: Keyed>(sorted: Seq<T>, x: T) -> (at: int)
    ensures
        0 <= at <= sorted.len(),
        crate::order::insert_by_key(sorted, x) == sorted.insert(at, x),
        forall|k: int| at <= k < sorted.len() ==> x.key() < (#[trigger] sorted[k]).key(),
        at > 0 ==> sorted[at - 1].key() <= x.key(),
    decreases sorted.len(),
{
    if sorted.len() == 0 || sorted.last().key() <= x.key() {
        assert(sorted.push(x) =~= sorted.insert(sorted.len() as int, x));
        sorted.len() as int
    } else {
        let front = sorted.drop_last();
        let at = lemma_insert_position(front, x);
        assert(front.insert(at, x).push(sorted.last()) =~= sorted.insert(at, x));
        assert forall|k: int| at <= k < sorted.len() implies x.key() < (
        #[trigger] sorted[k]).key() by {
            if k < front.len() {
                assert(front[k] == sorted[k]);
            }
        }
        at
    }
}

/// Two items have two places in the order: the one with the lower key comes
/// first, and of one key the one that came first.
pub(crate) proof fn lemma_order_positions<T: Keyed>(items: Seq<T>, i: int, j: int) -> (r: (int, int))
    requires
        0 <= i < j < items.len(),
    ensures
        0 <= r.0 < crate::order::ordered(items).len(),
        0 <= r.1 < crate::order::ordered(items).len(),
        r.0 != r.1,
        crate::order::ordered(items)[r.0] == items[i],
        crate::order::ordered(items)[r.1] == items[j],
        r.0 < r.1 <==> items[i].key() <= items[j].key(),
    decreases items.len(),
{
    let front = items.drop_last();
    let x = items.last();
    let sorted = crate::order::ordered(front);
    let out = crate::order::ordered(items);
    let at = lemma_insert_position(sorted, x);
    crate::order::law_ordered(front);
    assert(front[i] == items[i]);
    if j < front.len() {
        assert(front[j] == items[j]);
        let (a, b) = lemma_order_positions(front, i, j);
        let p = if a < at {
            a
        } else {
            a + 1
        };
        let q = if b < at {
            b
        } else {
            b + 1
        };
        assert(out[p] == sorted[a] && out[q] == sorted[b]);
        (p, q)
    } else {
        assert(front.contains(front[i]));
        lemma_order_keeps(front, front[i]);
        let a = choose|a: int| 0 <= a < sorted.len() && sorted[a] == front[i];
        let p = if a < at {
            a
        } else {
            a + 1
        };
        assert(out[p] == sorted[a] && out[at] == x);
        if a < at {
            assert(sorted[a].key() <= sorted[at - 1].key());
        }
        (p, at)
    }
}

/// Two places in the order are those of two items.
pub(crate) proof fn lemma_order_pairs<T: Keyed>(items: Seq<T>, p: int, q: int) -> (r: (int, int))
    requires
        0 <= p < crate::order::ordered(items).len(),
        0 <= q < crate::order::ordered(items).len(),
        p != q,
    ensures
        0 <= r.0 < items.len(),
        0 <= r.1 < items.len(),
        r.0 != r.1,
        items[r.0] == crate::order::ordered(items)[p],
        items[r.1] == crate::order::ordered(items)[q],
    decreases items.len(),
{
    let front = items.drop_last();
    let x = items.last();
    let last = items.len() - 1;
    let sorted = crate::order::ordered(front);
    let at = lemma_insert_position(sorted, x);
    let a = if p < at {
        p
    } else {
        p - 1
    };
    let b = if q < at {
        q
    } else {
        q - 1
    };
    if p == at {
        assert(sorted.contains(sorted[b]));
        lemma_order_keeps(front, sorted[b]);
        let j = choose|j: int| 0 <= j < front.len() && front[j] == sorted[b];
        assert(items[j] == front[j]);
        (last, j)
    } else if q == at {
        assert(sorted.contains(sorted[a]));
        lemma_order_keeps(front, sorted[a]);
        let i = choose|i: int| 0 <= i < front.len() && front[i] == sorted[a];
        assert(items[i] == front[i]);
        (i, last)
    } else {
        let (i, j) = lemma_order_pairs(front, a, b);
        assert(items[i] == front[i] && items[j] == front[j]);
        (i, j)
    }
}

} // verus!
