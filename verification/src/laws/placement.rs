//! Blocks in OTP item space.

use crate::manifest::{Placement, PlacementError, Supersession, Unplaced};
use crate::order::Keyed;
use vstd::prelude::*;

verus! {

/// Whether `a` and a later block `b` share no item: the one with the lower first
/// item, `a` if they are equal, ends before the other starts.
pub open spec fn are_apart(a: Placement, b: Placement) -> bool {
    if a.first_item <= b.first_item {
        a.first_item + a.n_items <= b.first_item
    } else {
        b.first_item + b.n_items <= a.first_item
    }
}

/// Whether no two blocks share an item.
pub open spec fn all_apart(ps: Seq<Placement>) -> bool {
    forall|i: int, j: int|
        0 <= i < j < ps.len() ==> are_apart(#[trigger] ps[i], #[trigger] ps[j])
}

spec fn len_of() -> spec_fn(Placement) -> int {
    |p: Placement| p.n_items as int
}

proof fn lemma_overlap_free(ps: Seq<Placement>)
    ensures
        crate::manifest::placement::first_overlap(ps) is None <==> super::order::in_turn(
            ps,
            len_of(),
        ),
    decreases ps.len(),
{
    if ps.len() >= 2 {
        let front = ps.drop_last();
        let n = front.len() as int;
        lemma_overlap_free(front);
        assert(ps[n] == ps.last());
        if super::order::in_turn(ps, len_of()) {
            assert forall|i: int, j: int| 0 <= i < j < front.len() implies (#[trigger] front[i]).key()
                + len_of()(front[i]) <= (#[trigger] front[j]).key() by {
                assert(front[i] == ps[i] && front[j] == ps[j]);
            }
            assert(ps[n - 1].key() + len_of()(ps[n - 1]) <= ps[n].key());
        }
        if crate::manifest::placement::first_overlap(ps) is None {
            assert forall|i: int, j: int| 0 <= i < j < ps.len() implies (#[trigger] ps[i]).key()
                + len_of()(ps[i]) <= (#[trigger] ps[j]).key() by {
                assert(front[i] == ps[i]);
                if j < n {
                    assert(front[j] == ps[j]);
                } else if i < n - 1 {
                    assert(front[n - 1] == ps[n - 1]);
                    assert(front[i].key() + len_of()(front[i]) <= front[n - 1].key());
                }
            }
        }
    }
}

proof fn lemma_overlap_pair(ps: Seq<Placement>) -> (i: int)
    requires
        crate::manifest::placement::first_overlap(ps) is Some,
    ensures
        0 <= i < ps.len() - 1,
        crate::manifest::placement::first_overlap(ps)->Some_0 == (ps[i], ps[i + 1]),
        ps[i + 1].first_item < ps[i].first_item + ps[i].n_items,
        crate::manifest::placement::first_overlap(ps.take(i + 1)) is None,
    decreases ps.len(),
{
    if crate::manifest::placement::first_overlap(ps.drop_last()) is Some {
        let i = lemma_overlap_pair(ps.drop_last());
        assert(ps.drop_last()[i] == ps[i] && ps.drop_last()[i + 1] == ps[i + 1]);
        assert(ps.drop_last().take(i + 1) =~= ps.take(i + 1));
        i
    } else {
        assert(ps[ps.len() - 1] == ps.last());
        assert(ps.take(ps.len() - 1) =~= ps.drop_last());
        ps.len() - 2
    }
}

proof fn lemma_needed(ps: Seq<Placement>)
    ensures
        forall|i: int|
            0 <= i < ps.len() ==> (#[trigger] ps[i]).first_item + ps[i].n_items
                <= crate::manifest::placement::items_needed(ps),
        crate::manifest::placement::items_needed(ps) > 0 ==> exists|i: int|
            0 <= i < ps.len() && (#[trigger] ps[i]).first_item + ps[i].n_items
                == crate::manifest::placement::items_needed(ps),
        crate::manifest::placement::items_needed(ps) >= 0,
    decreases ps.len(),
{
    if ps.len() > 0 {
        let front = ps.drop_last();
        lemma_needed(front);
        assert(ps[ps.len() - 1] == ps.last());
        assert forall|i: int| 0 <= i < ps.len() implies (#[trigger] ps[i]).first_item
            + ps[i].n_items <= crate::manifest::placement::items_needed(ps) by {
            if i < front.len() {
                assert(front[i] == ps[i]);
            }
        }
        if crate::manifest::placement::items_needed(ps) > 0 && ps.last().first_item
            + ps.last().n_items != crate::manifest::placement::items_needed(ps) {
            let i = choose|i: int|
                0 <= i < front.len() && (#[trigger] front[i]).first_item + front[i].n_items
                    == crate::manifest::placement::items_needed(front);
            assert(ps[i] == front[i]);
        }
    }
}

/// Law: which sets have a place. No two blocks share an item, and all items are
/// among those of the partition, if their number is given.
pub proof fn law_sets_are_placed(ps: Seq<Placement>, num_items: Option<usize>)
    ensures
        crate::manifest::placement::placement_fault(ps, num_items) is None <==> {
            &&& all_apart(ps)
            &&& num_items matches Some(available) ==> forall|i: int|
                0 <= i < ps.len() ==> (#[trigger] ps[i]).first_item + ps[i].n_items <= available
        },
{
    lemma_apart(ps);
    lemma_needed(ps);
    lemma_overlap_free(crate::order::ordered(ps));
    if let Some(available) = num_items {
        if forall|i: int|
            0 <= i < ps.len() ==> (#[trigger] ps[i]).first_item + ps[i].n_items <= available {
            if crate::manifest::placement::items_needed(ps) > 0 {
                let i = choose|i: int|
                    0 <= i < ps.len() && (#[trigger] ps[i]).first_item + ps[i].n_items
                        == crate::manifest::placement::items_needed(ps);
                assert(ps[i].first_item + ps[i].n_items <= available);
            }
        }
    }
}

proof fn lemma_apart(ps: Seq<Placement>)
    ensures
        super::order::in_turn(crate::order::ordered(ps), len_of()) <==> all_apart(ps),
{
    super::order::lemma_in_turn(ps, len_of());
    if all_apart(ps) {
        assert forall|i: int, j: int| 0 <= i < j < ps.len() implies super::order::apart(
            #[trigger] ps[i],
            #[trigger] ps[j],
            len_of(),
        ) by {
            assert(are_apart(ps[i], ps[j]));
        }
    }
    if super::order::all_apart(ps, len_of()) {
        assert forall|i: int, j: int| 0 <= i < j < ps.len() implies are_apart(
            #[trigger] ps[i],
            #[trigger] ps[j],
        ) by {
            assert(super::order::apart(ps[i], ps[j], len_of()));
        }
    }
}

/// Law: why a set has no place. Overlap is looked at first; the two blocks that
/// are reported are of the set, the second starts before the first ends, and none
/// that start below it overlap. What is reported as needed are the items up to
/// the last that a block takes, and these are more than there are.
pub proof fn law_set_refusals(ps: Seq<Placement>, num_items: Option<usize>)
    ensures
        match crate::manifest::placement::placement_fault(ps, num_items) {
            Some(PlacementError::Overlap { a, b }) => {
                &&& !all_apart(ps)
                &&& exists|i: int, j: int|
                    0 <= i < ps.len() && 0 <= j < ps.len() && i != j && #[trigger] ps[i] == a
                        && #[trigger] ps[j] == b
                &&& a.first_item <= b.first_item < a.first_item + a.n_items
                &&& forall|i: int, j: int|
                    0 <= i < j < ps.len() && (#[trigger] ps[i]).first_item < b.first_item && (
                    #[trigger] ps[j]).first_item < b.first_item ==> are_apart(ps[i], ps[j])
            },
            Some(PlacementError::Capacity { needed, available }) => {
                &&& all_apart(ps)
                &&& num_items == Some(available)
                &&& needed > available
                &&& exists|i: int|
                    0 <= i < ps.len() && (#[trigger] ps[i]).first_item + ps[i].n_items == needed
                &&& forall|i: int|
                    0 <= i < ps.len() ==> (#[trigger] ps[i]).first_item + ps[i].n_items <= needed
            },
            None => all_apart(ps),
        },
{
    let sorted = crate::order::ordered(ps);
    lemma_apart(ps);
    lemma_needed(ps);
    lemma_overlap_free(sorted);
    if crate::manifest::placement::first_overlap(sorted) is Some {
        let i = lemma_overlap_pair(sorted);
        crate::order::law_ordered(ps);
        let (x, y) = super::order::lemma_order_pairs(ps, i, i + 1);
        assert(ps[x] == sorted[i] && ps[y] == sorted[i + 1]);
        assert(sorted[i].key() <= sorted[i + 1].key());
        let b = sorted[i + 1];
        lemma_overlap_free(sorted.take(i + 1));
        assert forall|k: int, l: int|
            0 <= k < l < ps.len() && (#[trigger] ps[k]).first_item < b.first_item && (
            #[trigger] ps[l]).first_item < b.first_item implies are_apart(ps[k], ps[l]) by {
            let (p, q) = super::order::lemma_order_positions(ps, k, l);
            let before = sorted.take(i + 1);
            if p > i {
                assert(sorted[i + 1].key() <= sorted[p].key());
            }
            if q > i {
                assert(sorted[i + 1].key() <= sorted[q].key());
            }
            assert(before[p] == sorted[p] && before[q] == sorted[q]);
            if p < q {
                assert(before[p].key() + len_of()(before[p]) <= before[q].key());
            } else {
                assert(before[q].key() + len_of()(before[q]) <= before[p].key());
            }
        }
    }
    if crate::manifest::placement::items_needed(ps) > 0 {
        let i = choose|i: int|
            0 <= i < ps.len() && (#[trigger] ps[i]).first_item + ps[i].n_items
                == crate::manifest::placement::items_needed(ps);
        assert(ps[i].first_item + ps[i].n_items <= 2 * usize::MAX);
    }
}

/// Whether `s` says which of `a` and a later block `b` with one target wins: the
/// one in the higher slot, `a` if they are equal.
pub open spec fn is_decided(a: Placement, b: Placement, s: Supersession) -> bool {
    &&& a.target == s.target
    &&& b.target == s.target
    &&& if a.first_item >= b.first_item {
        s.winner_patch == a.patch_index && s.loser_patch == b.patch_index
    } else {
        s.winner_patch == b.patch_index && s.loser_patch == a.patch_index
    }
}

proof fn lemma_decided(ps: Seq<Placement>, i: int, j: int, s: Supersession)
    ensures
        crate::manifest::placement::supersedes_as(ps, i, j, s) <==> is_decided(ps[i], ps[j], s),
{
}

/// Law: what is reported is each pair of blocks with one target, with the one in
/// the higher slot as the winner, and nothing else.
pub proof fn law_supersessions(ps: Seq<Placement>, s: Supersession)
    ensures
        crate::manifest::placement::supersessions(ps).contains(s) <==> exists|i: int, j: int|
            0 <= i < j < ps.len() && is_decided(#[trigger] ps[i], #[trigger] ps[j], s),
{
    crate::manifest::placement::law_supersessions_are_same_target_pairs(ps, s);
    if crate::manifest::placement::supersessions(ps).contains(s) {
        let (i, j) = choose|i: int, j: int|
            0 <= i < j < ps.len() && #[trigger] crate::manifest::placement::supersedes_as(
                ps,
                i,
                j,
                s,
            );
        lemma_decided(ps, i, j, s);
        assert(is_decided(ps[i], ps[j], s));
    }
    if exists|i: int, j: int|
        0 <= i < j < ps.len() && is_decided(#[trigger] ps[i], #[trigger] ps[j], s) {
        let (i, j) = choose|i: int, j: int|
            0 <= i < j < ps.len() && is_decided(#[trigger] ps[i], #[trigger] ps[j], s);
        lemma_decided(ps, i, j, s);
        assert(crate::manifest::placement::supersedes_as(ps, i, j, s));
    }
}

spec fn distinct(ps: Seq<Placement>) -> bool {
    forall|i: int, j: int|
        0 <= i < j < ps.len() ==> (#[trigger] ps[i]).patch_index != (#[trigger] ps[j]).patch_index
}

spec fn no_repeats(s: Seq<Supersession>) -> bool {
    forall|i: int, j: int| 0 <= i < j < s.len() ==> #[trigger] s[i] != #[trigger] s[j]
}

proof fn lemma_no_repeats_sum(a: Seq<Supersession>, b: Seq<Supersession>)
    requires
        no_repeats(a),
        no_repeats(b),
        forall|s: Supersession| !(#[trigger] a.contains(s) && b.contains(s)),
    ensures
        no_repeats(a + b),
{
    let c = a + b;
    assert forall|i: int, j: int| 0 <= i < j < c.len() implies #[trigger] c[i] != #[trigger] c[j] by {
        if j < a.len() {
            assert(c[i] == a[i] && c[j] == a[j]);
        } else if i >= a.len() {
            assert(c[i] == b[i - a.len()] && c[j] == b[j - a.len()]);
        } else {
            assert(c[i] == a[i] && c[j] == b[j - a.len()]);
            assert(a.contains(c[i]) && b.contains(c[j]));
        }
    }
}

proof fn lemma_row_repeats(ps: Seq<Placement>, i: int, n: int)
    requires
        distinct(ps),
        0 <= i < ps.len(),
        n <= ps.len(),
    ensures
        no_repeats(crate::manifest::placement::row(ps, i, n)),
    decreases n - i,
{
    if n > i + 1 {
        let a = crate::manifest::placement::row(ps, i, n - 1);
        let b = crate::manifest::placement::superseding(ps[i], ps[n - 1]);
        lemma_row_repeats(ps, i, n - 1);
        assert forall|s: Supersession| !(#[trigger] a.contains(s) && b.contains(s)) by {
            if a.contains(s) && b.contains(s) {
                crate::manifest::placement::lemma_row(ps, i, n - 1, s);
                let j = choose|j: int|
                    i < j < n - 1 && #[trigger] crate::manifest::placement::supersedes_as(
                        ps,
                        i,
                        j,
                        s,
                    );
                lemma_decided(ps, i, j, s);
                lemma_decided(ps, i, n - 1, s);
                assert(b[0] == s);
                assert(ps[j].patch_index != ps[n - 1].patch_index);
                assert(ps[i].patch_index != ps[j].patch_index);
            }
        }
        lemma_no_repeats_sum(a, b);
    }
}

proof fn lemma_rows_repeat(ps: Seq<Placement>, m: int)
    requires
        distinct(ps),
        m <= ps.len(),
    ensures
        no_repeats(crate::manifest::placement::rows(ps, m)),
    decreases m,
{
    if m > 0 {
        let n = ps.len() as int;
        let a = crate::manifest::placement::rows(ps, m - 1);
        let b = crate::manifest::placement::row(ps, m - 1, n);
        lemma_rows_repeat(ps, m - 1);
        lemma_row_repeats(ps, m - 1, n);
        assert forall|s: Supersession| !(#[trigger] a.contains(s) && b.contains(s)) by {
            if a.contains(s) && b.contains(s) {
                crate::manifest::placement::lemma_rows(ps, m - 1, s);
                crate::manifest::placement::lemma_row(ps, m - 1, n, s);
                let (i, j) = choose|i: int, j: int|
                    0 <= i < m - 1 && i < j < n
                        && #[trigger] crate::manifest::placement::supersedes_as(ps, i, j, s);
                let k = choose|k: int|
                    m - 1 < k < n && #[trigger] crate::manifest::placement::supersedes_as(
                        ps,
                        m - 1,
                        k,
                        s,
                    );
                lemma_decided(ps, i, j, s);
                lemma_decided(ps, m - 1, k, s);
                assert(ps[i].patch_index != ps[m - 1].patch_index);
                assert(ps[i].patch_index != ps[k].patch_index);
            }
        }
        lemma_no_repeats_sum(a, b);
    }
}

/// Law: no pair is reported twice, where blocks are told apart by their patches.
pub proof fn law_supersessions_do_not_repeat(ps: Seq<Placement>)
    requires
        forall|i: int, j: int|
            0 <= i < j < ps.len() ==> (#[trigger] ps[i]).patch_index != (
            #[trigger] ps[j]).patch_index,
    ensures
        forall|i: int, j: int|
            0 <= i < j < crate::manifest::placement::supersessions(ps).len()
                ==> #[trigger] crate::manifest::placement::supersessions(ps)[i]
                != #[trigger] crate::manifest::placement::supersessions(ps)[j],
{
    lemma_rows_repeat(ps, ps.len() as int);
}

/// What is said of `p` and each of the later blocks `rest` with its target.
pub open spec fn versus(p: Placement, rest: Seq<Placement>) -> Seq<Supersession>
    decreases rest.len(),
{
    if rest.len() == 0 {
        Seq::empty()
    } else {
        let q = rest.last();
        let before = versus(p, rest.drop_last());
        if p.target != q.target {
            before
        } else if p.first_item >= q.first_item {
            before.push(
                Supersession {
                    target: p.target,
                    winner_patch: p.patch_index,
                    loser_patch: q.patch_index,
                },
            )
        } else {
            before.push(
                Supersession {
                    target: p.target,
                    winner_patch: q.patch_index,
                    loser_patch: p.patch_index,
                },
            )
        }
    }
}

proof fn lemma_first_row(p: Placement, rest: Seq<Placement>, n: int)
    requires
        0 <= n <= rest.len(),
    ensures
        crate::manifest::placement::row(seq![p] + rest, 0, n + 1) == versus(p, rest.take(n)),
    decreases n,
{
    let ps = seq![p] + rest;
    if n > 0 {
        lemma_first_row(p, rest, n - 1);
        assert(rest.take(n).drop_last() =~= rest.take(n - 1));
        assert(rest.take(n).last() == rest[n - 1]);
        assert(ps[0] == p && ps[n] == rest[n - 1]);
        let before = versus(p, rest.take(n - 1));
        let here = crate::manifest::placement::superseding(p, rest[n - 1]);
        if p.target == rest[n - 1].target {
            assert(before + here =~= before.push(here[0]));
        } else {
            assert(before + here =~= before);
        }
    }
}

proof fn lemma_later_row(p: Placement, rest: Seq<Placement>, i: int, n: int)
    requires
        0 <= i < rest.len(),
        n <= rest.len(),
    ensures
        crate::manifest::placement::row(seq![p] + rest, i + 1, n + 1)
            == crate::manifest::placement::row(rest, i, n),
    decreases n - i,
{
    if n > i + 1 {
        lemma_later_row(p, rest, i, n - 1);
        assert((seq![p] + rest)[i + 1] == rest[i] && (seq![p] + rest)[n] == rest[n - 1]);
    }
}

proof fn lemma_later_rows(p: Placement, rest: Seq<Placement>, m: int)
    requires
        0 <= m <= rest.len(),
    ensures
        crate::manifest::placement::rows(seq![p] + rest, m + 1) == versus(p, rest)
            + crate::manifest::placement::rows(rest, m),
    decreases m,
{
    let ps = seq![p] + rest;
    let n = rest.len() as int;
    let first = versus(p, rest);
    if m == 0 {
        lemma_first_row(p, rest, n);
        assert(rest.take(n) =~= rest);
        assert(crate::manifest::placement::rows(ps, 0) =~= Seq::empty());
        assert(crate::manifest::placement::rows(ps, 1) =~= first);
        assert(first + crate::manifest::placement::rows(rest, 0) =~= first);
    } else {
        lemma_later_rows(p, rest, m - 1);
        lemma_later_row(p, rest, m - 1, n);
        let a = crate::manifest::placement::rows(rest, m - 1);
        let b = crate::manifest::placement::row(rest, m - 1, n);
        assert((first + a) + b =~= first + (a + b));
    }
}

/// Law: supersessions are reported in the order of the set: first those between
/// the first block and the later ones, in turn, and then those among the later
/// ones.
pub proof fn law_supersessions_keep_order(p: Placement, rest: Seq<Placement>)
    ensures
        crate::manifest::placement::supersessions(Seq::empty()).len() == 0,
        crate::manifest::placement::supersessions(seq![p] + rest) == versus(p, rest)
            + crate::manifest::placement::supersessions(rest),
{
    lemma_later_rows(p, rest, rest.len() as int);
}

/// Law: where blocks go. Each keeps its number and its target; it starts at its
/// slot, or else where the one before it ends, the first at item 0; and it has as
/// many items as hold its bytes, with less than one to spare.
pub proof fn law_blocks_are_assigned(blocks: Seq<Unplaced>, item_size: nat)
    requires
        item_size > 0,
        blocks.len() <= usize::MAX,
        crate::manifest::placement::assigned(blocks, item_size) is Some,
    ensures
        ({
            let ps = crate::manifest::placement::assigned(blocks, item_size)->Some_0;
            &&& ps.len() == blocks.len()
            &&& forall|i: int|
                0 <= i < ps.len() ==> {
                    &&& (#[trigger] ps[i]).patch_index == i
                    &&& ps[i].target == blocks[i].target
                    &&& blocks[i].slot matches Some(slot) ==> ps[i].first_item == slot
                    &&& blocks[i].len <= ps[i].n_items * item_size < blocks[i].len + item_size
                }
            &&& forall|i: int, j: int|
                #![trigger ps[i], ps[j]]
                0 <= i < ps.len() && j == i + 1 && j < ps.len() && blocks[j].slot is None
                    ==> ps[j].first_item == ps[i].first_item + ps[i].n_items
            &&& ps.len() > 0 && blocks[0].slot is None ==> ps[0].first_item == 0
        }),
{
    let ps = crate::manifest::placement::assigned(blocks, item_size)->Some_0;
    crate::manifest::placement::lemma_assigned_places(blocks, item_size);
    assert forall|i: int| 0 <= i < ps.len() implies {
        &&& (#[trigger] ps[i]).patch_index == i
        &&& ps[i].target == blocks[i].target
        &&& blocks[i].slot matches Some(slot) ==> ps[i].first_item == slot
        &&& blocks[i].len <= ps[i].n_items * item_size < blocks[i].len + item_size
    } by {
        crate::fuse_cfg::law_items_cover_block(blocks[i].len as nat, item_size);
    }
    assert forall|i: int, j: int|
        #![trigger ps[i], ps[j]]
        0 <= i < ps.len() && j == i + 1 && j < ps.len() && blocks[j].slot is None implies
        ps[j].first_item == ps[i].first_item + ps[i].n_items by {
        assert(ps.take(j).last() == ps[i]);
    }
    if ps.len() > 0 && blocks[0].slot is None {
        assert(ps[0].first_item == crate::manifest::placement::cursor(ps.take(0)));
    }
}

/// Law: blocks have a place as long as item indices can be counted. One block
/// more has one exactly if those before it have, and its own end can be counted.
pub proof fn law_blocks_have_places(blocks: Seq<Unplaced>, last: Unplaced, item_size: nat)
    requires
        item_size > 0,
    ensures
        crate::manifest::placement::assigned(Seq::empty(), item_size) is Some,
        crate::manifest::placement::assigned(blocks.push(last), item_size) is Some
            <==> match crate::manifest::placement::assigned(blocks, item_size) {
            None => false,
            Some(ps) => {
                let n = crate::fuse_cfg::item_count(last.len as nat, item_size);
                match last.slot {
                    Some(slot) => slot + n <= usize::MAX,
                    None => if ps.len() == 0 {
                        true
                    } else {
                        ps.last().first_item + ps.last().n_items + n <= usize::MAX
                    },
                }
            },
        },
{
    assert(blocks.push(last).drop_last() =~= blocks);
    let n = crate::fuse_cfg::item_count(last.len as nat, item_size);
    super::fuse::law_item_count_is_least(last.len as nat, item_size, last.len as nat);
    assert(last.len <= last.len * item_size) by (nonlinear_arith)
        requires
            item_size >= 1,
            last.len >= 0,
    ;
}

} // verus!
