//! Blocks in OTP item space.

use crate::fuse_cfg::items_for;
use crate::order::{sort_by_key, Keyed};
use crate::text::push_decimal;
use vstd::multiset::Multiset;
use vstd::prelude::*;

verus! {

/// A block placed in OTP item space.
#[derive(Debug, Clone, Copy, PartialEq, Eq, Structural)]
pub struct Placement {
    /// Index into the manifest's `patches`.
    pub patch_index: usize,
    /// Target ROM address.
    pub target: u32,
    /// First OTP item index.
    pub first_item: usize,
    /// Number of items occupied.
    pub n_items: usize,
}

impl Placement {
    /// Where the block's items end.
    pub open spec fn end(self) -> int {
        self.first_item + self.n_items
    }

    /// Whether the block occupies an item.
    pub open spec fn occupies(self, item: int) -> bool {
        self.first_item <= item < self.end()
    }

    /// Where the block's items end.
    fn end_item(&self) -> (end: u128)
        ensures
            end == self.end(),
    {
        self.first_item as u128 + self.n_items as u128
    }
}

impl Keyed for Placement {
    open spec fn key(&self) -> int {
        self.first_item as int
    }

    fn sort_key(&self) -> (k: u64) {
        self.first_item as u64
    }
}

/// A same-target supersession: the patch in the higher slot wins over the other.
#[derive(Debug, Clone, PartialEq, Eq)]
pub struct Supersession {
    pub target: u32,
    pub winner_patch: usize,
    pub loser_patch: usize,
}

/// Why a set cannot be placed.
#[derive(Debug, Clone, Copy, PartialEq, Eq, Structural)]
pub enum PlacementError {
    /// Two blocks share items.
    Overlap { a: Placement, b: Placement },
    /// The partition has too few items.
    Capacity { needed: u128, available: usize },
}

impl PlacementError {
    /// The error as text.
    pub open spec fn text(self) -> Seq<char> {
        match self {
            PlacementError::Overlap { a, b } => "patches "@ + crate::text::decimal(
                a.patch_index as nat,
            ) + " and "@ + crate::text::decimal(b.patch_index as nat)
                + " occupy overlapping OTP items (["@ + crate::text::decimal(a.first_item as nat)
                + ".."@ + crate::text::decimal(a.end() as nat) + ") and ["@ + crate::text::decimal(
                b.first_item as nat,
            ) + ".."@ + crate::text::decimal(b.end() as nat) + "))"@,
            PlacementError::Capacity { needed, available } => "patch set needs "@
                + crate::text::decimal(needed as nat) + " OTP items but the partition has only "@
                + crate::text::decimal(available as nat),
        }
    }

    /// The error as text.
    pub fn message(&self) -> (m: String)
        ensures
            m@ == self.text(),
    {
        match self {
            PlacementError::Overlap { a, b } => {
                let mut m: String = "patches ".to_string();
                push_decimal(&mut m, a.patch_index as u128);
                m.append(" and ");
                push_decimal(&mut m, b.patch_index as u128);
                m.append(" occupy overlapping OTP items ([");
                push_decimal(&mut m, a.first_item as u128);
                m.append("..");
                push_decimal(&mut m, a.end_item());
                m.append(") and [");
                push_decimal(&mut m, b.first_item as u128);
                m.append("..");
                push_decimal(&mut m, b.end_item());
                m.append("))");
                m
            },
            PlacementError::Capacity { needed, available } => {
                let mut m: String = "patch set needs ".to_string();
                push_decimal(&mut m, *needed);
                m.append(" OTP items but the partition has only ");
                push_decimal(&mut m, *available as u128);
                m
            },
        }
    }
}

/// The first two neighbours of which the second starts before the first ends.
pub open spec fn first_overlap(ps: Seq<Placement>) -> Option<(Placement, Placement)>
    decreases ps.len(),
{
    if ps.len() < 2 {
        None
    } else {
        match first_overlap(ps.drop_last()) {
            Some(pair) => Some(pair),
            None => {
                let a = ps[ps.len() - 2];
                let b = ps.last();
                if b.first_item < a.end() {
                    Some((a, b))
                } else {
                    None
                }
            },
        }
    }
}

/// The number of items up to the last that is occupied.
pub open spec fn items_needed(ps: Seq<Placement>) -> int
    decreases ps.len(),
{
    if ps.len() == 0 {
        0
    } else {
        let before = items_needed(ps.drop_last());
        if ps.last().end() > before {
            ps.last().end()
        } else {
            before
        }
    }
}

/// The supersession between two blocks, if they have one target. The one in the
/// higher slot wins; of one slot, the first.
pub open spec fn superseding(a: Placement, b: Placement) -> Seq<Supersession> {
    if a.target != b.target {
        Seq::empty()
    } else {
        let (winner, loser) = if a.first_item >= b.first_item {
            (a, b)
        } else {
            (b, a)
        };
        seq![
            Supersession {
                target: a.target,
                winner_patch: winner.patch_index,
                loser_patch: loser.patch_index,
            },
        ]
    }
}

/// The supersessions between `ps[i]` and the blocks behind it, before `n`.
pub open spec fn row(ps: Seq<Placement>, i: int, n: int) -> Seq<Supersession>
    decreases n - i,
{
    if n <= i + 1 {
        Seq::empty()
    } else {
        row(ps, i, n - 1) + superseding(ps[i], ps[n - 1])
    }
}

/// The supersessions between the first `m` blocks and those behind each.
pub open spec fn rows(ps: Seq<Placement>, m: int) -> Seq<Supersession>
    decreases m,
{
    if m <= 0 {
        Seq::empty()
    } else {
        rows(ps, m - 1) + row(ps, m - 1, ps.len() as int)
    }
}

/// The supersessions in a set, by pairs in the order of the set.
pub open spec fn supersessions(ps: Seq<Placement>) -> Seq<Supersession> {
    rows(ps, ps.len() as int)
}

/// What keeps a set from being placed, if anything.
pub open spec fn placement_fault(ps: Seq<Placement>, num_items: Option<usize>) -> Option<
    PlacementError,
> {
    match first_overlap(crate::order::ordered(ps)) {
        Some((a, b)) => Some(PlacementError::Overlap { a, b }),
        None => match num_items {
            Some(available) if items_needed(ps) > available => Some(
                PlacementError::Capacity { needed: items_needed(ps) as u128, available },
            ),
            _ => None,
        },
    }
}

proof fn lemma_first_overlap(ps: Seq<Placement>, n: int)
    requires
        0 <= n <= ps.len(),
    ensures
        first_overlap(ps.take(n)) is Some ==> first_overlap(ps) == first_overlap(ps.take(n)),
    decreases ps.len(),
{
    if n == ps.len() {
        assert(ps.take(n) =~= ps);
    } else {
        lemma_first_overlap(ps.drop_last(), n);
        assert(ps.drop_last().take(n) =~= ps.take(n));
        if ps.len() < 2 {
            assert(ps.take(n).len() < 2);
        }
    }
}

/// Finds the first neighbours that overlap.
fn find_overlap(ps: &Vec<Placement>) -> (r: Option<(Placement, Placement)>)
    ensures
        r == first_overlap(ps@),
{
    let mut i: usize = 1;
    while i < ps.len()
        invariant
            1 <= i,
            i <= ps.len() || ps.len() == 0 && i == 1,
            first_overlap(ps@.take(if i <= ps.len() {
                i as int
            } else {
                0
            })) is None,
        decreases ps.len() - i,
    {
        let a: Placement = ps[i - 1];
        let b: Placement = ps[i];
        proof {
            assert(ps@.take(i + 1).drop_last() =~= ps@.take(i as int));
            lemma_first_overlap(ps@, i + 1);
        }
        if (b.first_item as u128) < a.end_item() {
            return Some((a, b));
        }
        i = i + 1;
    }
    proof {
        assert(ps@.take(ps.len() as int) =~= ps@);
    }
    None
}

fn count_items_needed(ps: &[Placement]) -> (n: u128)
    ensures
        n == items_needed(ps@),
{
    let mut n: u128 = 0;
    let mut i: usize = 0;
    while i < ps.len()
        invariant
            i <= ps.len(),
            n == items_needed(ps@.take(i as int)),
        decreases ps.len() - i,
    {
        proof {
            assert(ps@.take(i + 1).drop_last() =~= ps@.take(i as int));
        }
        let end: u128 = ps[i].end_item();
        if end > n {
            n = end;
        }
        i = i + 1;
    }
    proof {
        assert(ps@.take(i as int) =~= ps@);
    }
    n
}

fn find_supersessions(ps: &[Placement]) -> (r: Vec<Supersession>)
    ensures
        r@ == supersessions(ps@),
{
    let mut r: Vec<Supersession> = Vec::new();
    let mut i: usize = 0;
    while i < ps.len()
        invariant
            i <= ps.len(),
            r@ == rows(ps@, i as int),
        decreases ps.len() - i,
    {
        let a: Placement = ps[i];
        let ghost before = r@;
        let mut j: usize = i + 1;
        assert(before + row(ps@, i as int, i + 1) =~= before);
        while j < ps.len()
            invariant
                i < ps.len(),
                i < j <= ps.len(),
                a == ps@[i as int],
                before == rows(ps@, i as int),
                r@ == before + row(ps@, i as int, j as int),
            decreases ps.len() - j,
        {
            let b: Placement = ps[j];
            if a.target == b.target {
                let (winner, loser) = if a.first_item >= b.first_item {
                    (a, b)
                } else {
                    (b, a)
                };
                r.push(
                    Supersession {
                        target: a.target,
                        winner_patch: winner.patch_index,
                        loser_patch: loser.patch_index,
                    },
                );
            }
            assert(r@ =~= before + row(ps@, i as int, j + 1));
            j = j + 1;
        }
        i = i + 1;
    }
    r
}

/// Validates a set: no OTP item-range overlap, and it fits `num_items` if given.
/// Returns the supersession relations (same target, higher slot wins) for
/// reporting; these are intentional, not errors.
pub fn validate_placements(placements: &[Placement], num_items: Option<usize>) -> (r: Result<
    Vec<Supersession>,
    PlacementError,
>)
    ensures
        match placement_fault(placements@, num_items) {
            Some(e) => r == Err::<Vec<Supersession>, PlacementError>(e),
            None => r is Ok && r->Ok_0@ == supersessions(placements@),
        },
{
    let by_item: Vec<Placement> = sort_by_key(placements);
    if let Some((a, b)) = find_overlap(&by_item) {
        return Err(PlacementError::Overlap { a, b });
    }
    if let Some(available) = num_items {
        let needed: u128 = count_items_needed(placements);
        if needed > available as u128 {
            return Err(PlacementError::Capacity { needed, available });
        }
    }
    Ok(find_supersessions(placements))
}

/// A block that has no place yet.
#[derive(Debug, Clone, Copy)]
pub struct Unplaced {
    /// Target ROM address.
    pub target: u32,
    /// The first item, where the manifest fixes it.
    pub slot: Option<usize>,
    /// Length of the block in bytes.
    pub len: usize,
}

/// Where the next block goes that no slot is fixed for.
pub open spec fn cursor(ps: Seq<Placement>) -> int {
    if ps.len() == 0 {
        0
    } else {
        ps.last().end()
    }
}

/// The places of blocks in turn: each at its slot, or else right behind the one
/// before it. `None` if items do not fit the index space.
pub open spec fn assigned(blocks: Seq<Unplaced>, item_size: nat) -> Option<Seq<Placement>>
    decreases blocks.len(),
{
    if blocks.len() == 0 {
        Some(Seq::empty())
    } else {
        match assigned(blocks.drop_last(), item_size) {
            None => None,
            Some(before) => {
                let block = blocks.last();
                let first = match block.slot {
                    Some(slot) => slot as int,
                    None => cursor(before),
                };
                let n = crate::fuse_cfg::item_count(block.len as nat, item_size);
                if first + n > usize::MAX {
                    None
                } else {
                    Some(
                        before.push(
                            Placement {
                                patch_index: before.len() as usize,
                                target: block.target,
                                first_item: first as usize,
                                n_items: n as usize,
                            },
                        ),
                    )
                }
            },
        }
    }
}

proof fn lemma_assigned(blocks: Seq<Unplaced>, item_size: nat, n: int)
    requires
        0 <= n <= blocks.len(),
    ensures
        assigned(blocks.take(n), item_size) is None ==> assigned(blocks, item_size) is None,
        assigned(blocks, item_size) matches Some(ps) ==> ps.len() == blocks.len(),
    decreases blocks.len(),
{
    if blocks.len() > 0 {
        if n < blocks.len() {
            lemma_assigned(blocks.drop_last(), item_size, n);
            assert(blocks.drop_last().take(n) =~= blocks.take(n));
        } else {
            lemma_assigned(blocks.drop_last(), item_size, n - 1);
            assert(blocks.take(n) =~= blocks);
        }
    }
}

/// Assigns each block its items: those from its slot on, or else those right
/// behind the block before it.
pub fn assign_slots(blocks: &[Unplaced], item_size: usize) -> (r: Option<Vec<Placement>>)
    requires
        item_size > 0,
    ensures
        match assigned(blocks@, item_size as nat) {
            Some(ps) => r is Some && r->Some_0@ == ps,
            None => r is None,
        },
{
    let mut ps: Vec<Placement> = Vec::new();
    let mut next: usize = 0;
    let mut i: usize = 0;
    while i < blocks.len()
        invariant
            i <= blocks.len(),
            item_size > 0,
            assigned(blocks@.take(i as int), item_size as nat) == Some(ps@),
            ps.len() == i,
            next == cursor(ps@),
        decreases blocks.len() - i,
    {
        proof {
            assert(blocks@.take(i + 1).drop_last() =~= blocks@.take(i as int));
            lemma_assigned(blocks@, item_size as nat, i + 1);
        }
        let n_items: usize = items_for(blocks[i].len, item_size);
        let first_item: usize = match blocks[i].slot {
            Some(slot) => slot,
            None => next,
        };
        next = match first_item.checked_add(n_items) {
            Some(end) => end,
            None => return None,
        };
        ps.push(Placement { patch_index: i, target: blocks[i].target, first_item, n_items });
        i = i + 1;
    }
    proof {
        assert(blocks@.take(i as int) =~= blocks@);
    }
    Some(ps)
}

/// Each assigned block has its index and target, and starts at its slot or else
/// where the ones before it leave off.
pub(crate) proof fn lemma_assigned_places(blocks: Seq<Unplaced>, item_size: nat)
    requires
        assigned(blocks, item_size) is Some,
    ensures
        assigned(blocks, item_size)->Some_0.len() == blocks.len(),
        forall|i: int|
            0 <= i < blocks.len() ==> {
                let ps = assigned(blocks, item_size)->Some_0;
                &&& i <= usize::MAX ==> (#[trigger] assigned(blocks, item_size)->Some_0[i]).patch_index == i
                &&& ps[i].target == blocks[i].target
                &&& ps[i].first_item == match blocks[i].slot {
                    Some(slot) => slot as int,
                    None => cursor(ps.take(i)),
                }
                &&& ps[i].n_items == crate::fuse_cfg::item_count(blocks[i].len as nat, item_size)
            },
    decreases blocks.len(),
{
    if blocks.len() > 0 {
        let front = blocks.drop_last();
        lemma_assigned_places(front, item_size);
        let before = assigned(front, item_size)->Some_0;
        let ps = assigned(blocks, item_size)->Some_0;
        assert(ps.drop_last() =~= before);
        assert forall|i: int| 0 <= i < blocks.len() implies {
            &&& i <= usize::MAX ==> (#[trigger] ps[i]).patch_index == i
            &&& ps[i].target == blocks[i].target
            &&& ps[i].first_item == match blocks[i].slot {
                Some(slot) => slot as int,
                None => cursor(ps.take(i)),
            }
            &&& ps[i].n_items == crate::fuse_cfg::item_count(blocks[i].len as nat, item_size)
        } by {
            if i < front.len() {
                assert(ps[i] == before[i]);
                assert(front[i] == blocks[i]);
                assert(ps.take(i) =~= before.take(i));
            } else {
                assert(ps.take(i) =~= before);
            }
        }
    }
}

/// The number of blocks that occupy an item.
pub open spec fn holders(ps: Seq<Placement>, item: int) -> nat
    decreases ps.len(),
{
    if ps.len() == 0 {
        0
    } else {
        holders(ps.drop_last(), item) + (if ps.last().occupies(item) {
            1nat
        } else {
            0
        })
    }
}

proof fn lemma_holders_push(ps: Seq<Placement>, x: Placement, item: int)
    ensures
        holders(ps.push(x), item) == holders(ps, item) + (if x.occupies(item) {
            1nat
        } else {
            0
        }),
{
    assert(ps.push(x).drop_last() =~= ps);
}

proof fn lemma_holders_insert(ps: Seq<Placement>, x: Placement, item: int)
    ensures
        holders(crate::order::insert_by_key(ps, x), item) == holders(ps.push(x), item),
    decreases ps.len(),
{
    lemma_holders_push(ps, x, item);
    if ps.len() > 0 && ps.last().key() > x.key() {
        let front = ps.drop_last();
        lemma_holders_insert(front, x, item);
        lemma_holders_push(front, x, item);
        lemma_holders_push(crate::order::insert_by_key(front, x), ps.last(), item);
        assert(crate::order::insert_by_key(ps, x) == crate::order::insert_by_key(front, x).push(
            ps.last(),
        ));
    } else {
        assert(crate::order::insert_by_key(ps, x) == ps.push(x));
    }
}

proof fn lemma_holders_ordered(ps: Seq<Placement>, item: int)
    ensures
        holders(crate::order::ordered(ps), item) == holders(ps, item),
    decreases ps.len(),
{
    if ps.len() > 0 {
        let front = ps.drop_last();
        let sorted = crate::order::ordered(front);
        lemma_holders_ordered(front, item);
        lemma_holders_insert(sorted, ps.last(), item);
        lemma_holders_push(sorted, ps.last(), item);
    }
}

proof fn lemma_one_holder(ps: Seq<Placement>, i: int, item: int)
    requires
        0 <= i < ps.len(),
        ps[i].occupies(item),
    ensures
        holders(ps, item) >= 1,
    decreases ps.len(),
{
    if i < ps.len() - 1 {
        lemma_one_holder(ps.drop_last(), i, item);
    }
}

proof fn lemma_two_holders(ps: Seq<Placement>, i: int, j: int, item: int)
    requires
        0 <= i < j < ps.len(),
        ps[i].occupies(item),
        ps[j].occupies(item),
    ensures
        holders(ps, item) >= 2,
    decreases ps.len(),
{
    if j < ps.len() - 1 {
        lemma_two_holders(ps.drop_last(), i, j, item);
    } else {
        lemma_one_holder(ps.drop_last(), i, item);
    }
}

proof fn lemma_find_holder(ps: Seq<Placement>, item: int) -> (i: int)
    requires
        holders(ps, item) >= 1,
    ensures
        0 <= i < ps.len(),
        ps[i].occupies(item),
    decreases ps.len(),
{
    if ps.last().occupies(item) {
        ps.len() - 1
    } else {
        lemma_find_holder(ps.drop_last(), item)
    }
}

proof fn lemma_find_holders(ps: Seq<Placement>, item: int) -> (r: (int, int))
    requires
        holders(ps, item) >= 2,
    ensures
        0 <= r.0 < r.1 < ps.len(),
        ps[r.0].occupies(item),
        ps[r.1].occupies(item),
    decreases ps.len(),
{
    if ps.last().occupies(item) {
        (lemma_find_holder(ps.drop_last(), item), ps.len() - 1)
    } else {
        lemma_find_holders(ps.drop_last(), item)
    }
}

/// Blocks without overlapping neighbours follow one another.
proof fn lemma_no_overlap(ps: Seq<Placement>)
    requires
        first_overlap(ps) is None,
    ensures
        forall|i: int, j: int|
            0 <= i < j < ps.len() ==> (#[trigger] ps[i]).end() <= (#[trigger] ps[j]).first_item,
    decreases ps.len(),
{
    if ps.len() >= 2 {
        let front = ps.drop_last();
        lemma_no_overlap(front);
        assert forall|i: int, j: int| 0 <= i < j < ps.len() implies (#[trigger] ps[i]).end() <= (
        #[trigger] ps[j]).first_item by {
            assert(front[i] == ps[i]);
            if j < front.len() {
                assert(front[j] == ps[j]);
            } else if i < front.len() - 1 {
                assert(front[i].end() <= front[front.len() - 1].first_item);
            }
        }
    }
}

proof fn lemma_overlap(ps: Seq<Placement>) -> (i: int)
    requires
        first_overlap(ps) is Some,
    ensures
        0 <= i < ps.len() - 1,
        first_overlap(ps) == Some((ps[i], ps[i + 1])),
        ps[i + 1].first_item < ps[i].end(),
    decreases ps.len(),
{
    if first_overlap(ps.drop_last()) is Some {
        lemma_overlap(ps.drop_last())
    } else {
        ps.len() - 2
    }
}

/// Law: in a set that passes, no OTP item belongs to two blocks.
pub proof fn law_accepted_sets_are_disjoint(ps: Seq<Placement>, num_items: Option<usize>)
    requires
        placement_fault(ps, num_items) is None,
    ensures
        forall|i: int, j: int, item: int|
            0 <= i < j < ps.len() ==> !(#[trigger] ps[i].occupies(item)
                && #[trigger] ps[j].occupies(item)),
{
    let sorted = crate::order::ordered(ps);
    lemma_no_overlap(sorted);
    assert forall|i: int, j: int, item: int| 0 <= i < j < ps.len() implies !(
    #[trigger] ps[i].occupies(item) && #[trigger] ps[j].occupies(item)) by {
        if ps[i].occupies(item) && ps[j].occupies(item) {
            lemma_two_holders(ps, i, j, item);
            lemma_holders_ordered(ps, item);
            let (a, b) = lemma_find_holders(sorted, item);
            assert(sorted[a].end() <= sorted[b].first_item);
        }
    }
}

/// Law: only sharing is overlap. Where every block has items and no item belongs
/// to two blocks, no overlap is reported.
pub proof fn law_disjoint_sets_do_not_overlap(ps: Seq<Placement>, num_items: Option<usize>)
    requires
        forall|i: int| 0 <= i < ps.len() ==> (#[trigger] ps[i]).n_items > 0,
        forall|i: int, j: int, item: int|
            0 <= i < j < ps.len() ==> !(#[trigger] ps[i].occupies(item)
                && #[trigger] ps[j].occupies(item)),
    ensures
        !(placement_fault(ps, num_items) matches Some(PlacementError::Overlap { .. })),
{
    let sorted = crate::order::ordered(ps);
    if first_overlap(sorted) is Some {
        let i = lemma_overlap(sorted);
        let a = sorted[i];
        let b = sorted[i + 1];
        let item = b.first_item as int;
        crate::order::law_ordered(ps);
        assert(a.key() <= b.key());
        sorted.to_multiset_ensures();
        ps.to_multiset_ensures();
        assert(sorted.contains(b));
        assert(ps.to_multiset().count(b) > 0);
        assert(ps.contains(b));
        let n = choose|n: int| 0 <= n < ps.len() && ps[n] == b;
        assert(ps[n].n_items > 0);
        lemma_two_holders(sorted, i, i + 1, item);
        lemma_holders_ordered(ps, item);
        let (c, d) = lemma_find_holders(ps, item);
        assert(ps[c].occupies(item) && ps[d].occupies(item));
    }
}

/// Law: capacity is what the highest block needs. A set that passes ends within
/// the partition, and one that is turned away for its size holds a block that
/// does not.
pub proof fn law_capacity(ps: Seq<Placement>, available: usize)
    ensures
        placement_fault(ps, Some(available)) is None ==> forall|i: int|
            0 <= i < ps.len() ==> (#[trigger] ps[i]).end() <= available,
        placement_fault(ps, Some(available)) matches Some(
            PlacementError::Capacity { needed, .. },
        ) ==> exists|i: int|
            0 <= i < ps.len() && (#[trigger] ps[i]).end() == needed && needed > available,
{
    lemma_items_needed(ps);
    if placement_fault(ps, Some(available)) is None {
        assert forall|i: int| 0 <= i < ps.len() implies (#[trigger] ps[i]).end() <= available by {}
    }
}

proof fn lemma_items_needed(ps: Seq<Placement>)
    ensures
        forall|i: int| 0 <= i < ps.len() ==> (#[trigger] ps[i]).end() <= items_needed(ps),
        items_needed(ps) > 0 ==> exists|i: int|
            0 <= i < ps.len() && (#[trigger] ps[i]).end() == items_needed(ps),
        0 <= items_needed(ps) <= 2 * usize::MAX,
    decreases ps.len(),
{
    if ps.len() > 0 {
        let front = ps.drop_last();
        lemma_items_needed(front);
        assert forall|i: int| 0 <= i < ps.len() implies (#[trigger] ps[i]).end() <= items_needed(
            ps,
        ) by {
            if i < front.len() {
                assert(front[i] == ps[i]);
            }
        }
        if items_needed(ps) > 0 {
            if ps.last().end() == items_needed(ps) {
                assert(ps[ps.len() - 1].end() == items_needed(ps));
            } else {
                let i = choose|i: int|
                    0 <= i < front.len() && (#[trigger] front[i]).end() == items_needed(front);
                assert(ps[i] == front[i]);
            }
        }
    }
}

/// Whether `s` is the supersession between `ps[i]` and `ps[j]`.
pub open spec fn supersedes_as(ps: Seq<Placement>, i: int, j: int, s: Supersession) -> bool {
    ps[i].target == ps[j].target && s == superseding(ps[i], ps[j])[0]
}

proof fn lemma_contains_sum(a: Seq<Supersession>, b: Seq<Supersession>, s: Supersession)
    ensures
        (a + b).contains(s) <==> a.contains(s) || b.contains(s),
{
    if a.contains(s) {
        let k = choose|k: int| 0 <= k < a.len() && a[k] == s;
        assert((a + b)[k] == s);
    }
    if b.contains(s) {
        let k = choose|k: int| 0 <= k < b.len() && b[k] == s;
        assert((a + b)[a.len() + k] == s);
    }
}

pub(crate) proof fn lemma_row(ps: Seq<Placement>, i: int, n: int, s: Supersession)
    ensures
        row(ps, i, n).contains(s) <==> exists|j: int|
            i < j < n && #[trigger] supersedes_as(ps, i, j, s),
    decreases n - i,
{
    if n > i + 1 {
        let here = superseding(ps[i], ps[n - 1]);
        lemma_row(ps, i, n - 1, s);
        lemma_contains_sum(row(ps, i, n - 1), here, s);
        assert(here.contains(s) <==> supersedes_as(ps, i, n - 1, s)) by {
            if supersedes_as(ps, i, n - 1, s) {
                assert(here[0] == s);
            }
        }
        if row(ps, i, n - 1).contains(s) {
            let j = choose|j: int| i < j < n - 1 && #[trigger] supersedes_as(ps, i, j, s);
            assert(supersedes_as(ps, i, j, s));
        }
    }
}

pub(crate) proof fn lemma_rows(ps: Seq<Placement>, m: int, s: Supersession)
    ensures
        rows(ps, m).contains(s) <==> exists|i: int, j: int|
            0 <= i < m && i < j < ps.len() && #[trigger] supersedes_as(ps, i, j, s),
    decreases m,
{
    if m > 0 {
        let last = row(ps, m - 1, ps.len() as int);
        lemma_rows(ps, m - 1, s);
        lemma_row(ps, m - 1, ps.len() as int, s);
        lemma_contains_sum(rows(ps, m - 1), last, s);
        if rows(ps, m - 1).contains(s) {
            let (i, j) = choose|i: int, j: int|
                0 <= i < m - 1 && i < j < ps.len() && #[trigger] supersedes_as(ps, i, j, s);
            assert(supersedes_as(ps, i, j, s));
        }
        if last.contains(s) {
            let j = choose|j: int|
                m - 1 < j < ps.len() && #[trigger] supersedes_as(ps, m - 1, j, s);
            assert(supersedes_as(ps, m - 1, j, s));
        }
    }
}

/// Law: supersessions are exactly the pairs with one target. Each that is
/// reported is such a pair, and each such pair is reported.
pub proof fn law_supersessions_are_same_target_pairs(ps: Seq<Placement>, s: Supersession)
    ensures
        supersessions(ps).contains(s) <==> exists|i: int, j: int|
            0 <= i < j < ps.len() && #[trigger] supersedes_as(ps, i, j, s),
{
    lemma_rows(ps, ps.len() as int, s);
}

/// Law: blocks with distinct targets are independent; none supersedes another.
pub proof fn law_distinct_targets_are_independent(ps: Seq<Placement>)
    requires
        forall|i: int, j: int|
            0 <= i < j < ps.len() ==> (#[trigger] ps[i]).target != (#[trigger] ps[j]).target,
    ensures
        supersessions(ps).len() == 0,
{
    if supersessions(ps).len() > 0 {
        let s = supersessions(ps)[0];
        assert(supersessions(ps).contains(s));
        law_supersessions_are_same_target_pairs(ps, s);
        let (i, j) = choose|i: int, j: int|
            0 <= i < j < ps.len() && #[trigger] supersedes_as(ps, i, j, s);
        assert(ps[i].target == ps[j].target);
    }
}

/// Law: the higher slot wins. Of two blocks with items and one target in a set
/// that passes, the one whose items come later wins, and never by a tie.
pub proof fn law_higher_slot_wins(
    ps: Seq<Placement>,
    num_items: Option<usize>,
    winner: int,
    loser: int,
)
    requires
        placement_fault(ps, num_items) is None,
        0 <= winner < ps.len(),
        0 <= loser < ps.len(),
        winner != loser,
        ps[winner].n_items > 0,
        ps[loser].n_items > 0,
        ps[winner].target == ps[loser].target,
        ps[winner].first_item >= ps[loser].first_item,
    ensures
        ps[winner].first_item >= ps[loser].end(),
        supersessions(ps).contains(
            Supersession {
                target: ps[winner].target,
                winner_patch: ps[winner].patch_index,
                loser_patch: ps[loser].patch_index,
            },
        ),
{
    law_accepted_sets_are_disjoint(ps, num_items);
    let s = Supersession {
        target: ps[winner].target,
        winner_patch: ps[winner].patch_index,
        loser_patch: ps[loser].patch_index,
    };
    law_supersessions_are_same_target_pairs(ps, s);
    let (i, j) = if winner < loser {
        (winner, loser)
    } else {
        (loser, winner)
    };
    let item = ps[winner].first_item as int;
    assert(ps[winner].occupies(item));
    assert(!(ps[i].occupies(item) && ps[j].occupies(item)));
    assert(supersedes_as(ps, i, j, s));
}

/// The supersessions between `x` and what comes before it.
spec fn versus(x: Placement) -> spec_fn(Placement) -> Multiset<Supersession> {
    |p: Placement| superseding(p, x).to_multiset()
}

/// The supersessions of a set, without their order.
spec fn paired(ps: Seq<Placement>) -> Multiset<Supersession>
    decreases ps.len(),
{
    if ps.len() == 0 {
        Multiset::empty()
    } else {
        paired(ps.drop_last()).add(
            crate::permutation::gathered(ps.drop_last(), versus(ps.last())),
        )
    }
}

proof fn lemma_row_push(ps: Seq<Placement>, x: Placement, i: int, n: int)
    requires
        0 <= i < ps.len(),
        n <= ps.len(),
    ensures
        row(ps.push(x), i, n) == row(ps, i, n),
    decreases n - i,
{
    if n > i + 1 {
        lemma_row_push(ps, x, i, n - 1);
    }
}

proof fn lemma_rows_push(ps: Seq<Placement>, x: Placement, m: int)
    requires
        0 <= m <= ps.len(),
    ensures
        rows(ps.push(x), m).to_multiset() == rows(ps, m).to_multiset().add(
            crate::permutation::gathered(ps.take(m), versus(x)),
        ),
    decreases m,
{
    let all = ps.push(x);
    let n = ps.len() as int;
    if m > 0 {
        lemma_rows_push(ps, x, m - 1);
        lemma_row_push(ps, x, m - 1, n);
        let old_row = row(ps, m - 1, n);
        let here = superseding(ps[m - 1], x);
        assert(row(all, m - 1, n + 1) == old_row + here);
        vstd::seq_lib::lemma_multiset_commutative(rows(all, m - 1), row(all, m - 1, n + 1));
        vstd::seq_lib::lemma_multiset_commutative(old_row, here);
        vstd::seq_lib::lemma_multiset_commutative(rows(ps, m - 1), old_row);
        assert(ps.take(m).drop_last() =~= ps.take(m - 1));
        assert(ps.take(m).last() == ps[m - 1]);
        assert(rows(all, m).to_multiset() =~= rows(ps, m).to_multiset().add(
            crate::permutation::gathered(ps.take(m), versus(x)),
        ));
    } else {
        assert(rows(ps, 0).to_multiset() =~= rows(ps, 0).to_multiset().add(Multiset::empty()));
        assert(rows(all, 0) =~= rows(ps, 0));
    }
}

proof fn lemma_paired(ps: Seq<Placement>)
    ensures
        supersessions(ps).to_multiset() == paired(ps),
    decreases ps.len(),
{
    broadcast use vstd::seq_lib::group_to_multiset_ensures;

    if ps.len() == 0 {
        assert(supersessions(ps) =~= Seq::empty());
        assert(supersessions(ps).to_multiset() =~= Multiset::empty());
    } else {
        let front = ps.drop_last();
        let x = ps.last();
        let n = front.len() as int;
        assert(front.push(x) =~= ps);
        lemma_paired(front);
        lemma_rows_push(front, x, n);
        assert(front.take(n) =~= front);
        assert(row(ps, n, n + 1) =~= Seq::empty());
        assert(rows(ps, n + 1) =~= rows(ps, n));
    }
}

/// Whether no two blocks start at one item.
spec fn starts_differ(ps: Seq<Placement>) -> bool {
    forall|i: int, j: int|
        0 <= i < j < ps.len() ==> (#[trigger] ps[i]).first_item != (#[trigger] ps[j]).first_item
}

proof fn lemma_paired_remove(ps: Seq<Placement>, j: int)
    requires
        0 <= j < ps.len(),
        starts_differ(ps),
    ensures
        paired(ps) == paired(ps.remove(j)).add(
            crate::permutation::gathered(ps.remove(j), versus(ps[j])),
        ),
    decreases ps.len(),
{
    if j == ps.len() - 1 {
        assert(ps.remove(j) =~= ps.drop_last());
    } else {
        let front = ps.drop_last();
        let x = ps[j];
        let y = ps.last();
        let rest = front.remove(j);
        assert forall|a: int, b: int| 0 <= a < b < front.len() implies (
        #[trigger] front[a]).first_item != (#[trigger] front[b]).first_item by {
            assert(front[a] == ps[a] && front[b] == ps[b]);
        }
        lemma_paired_remove(front, j);
        crate::permutation::lemma_gathered_remove(front, versus(y), j);
        assert(ps.remove(j).drop_last() =~= rest);
        assert(ps.remove(j).last() == y);
        assert(ps[j].first_item != ps[ps.len() - 1].first_item);
        assert(superseding(x, y) == superseding(y, x));
        assert(paired(ps) =~= paired(ps.remove(j)).add(
            crate::permutation::gathered(ps.remove(j), versus(x)),
        ));
    }
}

proof fn lemma_paired_permutation(ps: Seq<Placement>, qs: Seq<Placement>)
    requires
        ps.to_multiset() == qs.to_multiset(),
        starts_differ(ps),
        starts_differ(qs),
    ensures
        paired(ps) == paired(qs),
    decreases ps.len(),
{
    crate::permutation::lemma_same_len(ps, qs);
    if ps.len() > 0 {
        let j = crate::permutation::lemma_find_last(ps, qs);
        let front = ps.drop_last();
        let rest = qs.remove(j);
        assert forall|a: int, b: int| 0 <= a < b < front.len() implies (
        #[trigger] front[a]).first_item != (#[trigger] front[b]).first_item by {
            assert(front[a] == ps[a] && front[b] == ps[b]);
        }
        assert forall|a: int, b: int| 0 <= a < b < rest.len() implies (
        #[trigger] rest[a]).first_item != (#[trigger] rest[b]).first_item by {
            let c = if a < j {
                a
            } else {
                a + 1
            };
            let d = if b < j {
                b
            } else {
                b + 1
            };
            assert(rest[a] == qs[c] && rest[b] == qs[d]);
        }
        lemma_paired_permutation(front, rest);
        lemma_paired_remove(qs, j);
        crate::permutation::lemma_gathered(front, rest, versus(ps.last()));
    }
}

/// In a set of blocks with items that passes, no two start at one item.
proof fn lemma_starts_differ(ps: Seq<Placement>, num_items: Option<usize>)
    requires
        placement_fault(ps, num_items) is None,
        forall|i: int| 0 <= i < ps.len() ==> (#[trigger] ps[i]).n_items > 0,
    ensures
        starts_differ(ps),
{
    law_accepted_sets_are_disjoint(ps, num_items);
    assert forall|i: int, j: int| 0 <= i < j < ps.len() implies (#[trigger] ps[i]).first_item != (
    #[trigger] ps[j]).first_item by {
        let item = ps[i].first_item as int;
        assert(ps[i].occupies(item));
        if ps[j].first_item == item {
            assert(ps[j].occupies(item));
        }
    }
}

proof fn lemma_permutation_passes(
    ps: Seq<Placement>,
    qs: Seq<Placement>,
    num_items: Option<usize>,
)
    requires
        ps.to_multiset() == qs.to_multiset(),
        forall|i: int| 0 <= i < ps.len() ==> (#[trigger] ps[i]).n_items > 0,
        placement_fault(ps, num_items) is None,
    ensures
        placement_fault(qs, num_items) is None,
{
    let sorted = crate::order::ordered(ps);
    let other = crate::order::ordered(qs);
    let key = |p: Placement| p.key();
    crate::order::law_ordered(ps);
    crate::order::law_ordered(qs);
    lemma_no_overlap(sorted);
    assert forall|i: int, j: int| 0 <= i < j < sorted.len() implies key(#[trigger] sorted[i]) < key(
        #[trigger] sorted[j],
    ) by {
        let n = crate::permutation::lemma_find(sorted, ps, i);
        assert(ps[n].n_items > 0);
        assert(sorted[i].end() <= sorted[j].first_item);
    }
    assert forall|i: int, j: int| 0 <= i <= j < other.len() implies key(#[trigger] other[i]) <= key(
        #[trigger] other[j],
    ) by {
        assert(other[i].key() <= other[j].key());
    }
    crate::permutation::lemma_ordered_is_unique(sorted, other, key);
    lemma_items_needed(ps);
    lemma_items_needed(qs);
    if items_needed(qs) > 0 {
        let i = choose|i: int| 0 <= i < qs.len() && (#[trigger] qs[i]).end() == items_needed(qs);
        let j = crate::permutation::lemma_find(qs, ps, i);
        assert(ps[j].end() == items_needed(qs));
    }
}

/// Law: order is expressed by the slots alone. Two lists of the same blocks, each
/// with items, pass alike, whatever their order, and then report the same
/// supersessions.
pub proof fn law_list_order_is_moot(
    ps: Seq<Placement>,
    qs: Seq<Placement>,
    num_items: Option<usize>,
)
    requires
        ps.to_multiset() == qs.to_multiset(),
        forall|i: int| 0 <= i < ps.len() ==> (#[trigger] ps[i]).n_items > 0,
    ensures
        placement_fault(ps, num_items) is None <==> placement_fault(qs, num_items) is None,
        placement_fault(ps, num_items) is None ==> supersessions(ps).to_multiset()
            == supersessions(qs).to_multiset(),
{
    assert forall|j: int| 0 <= j < qs.len() implies (#[trigger] qs[j]).n_items > 0 by {
        let i = crate::permutation::lemma_find(qs, ps, j);
        assert(ps[i].n_items > 0);
    }
    if placement_fault(ps, num_items) is None {
        lemma_permutation_passes(ps, qs, num_items);
        lemma_starts_differ(ps, num_items);
        lemma_starts_differ(qs, num_items);
        lemma_paired(ps);
        lemma_paired(qs);
        lemma_paired_permutation(ps, qs);
    }
    if placement_fault(qs, num_items) is None {
        lemma_permutation_passes(qs, ps, num_items);
    }
}

/// Whether each block starts where the one before it ends, the first at item 0.
pub open spec fn is_consecutive(ps: Seq<Placement>) -> bool {
    &&& ps.len() > 0 ==> ps[0].first_item == 0
    &&& forall|i: int, j: int|
        0 <= i < j < ps.len() && j == i + 1 ==> (#[trigger] ps[j]).first_item == (
        #[trigger] ps[i]).end()
}

proof fn lemma_consecutive(blocks: Seq<Unplaced>, item_size: nat)
    requires
        assigned(blocks, item_size) is Some,
        forall|i: int| 0 <= i < blocks.len() ==> (#[trigger] blocks[i]).slot is None,
    ensures
        assigned(blocks, item_size)->Some_0.len() == blocks.len(),
        is_consecutive(assigned(blocks, item_size)->Some_0),
    decreases blocks.len(),
{
    if blocks.len() > 0 {
        let front = blocks.drop_last();
        assert forall|i: int| 0 <= i < front.len() implies (#[trigger] front[i]).slot is None by {
            assert(front[i] == blocks[i]);
        }
        lemma_consecutive(front, item_size);
        let before = assigned(front, item_size)->Some_0;
        let ps = assigned(blocks, item_size)->Some_0;
        assert(blocks[blocks.len() - 1].slot is None);
        assert(ps == before.push(ps.last()));
        assert(ps.last().first_item == cursor(before));
        assert forall|i: int, j: int| 0 <= i < j < ps.len() && j == i + 1 implies (
        #[trigger] ps[j]).first_item == (#[trigger] ps[i]).end() by {
            assert(ps[i] == before[i]);
            if j < before.len() {
                assert(ps[j] == before[j]);
            }
        }
    }
}

proof fn lemma_consecutive_is_free(ps: Seq<Placement>)
    requires
        is_consecutive(ps),
    ensures
        first_overlap(ps) is None,
    decreases ps.len(),
{
    if ps.len() >= 2 {
        let front = ps.drop_last();
        assert forall|i: int, j: int| 0 <= i < j < front.len() && j == i + 1 implies (
        #[trigger] front[j]).first_item == (#[trigger] front[i]).end() by {
            assert(front[i] == ps[i] && front[j] == ps[j]);
        }
        lemma_consecutive_is_free(front);
        assert(ps[ps.len() - 1].first_item == ps[ps.len() - 2].end());
    }
}

/// Law: blocks without fixed slots go one behind the other from item 0 on, and
/// such a set never overlaps.
pub proof fn law_auto_slots_are_consecutive(
    blocks: Seq<Unplaced>,
    item_size: nat,
    num_items: Option<usize>,
)
    requires
        assigned(blocks, item_size) is Some,
        forall|i: int| 0 <= i < blocks.len() ==> (#[trigger] blocks[i]).slot is None,
    ensures
        ({
            let ps = assigned(blocks, item_size)->Some_0;
            &&& ps.len() == blocks.len()
            &&& is_consecutive(ps)
            &&& !(placement_fault(ps, num_items) matches Some(PlacementError::Overlap { .. }))
        }),
{
    let ps = assigned(blocks, item_size)->Some_0;
    lemma_consecutive(blocks, item_size);
    lemma_consecutive_is_free(ps);
    lemma_no_overlap(ps);
    assert forall|i: int, j: int| 0 <= i <= j < ps.len() implies (#[trigger] ps[i]).key() <= (
    #[trigger] ps[j]).key() by {
        if i < j {
            assert(ps[i].end() <= ps[j].first_item);
        }
    }
    crate::order::law_ordered_is_idle(ps);
}

/// Blocks with the first items of their places.
pub open spec fn placed(ps: Seq<Placement>, blocks: Seq<Seq<u8>>) -> Seq<(usize, Seq<u8>)> {
    Seq::new(ps.len(), |i: int| (ps[i].first_item, blocks[i]))
}

/// The name of item `index`.
pub open spec fn item_name(item_prefix: Seq<char>, index: int) -> Seq<char> {
    item_prefix + crate::text::decimal(index as nat)
}

/// Whether a name is that of an item of `p`.
pub open spec fn names_item_of(p: Placement, item_prefix: Seq<char>, name: Seq<char>) -> bool {
    exists|index: int|
        p.occupies(index) && name == #[trigger] item_name(item_prefix, index)
}

/// Whether a name is that of an item of the first `n` blocks.
pub open spec fn names_item_within(
    ps: Seq<Placement>,
    n: int,
    item_prefix: Seq<char>,
    name: Seq<char>,
) -> bool {
    exists|i: int| 0 <= i < n && #[trigger] names_item_of(ps[i], item_prefix, name)
}

proof fn lemma_names_differ(item_prefix: Seq<char>, a: int, b: int)
    requires
        0 <= a,
        0 <= b,
        a != b,
    ensures
        item_name(item_prefix, a) != item_name(item_prefix, b),
{
    let s = item_name(item_prefix, a);
    let t = item_name(item_prefix, b);
    if s == t {
        let n = item_prefix.len() as int;
        assert(s.skip(n) =~= crate::text::decimal(a as nat));
        assert(t.skip(n) =~= crate::text::decimal(b as nat));
        crate::text::law_digits_are_injective(a as nat, b as nat, 10);
    }
}

proof fn lemma_set_items(
    ps: Seq<Placement>,
    blocks: Seq<Seq<u8>>,
    item_prefix: Seq<char>,
    item_size: nat,
    n: int,
)
    requires
        0 <= n <= ps.len(),
        blocks.len() == ps.len(),
        forall|i: int|
            0 <= i < ps.len() ==> (#[trigger] ps[i]).n_items == crate::fuse_cfg::item_count(
                blocks[i].len(),
                item_size,
            ),
        forall|i: int, j: int, item: int|
            0 <= i < j < ps.len() ==> !(#[trigger] ps[i].occupies(item)
                && #[trigger] ps[j].occupies(item)),
    ensures
        ({
            let items = crate::fuse_cfg::set_items(
                placed(ps, blocks).take(n),
                item_prefix,
                item_size,
            );
            &&& forall|a: int|
                0 <= a < items.len() ==> names_item_within(
                    ps,
                    n,
                    item_prefix,
                    (#[trigger] items[a]).name,
                )
            &&& forall|a: int, b: int|
                0 <= a < b < items.len() ==> (#[trigger] items[a]).name != (
                #[trigger] items[b]).name
        }),
    decreases n,
{
    let items = crate::fuse_cfg::set_items(placed(ps, blocks).take(n), item_prefix, item_size);
    if n > 0 {
        let p = ps[n - 1];
        let before = crate::fuse_cfg::set_items(
            placed(ps, blocks).take(n - 1),
            item_prefix,
            item_size,
        );
        let here = crate::fuse_cfg::block_items(
            blocks[n - 1],
            item_prefix,
            item_size,
            p.first_item as nat,
        );
        lemma_set_items(ps, blocks, item_prefix, item_size, n - 1);
        assert(placed(ps, blocks).take(n).drop_last() =~= placed(ps, blocks).take(n - 1));
        assert(placed(ps, blocks).take(n).last() == (p.first_item, blocks[n - 1]));
        assert(items == before + here);
        assert forall|k: int| 0 <= k < here.len() implies names_item_of(
            p,
            item_prefix,
            (#[trigger] here[k]).name,
        ) by {
            assert(p.occupies(p.first_item + k));
            assert(here[k].name == item_name(item_prefix, p.first_item + k));
        }
        assert forall|a: int| 0 <= a < items.len() implies names_item_within(
            ps,
            n,
            item_prefix,
            (#[trigger] items[a]).name,
        ) by {
            if a < before.len() {
                assert(items[a] == before[a]);
                assert(names_item_within(ps, n - 1, item_prefix, before[a].name));
                let i = choose|i: int|
                    0 <= i < n - 1 && #[trigger] names_item_of(
                        ps[i],
                        item_prefix,
                        before[a].name,
                    );
                assert(names_item_of(ps[i], item_prefix, items[a].name));
            } else {
                assert(items[a] == here[a - before.len()]);
                assert(names_item_of(ps[n - 1], item_prefix, items[a].name));
            }
        }
        assert forall|a: int, b: int| 0 <= a < b < items.len() implies (#[trigger] items[a]).name
            != (#[trigger] items[b]).name by {
            if b < before.len() {
                assert(items[a] == before[a] && items[b] == before[b]);
            } else if a >= before.len() {
                let (k, l) = (a - before.len(), b - before.len());
                assert(items[a] == here[k] && items[b] == here[l]);
                lemma_names_differ(item_prefix, p.first_item + k, p.first_item + l);
            } else {
                let l = b - before.len();
                assert(items[a] == before[a] && items[b] == here[l]);
                assert(names_item_within(ps, n - 1, item_prefix, before[a].name));
                let i = choose|i: int|
                    0 <= i < n - 1 && #[trigger] names_item_of(
                        ps[i],
                        item_prefix,
                        before[a].name,
                    );
                let index = choose|index: int|
                    ps[i].occupies(index) && before[a].name == #[trigger] item_name(
                        item_prefix,
                        index,
                    );
                assert(ps[i].occupies(index));
                assert(ps[n - 1].occupies(p.first_item + l));
                assert(!(ps[i].occupies(index) && ps[n - 1].occupies(index)));
                lemma_names_differ(item_prefix, index, p.first_item + l);
            }
        }
    }
}

/// Law: no item is written twice. Where a set passes, the items of its blocks
/// have names that differ from one another.
pub proof fn law_set_items_are_distinct(
    ps: Seq<Placement>,
    num_items: Option<usize>,
    blocks: Seq<Seq<u8>>,
    item_prefix: Seq<char>,
    item_size: nat,
)
    requires
        placement_fault(ps, num_items) is None,
        blocks.len() == ps.len(),
        forall|i: int|
            0 <= i < ps.len() ==> (#[trigger] ps[i]).n_items == crate::fuse_cfg::item_count(
                blocks[i].len(),
                item_size,
            ),
    ensures
        ({
            let items = crate::fuse_cfg::set_items(placed(ps, blocks), item_prefix, item_size);
            forall|a: int, b: int|
                0 <= a < b < items.len() ==> (#[trigger] items[a]).name != (
                #[trigger] items[b]).name
        }),
{
    law_accepted_sets_are_disjoint(ps, num_items);
    lemma_set_items(ps, blocks, item_prefix, item_size, ps.len() as int);
    assert(placed(ps, blocks).take(ps.len() as int) =~= placed(ps, blocks));
}

} // verus!
