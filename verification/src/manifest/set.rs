//! A set of packed patches and its place in OTP.

use super::placement::{
    assign_slots, validate_placements, Placement, PlacementError, Supersession, Unplaced,
};
use super::{EntryError, Manifest, PatchEntry};
use crate::fuse_cfg::emit_add_cfg_multi;
use crate::patch::{build_patch_block, BuildError, PatchRequest, RomBounds};
use crate::signer::PatchSigner;
use crate::text::push_decimal;
use vstd::prelude::*;

verus! {

/// A patch of the set, packed and signed.
#[derive(Debug, Clone)]
pub struct PackedPatch {
    /// Target ROM address.
    pub target: u32,
    /// The first item, where the manifest fixes it.
    pub slot: Option<usize>,
    /// The signed block.
    pub block: Vec<u8>,
}

impl PackedPatch {
    /// What its placing depends on.
    pub open spec fn unplaced(self) -> Unplaced {
        Unplaced { target: self.target, slot: self.slot, len: self.block@.len() as usize }
    }
}

/// Whether `r` is what packing an entry may give: what building the block of its
/// request may give, with the target and the entry's slot.
pub open spec fn may_pack<S: PatchSigner + ?Sized>(
    entry: PatchEntry,
    target: u32,
    resume_offset: u16,
    replacement_elf: Vec<u8>,
    rom_bounds: RomBounds,
    signer: &S,
    r: Result<PackedPatch, BuildError>,
) -> bool {
    let req = entry.requested(target, resume_offset, replacement_elf, rom_bounds);
    match r {
        Ok(p) => {
            &&& p.target == target
            &&& p.slot == entry.slot
            &&& crate::patch::may_build(req, signer, Ok(p.block))
        },
        Err(e) => crate::patch::may_build(req, signer, Err(e)),
    }
}

/// Packs and signs a patch of the set, given what its addresses resolve to and
/// the bytes of its replacement.
pub fn pack_entry<S: PatchSigner + ?Sized>(
    entry: &PatchEntry,
    target: u32,
    resume_offset: u16,
    replacement_elf: Vec<u8>,
    rom_bounds: RomBounds,
    signer: &S,
) -> (r: Result<PackedPatch, BuildError>)
    ensures
        may_pack(*entry, target, resume_offset, replacement_elf, rom_bounds, signer, r),
{
    let req: PatchRequest = entry.request(target, resume_offset, replacement_elf, rom_bounds);
    match build_patch_block(&req, signer) {
        Ok(block) => Ok(PackedPatch { target, slot: entry.slot, block }),
        Err(e) => Err(e),
    }
}

/// Why a patch of the set was not packed.
#[derive(Debug)]
pub enum PatchError {
    /// Its addresses do not resolve.
    Entry(EntryError),
    /// Its block was not built.
    Build(BuildError),
}

impl PatchError {
    /// Which part of patch `index` is wrong.
    pub open spec fn text(self, index: nat, replacement: Seq<char>) -> Seq<char> {
        match self {
            PatchError::Entry(e) => e.text(index, replacement),
            PatchError::Build(_) => "patch "@ + crate::text::decimal(index) + " ("@ + replacement
                + ")"@,
        }
    }

    /// Which part of patch `index` is wrong.
    pub fn message(&self, index: usize, replacement: &str) -> (m: String)
        ensures
            m@ == self.text(index as nat, replacement@),
    {
        match self {
            PatchError::Entry(e) => e.message(index, replacement),
            PatchError::Build(_) => {
                let mut m: String = "patch ".to_string();
                push_decimal(&mut m, index as u128);
                m.append(" (");
                m.append(replacement);
                m.append(")");
                m
            },
        }
    }
}

/// Whether `packed` are the first patches of the manifest, each once and in
/// order: the target and the slot of each are those of its entry.
pub open spec fn follows(m: Manifest, packed: Seq<PackedPatch>) -> bool {
    &&& packed.len() <= m.patches@.len()
    &&& forall|i: int|
        0 <= i < packed.len() ==> {
            &&& m.patches@[i].resolved() is Some
            &&& (#[trigger] packed[i]).target == m.patches@[i].resolved()->Some_0.0
            &&& packed[i].slot == m.patches@[i].slot
        }
}

/// Packs and signs the next patch of the manifest, given the bytes of its
/// replacement, and adds it to those before it.
pub fn pack_next<S: PatchSigner + ?Sized>(
    m: &Manifest,
    packed: &mut Vec<PackedPatch>,
    replacement_elf: Vec<u8>,
    rom_bounds: RomBounds,
    signer: &S,
) -> (r: Result<(), PatchError>)
    requires
        old(packed)@.len() < m.patches@.len(),
    ensures
        follows(*m, old(packed)@) ==> follows(*m, final(packed)@),
        ({
            let n = old(packed)@.len() as int;
            let entry = m.patches@[n];
            match entry.resolved() {
                None => {
                    &&& r matches Err(PatchError::Entry(e)) && entry.resolves_to(Err(e))
                    &&& final(packed)@ == old(packed)@
                },
                Some((target, words)) => match r {
                    Ok(()) => {
                        &&& final(packed)@.len() == n + 1
                        &&& final(packed)@.take(n) == old(packed)@
                        &&& may_pack(
                            entry,
                            target,
                            words,
                            replacement_elf,
                            rom_bounds,
                            signer,
                            Ok(final(packed)@[n]),
                        )
                    },
                    Err(PatchError::Build(e)) => {
                        &&& final(packed)@ == old(packed)@
                        &&& may_pack(
                            entry,
                            target,
                            words,
                            replacement_elf,
                            rom_bounds,
                            signer,
                            Err(e),
                        )
                    },
                    Err(PatchError::Entry(_)) => false,
                },
            }
        }),
{
    let n: usize = packed.len();
    let entry: &PatchEntry = &m.patches[n];
    let (target, words) = match entry.resolve() {
        Ok(addresses) => addresses,
        Err(e) => return Err(PatchError::Entry(e)),
    };
    match pack_entry(entry, target, words, replacement_elf, rom_bounds, signer) {
        Ok(patch) => {
            packed.push(patch);
            assert(packed@.take(n as int) =~= old(packed)@);
            assert forall|i: int| #![trigger packed@[i]] 0 <= i < n implies packed@[i]
                == old(packed)@[i] by {}
            Ok(())
        },
        Err(e) => Err(PatchError::Build(e)),
    }
}

/// Where a set goes, and the file that puts it there.
#[derive(Debug, Clone)]
pub struct SetPlan {
    /// The place of each patch.
    pub placements: Vec<Placement>,
    /// The patches that others supersede.
    pub supersessions: Vec<Supersession>,
    /// The values of the items, for the fuse tooling.
    pub add_cfg: String,
}

/// Why a set has no place.
#[derive(Debug, Clone, Copy, PartialEq, Eq, Structural)]
pub enum SetError {
    /// Items do not fit the index space.
    IndexOverflow,
    /// The placement is invalid.
    Placement(PlacementError),
}

impl SetError {
    /// The error as text.
    pub open spec fn text(self) -> Seq<char> {
        match self {
            SetError::IndexOverflow => "OTP item index overflows"@,
            SetError::Placement(e) => e.text(),
        }
    }

    /// The error as text.
    pub fn message(&self) -> (m: String)
        ensures
            m@ == self.text(),
    {
        match self {
            SetError::IndexOverflow => "OTP item index overflows".to_string(),
            SetError::Placement(e) => e.message(),
        }
    }
}

/// What the placing of each patch depends on.
pub open spec fn unplaced(patches: Seq<PackedPatch>) -> Seq<Unplaced> {
    patches.map_values(|p: PackedPatch| p.unplaced())
}

/// The blocks of the set.
pub open spec fn blocks(patches: Seq<PackedPatch>) -> Seq<Seq<u8>> {
    patches.map_values(|p: PackedPatch| p.block@)
}

/// The items of the set and their values, once it is placed.
pub open spec fn placed_items(m: Manifest, patches: Seq<PackedPatch>, ps: Seq<Placement>) -> Seq<
    crate::fuse_cfg::FuseItemView,
> {
    crate::fuse_cfg::set_items(
        super::placement::placed(ps, blocks(patches)),
        m.item_prefix@,
        m.item_size as nat,
    )
}

/// Assigns the patches of a set their items, validates the set, and writes the
/// file that puts it there. The set has one patch for each entry of the manifest.
pub fn place_set(m: &Manifest, patches: &[PackedPatch]) -> (r: Result<SetPlan, SetError>)
    requires
        m.item_size > 0,
        patches@.len() == m.patches@.len(),
    ensures
        match super::placement::assigned(unplaced(patches@), m.item_size as nat) {
            None => r == Err::<SetPlan, SetError>(SetError::IndexOverflow),
            Some(ps) => match super::placement::placement_fault(ps, m.num_items) {
                Some(e) => r == Err::<SetPlan, SetError>(SetError::Placement(e)),
                None => {
                    &&& r is Ok
                    &&& r->Ok_0.placements@ == ps
                    &&& r->Ok_0.supersessions@ == super::placement::supersessions(ps)
                    &&& r->Ok_0.add_cfg@ == crate::fuse_cfg::add_cfg(
                        m.partition@,
                        m.lock,
                        placed_items(*m, patches@, ps),
                    )
                },
            },
        },
{
    let mut waiting: Vec<Unplaced> = Vec::new();
    let mut i: usize = 0;
    while i < patches.len()
        invariant
            i <= patches.len(),
            waiting@ == unplaced(patches@).take(i as int),
        decreases patches.len() - i,
    {
        let p: &PackedPatch = &patches[i];
        waiting.push(Unplaced { target: p.target, slot: p.slot, len: p.block.len() });
        assert(waiting@ =~= unplaced(patches@).take(i + 1));
        i = i + 1;
    }
    assert(waiting@ =~= unplaced(patches@));
    let placements: Vec<Placement> = match assign_slots(waiting.as_slice(), m.item_size) {
        Some(placements) => placements,
        None => return Err(SetError::IndexOverflow),
    };
    let supersessions: Vec<Supersession> = match validate_placements(
        placements.as_slice(),
        m.num_items,
    ) {
        Ok(supersessions) => supersessions,
        Err(e) => return Err(SetError::Placement(e)),
    };
    proof {
        super::placement::lemma_assigned_places(unplaced(patches@), m.item_size as nat);
    }
    let ghost all = super::placement::placed(placements@, blocks(patches@));
    let mut placed: Vec<(usize, &[u8])> = Vec::new();
    let mut n: usize = 0;
    while n < patches.len()
        invariant
            n <= patches.len(),
            placements.len() == patches.len(),
            all == super::placement::placed(placements@, blocks(patches@)),
            placed@.map_values(|b: (usize, &[u8])| (b.0, b.1@)) == all.take(n as int),
        decreases patches.len() - n,
    {
        let ghost before = placed@.map_values(|b: (usize, &[u8])| (b.0, b.1@));
        let block: &[u8] = patches[n].block.as_slice();
        placed.push((placements[n].first_item, block));
        assert(all[n as int] == (placements@[n as int].first_item, block@));
        assert(placed@.map_values(|b: (usize, &[u8])| (b.0, b.1@)) =~= before.push(all[n as int]));
        assert(placed@.map_values(|b: (usize, &[u8])| (b.0, b.1@)) =~= all.take(n + 1));
        n = n + 1;
    }
    assert(all.take(n as int) =~= all);
    let add_cfg: String = emit_add_cfg_multi(
        m.partition.as_str(),
        m.item_prefix.as_str(),
        m.item_size,
        m.lock,
        placed.as_slice(),
    );
    Ok(SetPlan { placements, supersessions, add_cfg })
}

/// Law: a placed set writes each item once. The names of its items differ from
/// one another.
pub proof fn law_placed_set_writes_each_item_once(m: Manifest, patches: Seq<PackedPatch>)
    requires
        ({
            let ps = super::placement::assigned(unplaced(patches), m.item_size as nat);
            &&& ps is Some
            &&& super::placement::placement_fault(ps->Some_0, m.num_items) is None
        }),
        forall|i: int|
            0 <= i < patches.len() ==> (#[trigger] patches[i]).block@.len() <= usize::MAX,
    ensures
        ({
            let ps = super::placement::assigned(unplaced(patches), m.item_size as nat)->Some_0;
            let items = placed_items(m, patches, ps);
            forall|a: int, b: int|
                0 <= a < b < items.len() ==> (#[trigger] items[a]).name != (
                #[trigger] items[b]).name
        }),
{
    let item_size = m.item_size as nat;
    let ps = super::placement::assigned(unplaced(patches), item_size)->Some_0;
    super::placement::lemma_assigned_places(unplaced(patches), item_size);
    assert forall|i: int| 0 <= i < ps.len() implies (#[trigger] ps[i]).n_items
        == crate::fuse_cfg::item_count(blocks(patches)[i].len(), item_size) by {
        assert(unplaced(patches)[i].len == patches[i].block@.len());
    }
    super::placement::law_set_items_are_distinct(
        ps,
        m.num_items,
        blocks(patches),
        m.item_prefix@,
        item_size,
    );
}

/// Law: a full set is the manifest. Patches that were packed one after the other
/// until none was left have a place each, in the order of the entries: with the
/// entry's target, at its slot where it fixes one, else right behind the patch
/// before it, and with the items that the block takes.
pub proof fn law_full_set_is_the_manifest(m: Manifest, packed: Seq<PackedPatch>)
    requires
        follows(m, packed),
        packed.len() == m.patches@.len(),
        packed.len() <= usize::MAX,
        forall|i: int|
            0 <= i < packed.len() ==> (#[trigger] packed[i]).block@.len() <= usize::MAX,
        super::placement::assigned(unplaced(packed), m.item_size as nat) is Some,
    ensures
        ({
            let ps = super::placement::assigned(unplaced(packed), m.item_size as nat)->Some_0;
            &&& ps.len() == m.patches@.len()
            &&& forall|i: int|
                0 <= i < ps.len() ==> {
                    let entry = m.patches@[i];
                    &&& (#[trigger] ps[i]).patch_index == i
                    &&& entry.resolved() is Some
                    &&& ps[i].target == entry.resolved()->Some_0.0
                    &&& ps[i].first_item == match entry.slot {
                        Some(slot) => slot as int,
                        None => super::placement::cursor(ps.take(i)),
                    }
                    &&& ps[i].n_items == crate::fuse_cfg::item_count(
                        packed[i].block@.len(),
                        m.item_size as nat,
                    )
                }
        }),
{
    let waiting = unplaced(packed);
    let ps = super::placement::assigned(waiting, m.item_size as nat)->Some_0;
    super::placement::lemma_assigned_places(waiting, m.item_size as nat);
    assert forall|i: int| 0 <= i < ps.len() implies {
        let entry = m.patches@[i];
        &&& (#[trigger] ps[i]).patch_index == i
        &&& entry.resolved() is Some
        &&& ps[i].target == entry.resolved()->Some_0.0
        &&& ps[i].first_item == match entry.slot {
            Some(slot) => slot as int,
            None => super::placement::cursor(ps.take(i)),
        }
        &&& ps[i].n_items == crate::fuse_cfg::item_count(
            packed[i].block@.len(),
            m.item_size as nat,
        )
    } by {
        assert(waiting[i] == packed[i].unplaced());
    }
}

} // verus!
