//! The patches of a manifest.

use super::fuse::{law_items_are_named_by_index, law_set_items_in_turn, law_values_hold_block};
use super::patch::law_block_is_the_request;
use crate::manifest::{
    EntryError, Manifest, NumberFault, PackedPatch, PatchEntry, Placement, ResumeError,
};
use crate::patch::{BuildError, RomBounds};
use crate::signer::PatchSigner;
use vstd::prelude::*;

verus! {

/// Law: where a patch resumes. An offset is taken as it is. An address is one
/// exactly if it is word-aligned, lies behind the target and less than 65536
/// words away, and gives the number of whole words up to it. One of the two has
/// to be given, and not both.
pub proof fn law_resume_is_resolved(offset: Option<u16>, addr: Option<u32>, target: u32, words: u16)
    ensures
        ({
            let r = crate::manifest::resume::resume_words(offset, addr, target);
            match (offset, addr) {
                (Some(n), None) => r == Ok::<u16, ResumeError>(n),
                (None, Some(a)) => {
                    &&& r == Ok::<u16, ResumeError>(words) <==> a % 4 == 0 && a > target && 4
                        * words <= a - target < 4 * words + 4
                    &&& a % 4 != 0 ==> r == Err::<u16, ResumeError>(
                        ResumeError::Unaligned { addr: a },
                    )
                    &&& a % 4 == 0 && a <= target ==> r == Err::<u16, ResumeError>(
                        ResumeError::NotBehindTarget { addr: a, target },
                    )
                    &&& a % 4 == 0 && a > target && a - target >= 4 * 65536 ==> r == Err::<
                        u16,
                        ResumeError,
                    >(ResumeError::TooFar)
                },
                (None, None) => r == Err::<u16, ResumeError>(ResumeError::Missing),
                (Some(_), Some(_)) => r == Err::<u16, ResumeError>(ResumeError::Ambiguous),
            }
        }),
{
}

/// Law: what an entry resolves to. The target is the number that its text writes;
/// the offset is the one that is given, or leads to the address that is written.
pub proof fn law_entries_resolve(entry: PatchEntry, target: u32, words: u16)
    ensures
        entry.resolved() == Some((target, words)) <==> {
            &&& crate::manifest::number::parsed_u32(entry.target@) is Ok
            &&& crate::manifest::number::parsed_u32(entry.target@)->Ok_0 as u32 == target
            &&& match (entry.resume_offset, entry.resume_addr) {
                (Some(n), None) => n == words,
                (None, Some(text)) => {
                    let a = crate::manifest::number::parsed_u32(text@)->Ok_0 as u32;
                    &&& crate::manifest::number::parsed_u32(text@) is Ok
                    &&& a % 4 == 0
                    &&& a > target
                    &&& 4 * words <= a - target < 4 * words + 4
                },
                _ => false,
            }
        },
        entry.resolves_to(Ok((target, words))) <==> entry.resolved() == Some((target, words)),
{
}

/// Law: why an entry does not resolve. The target is looked at first, then the
/// resume address, and both errors hold the text without white space around it;
/// then what the two give.
pub proof fn law_entry_refusals(entry: PatchEntry, e: EntryError)
    requires
        entry.resolves_to(Err(e)),
    ensures
        match e {
            EntryError::Target(n) => crate::manifest::number::parsed_u32(entry.target@) == Err::<
                int,
                NumberFault,
            >(n.fault) && n.text@ == crate::manifest::number::trimmed(entry.target@),
            EntryError::ResumeAddr(n) => {
                &&& crate::manifest::number::parsed_u32(entry.target@) is Ok
                &&& entry.resume_addr matches Some(text) && crate::manifest::number::parsed_u32(
                    text@,
                ) == Err::<int, NumberFault>(n.fault) && n.text@
                    == crate::manifest::number::trimmed(text@)
            },
            EntryError::Resume(r) => {
                let target = crate::manifest::number::parsed_u32(entry.target@)->Ok_0 as u32;
                &&& crate::manifest::number::parsed_u32(entry.target@) is Ok
                &&& match (entry.resume_offset, entry.resume_addr) {
                    (Some(_), None) => false,
                    (None, None) => r is Missing,
                    (Some(_), Some(text)) => r is Ambiguous && crate::manifest::number::parsed_u32(
                        text@,
                    ) is Ok,
                    (None, Some(text)) => {
                        let a = crate::manifest::number::parsed_u32(text@)->Ok_0 as u32;
                        &&& crate::manifest::number::parsed_u32(text@) is Ok
                        &&& if a % 4 != 0 {
                            r == (ResumeError::Unaligned { addr: a })
                        } else if a <= target {
                            r == (ResumeError::NotBehindTarget { addr: a, target })
                        } else {
                            r == ResumeError::TooFar && a - target >= 4 * 65536
                        }
                    },
                }
            },
        },
{
}

/// Law: the request of an entry holds its version and flag, the addresses, the
/// replacement and the bounds as they are, and no slot size.
pub proof fn law_requests_hold_entries(
    entry: PatchEntry,
    target: u32,
    resume_offset: u16,
    replacement_elf: Vec<u8>,
    rom_bounds: RomBounds,
)
    ensures
        ({
            let req = entry.requested(target, resume_offset, replacement_elf, rom_bounds);
            &&& req.version == entry.version
            &&& req.critical == entry.critical
            &&& req.target == target
            &&& req.resume_offset == resume_offset
            &&& req.replacement_elf == replacement_elf
            &&& req.rom_bounds == rom_bounds
            &&& req.slot_size is None
        }),
{
}

/// Law: a packed patch is its entry. It has the entry's slot and target, and of
/// its block the word at `0x44` is the target, the half-word at `0x48` the resume
/// offset, the byte at `0x42` the entry's version and that at `0x40` its flag;
/// both addresses are in the ROM; and the first 64 bytes are the signer's for all
/// the others.
pub proof fn law_packed_patch_is_the_entry<S: PatchSigner + ?Sized>(
    entry: PatchEntry,
    target: u32,
    resume_offset: u16,
    replacement_elf: Vec<u8>,
    rom_bounds: RomBounds,
    signer: &S,
    p: PackedPatch,
)
    requires
        crate::manifest::set::may_pack(
            entry,
            target,
            resume_offset,
            replacement_elf,
            rom_bounds,
            signer,
            Ok(p),
        ),
    ensures
        p.target == target,
        p.slot == entry.slot,
        super::block::word(p.block@, 0x44) == target,
        super::block::half_word(p.block@, 0x48) == resume_offset,
        p.block@[0x42] == entry.version,
        p.block@[0x40] == (if entry.critical {
            1int
        } else {
            0
        }),
        super::patch::is_in_rom(rom_bounds, target as int),
        super::patch::is_in_rom(rom_bounds, target + 4 * resume_offset),
        signer.may_sign(p.block@.skip(64), p.block@.take(64)),
        ({
            let elf = crate::elf::parsed_elf(replacement_elf@)->0;
            let image = crate::elf::replacement::replacement(elf, replacement_elf@)->Ok_0;
            &&& crate::elf::parsed_elf(replacement_elf@) is Some
            &&& crate::elf::replacement::replacement(elf, replacement_elf@) is Ok
            &&& p.block@.skip(0x4C) == image.bytes
        }),
{
    let req = entry.requested(target, resume_offset, replacement_elf, rom_bounds);
    let elf = crate::elf::parsed_elf(replacement_elf@)->0;
    let image = crate::elf::replacement::replacement(elf, replacement_elf@)->Ok_0;
    law_block_is_the_request(req, signer, p.block);
    super::patch::law_requests_are_accepted(req, image);
}

/// Law: an entry that is not packed is one whose request gives no block.
pub proof fn law_entry_is_not_packed<S: PatchSigner + ?Sized>(
    entry: PatchEntry,
    target: u32,
    resume_offset: u16,
    replacement_elf: Vec<u8>,
    rom_bounds: RomBounds,
    signer: &S,
    e: BuildError,
)
    requires
        crate::manifest::set::may_pack(
            entry,
            target,
            resume_offset,
            replacement_elf,
            rom_bounds,
            signer,
            Err(e),
        ),
    ensures
        crate::patch::may_build(
            entry.requested(target, resume_offset, replacement_elf, rom_bounds),
            signer,
            Err(e),
        ),
{
}

/// Law: the items of a set hold its blocks. For each byte of the items that a
/// patch takes, an item of the set is named by the prefix and the index of the
/// item in the partition, and the number that its value writes, shifted right
/// and cut to that byte, is the byte of the block, or zero behind its end.
pub proof fn law_set_items_hold_blocks(
    m: Manifest,
    patches: Seq<PackedPatch>,
    ps: Seq<Placement>,
    i: int,
    n: nat,
) -> (x: int)
    requires
        m.item_size > 0,
        ps.len() == patches.len(),
        0 <= i < ps.len(),
        n < crate::fuse_cfg::item_count(patches[i].block@.len(), m.item_size as nat) * m.item_size,
    ensures
        ({
            let items = crate::manifest::set::placed_items(m, patches, ps);
            let index = items[x].name.skip(m.item_prefix@.len() as int);
            &&& 0 <= x < items.len()
            &&& items[x].name.take(m.item_prefix@.len() as int) == m.item_prefix@
            &&& super::text::all_digits(index, 10)
            &&& super::text::read(index, 10) == ps[i].first_item + n / m.item_size as nat
            &&& items[x].value.take(2) == seq!['0', 'x']
            &&& items[x].value.len() == 2 + 2 * m.item_size
            &&& super::text::all_digits(items[x].value.skip(2), 16)
            &&& super::fuse::number_byte(
                super::text::read(items[x].value.skip(2), 16),
                n % m.item_size as nat,
            ) == if n < patches[i].block@.len() {
                patches[i].block@[n as int] as nat
            } else {
                0
            }
        }),
{
    let size = m.item_size as nat;
    let prefix = m.item_prefix@;
    let all = crate::manifest::placement::placed(ps, crate::manifest::set::blocks(patches));
    let block = patches[i].block@;
    let one = (ps[i].first_item, block);
    let k = n / size;
    law_values_hold_block(block, prefix, size, ps[i].first_item as nat, n);
    law_items_are_named_by_index(block, prefix, size, ps[i].first_item as nat, k);
    assert(all[i] == one);
    let a = all.take(i);
    let b = all.skip(i + 1);
    assert(all =~= (a + seq![one]) + b);
    law_set_items_in_turn(a, seq![one], one, prefix, size, k as int);
    law_set_items_in_turn(a + seq![one], b, one, prefix, size, k as int);
    let before = crate::fuse_cfg::set_items(a, prefix, size);
    let here = crate::fuse_cfg::set_items(seq![one], prefix, size);
    let items = crate::manifest::set::placed_items(m, patches, ps);
    let x = before.len() + k;
    assert(items[x as int] == here[k as int]);
    x as int
}

/// Law: a set has no other items: as many as its blocks take together.
pub proof fn law_set_items_are_counted(
    a: Seq<(usize, Seq<u8>)>,
    one: (usize, Seq<u8>),
    prefix: Seq<char>,
    size: nat,
)
    ensures
        crate::fuse_cfg::set_items(a.push(one), prefix, size).len() == crate::fuse_cfg::set_items(
            a,
            prefix,
            size,
        ).len() + crate::fuse_cfg::item_count(one.1.len(), size),
{
    assert(a.push(one).drop_last() =~= a);
}

/// Law: what is packed so far are the first patches of the manifest, in order.
pub proof fn law_packed_patches_follow(m: Manifest, packed: Seq<PackedPatch>, p: PackedPatch)
    requires
        crate::manifest::set::follows(m, packed),
        packed.len() < m.patches@.len(),
    ensures
        crate::manifest::set::follows(m, packed.push(p)) <==> {
            let entry = m.patches@[packed.len() as int];
            &&& entry.resolved() is Some
            &&& p.target == entry.resolved()->Some_0.0
            &&& p.slot == entry.slot
        },
        crate::manifest::set::follows(m, Seq::empty()),
{
    let all = packed.push(p);
    let n = packed.len() as int;
    assert(all[n] == p);
    let entry = m.patches@[n];
    if entry.resolved() is Some && p.target == entry.resolved()->Some_0.0 && p.slot == entry.slot {
        assert forall|i: int| 0 <= i < all.len() implies {
            &&& m.patches@[i].resolved() is Some
            &&& (#[trigger] all[i]).target == m.patches@[i].resolved()->Some_0.0
            &&& all[i].slot == m.patches@[i].slot
        } by {
            if i < n {
                assert(all[i] == packed[i]);
            }
        }
    }
}

} // verus!
