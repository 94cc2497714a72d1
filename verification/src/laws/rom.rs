//! The executable ranges of a ROM ELF.

use crate::elf::{ElfView, RomElfError, SectionView};
use vstd::prelude::*;

verus! {

/// A section with contents in the file (type 1) that is loaded (flag 2) and
/// executed (flag 4).
pub open spec fn is_code(s: SectionView) -> bool {
    s.sh_type == 1 && s.sh_flags / 2 % 2 == 1 && s.sh_flags / 4 % 2 == 1
}

/// A linked (type 2) little-endian 32-bit file for RISC-V (machine 243).
pub open spec fn is_linked_rv32(elf: ElfView) -> bool {
    elf.machine == 243 && elf.class == 1 && elf.data == 1 && elf.e_type == 2
}

/// Whether every code section has an address and a size of 32 bits.
pub open spec fn all_fit(sections: Seq<SectionView>) -> bool {
    forall|i: int|
        0 <= i < sections.len() && is_code(#[trigger] sections[i]) ==> sections[i].sh_addr
            <= 0xFFFF_FFFF && sections[i].sh_size <= 0xFFFF_FFFF
}

proof fn lemma_rom_code(sections: Seq<SectionView>)
    ensures
        crate::elf::rom::rom_code(sections) is Ok <==> all_fit(sections),
        crate::elf::rom::rom_code(sections) is Ok ==> (
        crate::elf::rom::rom_code(sections)->Ok_0.len() > 0 <==> exists|i: int|
            0 <= i < sections.len() && is_code(#[trigger] sections[i]) && sections[i].sh_size > 0),
    decreases sections.len(),
{
    if sections.len() > 0 {
        let front = sections.drop_last();
        lemma_rom_code(front);
        assert(sections[sections.len() - 1] == sections.last());
        assert(forall|i: int| 0 <= i < front.len() ==> #[trigger] front[i] == sections[i]);
        if all_fit(sections) {
            assert forall|i: int| 0 <= i < front.len() && is_code(#[trigger] front[i]) implies
                front[i].sh_addr <= 0xFFFF_FFFF && front[i].sh_size <= 0xFFFF_FFFF by {
                assert(front[i] == sections[i]);
            }
        }
        if crate::elf::rom::rom_code(sections) is Ok {
            assert forall|i: int| 0 <= i < sections.len() && is_code(#[trigger] sections[i]) implies
                sections[i].sh_addr <= 0xFFFF_FFFF && sections[i].sh_size <= 0xFFFF_FFFF by {
                if i < front.len() {
                    assert(front[i] == sections[i]);
                }
            }
            if exists|i: int|
                0 <= i < sections.len() && is_code(#[trigger] sections[i]) && sections[i].sh_size
                    > 0 {
                let i = choose|i: int|
                    0 <= i < sections.len() && is_code(#[trigger] sections[i])
                        && sections[i].sh_size > 0;
                if i < front.len() {
                    assert(front[i] == sections[i]);
                }
            }
            if exists|i: int|
                0 <= i < front.len() && is_code(#[trigger] front[i]) && front[i].sh_size > 0 {
                let i = choose|i: int|
                    0 <= i < front.len() && is_code(#[trigger] front[i]) && front[i].sh_size > 0;
                assert(front[i] == sections[i]);
            }
        }
    }
}

/// Law: a linked little-endian RV32 executable is accepted exactly if all its
/// code sections have addresses and sizes of 32 bits and one is not empty; no
/// other file is.
pub proof fn law_rom_is_accepted(elf: ElfView)
    ensures
        crate::elf::rom::rom_ranges(elf) is Ok <==> {
            &&& elf.machine == 243
            &&& elf.class == 1
            &&& elf.data == 1
            &&& elf.e_type == 2
            &&& forall|i: int|
                0 <= i < elf.sections.len() && is_code(#[trigger] elf.sections[i])
                    ==> elf.sections[i].sh_addr <= u32::MAX && elf.sections[i].sh_size <= u32::MAX
            &&& exists|i: int|
                0 <= i < elf.sections.len() && is_code(#[trigger] elf.sections[i])
                    && elf.sections[i].sh_size > 0
        },
{
    lemma_rom_code(elf.sections);
}

/// Law: a ROM's ranges are the addresses and sizes of its code sections that are
/// not empty.
pub proof fn law_rom_ranges_are_sections(elf: ElfView, range: (u32, u32))
    requires
        crate::elf::rom::rom_ranges(elf) is Ok,
    ensures
        crate::elf::rom::rom_ranges(elf)->Ok_0.contains(range) <==> exists|i: int|
            0 <= i < elf.sections.len() && is_code(#[trigger] elf.sections[i])
                && elf.sections[i].sh_size > 0 && elf.sections[i].sh_addr == range.0
                && elf.sections[i].sh_size == range.1,
{
    crate::elf::rom::law_rom_ranges_are_code(elf, range);
    if crate::elf::rom::rom_ranges(elf)->Ok_0.contains(range) {
        let i = choose|i: int|
            0 <= i < elf.sections.len() && crate::elf::rom::is_range_of(
                range,
                #[trigger] elf.sections[i],
            );
        assert(is_code(elf.sections[i]));
    }
    if exists|i: int|
        0 <= i < elf.sections.len() && is_code(#[trigger] elf.sections[i])
            && elf.sections[i].sh_size > 0 && elf.sections[i].sh_addr == range.0
            && elf.sections[i].sh_size == range.1 {
        let i = choose|i: int|
            0 <= i < elf.sections.len() && is_code(#[trigger] elf.sections[i])
                && elf.sections[i].sh_size > 0 && elf.sections[i].sh_addr == range.0
                && elf.sections[i].sh_size == range.1;
        assert(crate::elf::rom::is_range_of(range, elf.sections[i]));
    }
}

proof fn lemma_rom_code_sum(a: Seq<SectionView>, b: Seq<SectionView>)
    requires
        crate::elf::rom::rom_code(a) is Ok,
        crate::elf::rom::rom_code(b) is Ok,
    ensures
        crate::elf::rom::rom_code(a + b) == Ok::<Seq<(u32, u32)>, RomElfError>(
            crate::elf::rom::rom_code(a)->Ok_0 + crate::elf::rom::rom_code(b)->Ok_0,
        ),
    decreases b.len(),
{
    let x = crate::elf::rom::rom_code(a)->Ok_0;
    let y = crate::elf::rom::rom_code(b)->Ok_0;
    if b.len() == 0 {
        assert(a + b =~= a);
        assert(x + y =~= x);
    } else {
        lemma_rom_code_sum(a, b.drop_last());
        assert((a + b).drop_last() =~= a + b.drop_last());
        assert((a + b).last() == b.last());
        let z = crate::elf::rom::rom_code(b.drop_last())->Ok_0;
        if y.len() > z.len() {
            assert(x + y =~= (x + z).push(y.last()));
        }
    }
}

/// Law: ranges come in the order of the sections, one for each. The ranges of a
/// file whose sections are those of two others, one after the other, are the
/// ranges of the two in this order, and one section gives at most one range.
pub proof fn law_rom_ranges_keep_order(a: ElfView, b: ElfView, both: ElfView)
    requires
        crate::elf::rom::rom_ranges(a) is Ok,
        crate::elf::rom::rom_ranges(b) is Ok,
        is_linked_rv32(both),
        both.sections == a.sections + b.sections,
    ensures
        crate::elf::rom::rom_ranges(both) == Ok::<Seq<(u32, u32)>, RomElfError>(
            crate::elf::rom::rom_ranges(a)->Ok_0 + crate::elf::rom::rom_ranges(b)->Ok_0,
        ),
        a.sections.len() == 1 ==> crate::elf::rom::rom_ranges(a)->Ok_0.len() == 1,
{
    lemma_rom_code_sum(a.sections, b.sections);
    if a.sections.len() == 1 {
        assert(a.sections.drop_last() =~= Seq::empty());
        assert(crate::elf::rom::rom_code(Seq::empty())->Ok_0.len() == 0);
    }
}

/// Law: why a file is refused as a ROM. The headers are looked at first; then
/// the first code section that does not fit decides; a file without code comes
/// last.
pub proof fn law_rom_refusals(elf: ElfView, n: int)
    requires
        0 <= n < elf.sections.len(),
    ensures
        ({
            let r = crate::elf::rom::rom_ranges(elf);
            let s = elf.sections[n];
            &&& elf.machine != 243 ==> r == Err::<Seq<(u32, u32)>, RomElfError>(
                RomElfError::WrongMachine { machine: elf.machine },
            )
            &&& elf.machine == 243 && elf.class != 1 ==> r == Err::<Seq<(u32, u32)>, RomElfError>(
                RomElfError::NotElf32,
            )
            &&& elf.machine == 243 && elf.class == 1 && elf.data != 1 ==> r == Err::<
                Seq<(u32, u32)>,
                RomElfError,
            >(RomElfError::NotLittleEndian)
            &&& elf.machine == 243 && elf.class == 1 && elf.data == 1 && elf.e_type != 2 ==> r
                == Err::<Seq<(u32, u32)>, RomElfError>(
                RomElfError::NotExecutable { e_type: elf.e_type },
            )
            &&& is_linked_rv32(elf) && all_fit(elf.sections.take(n)) && is_code(s) ==> {
                &&& s.sh_addr > u32::MAX ==> r == Err::<Seq<(u32, u32)>, RomElfError>(
                    RomElfError::AddressTooLarge,
                )
                &&& s.sh_addr <= u32::MAX && s.sh_size > u32::MAX ==> r == Err::<
                    Seq<(u32, u32)>,
                    RomElfError,
                >(RomElfError::SizeTooLarge)
            }
            &&& is_linked_rv32(elf) && all_fit(elf.sections) && (forall|i: int|
                0 <= i < elf.sections.len() && is_code(#[trigger] elf.sections[i])
                    ==> elf.sections[i].sh_size == 0) ==> r == Err::<Seq<(u32, u32)>, RomElfError>(
                RomElfError::NoCode,
            )
        }),
{
    lemma_rom_code(elf.sections.take(n));
    lemma_rom_code(elf.sections);
    assert(elf.sections.take(n + 1).drop_last() =~= elf.sections.take(n));
    assert(elf.sections.take(n + 1).last() == elf.sections[n]);
    crate::elf::rom::lemma_rom_code_prefix(elf.sections, n + 1);
}

} // verus!
