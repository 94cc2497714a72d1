//! The executable ranges of a ROM ELF.

use super::error::{RomElfError, RomLoadError};
use super::{
    parse_elf, ElfFile, ElfView, Section, SectionView, ELFCLASS32, ELFDATA2LSB, EM_RISCV, ET_EXEC,
    SHT_PROGBITS,
};
use vstd::prelude::*;

verus! {

/// The executable `(addr, len)` ranges among `sections`, in their order, or the
/// first that does not fit 32 bits. Empty ranges are left out.
pub open spec fn rom_code(sections: Seq<SectionView>) -> Result<Seq<(u32, u32)>, RomElfError>
    decreases sections.len(),
{
    if sections.len() == 0 {
        Ok(Seq::empty())
    } else {
        match rom_code(sections.drop_last()) {
            Err(e) => Err(e),
            Ok(before) => {
                let s = sections.last();
                if s.sh_type != SHT_PROGBITS || !s.is_alloc() || !s.is_exec() {
                    Ok(before)
                } else if s.sh_addr > u32::MAX {
                    Err(RomElfError::AddressTooLarge)
                } else if s.sh_size > u32::MAX {
                    Err(RomElfError::SizeTooLarge)
                } else if s.sh_size == 0 {
                    Ok(before)
                } else {
                    Ok(before.push((s.sh_addr as u32, s.sh_size as u32)))
                }
            },
        }
    }
}

/// The executable ranges of a ROM ELF, or why it has none.
pub open spec fn rom_ranges(elf: ElfView) -> Result<Seq<(u32, u32)>, RomElfError> {
    if elf.machine != EM_RISCV {
        Err(RomElfError::WrongMachine { machine: elf.machine })
    } else if elf.class != ELFCLASS32 {
        Err(RomElfError::NotElf32)
    } else if elf.data != ELFDATA2LSB {
        Err(RomElfError::NotLittleEndian)
    } else if elf.e_type != ET_EXEC {
        Err(RomElfError::NotExecutable { e_type: elf.e_type })
    } else {
        match rom_code(elf.sections) {
            Err(e) => Err(e),
            Ok(ranges) => if ranges.len() == 0 {
                Err(RomElfError::NoCode)
            } else {
                Ok(ranges)
            },
        }
    }
}

pub(crate) proof fn lemma_rom_code_prefix(sections: Seq<SectionView>, n: int)
    requires
        0 <= n <= sections.len(),
    ensures
        rom_code(sections.take(n)) is Err ==> rom_code(sections) == rom_code(sections.take(n)),
    decreases sections.len(),
{
    if n == sections.len() {
        assert(sections.take(n) =~= sections);
    } else {
        lemma_rom_code_prefix(sections.drop_last(), n);
        assert(sections.drop_last().take(n) =~= sections.take(n));
    }
}

/// The executable `(addr, len)` ranges of a ROM ELF, given what its headers
/// say.
pub fn executable_ranges(elf: &ElfFile) -> (r: Result<Vec<(u32, u32)>, RomElfError>)
    ensures
        match rom_ranges(elf@) {
            Err(e) => r == Err::<Vec<(u32, u32)>, RomElfError>(e),
            Ok(ranges) => r is Ok && r->Ok_0@ == ranges,
        },
{
    if elf.machine != EM_RISCV {
        return Err(RomElfError::WrongMachine { machine: elf.machine });
    }
    if elf.class != ELFCLASS32 {
        return Err(RomElfError::NotElf32);
    }
    if elf.data != ELFDATA2LSB {
        return Err(RomElfError::NotLittleEndian);
    }
    if elf.e_type != ET_EXEC {
        return Err(RomElfError::NotExecutable { e_type: elf.e_type });
    }
    let ghost all = elf@.sections;
    let mut ranges: Vec<(u32, u32)> = Vec::new();
    let mut i: usize = 0;
    while i < elf.sections.len()
        invariant
            i <= elf.sections.len(),
            all == elf.sections@.map_values(|s: Section| s@),
            all == elf@.sections,
            rom_ranges(elf@) == match rom_code(all) {
                Err(e) => Err(e),
                Ok(ranges) => if ranges.len() == 0 {
                    Err(RomElfError::NoCode)
                } else {
                    Ok(ranges)
                },
            },
            rom_code(all.take(i as int)) == Ok::<Seq<(u32, u32)>, RomElfError>(ranges@),
        decreases elf.sections.len() - i,
    {
        let s: &Section = &elf.sections[i];
        proof {
            assert(all.take(i + 1).drop_last() =~= all.take(i as int));
            assert(all.take(i + 1).last() == s@);
            lemma_rom_code_prefix(all, i + 1);
        }
        if s.sh_type == SHT_PROGBITS && s.is_alloc() && s.is_exec() {
            if s.sh_addr > u32::MAX as u64 {
                return Err(RomElfError::AddressTooLarge);
            }
            if s.sh_size > u32::MAX as u64 {
                return Err(RomElfError::SizeTooLarge);
            }
            if s.sh_size > 0 {
                ranges.push((s.sh_addr as u32, s.sh_size as u32));
            }
        }
        i = i + 1;
    }
    proof {
        assert(all.take(i as int) =~= all);
    }
    if ranges.len() == 0 {
        return Err(RomElfError::NoCode);
    }
    Ok(ranges)
}

/// Extracts the executable `(addr, len)` ranges from a ROM ELF.
///
/// Used to check that a patch target and its resume address fall inside real
/// ROM code, not data or an unmapped hole.
pub fn rom_executable_ranges(file: &[u8]) -> (r: Result<Vec<(u32, u32)>, RomLoadError>)
    ensures
        match super::parsed_elf(file@) {
            None => r matches Err(RomLoadError::Parse(_)),
            Some(elf) => match rom_ranges(elf) {
                Err(e) => r matches Err(RomLoadError::Rejected(found)) && found == e,
                Ok(ranges) => r is Ok && r->Ok_0@ == ranges,
            },
        },
{
    let elf: ElfFile = match parse_elf(file) {
        Ok(elf) => elf,
        Err(e) => return Err(RomLoadError::Parse(e)),
    };
    match executable_ranges(&elf) {
        Ok(ranges) => Ok(ranges),
        Err(e) => Err(RomLoadError::Rejected(e)),
    }
}

/// Whether a section holds ROM code.
pub open spec fn is_rom_code(s: SectionView) -> bool {
    s.sh_type == SHT_PROGBITS && s.is_alloc() && s.is_exec() && s.sh_size > 0
}

/// Whether a range is that of a section with ROM code.
pub open spec fn is_range_of(range: (u32, u32), s: SectionView) -> bool {
    is_rom_code(s) && range.0 == s.sh_addr && range.1 == s.sh_size
}

proof fn lemma_rom_code(sections: Seq<SectionView>, range: (u32, u32))
    requires
        rom_code(sections) is Ok,
    ensures
        rom_code(sections)->Ok_0.contains(range) <==> exists|i: int|
            0 <= i < sections.len() && is_range_of(range, #[trigger] sections[i]),
    decreases sections.len(),
{
    if sections.len() > 0 {
        let front = sections.drop_last();
        let last = sections.last();
        let before = rom_code(front)->Ok_0;
        let ranges = rom_code(sections)->Ok_0;
        lemma_rom_code(front, range);
        if before.contains(range) {
            let k = choose|k: int| 0 <= k < before.len() && before[k] == range;
            assert(ranges[k] == range);
            let i = choose|i: int|
                0 <= i < front.len() && is_range_of(range, #[trigger] front[i]);
            assert(sections[i] == front[i]);
        }
        if is_range_of(range, last) {
            assert(ranges[ranges.len() - 1] == range);
            assert(sections[sections.len() - 1] == last);
        }
        if exists|i: int| 0 <= i < sections.len() && is_range_of(range, #[trigger] sections[i]) {
            let i = choose|i: int|
                0 <= i < sections.len() && is_range_of(range, #[trigger] sections[i]);
            if i < front.len() {
                assert(front[i] == sections[i]);
            }
        }
        if ranges.contains(range) && !before.contains(range) {
            let k = choose|k: int| 0 <= k < ranges.len() && ranges[k] == range;
            if k < before.len() {
                assert(before[k] == range);
            }
        }
    }
}

/// Law: the ranges of a ROM are exactly its non-empty executable sections.
pub proof fn law_rom_ranges_are_code(elf: ElfView, range: (u32, u32))
    requires
        rom_ranges(elf) is Ok,
    ensures
        rom_ranges(elf)->Ok_0.contains(range) <==> exists|i: int|
            0 <= i < elf.sections.len() && is_range_of(range, #[trigger] elf.sections[i]),
{
    lemma_rom_code(elf.sections, range);
}

} // verus!
