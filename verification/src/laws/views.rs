//! What contracts see of values.

use crate::block::BlockParams;
use crate::elf::{CodeImage, ElfFile, ReplacementError, Section};
use crate::fuse_cfg::FuseItem;
use vstd::prelude::*;

verus! {

/// Law: contracts see headers as they are.
pub proof fn law_headers_are_seen(elf: ElfFile, i: int)
    requires
        0 <= i < elf.sections@.len(),
    ensures
        elf@.machine == elf.machine,
        elf@.class == elf.class,
        elf@.data == elf.data,
        elf@.e_type == elf.e_type,
        elf@.entry == elf.entry,
        elf@.sections.len() == elf.sections@.len(),
        elf@.sections[i] == elf.sections@[i]@,
{
}

/// Law: contracts see sections as they are.
pub proof fn law_sections_are_seen(s: Section)
    ensures
        s@.name is Some <==> s.name is Some,
        s.name matches Some(name) ==> s@.name == Some(name@),
        s@.sh_type == s.sh_type,
        s@.sh_flags == s.sh_flags,
        s@.sh_addr == s.sh_addr,
        s@.sh_offset == s.sh_offset,
        s@.sh_size == s.sh_size,
{
}

/// Law: contracts see images, parameters and items as they are.
pub proof fn law_parts_are_seen(image: CodeImage, params: BlockParams, item: FuseItem)
    ensures
        image@.base == image.base,
        image@.bytes == image.bytes@,
        image@.exec_ranges == image.exec_ranges@,
        params@.version == params.version,
        params@.critical == params.critical,
        params@.target == params.target,
        params@.resume_offset == params.resume_offset,
        params@.code == params.code@,
        item@.name == item.name@,
        item@.value == item.value@,
{
}

/// Law: contracts see why a file is refused as it is.
pub proof fn law_refusals_are_seen(e: ReplacementError<String>)
    ensures
        match e {
            ReplacementError::Relocations { name } => e@ == (ReplacementError::Relocations {
                name: name@,
            }),
            ReplacementError::Tls { name } => e@ == (ReplacementError::Tls { name: name@ }),
            ReplacementError::NoBits { name } => e@ == (ReplacementError::NoBits { name: name@ }),
            ReplacementError::Writable { name } => e@ == (ReplacementError::Writable {
                name: name@,
            }),
            ReplacementError::PastEndOfFile { name } => e@ == (ReplacementError::PastEndOfFile {
                name: name@,
            }),
            ReplacementError::WrongMachine { machine } => e@ == (ReplacementError::<
                Seq<char>,
            >::WrongMachine { machine }),
            ReplacementError::NotExecutable { e_type } => e@ == (ReplacementError::<
                Seq<char>,
            >::NotExecutable { e_type }),
            ReplacementError::BaseUnaligned { base } => e@ == (ReplacementError::<
                Seq<char>,
            >::BaseUnaligned { base }),
            ReplacementError::Overlap { addr } => e@ == (ReplacementError::<
                Seq<char>,
            >::Overlap { addr }),
            ReplacementError::TooLarge { len } => e@ == (ReplacementError::<
                Seq<char>,
            >::TooLarge { len }),
            ReplacementError::EntryNotAtBase { entry, base } => e@ == (ReplacementError::<
                Seq<char>,
            >::EntryNotAtBase { entry, base }),
            ReplacementError::NoSections => e@ is NoSections,
            ReplacementError::NotElf32 => e@ is NotElf32,
            ReplacementError::NotLittleEndian => e@ is NotLittleEndian,
            ReplacementError::NothingToLoad => e@ is NothingToLoad,
            ReplacementError::AddressOverflow => e@ is AddressOverflow,
            ReplacementError::TooLargeForHost => e@ is TooLargeForHost,
            ReplacementError::NoLeadingCode => e@ is NoLeadingCode,
        },
{
}

} // verus!
