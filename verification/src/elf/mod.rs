//! ELF files: what the packer reads of them, the replacement loader and the
//! ROM range reader.

pub mod contents;
pub mod error;
pub mod replacement;
pub mod rom;

pub use error::{LoadError, ReplacementError, RomElfError, RomLoadError};
pub use replacement::{load_replacement, replacement_image, CodeImage};
pub use rom::{executable_ranges, rom_executable_ranges};

use goblin::elf::header::{EI_CLASS, EI_DATA};
use vstd::prelude::*;

verus! {

/// `e_machine` of RISC-V.
pub const EM_RISCV: u16 = 243;

/// `EI_CLASS` of 32-bit files.
pub const ELFCLASS32: u8 = 1;

/// `EI_DATA` of little-endian files.
pub const ELFDATA2LSB: u8 = 1;

/// `e_type` of linked executables.
pub const ET_EXEC: u16 = 2;

/// `sh_type` of sections with contents in the file.
pub const SHT_PROGBITS: u32 = 1;

/// `sh_type` of relocations with addends.
pub const SHT_RELA: u32 = 4;

/// `sh_type` of sections that occupy no space in the file.
pub const SHT_NOBITS: u32 = 8;

/// `sh_type` of relocations without addends.
pub const SHT_REL: u32 = 9;

/// What the loader reads of an ELF file's section header.
#[derive(Debug, Clone)]
pub struct Section {
    /// The name, if the string table holds one.
    pub name: Option<String>,
    pub sh_type: u32,
    pub sh_flags: u64,
    pub sh_addr: u64,
    pub sh_offset: u64,
    pub sh_size: u64,
}

/// What the loader reads of an ELF file's headers.
#[derive(Debug, Clone)]
pub struct ElfFile {
    pub machine: u16,
    /// `EI_CLASS` of the identification.
    pub class: u8,
    /// `EI_DATA` of the identification.
    pub data: u8,
    pub e_type: u16,
    pub entry: u64,
    pub sections: Vec<Section>,
}

/// [`Section`], for contracts.
pub struct SectionView {
    pub name: Option<Seq<char>>,
    pub sh_type: u32,
    pub sh_flags: u64,
    pub sh_addr: u64,
    pub sh_offset: u64,
    pub sh_size: u64,
}

/// [`ElfFile`], for contracts.
pub struct ElfView {
    pub machine: u16,
    pub class: u8,
    pub data: u8,
    pub e_type: u16,
    pub entry: u64,
    pub sections: Seq<SectionView>,
}

impl View for Section {
    type V = SectionView;

    open spec fn view(&self) -> SectionView {
        SectionView {
            name: match self.name {
                Some(name) => Some(name@),
                None => None,
            },
            sh_type: self.sh_type,
            sh_flags: self.sh_flags,
            sh_addr: self.sh_addr,
            sh_offset: self.sh_offset,
            sh_size: self.sh_size,
        }
    }
}

impl View for ElfFile {
    type V = ElfView;

    open spec fn view(&self) -> ElfView {
        ElfView {
            machine: self.machine,
            class: self.class,
            data: self.data,
            e_type: self.e_type,
            entry: self.entry,
            sections: self.sections@.map_values(|s: Section| s@),
        }
    }
}

impl SectionView {
    /// Bit `SHF_WRITE`.
    pub open spec fn is_writable(self) -> bool {
        self.sh_flags % 2 == 1
    }

    /// Bit `SHF_ALLOC`.
    pub open spec fn is_alloc(self) -> bool {
        self.sh_flags / 2 % 2 == 1
    }

    /// Bit `SHF_EXECINSTR`.
    pub open spec fn is_exec(self) -> bool {
        self.sh_flags / 4 % 2 == 1
    }

    /// Bit `SHF_TLS`.
    pub open spec fn is_tls(self) -> bool {
        self.sh_flags / 0x400 % 2 == 1
    }

    /// The name, or what stands for a missing one.
    pub open spec fn name_or(self, missing: Seq<char>) -> Seq<char> {
        match self.name {
            Some(name) => name,
            None => missing,
        }
    }
}

impl Section {
    pub(crate) fn is_writable(&self) -> (r: bool)
        ensures
            r == self@.is_writable(),
    {
        self.sh_flags % 2 == 1
    }

    pub(crate) fn is_alloc(&self) -> (r: bool)
        ensures
            r == self@.is_alloc(),
    {
        self.sh_flags / 2 % 2 == 1
    }

    pub(crate) fn is_exec(&self) -> (r: bool)
        ensures
            r == self@.is_exec(),
    {
        self.sh_flags / 4 % 2 == 1
    }

    pub(crate) fn is_tls(&self) -> (r: bool)
        ensures
            r == self@.is_tls(),
    {
        self.sh_flags / 0x400 % 2 == 1
    }

    pub(crate) fn name_or(&self, missing: &str) -> (r: String)
        ensures
            r@ == self@.name_or(missing@),
    {
        match &self.name {
            Some(name) => name.clone(),
            None => missing.to_string(),
        }
    }
}

/// An error of the ELF parser.
#[verifier::external_type_specification]
#[verifier::external_body]
pub struct ExGoblinError(goblin::error::Error);

/// What `goblin::elf::Elf::parse` reads from the bytes of a file: the header
/// fields and section headers that the loader uses, each section with the name
/// that `Strtab::get_at` finds for it in the section-header string table. `None`
/// if the parser fails.
pub uninterp spec fn parsed_elf(file: Seq<u8>) -> Option<ElfView>;

/// Calls `goblin::elf::Elf::parse` and copies out what the loader reads. The
/// contract claims only that the outcome is determined by the bytes, on a host
/// with 64-bit addresses: the parser casts 64-bit fields to `usize`.
#[verifier::external_body]
pub(crate) fn parse_elf(file: &[u8]) -> (r: Result<ElfFile, goblin::error::Error>)
    ensures
        match r {
            Ok(elf) => parsed_elf(file@) == Some(elf@),
            Err(_) => parsed_elf(file@) is None,
        },
{
    let elf = goblin::elf::Elf::parse(file)?;
    let (h, names) = (&elf.header, &elf.shdr_strtab);
    let sections = elf.section_headers.iter().map(|s| Section {
        name: names.get_at(s.sh_name).map(|n| n.to_string()),
        sh_type: s.sh_type,
        sh_flags: s.sh_flags,
        sh_addr: s.sh_addr,
        sh_offset: s.sh_offset,
        sh_size: s.sh_size,
    }).collect();
    let (class, data) = (h.e_ident[EI_CLASS], h.e_ident[EI_DATA]);
    Ok(ElfFile { machine: h.e_machine, class, data, e_type: h.e_type, entry: elf.entry, sections })
}

} // verus!
