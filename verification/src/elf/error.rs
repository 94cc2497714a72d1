//! Why an ELF file is refused.

use super::replacement::MAX_FLATTENED_IMAGE_BYTES;
use super::EM_RISCV;
use crate::text::{push_decimal, push_hex};
use vstd::prelude::*;

verus! {

/// Why an ELF file is no replacement. `N` is the type of section names.
#[derive(Debug, Clone, PartialEq, Eq)]
pub enum ReplacementError<N> {
    /// There are no section headers.
    NoSections,
    /// The file is not for RISC-V.
    WrongMachine { machine: u16 },
    /// The file is not of the 32-bit class.
    NotElf32,
    /// The file is not little-endian.
    NotLittleEndian,
    /// The file is not a linked executable.
    NotExecutable { e_type: u16 },
    /// A section holds live relocations.
    Relocations { name: N },
    /// An allocatable section is thread-local.
    Tls { name: N },
    /// An allocatable section has no contents.
    NoBits { name: N },
    /// An allocatable section is writable.
    Writable { name: N },
    /// A section to load ends behind the file.
    PastEndOfFile { name: N },
    /// No section is loaded.
    NothingToLoad,
    /// The lowest address is not word-aligned.
    BaseUnaligned { base: u64 },
    /// A section ends outside the address space.
    AddressOverflow,
    /// A section starts before the one below it ends.
    Overlap { addr: u64 },
    /// The image does not fit this host's memory.
    TooLargeForHost,
    /// The image is over the cap.
    TooLarge { len: usize },
    /// The image does not start with code.
    NoLeadingCode,
    /// The entry point is not the lowest address.
    EntryNotAtBase { entry: u64, base: u64 },
}

impl View for ReplacementError<String> {
    type V = ReplacementError<Seq<char>>;

    open spec fn view(&self) -> ReplacementError<Seq<char>> {
        match *self {
            ReplacementError::NoSections => ReplacementError::NoSections,
            ReplacementError::WrongMachine { machine } => ReplacementError::WrongMachine {
                machine,
            },
            ReplacementError::NotElf32 => ReplacementError::NotElf32,
            ReplacementError::NotLittleEndian => ReplacementError::NotLittleEndian,
            ReplacementError::NotExecutable { e_type } => ReplacementError::NotExecutable {
                e_type,
            },
            ReplacementError::Relocations { name } => ReplacementError::Relocations {
                name: name@,
            },
            ReplacementError::Tls { name } => ReplacementError::Tls { name: name@ },
            ReplacementError::NoBits { name } => ReplacementError::NoBits { name: name@ },
            ReplacementError::Writable { name } => ReplacementError::Writable { name: name@ },
            ReplacementError::PastEndOfFile { name } => ReplacementError::PastEndOfFile {
                name: name@,
            },
            ReplacementError::NothingToLoad => ReplacementError::NothingToLoad,
            ReplacementError::BaseUnaligned { base } => ReplacementError::BaseUnaligned { base },
            ReplacementError::AddressOverflow => ReplacementError::AddressOverflow,
            ReplacementError::Overlap { addr } => ReplacementError::Overlap { addr },
            ReplacementError::TooLargeForHost => ReplacementError::TooLargeForHost,
            ReplacementError::TooLarge { len } => ReplacementError::TooLarge { len },
            ReplacementError::NoLeadingCode => ReplacementError::NoLeadingCode,
            ReplacementError::EntryNotAtBase { entry, base } => ReplacementError::EntryNotAtBase {
                entry,
                base,
            },
        }
    }
}

impl ReplacementError<Seq<char>> {
    /// The error as text.
    pub open spec fn text(self) -> Seq<char> {
        match self {
            ReplacementError::NoSections => "No sections in replacement ELF"@,
            ReplacementError::WrongMachine { machine } => {
                "Replacement ELF machine type is "@ + crate::text::decimal(machine as nat)
                    + ", expected RISC-V ("@ + crate::text::decimal(EM_RISCV as nat) + ")"@
            },
            ReplacementError::NotElf32 => "Replacement ELF must be ELF32/RV32"@,
            ReplacementError::NotLittleEndian => "Replacement ELF must be little-endian"@,
            ReplacementError::NotExecutable { e_type } => {
                "Replacement ELF must be a fully linked executable (ET_EXEC), got e_type "@
                    + crate::text::decimal(e_type as nat)
            },
            ReplacementError::Relocations { name } => {
                "Replacement ELF contains relocations ("@ + name
                    + "); it must be fully linked and relocation-free"@
            },
            ReplacementError::Tls { name } => {
                "Replacement ELF has a TLS section ("@ + name + "); TLS is not allowed"@
            },
            ReplacementError::NoBits { name } => {
                "Replacement ELF has a NOBITS allocatable section ("@ + name
                    + "); .bss-style state is not allowed"@
            },
            ReplacementError::Writable { name } => {
                "Replacement ELF has a writable allocatable section ("@ + name
                    + "); .data / mutable globals are not allowed"@
            },
            ReplacementError::PastEndOfFile { name } => {
                "Replacement ELF section "@ + name + " extends past end of file"@
            },
            ReplacementError::NothingToLoad => {
                "Replacement ELF has no allocatable code/rodata sections"@
            },
            ReplacementError::BaseUnaligned { base } => {
                "Replacement image base ("@ + crate::text::hex(base as nat)
                    + ") is not 4-byte aligned"@
            },
            ReplacementError::AddressOverflow => "Replacement ELF section address overflows"@,
            ReplacementError::Overlap { addr } => {
                "Replacement ELF has overlapping allocatable sections near "@
                    + crate::text::hex(addr as nat)
            },
            ReplacementError::TooLargeForHost => {
                "Replacement ELF image is too large for this host"@
            },
            ReplacementError::TooLarge { len } => {
                "Replacement ELF flattened image is "@ + crate::text::decimal(len as nat)
                    + " bytes, exceeds the "@
                    + crate::text::decimal(MAX_FLATTENED_IMAGE_BYTES as nat) + "-byte safety cap"@
            },
            ReplacementError::NoLeadingCode => {
                "Replacement image must start with a non-empty executable section"@
            },
            ReplacementError::EntryNotAtBase { entry, base } => {
                "Replacement entry point ("@ + crate::text::hex(entry as nat)
                    + ") is not at the image base ("@ + crate::text::hex(base as nat)
                    + "); patch_fn must be placed first (e.g. ENTRY(patch_fn) and a linker script that emits it at the lowest address)"@
            },
        }
    }
}

impl ReplacementError<String> {
    /// The error as text.
    pub fn message(&self) -> (m: String)
        ensures
            m@ == self@.text(),
    {
        match self {
            ReplacementError::NoSections => "No sections in replacement ELF".to_string(),
            ReplacementError::WrongMachine { machine } => {
                let mut m: String = "Replacement ELF machine type is ".to_string();
                push_decimal(&mut m, *machine as u128);
                m.append(", expected RISC-V (");
                push_decimal(&mut m, EM_RISCV as u128);
                m.append(")");
                m
            },
            ReplacementError::NotElf32 => "Replacement ELF must be ELF32/RV32".to_string(),
            ReplacementError::NotLittleEndian => {
                "Replacement ELF must be little-endian".to_string()
            },
            ReplacementError::NotExecutable { e_type } => {
                let mut m: String =
                    "Replacement ELF must be a fully linked executable (ET_EXEC), got e_type ".to_string();
                push_decimal(&mut m, *e_type as u128);
                m
            },
            ReplacementError::Relocations { name } => {
                let mut m: String = "Replacement ELF contains relocations (".to_string();
                m.append(name.as_str());
                m.append("); it must be fully linked and relocation-free");
                m
            },
            ReplacementError::Tls { name } => {
                let mut m: String = "Replacement ELF has a TLS section (".to_string();
                m.append(name.as_str());
                m.append("); TLS is not allowed");
                m
            },
            ReplacementError::NoBits { name } => {
                let mut m: String =
                    "Replacement ELF has a NOBITS allocatable section (".to_string();
                m.append(name.as_str());
                m.append("); .bss-style state is not allowed");
                m
            },
            ReplacementError::Writable { name } => {
                let mut m: String =
                    "Replacement ELF has a writable allocatable section (".to_string();
                m.append(name.as_str());
                m.append("); .data / mutable globals are not allowed");
                m
            },
            ReplacementError::PastEndOfFile { name } => {
                let mut m: String = "Replacement ELF section ".to_string();
                m.append(name.as_str());
                m.append(" extends past end of file");
                m
            },
            ReplacementError::NothingToLoad => {
                "Replacement ELF has no allocatable code/rodata sections".to_string()
            },
            ReplacementError::BaseUnaligned { base } => {
                let mut m: String = "Replacement image base (".to_string();
                push_hex(&mut m, *base as u64);
                m.append(") is not 4-byte aligned");
                m
            },
            ReplacementError::AddressOverflow => {
                "Replacement ELF section address overflows".to_string()
            },
            ReplacementError::Overlap { addr } => {
                let mut m: String =
                    "Replacement ELF has overlapping allocatable sections near ".to_string();
                push_hex(&mut m, *addr as u64);
                m
            },
            ReplacementError::TooLargeForHost => {
                "Replacement ELF image is too large for this host".to_string()
            },
            ReplacementError::TooLarge { len } => {
                let mut m: String = "Replacement ELF flattened image is ".to_string();
                push_decimal(&mut m, *len as u128);
                m.append(" bytes, exceeds the ");
                push_decimal(&mut m, MAX_FLATTENED_IMAGE_BYTES as u128);
                m.append("-byte safety cap");
                m
            },
            ReplacementError::NoLeadingCode => {
                "Replacement image must start with a non-empty executable section".to_string()
            },
            ReplacementError::EntryNotAtBase { entry, base } => {
                let mut m: String = "Replacement entry point (".to_string();
                push_hex(&mut m, *entry as u64);
                m.append(") is not at the image base (");
                push_hex(&mut m, *base as u64);
                m.append("); patch_fn must be placed first (e.g. ENTRY(patch_fn) and a linker script that emits it at the lowest address)");
                m
            },
        }
    }
}

/// Why no image could be loaded from a file.
#[derive(Debug)]
pub enum LoadError {
    /// The file is no ELF file.
    Parse(goblin::error::Error),
    /// The file is no replacement.
    Rejected(ReplacementError<String>),
}

impl LoadError {
    /// The error as text.
    pub open spec fn text(self) -> Seq<char> {
        match self {
            LoadError::Parse(_) => "Failed to parse replacement ELF"@,
            LoadError::Rejected(e) => e@.text(),
        }
    }

    /// The error as text.
    pub fn message(&self) -> (m: String)
        ensures
            m@ == self.text(),
    {
        match self {
            LoadError::Parse(_) => "Failed to parse replacement ELF".to_string(),
            LoadError::Rejected(e) => e.message(),
        }
    }
}

/// Why an ELF file is no ROM.
#[derive(Debug, Clone, Copy, PartialEq, Eq, Structural)]
pub enum RomElfError {
    /// The file is not for RISC-V.
    WrongMachine { machine: u16 },
    /// The file is not of the 32-bit class.
    NotElf32,
    /// The file is not little-endian.
    NotLittleEndian,
    /// The file is not a linked executable.
    NotExecutable { e_type: u16 },
    /// An executable section starts outside the address space.
    AddressTooLarge,
    /// An executable section is larger than the address space.
    SizeTooLarge,
    /// No section holds code.
    NoCode,
}

impl RomElfError {
    /// The error as text.
    pub open spec fn text(self) -> Seq<char> {
        match self {
            RomElfError::WrongMachine { machine } => {
                "ROM ELF machine type is "@ + crate::text::decimal(machine as nat)
                    + ", expected RISC-V ("@ + crate::text::decimal(EM_RISCV as nat) + ")"@
            },
            RomElfError::NotElf32 => "ROM ELF must be ELF32/RV32"@,
            RomElfError::NotLittleEndian => "ROM ELF must be little-endian"@,
            RomElfError::NotExecutable { e_type } => {
                "ROM ELF must be a linked executable (ET_EXEC), got e_type "@
                    + crate::text::decimal(e_type as nat)
            },
            RomElfError::AddressTooLarge => "ROM ELF executable section address exceeds 32 bits"@,
            RomElfError::SizeTooLarge => "ROM ELF executable section size exceeds 32 bits"@,
            RomElfError::NoCode => "ROM ELF has no executable (SHF_EXECINSTR) sections"@,
        }
    }

    /// The error as text.
    pub fn message(&self) -> (m: String)
        ensures
            m@ == self.text(),
    {
        match self {
            RomElfError::WrongMachine { machine } => {
                let mut m: String = "ROM ELF machine type is ".to_string();
                push_decimal(&mut m, *machine as u128);
                m.append(", expected RISC-V (");
                push_decimal(&mut m, EM_RISCV as u128);
                m.append(")");
                m
            },
            RomElfError::NotElf32 => "ROM ELF must be ELF32/RV32".to_string(),
            RomElfError::NotLittleEndian => "ROM ELF must be little-endian".to_string(),
            RomElfError::NotExecutable { e_type } => {
                let mut m: String =
                    "ROM ELF must be a linked executable (ET_EXEC), got e_type ".to_string();
                push_decimal(&mut m, *e_type as u128);
                m
            },
            RomElfError::AddressTooLarge => {
                "ROM ELF executable section address exceeds 32 bits".to_string()
            },
            RomElfError::SizeTooLarge => {
                "ROM ELF executable section size exceeds 32 bits".to_string()
            },
            RomElfError::NoCode => "ROM ELF has no executable (SHF_EXECINSTR) sections".to_string(),
        }
    }
}

/// Why no ranges could be read from a ROM file.
#[derive(Debug)]
pub enum RomLoadError {
    /// The file is no ELF file.
    Parse(goblin::error::Error),
    /// The file is no ROM.
    Rejected(RomElfError),
}

impl RomLoadError {
    /// The error as text.
    pub open spec fn text(self) -> Seq<char> {
        match self {
            RomLoadError::Parse(_) => "Failed to parse ROM ELF"@,
            RomLoadError::Rejected(e) => e.text(),
        }
    }

    /// The error as text.
    pub fn message(&self) -> (m: String)
        ensures
            m@ == self.text(),
    {
        match self {
            RomLoadError::Parse(_) => "Failed to parse ROM ELF".to_string(),
            RomLoadError::Rejected(e) => e.message(),
        }
    }
}

} // verus!
