//! What errors say.

use crate::abi::UnsupportedVersion;
use crate::block::{BlockError, PackError};
use crate::csr_scan::{CsrWrite, PrivInstr, ScanError};
use crate::elf::{LoadError, ReplacementError, RomElfError, RomLoadError};
use crate::manifest::{
    EntryError, ManifestError, NumberError, NumberFault, PatchError, PlacementError, ResumeError,
    SetError,
};
use crate::patch::{BuildError, Place};
use crate::signer::SeedLengthError;
use vstd::prelude::*;

verus! {

/// Law: why a file is no replacement, in words.
pub proof fn law_replacement_errors_say(e: ReplacementError<Seq<char>>)
    ensures
        e.text() == match e {
            ReplacementError::NoSections => "No sections in replacement ELF"@,
            ReplacementError::WrongMachine { machine } => {
                "Replacement ELF machine type is "@ + crate::text::decimal(machine as nat)
                    + ", expected RISC-V ("@ + crate::text::decimal(243) + ")"@
            },
            ReplacementError::NotElf32 => "Replacement ELF must be ELF32/RV32"@,
            ReplacementError::NotLittleEndian => "Replacement ELF must be little-endian"@,
            ReplacementError::NotExecutable { e_type } => {
                "Replacement ELF must be a fully linked executable (ET_EXEC), got e_type "@
                    + crate::text::decimal(e_type as nat)
            },
            ReplacementError::Relocations { name } => {
                "Replacement ELF contains relocations ("@ + name
                    + "); it must be fully linked and relocation-free"@
            },
            ReplacementError::Tls { name } => {
                "Replacement ELF has a TLS section ("@ + name + "); TLS is not allowed"@
            },
            ReplacementError::NoBits { name } => {
                "Replacement ELF has a NOBITS allocatable section ("@ + name
                    + "); .bss-style state is not allowed"@
            },
            ReplacementError::Writable { name } => {
                "Replacement ELF has a writable allocatable section ("@ + name
                    + "); .data / mutable globals are not allowed"@
            },
            ReplacementError::PastEndOfFile { name } => {
                "Replacement ELF section "@ + name + " extends past end of file"@
            },
            ReplacementError::NothingToLoad => {
                "Replacement ELF has no allocatable code/rodata sections"@
            },
            ReplacementError::BaseUnaligned { base } => {
                "Replacement image base ("@ + crate::text::hex(base as nat)
                    + ") is not 4-byte aligned"@
            },
            ReplacementError::AddressOverflow => "Replacement ELF section address overflows"@,
            ReplacementError::Overlap { addr } => {
                "Replacement ELF has overlapping allocatable sections near "@
                    + crate::text::hex(addr as nat)
            },
            ReplacementError::TooLargeForHost => {
                "Replacement ELF image is too large for this host"@
            },
            ReplacementError::TooLarge { len } => {
                "Replacement ELF flattened image is "@ + crate::text::decimal(len as nat)
                    + " bytes, exceeds the "@
                    + crate::text::decimal(1048576) + "-byte safety cap"@
            },
            ReplacementError::NoLeadingCode => {
                "Replacement image must start with a non-empty executable section"@
            },
            ReplacementError::EntryNotAtBase { entry, base } => {
                "Replacement entry point ("@ + crate::text::hex(entry as nat)
                    + ") is not at the image base ("@ + crate::text::hex(base as nat)
                    + "); patch_fn must be placed first (e.g. ENTRY(patch_fn) and a linker script that emits it at the lowest address)"@
            },
        },
{
}

/// Law: why no image could be loaded, in words.
pub proof fn law_load_errors_say(e: LoadError)
    ensures
        e.text() == match e {
            LoadError::Parse(_) => "Failed to parse replacement ELF"@,
            LoadError::Rejected(e) => e@.text(),
        },
{
}

/// Law: why a file is no ROM, in words.
pub proof fn law_rom_errors_say(e: RomElfError)
    ensures
        e.text() == match e {
            RomElfError::WrongMachine { machine } => {
                "ROM ELF machine type is "@ + crate::text::decimal(machine as nat)
                    + ", expected RISC-V ("@ + crate::text::decimal(243) + ")"@
            },
            RomElfError::NotElf32 => "ROM ELF must be ELF32/RV32"@,
            RomElfError::NotLittleEndian => "ROM ELF must be little-endian"@,
            RomElfError::NotExecutable { e_type } => {
                "ROM ELF must be a linked executable (ET_EXEC), got e_type "@
                    + crate::text::decimal(e_type as nat)
            },
            RomElfError::AddressTooLarge => "ROM ELF executable section address exceeds 32 bits"@,
            RomElfError::SizeTooLarge => "ROM ELF executable section size exceeds 32 bits"@,
            RomElfError::NoCode => "ROM ELF has no executable (SHF_EXECINSTR) sections"@,
        },
{
}

/// Law: why no ranges could be loaded, in words.
pub proof fn law_rom_load_errors_say(e: RomLoadError)
    ensures
        e.text() == match e {
            RomLoadError::Parse(_) => "Failed to parse ROM ELF"@,
            RomLoadError::Rejected(e) => e.text(),
        },
{
}

/// Law: why code is no instruction stream, in words.
pub proof fn law_scan_errors_say(e: ScanError)
    ensures
        e.text() == match e {
            ScanError::RangeOverflow { start, len } => "executable range "@ + crate::text::hex(
                start as nat,
            ) + " length "@ + crate::text::hex(len as nat) + " overflows"@,
            ScanError::RangeOutside { start, end, image_len } => "executable range "@
                + crate::text::hex(start as nat) + ".."@ + crate::text::hex(end as nat)
                + " exceeds image length "@ + crate::text::decimal(image_len as nat),
            ScanError::Truncated { offset } => "truncated instruction at offset "@
                + crate::text::hex(offset as nat) + " (1 byte before end of section)"@,
            ScanError::TruncatedWord { offset } => "truncated 32-bit instruction at offset "@
                + crate::text::hex(offset as nat),
            ScanError::Wide { offset } => "unsupported wide (>=48-bit) instruction at offset "@
                + crate::text::hex(offset as nat),
        },
{
}

/// Law: why a version is refused, in words.
pub proof fn law_version_errors_say(e: UnsupportedVersion)
    ensures
        e.text() == "unsupported patch ABI version "@ + crate::text::decimal(e.version as nat)
            + " (supported: 1)"@,
{
}

/// Law: why parameters are unfit, in words.
pub proof fn law_block_errors_say(e: BlockError)
    ensures
        e.text() == match e {
            BlockError::TargetUnaligned { target } => "target address "@ + crate::text::hex(
                target as nat,
            ) + " is not 4-byte aligned"@,
            BlockError::ResumeZero =>
                "resume_offset must be non-zero (would be an infinite trap loop)"@,
            BlockError::ResumeOverflow => "resume address overflows u32"@,
            BlockError::EmptyCode => "code_size must be non-zero (no replacement code)"@,
            BlockError::CodeUnaligned { len } => "code length "@ + crate::text::decimal(len as nat)
                + " is not a multiple of 4 bytes"@,
            BlockError::TooManyWords { words } => "code is "@ + crate::text::decimal(words as nat)
                + " words, exceeds the 65535-word field"@,
            BlockError::ExceedsSlot { len, max } => "code is "@ + crate::text::decimal(len as nat)
                + " bytes but the slot allows at most "@ + crate::text::decimal(max as nat)
                + " bytes of code"@,
        },
{
}

/// Law: why a seed is none, in words.
pub proof fn law_seed_errors_say(e: SeedLengthError)
    ensures
        e.text() == "signing key must be a raw 32-byte Ed25519 seed, got "@ + crate::text::decimal(
            e.len as nat,
        ) + " bytes"@,
{
}

/// Law: why no block was built, in words.
pub proof fn law_build_errors_say(e: BuildError)
    ensures
        e.text() == match e {
            BuildError::Load(_) => "Failed to load replacement ELF"@,
            BuildError::Version(e) => e.text(),
            BuildError::Scan(_) => "Failed to scan replacement executable code"@,
            BuildError::CsrWrites { version, writes } => {
                "Replacement performs CSR write(s) not allowed by the ABI:"@
                    + crate::patch::write_lines(writes@) + "\n(patch ABI v"@
                    + crate::text::decimal(version as nat)
                    + " allowlists no CSR writes)"@
            },
            BuildError::Forbidden { instrs } => {
                "Replacement contains instruction(s) forbidden by the patch ABI:"@
                    + crate::patch::instr_lines(instrs@)
                    + "\nreplacement code must return to the trap handler with ret"@
            },
            BuildError::ResumeOverflow => "resume address overflows u32"@,
            BuildError::RomRange(_) => "ROM range base+size overflows"@,
            BuildError::TargetOutside { target, place } => "target "@ + crate::text::hex(
                target as nat,
            ) + " is not within "@ + place.name()@,
            BuildError::ResumeOutside { resume, place } => "resume address "@ + crate::text::hex(
                resume as nat,
            ) + " is not within "@ + place.name()@,
            BuildError::SlotTooSmall { slot } => "slot size "@ + crate::text::decimal(slot as nat)
                + " is too small for the "@ + crate::text::decimal(76)
                + "-byte header prefix"@,
            BuildError::Pack(_) => "Failed to pack and sign the patch block"@,
        },
{
}

/// Law: the error behind one, in words.
pub proof fn law_build_errors_have_causes(e: BuildError)
    ensures
        e.cause_text() == match e {
            BuildError::Load(e) => Some(e.text()),
            BuildError::Scan(e) => Some(e.text()),
            BuildError::Pack(e) => Some(e.text()),
            _ => None,
        },
{
}

/// Law: why a patch has no place to resume at, in words.
pub proof fn law_resume_errors_say(e: ResumeError)
    ensures
        e.text() == match e {
            ResumeError::Unaligned { addr } => "resume address "@ + crate::text::hex(addr as nat)
                + " is not 4-byte aligned"@,
            ResumeError::NotBehindTarget { addr, target } => "resume address "@ + crate::text::hex(
                addr as nat,
            ) + " must be greater than target "@ + crate::text::hex(target as nat),
            ResumeError::TooFar => "resume offset exceeds the 16-bit field"@,
            ResumeError::Missing => "a resume_offset or resume_addr is required"@,
            ResumeError::Ambiguous => "specify only one of resume_offset / resume_addr"@,
        },
{
}

/// Law: why a set has no place, in words.
pub proof fn law_placement_errors_say(e: PlacementError)
    ensures
        e.text() == match e {
            PlacementError::Overlap { a, b } => "patches "@ + crate::text::decimal(
                a.patch_index as nat,
            ) + " and "@ + crate::text::decimal(b.patch_index as nat)
                + " occupy overlapping OTP items (["@ + crate::text::decimal(a.first_item as nat)
                + ".."@ + crate::text::decimal((a.first_item + a.n_items) as nat) + ") and ["@
                + crate::text::decimal(b.first_item as nat) + ".."@
                + crate::text::decimal((b.first_item + b.n_items) as nat) + "))"@,
            PlacementError::Capacity { needed, available } => "patch set needs "@
                + crate::text::decimal(needed as nat) + " OTP items but the partition has only "@
                + crate::text::decimal(available as nat),
        },
{
}

/// Law: what is wrong with patch `index` of a set, in words.
pub proof fn law_patch_errors_say(e: PatchError, index: nat, replacement: Seq<char>)
    ensures
        e.text(index, replacement) == "patch "@ + crate::text::decimal(index) + match e {
            PatchError::Entry(EntryError::Target(_)) => ": bad target"@,
            PatchError::Entry(EntryError::ResumeAddr(_)) => ": bad resume_addr"@,
            _ => " ("@ + replacement + ")"@,
        },
{
    let head = "patch "@ + crate::text::decimal(index);
    assert(head + " ("@ + replacement + ")"@ =~= head + (" ("@ + replacement + ")"@));
}

/// Law: what else keeps a set from being placed, in words.
pub proof fn law_set_errors_say(e: SetError, m: ManifestError)
    ensures
        e.text() == match e {
            SetError::IndexOverflow => "OTP item index overflows"@,
            SetError::Placement(p) => p.text(),
        },
        m.text() == match m {
            ManifestError::NoPatches => "manifest has no patches",
            ManifestError::ZeroItemSize => "item_size must be non-zero",
        },
{
}

/// Law: why text is no number, in words.
pub proof fn law_number_errors_say(e: NumberError)
    ensures
        e.summary() == "invalid u32 '"@ + e.text@ + "'"@,
        e.fault.name() == match e.fault {
            NumberFault::Empty => "cannot parse integer from empty string",
            NumberFault::InvalidDigit => "invalid digit found in string",
            NumberFault::TooLarge => "number too large to fit in target type",
        },
{
}

/// Law: why no block was packed, in words.
pub proof fn law_pack_errors_say(e: PackError)
    ensures
        e.text() == match e {
            PackError::Invalid(b) => b.text(),
            PackError::Signer(s) => s.message@,
        },
{
}

/// Law: places, in words.
pub proof fn law_places_are_named(place: Place)
    ensures
        place.name() == match place {
            Place::Window => "the ROM range",
            Place::ExecutableSection => "an executable ROM section",
        },
{
}

/// Law: each CSR write has a line with its mnemonic, its CSR and its offset, and
/// each instruction one with its name and its offset, in order.
pub proof fn law_findings_have_lines(
    writes: Seq<CsrWrite>,
    w: CsrWrite,
    instrs: Seq<PrivInstr>,
    p: PrivInstr,
)
    ensures
        crate::patch::write_lines(Seq::empty()).len() == 0,
        crate::patch::instr_lines(Seq::empty()).len() == 0,
        crate::patch::write_lines(writes.push(w)) =~= crate::patch::write_lines(writes)
            + "\n  - "@ + w.mnemonic@ + " to CSR "@ + crate::text::hex3(w.csr as nat)
            + " at image offset "@ + crate::text::hex(w.offset as nat),
        crate::patch::instr_lines(instrs.push(p)) =~= crate::patch::instr_lines(instrs)
            + "\n  - "@ + p.kind.name()@ + " at image offset "@ + crate::text::hex(p.offset as nat),
{
    assert(writes.push(w).drop_last() =~= writes);
    assert(instrs.push(p).drop_last() =~= instrs);
}

} // verus!
