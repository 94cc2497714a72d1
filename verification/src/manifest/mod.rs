//! Patch-set manifest and set-level validation.
//!
//! A manifest describes a *set* of patches to place in OTP. Each patch is packed
//! on its own ([`crate::build_patch_block`]); this module resolves what the
//! manifest says of each, assigns the item slots, validates the set (no item
//! overlap, fits capacity) and reports same-target supersession (the higher slot
//! wins at ROM boot).

pub mod number;
pub mod placement;
pub mod resume;
pub mod set;

pub use number::{parse_u32, NumberError, NumberFault};
pub use placement::{
    assign_slots, validate_placements, Placement, PlacementError, Supersession, Unplaced,
};
pub use resume::{resolve_resume, ResumeError};
pub use set::{pack_entry, pack_next, place_set, PackedPatch, PatchError, SetError, SetPlan};

use crate::patch::{PatchRequest, RomBounds};
use crate::text::push_decimal;
use vstd::prelude::*;

verus! {

/// A patch-set manifest.
#[derive(Debug, Clone)]
pub struct Manifest {
    /// Path to the raw 32-byte Ed25519 seed (relative to the manifest file).
    pub signing_key: String,
    /// Optional ROM ELF; if set, every patch's target and resume address is
    /// checked to fall in an executable ROM section.
    pub rom_elf: Option<String>,
    /// OTP partition name.
    pub partition: String,
    /// OTP item name prefix.
    pub item_prefix: String,
    /// OTP item size in bytes.
    pub item_size: usize,
    /// Optional number of items in the partition (capacity check).
    pub num_items: Option<usize>,
    /// Request the partition be locked (SW digest).
    pub lock: bool,
    /// The patches.
    pub patches: Vec<PatchEntry>,
}

/// One patch in the set.
#[derive(Debug, Clone)]
pub struct PatchEntry {
    /// Path to the pre-built replacement ELF (relative to the manifest file).
    pub replacement: String,
    /// Target ROM address, `0x`-hex or decimal string.
    pub target: String,
    /// Resume offset in words (mutually exclusive with `resume_addr`).
    pub resume_offset: Option<u16>,
    /// Resume address, `0x`-hex or decimal string (mutually exclusive).
    pub resume_addr: Option<String>,
    /// Patch ABI version.
    pub version: u8,
    /// `CRITICAL` flag.
    pub critical: bool,
    /// First OTP item index this block occupies. If omitted, slots are assigned
    /// sequentially after the previous patch.
    pub slot: Option<usize>,
}

/// The partition of a manifest that names none.
pub fn default_partition() -> (s: String)
    ensures
        s@ == "VENDOR_NON_SECRET_PROD_PARTITION"@,
{
    "VENDOR_NON_SECRET_PROD_PARTITION".to_string()
}

/// The item prefix of a manifest that names none.
pub fn default_item_prefix() -> (s: String)
    ensures
        s@ == "CPTRA_SS_VENDOR_SPECIFIC_NON_SECRET_FUSE_"@,
{
    "CPTRA_SS_VENDOR_SPECIFIC_NON_SECRET_FUSE_".to_string()
}

/// The item size of a manifest that gives none.
pub fn default_item_size() -> (n: usize)
    ensures
        n == 32,
{
    32
}

/// The ABI version of a patch that gives none.
pub fn default_version() -> (v: u8)
    ensures
        v == 1,
{
    1
}

/// What makes a manifest useless.
#[derive(Debug, Clone, Copy, PartialEq, Eq, Structural)]
pub enum ManifestError {
    /// There is nothing to place.
    NoPatches,
    /// Items have no bytes.
    ZeroItemSize,
}

impl ManifestError {
    /// The error as text.
    pub open spec fn text(self) -> &'static str {
        match self {
            ManifestError::NoPatches => "manifest has no patches",
            ManifestError::ZeroItemSize => "item_size must be non-zero",
        }
    }

    /// The error as text.
    pub fn message(&self) -> (m: &'static str)
        ensures
            m == self.text(),
    {
        match self {
            ManifestError::NoPatches => "manifest has no patches",
            ManifestError::ZeroItemSize => "item_size must be non-zero",
        }
    }
}

impl Manifest {
    /// Checks what the grammar of the file does not.
    pub fn check(&self) -> (r: Result<(), ManifestError>)
        ensures
            r == if self.patches@.len() == 0 {
                Err::<(), ManifestError>(ManifestError::NoPatches)
            } else if self.item_size == 0 {
                Err(ManifestError::ZeroItemSize)
            } else {
                Ok(())
            },
    {
        if self.patches.len() == 0 {
            return Err(ManifestError::NoPatches);
        }
        if self.item_size == 0 {
            return Err(ManifestError::ZeroItemSize);
        }
        Ok(())
    }
}

/// What is wrong with a patch of the set.
#[derive(Debug, Clone)]
pub enum EntryError {
    /// The target is no address.
    Target(NumberError),
    /// The resume address is none.
    ResumeAddr(NumberError),
    /// The patch has no place to resume at.
    Resume(ResumeError),
}

impl EntryError {
    /// Which part of patch `index` is wrong.
    pub open spec fn text(self, index: nat, replacement: Seq<char>) -> Seq<char> {
        match self {
            EntryError::Target(_) => "patch "@ + crate::text::decimal(index) + ": bad target"@,
            EntryError::ResumeAddr(_) => "patch "@ + crate::text::decimal(index)
                + ": bad resume_addr"@,
            EntryError::Resume(_) => "patch "@ + crate::text::decimal(index) + " ("@ + replacement
                + ")"@,
        }
    }

    /// Which part of patch `index` is wrong.
    pub fn message(&self, index: usize, replacement: &str) -> (m: String)
        ensures
            m@ == self.text(index as nat, replacement@),
    {
        let mut m: String = "patch ".to_string();
        push_decimal(&mut m, index as u128);
        match self {
            EntryError::Target(_) => m.append(": bad target"),
            EntryError::ResumeAddr(_) => m.append(": bad resume_addr"),
            EntryError::Resume(_) => {
                m.append(" (");
                m.append(replacement);
                m.append(")");
            },
        }
        m
    }
}

impl PatchEntry {
    /// The resume address as it is written, if it is.
    pub open spec fn resume_text(&self) -> Option<Seq<char>> {
        match self.resume_addr {
            Some(text) => Some(text@),
            None => None,
        }
    }

    /// The target and the resume offset in words, where the addresses resolve.
    pub open spec fn resolved(&self) -> Option<(u32, u16)> {
        match number::parsed_u32(self.target@) {
            Err(_) => None,
            Ok(target) => {
                let addr = match self.resume_text() {
                    None => Ok::<Option<u32>, NumberFault>(None),
                    Some(text) => match number::parsed_u32(text) {
                        Err(f) => Err(f),
                        Ok(addr) => Ok(Some(addr as u32)),
                    },
                };
                match addr {
                    Err(_) => None,
                    Ok(addr) => match resume::resume_words(
                        self.resume_offset,
                        addr,
                        target as u32,
                    ) {
                        Err(_) => None,
                        Ok(words) => Some((target as u32, words)),
                    },
                }
            },
        }
    }

    /// Whether `r` is what the entry's addresses resolve to: the target, and the
    /// resume offset in words from it.
    pub open spec fn resolves_to(&self, r: Result<(u32, u16), EntryError>) -> bool {
        match number::parsed_u32(self.target@) {
            Err(f) => r matches Err(EntryError::Target(e)) && e.fault == f && e.text@
                == number::trimmed(self.target@),
            Ok(target) => match self.resume_text() {
                None => r == with_target(
                    target as u32,
                    resume::resume_words(self.resume_offset, None, target as u32),
                ),
                Some(text) => match number::parsed_u32(text) {
                    Err(f) => r matches Err(EntryError::ResumeAddr(e)) && e.fault == f && e.text@
                        == number::trimmed(text),
                    Ok(addr) => r == with_target(
                        target as u32,
                        resume::resume_words(self.resume_offset, Some(addr as u32), target as u32),
                    ),
                },
            },
        }
    }

    /// Resolves the target and the resume offset in words.
    pub fn resolve(&self) -> (r: Result<(u32, u16), EntryError>)
        ensures
            self.resolves_to(r),
            r is Ok <==> self.resolved() is Some,
            r matches Ok(addresses) ==> self.resolved() == Some(addresses),
    {
        let target: u32 = match parse_u32(self.target.as_str()) {
            Ok(target) => target,
            Err(e) => return Err(EntryError::Target(e)),
        };
        let addr: Option<u32> = match &self.resume_addr {
            Some(text) => match parse_u32(text.as_str()) {
                Ok(addr) => Some(addr),
                Err(e) => return Err(EntryError::ResumeAddr(e)),
            },
            None => None,
        };
        match resolve_resume(self.resume_offset, addr, target) {
            Ok(words) => Ok((target, words)),
            Err(e) => Err(EntryError::Resume(e)),
        }
    }
}

impl PatchEntry {
    /// The request for the block of this patch.
    pub open spec fn requested(
        &self,
        target: u32,
        resume_offset: u16,
        replacement_elf: Vec<u8>,
        rom_bounds: RomBounds,
    ) -> PatchRequest {
        PatchRequest {
            replacement_elf,
            target,
            resume_offset,
            version: self.version,
            critical: self.critical,
            slot_size: None,
            rom_bounds,
        }
    }

    /// The request for the block of this patch, given what its addresses resolve
    /// to and the bytes of its replacement. No slot size bounds the blocks of a
    /// set: each takes as many items as it needs.
    pub fn request(
        &self,
        target: u32,
        resume_offset: u16,
        replacement_elf: Vec<u8>,
        rom_bounds: RomBounds,
    ) -> (req: PatchRequest)
        ensures
            req == self.requested(target, resume_offset, replacement_elf, rom_bounds),
    {
        PatchRequest {
            replacement_elf,
            target,
            resume_offset,
            version: self.version,
            critical: self.critical,
            slot_size: None,
            rom_bounds,
        }
    }
}

/// A target with what resolving its resume offset gave.
pub open spec fn with_target(target: u32, words: Result<u16, ResumeError>) -> Result<
    (u32, u16),
    EntryError,
> {
    match words {
        Ok(words) => Ok((target, words)),
        Err(e) => Err(EntryError::Resume(e)),
    }
}

} // verus!
