//! Where a patch resumes.

use crate::text::push_hex;
use vstd::prelude::*;

verus! {

/// Why no resume offset could be resolved.
#[derive(Debug, Clone, Copy, PartialEq, Eq, Structural)]
pub enum ResumeError {
    /// The address is not word-aligned.
    Unaligned { addr: u32 },
    /// The address does not lie behind the target.
    NotBehindTarget { addr: u32, target: u32 },
    /// The distance does not fit its field.
    TooFar,
    /// Neither an offset nor an address is given.
    Missing,
    /// Both an offset and an address are given.
    Ambiguous,
}

impl ResumeError {
    /// The error as text.
    pub open spec fn text(self) -> Seq<char> {
        match self {
            ResumeError::Unaligned { addr } => "resume address "@ + crate::text::hex(addr as nat)
                + " is not 4-byte aligned"@,
            ResumeError::NotBehindTarget { addr, target } => "resume address "@ + crate::text::hex(
                addr as nat,
            ) + " must be greater than target "@ + crate::text::hex(target as nat),
            ResumeError::TooFar => "resume offset exceeds the 16-bit field"@,
            ResumeError::Missing => "a resume_offset or resume_addr is required"@,
            ResumeError::Ambiguous => "specify only one of resume_offset / resume_addr"@,
        }
    }

    /// The error as text.
    pub fn message(&self) -> (m: String)
        ensures
            m@ == self.text(),
    {
        match *self {
            ResumeError::Unaligned { addr } => {
                let mut m: String = "resume address ".to_string();
                push_hex(&mut m, addr as u64);
                m.append(" is not 4-byte aligned");
                m
            },
            ResumeError::NotBehindTarget { addr, target } => {
                let mut m: String = "resume address ".to_string();
                push_hex(&mut m, addr as u64);
                m.append(" must be greater than target ");
                push_hex(&mut m, target as u64);
                m
            },
            ResumeError::TooFar => "resume offset exceeds the 16-bit field".to_string(),
            ResumeError::Missing => "a resume_offset or resume_addr is required".to_string(),
            ResumeError::Ambiguous => "specify only one of resume_offset / resume_addr".to_string(),
        }
    }
}

/// The resume offset in words that an offset or an address gives.
pub open spec fn resume_words(offset: Option<u16>, addr: Option<u32>, target: u32) -> Result<
    u16,
    ResumeError,
> {
    match (offset, addr) {
        (Some(words), None) => Ok(words),
        (None, Some(addr)) => if addr % 4 != 0 {
            Err(ResumeError::Unaligned { addr })
        } else if addr <= target {
            Err(ResumeError::NotBehindTarget { addr, target })
        } else if (addr - target) / 4 > u16::MAX {
            Err(ResumeError::TooFar)
        } else {
            Ok(((addr - target) / 4) as u16)
        },
        (None, None) => Err(ResumeError::Missing),
        (Some(_), Some(_)) => Err(ResumeError::Ambiguous),
    }
}

/// Resolves a resume offset (words) from either an explicit offset or an address.
pub fn resolve_resume(offset: Option<u16>, addr: Option<u32>, target: u32) -> (r: Result<
    u16,
    ResumeError,
>)
    ensures
        r == resume_words(offset, addr, target),
{
    match (offset, addr) {
        (Some(words), None) => Ok(words),
        (None, Some(addr)) => {
            if addr % 4 != 0 {
                return Err(ResumeError::Unaligned { addr });
            }
            if addr <= target {
                return Err(ResumeError::NotBehindTarget { addr, target });
            }
            let words: u32 = (addr - target) / 4;
            if words > u16::MAX as u32 {
                return Err(ResumeError::TooFar);
            }
            Ok(words as u16)
        },
        (None, None) => Err(ResumeError::Missing),
        (Some(_), Some(_)) => Err(ResumeError::Ambiguous),
    }
}

/// Law: an address is resumed at. For an aligned target, the offset that an
/// address resolves to is not zero and leads from the target to that address.
pub proof fn law_resumes_at_address(addr: u32, target: u32)
    requires
        target % 4 == 0,
        resume_words(None, Some(addr), target) is Ok,
    ensures
        resume_words(None, Some(addr), target)->Ok_0 != 0,
        target + 4 * resume_words(None, Some(addr), target)->Ok_0 == addr,
{
}

/// Law: every offset is an address. What lies a number of words behind an
/// aligned target resolves to that number.
pub proof fn law_offset_and_address_agree(words: u16, target: u32)
    requires
        target % 4 == 0,
        words != 0,
        target + 4 * words <= u32::MAX,
    ensures
        resume_words(None, Some((target + 4 * words) as u32), target) == resume_words(
            Some(words),
            None,
            target,
        ),
{
}

} // verus!
