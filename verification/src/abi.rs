//! Patch ABI policy, keyed by format version.
//!
//! The header's version field selects an [`AbiPolicy`] that decides what the
//! facts from [`crate::csr_scan`] mean: which CSR writes are allowed and which
//! privileged `SYSTEM` instructions are forbidden. Unknown versions are
//! rejected up front.

use crate::csr_scan::PrivKind;
use crate::text::push_decimal;
use vstd::prelude::*;

verus! {

/// The allowed and forbidden things of one patch ABI version.
pub struct AbiPolicy {
    /// The ABI version this policy describes.
    pub version: u8,
    /// CSR numbers whose semantic writes are permitted. Empty: none.
    pub allowed_csr_writes: Vec<u16>,
    /// Privileged `SYSTEM` instructions forbidden in replacement code.
    pub forbidden: Vec<PrivKind>,
}

/// A version that no policy describes.
#[derive(Debug, Clone, Copy, PartialEq, Eq, Structural)]
pub struct UnsupportedVersion {
    pub version: u8,
}

impl UnsupportedVersion {
    /// The error as text.
    pub open spec fn text(self) -> Seq<char> {
        "unsupported patch ABI version "@ + crate::text::decimal(self.version as nat)
            + " (supported: 1)"@
    }

    /// The error as text.
    pub fn message(&self) -> (m: String)
        ensures
            m@ == self.text(),
    {
        let mut m: String = "unsupported patch ABI version ".to_string();
        push_decimal(&mut m, self.version as u128);
        m.append(" (supported: 1)");
        m
    }
}

/// The CSRs that replacement code of version 1 may write: none.
pub open spec fn v1_writable_csrs() -> Set<u16> {
    Set::empty()
}

/// The instructions that replacement code of version 1 must not hold.
///
/// These are the trap-altering returns, `wfi` (deadlock risk with
/// interrupts off) and `ebreak` (debug artifact). `ecall` is decoded but not
/// forbidden: it traps cleanly into the handler.
pub open spec fn v1_forbidden() -> Set<PrivKind> {
    set![PrivKind::Ebreak, PrivKind::Wfi, PrivKind::Mret, PrivKind::Sret, PrivKind::Dret]
}

/// Whether a version has a policy.
pub open spec fn is_supported(version: u8) -> bool {
    version == 1
}

impl AbiPolicy {
    /// The CSRs that may be written.
    pub open spec fn allowed(&self) -> Set<u16> {
        self.allowed_csr_writes@.to_set()
    }

    /// The forbidden instructions.
    pub open spec fn forbids(&self) -> Set<PrivKind> {
        self.forbidden@.to_set()
    }

    /// The policy of a supported `version`, or an error for any other.
    pub fn for_version(version: u8) -> (r: Result<Self, UnsupportedVersion>)
        ensures
            is_supported(version) ==> r is Ok,
            !is_supported(version) ==> r == Err::<Self, UnsupportedVersion>(
                UnsupportedVersion { version },
            ),
            r matches Ok(policy) ==> policy.version == version && policy.allowed()
                == v1_writable_csrs() && policy.forbids() == v1_forbidden(),
    {
        if version != 1 {
            return Err(UnsupportedVersion { version });
        }
        let allowed_csr_writes: Vec<u16> = Vec::new();
        let forbidden: Vec<PrivKind> = vec![
            PrivKind::Ebreak,
            PrivKind::Wfi,
            PrivKind::Mret,
            PrivKind::Sret,
            PrivKind::Dret,
        ];
        let policy = AbiPolicy { version, allowed_csr_writes, forbidden };
        proof {
            let f = policy.forbidden@;
            assert(policy.allowed() =~= v1_writable_csrs());
            assert(f[0] == PrivKind::Ebreak && f[1] == PrivKind::Wfi && f[2] == PrivKind::Mret
                && f[3] == PrivKind::Sret && f[4] == PrivKind::Dret);
            assert(policy.forbids() =~= v1_forbidden());
        }
        Ok(policy)
    }

    /// Whether a semantic write to `csr` is permitted.
    pub fn csr_write_allowed(&self, csr: u16) -> (r: bool)
        ensures
            r == self.allowed().contains(csr),
    {
        let mut i: usize = 0;
        while i < self.allowed_csr_writes.len()
            invariant
                forall|k: int| 0 <= k < i ==> self.allowed_csr_writes@[k] != csr,
                i <= self.allowed_csr_writes.len(),
            decreases self.allowed_csr_writes.len() - i,
        {
            if self.allowed_csr_writes[i] == csr {
                assert(self.allowed_csr_writes@.contains(csr));
                return true;
            }
            i = i + 1;
        }
        false
    }

    /// Whether `kind` is forbidden in replacement code.
    pub fn is_forbidden(&self, kind: PrivKind) -> (r: bool)
        ensures
            r == self.forbids().contains(kind),
    {
        let mut i: usize = 0;
        while i < self.forbidden.len()
            invariant
                forall|k: int| 0 <= k < i ==> self.forbidden@[k] != kind,
                i <= self.forbidden.len(),
            decreases self.forbidden.len() - i,
        {
            if self.forbidden[i] == kind {
                assert(self.forbidden@.contains(kind));
                return true;
            }
            i = i + 1;
        }
        false
    }
}

} // verus!
