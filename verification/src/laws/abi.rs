//! The patch ABI.

use crate::abi::AbiPolicy;
use crate::csr_scan::PrivKind;
use vstd::prelude::*;

verus! {

/// Law: version 1 is the only one. It lets no CSR be written and no privileged
/// instruction be used but `ecall`.
pub proof fn law_first_version(version: u8, csr: u16, kind: PrivKind)
    ensures
        crate::abi::is_supported(version) <==> version == 1,
        !crate::abi::v1_writable_csrs().contains(csr),
        crate::abi::v1_forbidden().contains(kind) <==> !(kind is Ecall),
{
}

/// Law: a policy allows the CSRs and forbids the instructions that it lists.
pub proof fn law_policies_list(policy: AbiPolicy, csr: u16, kind: PrivKind)
    ensures
        policy.allowed().contains(csr) <==> exists|i: int|
            0 <= i < policy.allowed_csr_writes@.len() && #[trigger] policy.allowed_csr_writes@[i]
                == csr,
        policy.forbids().contains(kind) <==> exists|i: int|
            0 <= i < policy.forbidden@.len() && #[trigger] policy.forbidden@[i] == kind,
{
}

} // verus!
