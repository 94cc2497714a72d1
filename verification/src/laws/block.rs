//! The patch block.

use crate::block::{BlockError, BlockFields};
use crate::signer::SeedSigner;
use vstd::prelude::*;

verus! {

/// The little-endian word at `i`.
pub open spec fn word(bytes: Seq<u8>, i: int) -> int {
    bytes[i] + 0x100 * bytes[i + 1] + 0x1_0000 * bytes[i + 2] + 0x100_0000 * bytes[i + 3]
}

/// The little-endian half-word at `i`.
pub open spec fn half_word(bytes: Seq<u8>, i: int) -> int {
    bytes[i] + 0x100 * bytes[i + 1]
}

/// Law: the header word, from its top: `0xA5`, the version, fifteen zero bits,
/// the flag.
pub proof fn law_header_word(version: u8, critical: bool)
    ensures
        crate::block::header(version, critical) == 0xA500_0000 + 0x1_0000 * version + (if critical {
            1int
        } else {
            0
        }),
{
}

/// Law: a block, byte by byte. The signature comes first; what it covers starts
/// at `0x40` with the header; the target is at `0x44`, the resume offset at
/// `0x48`, the number of code words at `0x4A`, cut to 16 bits, and the code from
/// `0x4C` on.
pub proof fn law_block_bytes(signature: Seq<u8>, p: BlockFields)
    requires
        signature.len() == 64,
    ensures
        ({
            let block = crate::block::signed_block(signature, p);
            &&& block.len() == 76 + p.code.len()
            &&& block.take(64) == signature
            &&& block.skip(64) == crate::block::payload(p)
            &&& block[0x43] == 0xA5
            &&& block[0x42] == p.version
            &&& block[0x41] == 0
            &&& block[0x40] == (if p.critical {
                1int
            } else {
                0
            })
            &&& word(block, 0x44) == p.target
            &&& half_word(block, 0x48) == p.resume_offset
            &&& half_word(block, 0x4A) == p.code.len() / 4 % 65536
            &&& block.skip(0x4C) == p.code
        }),
{
    let block = crate::block::signed_block(signature, p);
    let payload = crate::block::payload(p);
    let h = crate::block::header(p.version, p.critical);
    crate::csr_scan::lemma_word_bytes(h);
    crate::csr_scan::lemma_word_bytes(p.target);
    assert(block.take(64) =~= signature);
    assert(block.skip(64) =~= payload);
    assert(block.skip(0x4C) =~= p.code);
    assert forall|i: int| 0 <= i < payload.len() implies #[trigger] payload[i] == block[0x40 + i] by {}
    assert(payload[0] == block[0x40] && payload[1] == block[0x41] && payload[2] == block[0x42]
        && payload[3] == block[0x43]);
    assert(payload[4] == block[0x44] && payload[5] == block[0x45] && payload[6] == block[0x46]
        && payload[7] == block[0x47]);
    assert(payload[8] == block[0x48] && payload[9] == block[0x49] && payload[10] == block[0x4A]
        && payload[11] == block[0x4B]);
    let a = crate::block::le4(h);
    let b = crate::block::le4(p.target);
    let c = crate::block::le2(p.resume_offset);
    let d = crate::block::le2(crate::block::words_field(p.code));
    assert(payload[0] == a[0] && payload[1] == a[1] && payload[2] == a[2] && payload[3] == a[3]);
    assert(payload[4] == b[0] && payload[5] == b[1] && payload[6] == b[2] && payload[7] == b[3]);
    assert(payload[8] == c[0] && payload[9] == c[1] && payload[10] == d[0] && payload[11] == d[1]);
}

/// Law: which parameters are fit. The target is word-aligned; the patch resumes
/// behind it and inside the address space; and there is code, in whole words that
/// can be counted with 16 bits, and within `max_code_bytes` if that is given.
pub proof fn law_fit_parameters(p: BlockFields, max_code_bytes: Option<usize>)
    ensures
        crate::block::fault(p, max_code_bytes) is None <==> {
            &&& p.target % 4 == 0
            &&& p.resume_offset > 0
            &&& p.target + 4 * p.resume_offset <= 0xFFFF_FFFF
            &&& p.code.len() > 0
            &&& p.code.len() % 4 == 0
            &&& p.code.len() <= 4 * 65535
            &&& max_code_bytes matches Some(max) ==> p.code.len() <= max
        },
{
}

/// Law: what unfit parameters are refused for: the first of these that holds.
pub proof fn law_unfit_parameters(p: BlockFields, max_code_bytes: Option<usize>)
    ensures
        match crate::block::fault(p, max_code_bytes) {
            Some(BlockError::TargetUnaligned { target }) => p.target % 4 != 0 && target == p.target,
            Some(BlockError::ResumeZero) => p.target % 4 == 0 && p.resume_offset == 0,
            Some(BlockError::ResumeOverflow) => p.target % 4 == 0 && p.resume_offset != 0
                && p.target + 4 * p.resume_offset > 0xFFFF_FFFF,
            Some(e) => p.target % 4 == 0 && p.resume_offset != 0 && p.target + 4 * p.resume_offset
                <= 0xFFFF_FFFF && (p.code.len() <= usize::MAX ==> match e {
                BlockError::EmptyCode => p.code.len() == 0,
                BlockError::CodeUnaligned { len } => len == p.code.len() && len % 4 != 0,
                BlockError::TooManyWords { words } => p.code.len() == 4 * words && words > 65535,
                BlockError::ExceedsSlot { len, max } => p.code.len() == len && len % 4 == 0 && 0
                    < len <= 4 * 65535 && max_code_bytes == Some(max) && len > max,
                _ => false,
            }),
            None => true,
        },
{
}

/// Law: signing with a seed never fails, and what it gives verifies: the first
/// 64 bytes of a block are a signature of all the others, under the public key
/// of the seed.
pub proof fn law_seed_signs_blocks(
    signer: SeedSigner,
    p: BlockFields,
    signature: Seq<u8>,
    message: Seq<char>,
)
    requires
        signature.len() == 64,
        crate::signer::PatchSigner::may_sign(&signer, crate::block::payload(p), signature),
    ensures
        ({
            let block = crate::block::signed_block(signature, p);
            &&& block.take(64) == crate::signer::ed25519_signature(signer.seed(), block.skip(64))
            &&& crate::signer::ed25519_verifies(
                crate::signer::ed25519_public_key(signer.seed()),
                block.skip(64),
                block.take(64),
            )
            &&& !crate::signer::PatchSigner::may_refuse(&signer, block.skip(64), message)
            &&& !crate::signer::PatchSigner::may_withhold(&signer, message)
            &&& forall|key: Seq<u8>| #[trigger]
                crate::signer::PatchSigner::may_publish(&signer, key) ==> key
                    == crate::signer::ed25519_public_key(signer.seed())
        }),
{
    law_block_bytes(signature, p);
}

} // verus!
