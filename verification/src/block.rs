//! Patch block packing and Ed25519 signing.
//!
//! Little-endian, naturally aligned:
//!
//! | Offset | Size  | Field                                            |
//! |--------|-------|--------------------------------------------------|
//! | 0x00   | 64 B  | Ed25519 signature (over bytes 0x40 .. end)       |
//! | 0x40   | 4 B   | Header word: magic / version / flags             |
//! | 0x44   | 4 B   | Target ROM address (absolute)                    |
//! | 0x48   | 2 B   | Resume offset (4-byte words from target)         |
//! | 0x4A   | 2 B   | Code size (4-byte words, 0-65535)                |
//! | 0x4C   | N×4 B | Replacement instructions (RV32IMC, PIC)          |
//!
//! Header word bit layout: `31:24` magic (`0xA5`), `23:16` format version,
//! `15:1` reserved (zero), `0` `CRITICAL`.

use crate::signer::{ed25519_verify, PatchSigner, SeedSigner, SignerError};
use crate::text::{push_decimal, push_hex};
use vstd::prelude::*;

verus! {

/// Header magic byte (bits 31:24).
pub const MAGIC: u8 = 0xA5;

/// Ed25519 signature size, prefixed at offset 0x00.
pub const SIGNATURE_SIZE: usize = 64;

/// Offset of the signed payload (header word) within the block.
pub const PAYLOAD_OFFSET: usize = 0x40;

/// Offset of the replacement code within the block.
pub const CODE_OFFSET: usize = 0x4C;

/// Parameters for one patch block.
#[derive(Debug, Clone)]
pub struct BlockParams {
    /// Patch format version (header bits 23:16).
    pub version: u8,
    /// `CRITICAL` flag (header bit 0): failures fail closed when set.
    pub critical: bool,
    /// Absolute target ROM address (must be 4-byte aligned).
    pub target: u32,
    /// Resume offset in 4-byte words from `target` (must be non-zero).
    pub resume_offset: u16,
    /// Replacement code image (length must be a non-zero multiple of 4).
    pub code: Vec<u8>,
}

/// [`BlockParams`], for contracts.
#[verifier::ext_equal]
pub struct BlockFields {
    pub version: u8,
    pub critical: bool,
    pub target: u32,
    pub resume_offset: u16,
    pub code: Seq<u8>,
}

impl View for BlockParams {
    type V = BlockFields;

    open spec fn view(&self) -> BlockFields {
        BlockFields {
            version: self.version,
            critical: self.critical,
            target: self.target,
            resume_offset: self.resume_offset,
            code: self.code@,
        }
    }
}

/// What makes parameters unfit for a block.
#[derive(Debug, Clone, Copy, PartialEq, Eq, Structural)]
pub enum BlockError {
    /// The target is not word-aligned.
    TargetUnaligned { target: u32 },
    /// The patch would resume at its own target.
    ResumeZero,
    /// The resume address does not fit the address space.
    ResumeOverflow,
    /// There is no code.
    EmptyCode,
    /// The code is not in whole words.
    CodeUnaligned { len: usize },
    /// The code size does not fit its field.
    TooManyWords { words: usize },
    /// The code does not fit the slot.
    ExceedsSlot { len: usize, max: usize },
}

/// Why no block was packed.
#[derive(Debug, Clone)]
pub enum PackError {
    /// The parameters are unfit.
    Invalid(BlockError),
    /// The signer gave no signature.
    Signer(SignerError),
}

impl BlockError {
    /// The error as text.
    pub open spec fn text(self) -> Seq<char> {
        match self {
            BlockError::TargetUnaligned { target } => "target address "@ + crate::text::hex(
                target as nat,
            ) + " is not 4-byte aligned"@,
            BlockError::ResumeZero =>
                "resume_offset must be non-zero (would be an infinite trap loop)"@,
            BlockError::ResumeOverflow => "resume address overflows u32"@,
            BlockError::EmptyCode => "code_size must be non-zero (no replacement code)"@,
            BlockError::CodeUnaligned { len } => "code length "@ + crate::text::decimal(len as nat)
                + " is not a multiple of 4 bytes"@,
            BlockError::TooManyWords { words } => "code is "@ + crate::text::decimal(words as nat)
                + " words, exceeds the 65535-word field"@,
            BlockError::ExceedsSlot { len, max } => "code is "@ + crate::text::decimal(len as nat)
                + " bytes but the slot allows at most "@ + crate::text::decimal(max as nat)
                + " bytes of code"@,
        }
    }

    /// The error as text.
    pub fn message(&self) -> (m: String)
        ensures
            m@ == self.text(),
    {
        match *self {
            BlockError::TargetUnaligned { target } => {
                let mut m: String = "target address ".to_string();
                push_hex(&mut m, target as u64);
                m.append(" is not 4-byte aligned");
                m
            },
            BlockError::ResumeZero => {
                "resume_offset must be non-zero (would be an infinite trap loop)".to_string()
            },
            BlockError::ResumeOverflow => "resume address overflows u32".to_string(),
            BlockError::EmptyCode => "code_size must be non-zero (no replacement code)".to_string(),
            BlockError::CodeUnaligned { len } => {
                let mut m: String = "code length ".to_string();
                push_decimal(&mut m, len as u128);
                m.append(" is not a multiple of 4 bytes");
                m
            },
            BlockError::TooManyWords { words } => {
                let mut m: String = "code is ".to_string();
                push_decimal(&mut m, words as u128);
                m.append(" words, exceeds the 65535-word field");
                m
            },
            BlockError::ExceedsSlot { len, max } => {
                let mut m: String = "code is ".to_string();
                push_decimal(&mut m, len as u128);
                m.append(" bytes but the slot allows at most ");
                push_decimal(&mut m, max as u128);
                m.append(" bytes of code");
                m
            },
        }
    }
}

impl PackError {
    /// The error as text.
    pub open spec fn text(self) -> Seq<char> {
        match self {
            PackError::Invalid(e) => e.text(),
            PackError::Signer(e) => e.message@,
        }
    }

    /// The error as text.
    pub fn message(&self) -> (m: String)
        ensures
            m@ == self.text(),
    {
        match self {
            PackError::Invalid(e) => e.message(),
            PackError::Signer(e) => {
                let mut m: String = "".to_string();
                m.append(e.message.as_str());
                proof {
                    reveal_strlit("");
                    assert(m@ =~= e.message@);
                }
                m
            },
        }
    }
}

/// Little-endian bytes of a half-word.
pub open spec fn le2(n: u16) -> Seq<u8> {
    seq![(n % 256) as u8, (n / 256) as u8]
}

/// Little-endian bytes of a word.
pub open spec fn le4(n: u32) -> Seq<u8> {
    seq![
        (n % 256) as u8,
        (n / 0x100 % 256) as u8,
        (n / 0x1_0000 % 256) as u8,
        (n / 0x100_0000) as u8,
    ]
}

/// The little-endian half-word at `i`.
pub open spec fn half_at(bytes: Seq<u8>, i: int) -> u16 {
    (bytes[i] + 0x100 * bytes[i + 1]) as u16
}

/// The header word.
pub open spec fn header(version: u8, critical: bool) -> u32 {
    (0x100_0000 * MAGIC + 0x1_0000 * version + (if critical {
        1int
    } else {
        0
    })) as u32
}

/// The number of code words, as its field holds it.
pub open spec fn words_field(code: Seq<u8>) -> u16 {
    (code.len() / 4 % 0x1_0000) as u16
}

/// The signed part of a block.
pub open spec fn payload(p: BlockFields) -> Seq<u8> {
    le4(header(p.version, p.critical)) + le4(p.target) + le2(p.resume_offset) + le2(
        words_field(p.code),
    ) + p.code
}

/// The first thing that makes `p` unfit for a block, where the slot leaves room
/// for `max_code_bytes` of code (`None`: any amount).
pub open spec fn fault(p: BlockFields, max_code_bytes: Option<usize>) -> Option<BlockError> {
    if p.target % 4 != 0 {
        Some(BlockError::TargetUnaligned { target: p.target })
    } else if p.resume_offset == 0 {
        Some(BlockError::ResumeZero)
    } else if p.target + 4 * p.resume_offset > u32::MAX {
        Some(BlockError::ResumeOverflow)
    } else if p.code.len() == 0 {
        Some(BlockError::EmptyCode)
    } else if p.code.len() % 4 != 0 {
        Some(BlockError::CodeUnaligned { len: p.code.len() as usize })
    } else if p.code.len() / 4 > 0xffff {
        Some(BlockError::TooManyWords { words: (p.code.len() / 4) as usize })
    } else if max_code_bytes is Some && p.code.len() > max_code_bytes->Some_0 {
        Some(
            BlockError::ExceedsSlot { len: p.code.len() as usize, max: max_code_bytes->Some_0 },
        )
    } else {
        None
    }
}

/// Encodes the 32-bit header word.
pub fn encode_header(version: u8, critical: bool) -> (word: u32)
    ensures
        word == header(version, critical),
{
    let flags: u32 = if critical {
        1
    } else {
        0
    };
    0x100_0000 * (MAGIC as u32) + 0x1_0000 * (version as u32) + flags
}

impl BlockParams {
    /// Validates the parameters.
    ///
    /// `max_code_bytes` bounds the replacement code to the configured OTP slot
    /// capacity (slot size minus the 76-byte signature and header prefix). `None`
    /// disables the slot-capacity check.
    pub fn validate(&self, max_code_bytes: Option<usize>) -> (r: Result<(), BlockError>)
        ensures
            r == match fault(self@, max_code_bytes) {
                Some(e) => Err::<(), BlockError>(e),
                None => Ok(()),
            },
    {
        if self.target % 4 != 0 {
            return Err(BlockError::TargetUnaligned { target: self.target });
        }
        if self.resume_offset == 0 {
            return Err(BlockError::ResumeZero);
        }
        if self.target.checked_add(self.resume_offset as u32 * 4).is_none() {
            return Err(BlockError::ResumeOverflow);
        }
        let len: usize = self.code.len();
        if len == 0 {
            return Err(BlockError::EmptyCode);
        }
        if len % 4 != 0 {
            return Err(BlockError::CodeUnaligned { len });
        }
        let words: usize = len / 4;
        if words > 0xffff {
            return Err(BlockError::TooManyWords { words });
        }
        if let Some(max) = max_code_bytes {
            if len > max {
                return Err(BlockError::ExceedsSlot { len, max });
            }
        }
        Ok(())
    }

    /// Number of 4-byte code words.
    pub fn code_words(&self) -> (n: u16)
        ensures
            n == words_field(self.code@),
    {
        (self.code.len() / 4 % 0x1_0000) as u16
    }

    /// Encodes the signed part of the block: header, addresses and code.
    pub fn encode_payload(&self) -> (bytes: Vec<u8>)
        ensures
            bytes@ == payload(self@),
    {
        let mut bytes: Vec<u8> = Vec::new();
        push_le4(&mut bytes, encode_header(self.version, self.critical));
        push_le4(&mut bytes, self.target);
        push_le2(&mut bytes, self.resume_offset);
        push_le2(&mut bytes, self.code_words());
        bytes.extend_from_slice(self.code.as_slice());
        assert(bytes@ =~= payload(self@));
        bytes
    }
}

fn push_le2(out: &mut Vec<u8>, n: u16)
    ensures
        final(out)@ == old(out)@ + le2(n),
{
    out.push((n % 256) as u8);
    out.push((n / 256) as u8);
    assert(out@ =~= old(out)@ + le2(n));
}

fn push_le4(out: &mut Vec<u8>, n: u32)
    ensures
        final(out)@ == old(out)@ + le4(n),
{
    out.push((n % 256) as u8);
    out.push((n / 0x100 % 256) as u8);
    out.push((n / 0x1_0000 % 256) as u8);
    out.push((n / 0x100_0000) as u8);
    assert(out@ =~= old(out)@ + le4(n));
}

/// Puts what the signer returned for `payload` in front of it.
pub fn attach_signature(signed: Result<[u8; 64], SignerError>, payload: &[u8]) -> (r: Result<
    Vec<u8>,
    PackError,
>)
    ensures
        match signed {
            Ok(signature) => r is Ok && r->Ok_0@ == signature@ + payload@,
            Err(e) => r == Err::<Vec<u8>, PackError>(PackError::Signer(e)),
        },
{
    let signature: [u8; 64] = match signed {
        Ok(signature) => signature,
        Err(e) => return Err(PackError::Signer(e)),
    };
    let mut block: Vec<u8> = Vec::new();
    block.extend_from_slice(&signature);
    block.extend_from_slice(payload);
    assert(block@ =~= signature@ + payload@);
    Ok(block)
}

/// A block: the signature, then what it covers.
pub open spec fn signed_block(signature: Seq<u8>, p: BlockFields) -> Seq<u8> {
    signature + payload(p)
}

/// Builds the signed patch block: the signature, then the payload.
///
/// The Ed25519 signature covers the payload (header to end) and nothing else.
pub fn pack_and_sign<S: PatchSigner + ?Sized>(
    params: &BlockParams,
    signer: &S,
    max_code_bytes: Option<usize>,
) -> (r: Result<Vec<u8>, PackError>)
    ensures
        match fault(params@, max_code_bytes) {
            Some(e) => r == Err::<Vec<u8>, PackError>(PackError::Invalid(e)),
            None => match r {
                Ok(block) => {
                    let signature = block@.take(SIGNATURE_SIZE as int);
                    &&& block@.len() >= SIGNATURE_SIZE
                    &&& block@ == signed_block(signature, params@)
                    &&& signer.may_sign(payload(params@), signature)
                },
                Err(PackError::Signer(e)) => signer.may_refuse(payload(params@), e.message@),
                Err(PackError::Invalid(_)) => false,
            },
        },
{
    if let Err(e) = params.validate(max_code_bytes) {
        return Err(PackError::Invalid(e));
    }
    let bytes: Vec<u8> = params.encode_payload();
    let signed: Result<[u8; 64], SignerError> = signer.sign(bytes.as_slice());
    let ghost outcome = signed;
    let r: Result<Vec<u8>, PackError> = attach_signature(signed, bytes.as_slice());
    proof {
        if let Ok(signature) = outcome {
            assert(r->Ok_0@.take(SIGNATURE_SIZE as int) =~= signature@);
        }
    }
    r
}

/// Whether a block carries a valid signature: the first 64 bytes verify, under
/// `key`, over all that follows.
pub fn verify_block(key: &[u8; 32], block: &[u8]) -> (ok: bool)
    ensures
        ok == (block@.len() >= SIGNATURE_SIZE && crate::signer::ed25519_verifies(
            key@,
            block@.skip(PAYLOAD_OFFSET as int),
            block@.take(SIGNATURE_SIZE as int),
        )),
{
    if block.len() < SIGNATURE_SIZE {
        return false;
    }
    let mut signature: [u8; 64] = [0u8; 64];
    let mut i: usize = 0;
    while i < SIGNATURE_SIZE
        invariant
            i <= SIGNATURE_SIZE <= block.len(),
            forall|k: int| 0 <= k < i ==> signature@[k] == block@[k],
        decreases SIGNATURE_SIZE - i,
    {
        signature[i] = block[i];
        i = i + 1;
    }
    let payload: &[u8] = &block[PAYLOAD_OFFSET..block.len()];
    assert(signature@ =~= block@.take(SIGNATURE_SIZE as int));
    assert(payload@ =~= block@.skip(PAYLOAD_OFFSET as int));
    ed25519_verify(key, payload, &signature)
}

/// Law: the header word is the magic byte, the version and the flag; its other
/// bits are zero.
pub proof fn law_header_bits(version: u8, critical: bool)
    ensures
        header(version, critical) / 0x100_0000 == MAGIC,
        header(version, critical) / 0x1_0000 % 0x100 == version,
        header(version, critical) / 2 % 0x8000 == 0,
        header(version, critical) % 2 == 1 <==> critical,
{
}

proof fn lemma_read_back(p: BlockFields)
    ensures
        payload(p).len() == 12 + p.code.len(),
        crate::csr_scan::word_at(payload(p), 0) == header(p.version, p.critical),
        crate::csr_scan::word_at(payload(p), 4) == p.target,
        half_at(payload(p), 8) == p.resume_offset,
        half_at(payload(p), 10) == words_field(p.code),
        payload(p).skip(12) == p.code,
        payload(p)[3] == MAGIC,
{
    crate::csr_scan::lemma_word_bytes(header(p.version, p.critical));
    crate::csr_scan::lemma_word_bytes(p.target);
    assert(payload(p).skip(12) =~= p.code);
}

/// Law: every field of a block stands at its offset. A block of fit parameters
/// has `0x4C + 4·N` bytes with `N` at least 1, so at least 80 bytes and whole
/// words, and its magic byte tells it from an unburned, all-zero slot.
pub proof fn law_block_layout(signature: Seq<u8>, p: BlockFields, max_code_bytes: Option<usize>)
    requires
        signature.len() == SIGNATURE_SIZE,
        fault(p, max_code_bytes) is None,
    ensures
        ({
            let block = signed_block(signature, p);
            &&& block.len() == CODE_OFFSET + 4 * half_at(block, 0x4A)
            &&& block.len() >= 80
            &&& block.len() % 4 == 0
            &&& block.take(SIGNATURE_SIZE as int) == signature
            &&& crate::csr_scan::word_at(block, 0x40) == header(p.version, p.critical)
            &&& crate::csr_scan::word_at(block, 0x44) == p.target
            &&& half_at(block, 0x48) == p.resume_offset
            &&& half_at(block, 0x4A) == p.code.len() / 4
            &&& block.skip(CODE_OFFSET as int) == p.code
            &&& block[0x43] == MAGIC
        }),
{
    lemma_read_back(p);
    let block = signed_block(signature, p);
    let signed = payload(p);
    assert forall|i: int| 0 <= i < signed.len() implies #[trigger] signed[i] == block[0x40 + i] by {}
    assert(signed[0] == block[0x40] && signed[1] == block[0x41] && signed[2] == block[0x42]
        && signed[3] == block[0x43]);
    assert(signed[4] == block[0x44] && signed[5] == block[0x45] && signed[6] == block[0x46]
        && signed[7] == block[0x47]);
    assert(signed[8] == block[0x48] && signed[9] == block[0x49] && signed[10] == block[0x4A]
        && signed[11] == block[0x4B]);
    assert(block.take(SIGNATURE_SIZE as int) =~= signature);
    assert(block.skip(CODE_OFFSET as int) =~= signed.skip(12));
}

/// Law: a payload tells all of its parameters. No two sets of parameters share
/// the bytes that are signed.
pub proof fn law_payload_is_injective(a: BlockFields, b: BlockFields)
    requires
        payload(a) == payload(b),
    ensures
        a == b,
{
    lemma_read_back(a);
    lemma_read_back(b);
    law_header_bits(a.version, a.critical);
    law_header_bits(b.version, b.critical);
    assert(a =~= b);
}

/// Law: a reader that derives the signed length from the code size reads what
/// was signed, whatever stands behind the block in its slot.
pub proof fn law_slot_round_trip(
    signature: Seq<u8>,
    p: BlockFields,
    max_code_bytes: Option<usize>,
    tail: Seq<u8>,
)
    requires
        signature.len() == SIGNATURE_SIZE,
        fault(p, max_code_bytes) is None,
    ensures
        ({
            let slot = signed_block(signature, p) + tail;
            let end = CODE_OFFSET + 4 * half_at(slot, 0x4A);
            &&& slot.take(SIGNATURE_SIZE as int) == signature
            &&& slot.subrange(PAYLOAD_OFFSET as int, end) == payload(p)
        }),
{
    law_block_layout(signature, p, max_code_bytes);
    let block = signed_block(signature, p);
    let slot = block + tail;
    assert(slot[0x4A] == block[0x4A] && slot[0x4B] == block[0x4B]);
    assert(slot.subrange(PAYLOAD_OFFSET as int, block.len() as int) =~= payload(p));
    assert(slot.take(SIGNATURE_SIZE as int) =~= signature);
}

/// Law: a block whose code is held to the room that a slot leaves behind the
/// prefix fits that slot.
pub proof fn law_block_fits_slot(signature: Seq<u8>, p: BlockFields, slot_size: usize)
    requires
        signature.len() == SIGNATURE_SIZE,
        slot_size > CODE_OFFSET,
        fault(p, Some((slot_size - CODE_OFFSET) as usize)) is None,
    ensures
        signed_block(signature, p).len() <= slot_size,
{
}

/// Law: a patch with fit parameters resumes behind its target, at a word-aligned
/// address.
pub proof fn law_resume_is_behind_target(p: BlockFields, max_code_bytes: Option<usize>)
    requires
        fault(p, max_code_bytes) is None,
    ensures
        p.target < p.target + 4 * p.resume_offset <= u32::MAX,
        p.target % 4 == 0,
        (p.target + 4 * p.resume_offset) % 4 == 0,
{
}

/// Law: what a seed signer makes of a block is fixed by the seed and the
/// parameters; its signature verifies over the bytes from 0x40 on, under the
/// public key that the signer publishes; and it refuses no payload.
pub proof fn law_seed_block_verifies(
    signer: SeedSigner,
    p: BlockFields,
    signature: Seq<u8>,
    key: Seq<u8>,
    message: Seq<char>,
)
    requires
        signature.len() == SIGNATURE_SIZE,
        signer.may_sign(payload(p), signature),
        signer.may_publish(key),
    ensures
        signature == crate::signer::ed25519_signature(signer.seed(), payload(p)),
        crate::signer::ed25519_verifies(
            key,
            signed_block(signature, p).skip(PAYLOAD_OFFSET as int),
            signed_block(signature, p).take(SIGNATURE_SIZE as int),
        ),
        !signer.may_refuse(payload(p), message),
{
    assert(signed_block(signature, p).skip(PAYLOAD_OFFSET as int) =~= payload(p));
    assert(signed_block(signature, p).take(SIGNATURE_SIZE as int) =~= signature);
}

} // verus!
