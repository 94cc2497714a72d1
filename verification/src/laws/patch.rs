//! Building a block from a request.

use super::abi::law_first_version;
use super::block::law_block_bytes;
use super::scan::{law_csr_write_bits, law_privileged_words};
use crate::block::PackError;
use crate::csr_scan::{CsrWrite, Located, PrivInstr, PrivKind};
use crate::elf::replacement::ImageView;
use crate::patch::{BuildError, BuildFault, PatchRequest, Place, RomBounds};
use crate::signer::{PatchSigner, SeedSigner};
use vstd::prelude::*;

verus! {

/// Law: the block is the request. Where a request gives a block, its file loads,
/// and of the block the word at `0x44` is the target, the half-word at `0x48` the
/// resume offset, the header word at `0x40` holds `0xA5`, the version and the
/// flag, the half-word at `0x4A` counts the code words, the bytes from `0x4C` on
/// are the loaded image, and the first 64 are the signer's for all the others.
pub proof fn law_block_is_the_request<S: PatchSigner + ?Sized>(
    req: PatchRequest,
    signer: &S,
    block: Vec<u8>,
)
    requires
        crate::patch::may_build(req, signer, Ok(block)),
    ensures
        crate::elf::parsed_elf(req.replacement_elf@) is Some,
        crate::elf::replacement::replacement(
            crate::elf::parsed_elf(req.replacement_elf@)->0,
            req.replacement_elf@,
        ) is Ok,
        ({
            let image = crate::elf::replacement::replacement(
                crate::elf::parsed_elf(req.replacement_elf@)->0,
                req.replacement_elf@,
            )->Ok_0;
            &&& super::block::word(block@, 0x44) == req.target
            &&& super::block::half_word(block@, 0x48) == req.resume_offset
            &&& block@[0x40] == (if req.critical {
                1int
            } else {
                0
            })
            &&& block@[0x41] == 0
            &&& block@[0x42] == req.version
            &&& block@[0x43] == 0xA5
            &&& 4 * super::block::half_word(block@, 0x4A) == image.bytes.len()
            &&& block@.len() == 0x4C + image.bytes.len()
            &&& block@.skip(0x4C) == image.bytes
            &&& signer.may_sign(block@.skip(64), block@.take(64))
        }),
{
    let image = crate::elf::replacement::replacement(
        crate::elf::parsed_elf(req.replacement_elf@)->0,
        req.replacement_elf@,
    )->Ok_0;
    law_block_bytes(block@.take(64), crate::patch::block_fields(req, image));
}

/// Law: the same, of a request whose image is given.
pub proof fn law_signed_image_is_the_request(req: PatchRequest, image: ImageView, signature: Seq<u8>)
    requires
        crate::patch::request_fault(req, image) is None,
        signature.len() == 64,
    ensures
        ({
            let block = crate::block::signed_block(
                signature,
                crate::patch::block_fields(req, image),
            );
            &&& super::block::word(block, 0x44) == req.target
            &&& super::block::half_word(block, 0x48) == req.resume_offset
            &&& block[0x40] == (if req.critical {
                1int
            } else {
                0
            })
            &&& block[0x41] == 0
            &&& block[0x42] == req.version
            &&& block[0x43] == 0xA5
            &&& 4 * super::block::half_word(block, 0x4A) == image.bytes.len()
            &&& block.len() == 0x4C + image.bytes.len()
            &&& block.skip(0x4C) == image.bytes
        }),
{
    law_block_bytes(signature, crate::patch::block_fields(req, image));
}

/// Whether `addr` lies in the ROM, as far as the bounds tell: in the window, or in
/// one of the ranges. A range that ends outside the address space holds nothing.
pub open spec fn is_in_rom(bounds: RomBounds, addr: int) -> bool {
    match bounds {
        RomBounds::Unbounded => true,
        RomBounds::Range { base, size } => base <= addr < base + size,
        RomBounds::ExecRanges(ranges) => exists|n: int|
            0 <= n < ranges@.len() && (#[trigger] ranges@[n]).0 <= addr < ranges@[n].0
                + ranges@[n].1 && ranges@[n].0 + ranges@[n].1 <= 0xFFFF_FFFF,
    }
}

/// Whether a window ends inside the address space.
pub open spec fn window_fits(bounds: RomBounds) -> bool {
    bounds matches RomBounds::Range { base, size } ==> base + size <= 0xFFFF_FFFF
}

/// Law: bounds hold the addresses of the ROM.
pub proof fn law_bounds_hold_rom(bounds: RomBounds, addr: int)
    ensures
        bounds.is_sound() <==> window_fits(bounds),
        window_fits(bounds) ==> (bounds.holds(addr) <==> is_in_rom(bounds, addr)),
        bounds.place() is ExecutableSection <==> bounds is ExecRanges,
{
    if let RomBounds::ExecRanges(ranges) = bounds {
        if bounds.holds(addr) {
            let n = choose|n: int|
                0 <= n < ranges@.len() && crate::patch::in_range(#[trigger] ranges@[n], addr);
            assert(ranges@[n].0 <= addr < ranges@[n].0 + ranges@[n].1);
        }
        if is_in_rom(bounds, addr) {
            let n = choose|n: int|
                0 <= n < ranges@.len() && (#[trigger] ranges@[n]).0 <= addr < ranges@[n].0
                    + ranges@[n].1 && ranges@[n].0 + ranges@[n].1 <= 0xFFFF_FFFF;
            assert(crate::patch::in_range(ranges@[n], addr));
        }
    }
}

/// Whether a word is one that version 1 code may hold: it writes no CSR, and is
/// none of `ebreak`, `wfi`, `mret`, `sret` and `dret`.
pub open spec fn is_harmless(word: u32) -> bool {
    let form = word / 0x1000 % 8;
    let source = word / 0x8000 % 32;
    &&& word % 128 == 0x73 ==> form == 0 || form == 4 || (form != 1 && form != 5 && source == 0)
    &&& word != 0x0010_0073
    &&& word != 0x1050_0073
    &&& word != 0x3020_0073
    &&& word != 0x1020_0073
    &&& word != 0x7b20_0073
}

/// Whether all words are harmless.
pub open spec fn all_harmless(words: Seq<Located>) -> bool {
    forall|k: int| 0 <= k < words.len() ==> is_harmless((#[trigger] words[k]).word)
}

proof fn lemma_writes_outside(writes: Seq<CsrWrite>)
    ensures
        crate::patch::writes_outside(writes, crate::abi::v1_writable_csrs()) == writes,
    decreases writes.len(),
{
    if writes.len() > 0 {
        lemma_writes_outside(writes.drop_last());
        law_first_version(1, writes.last().csr, PrivKind::Ecall);
        assert(writes.drop_last().push(writes.last()) =~= writes);
    } else {
        assert(writes =~= Seq::empty());
    }
}

proof fn lemma_instrs_within(instrs: Seq<PrivInstr>, p: PrivInstr)
    ensures
        crate::patch::instrs_within(instrs, crate::abi::v1_forbidden()).contains(p)
            <==> instrs.contains(p) && !(p.kind is Ecall),
    decreases instrs.len(),
{
    if instrs.len() > 0 {
        let front = instrs.drop_last();
        let last = instrs.last();
        let before = crate::patch::instrs_within(front, crate::abi::v1_forbidden());
        let all = crate::patch::instrs_within(instrs, crate::abi::v1_forbidden());
        lemma_instrs_within(front, p);
        law_first_version(1, 0, last.kind);
        assert(instrs[instrs.len() - 1] == last);
        if front.contains(p) {
            let k = choose|k: int| 0 <= k < front.len() && front[k] == p;
            assert(instrs[k] == p);
        }
        if instrs.contains(p) {
            let k = choose|k: int| 0 <= k < instrs.len() && instrs[k] == p;
            if k < front.len() {
                assert(front[k] == p);
            }
        }
        if !(last.kind is Ecall) {
            assert(all == before.push(last));
            assert(all[before.len() as int] == last);
            if before.contains(p) {
                let k = choose|k: int| 0 <= k < before.len() && before[k] == p;
                assert(all[k] == p);
            }
            if all.contains(p) {
                let k = choose|k: int| 0 <= k < all.len() && all[k] == p;
                if k < before.len() {
                    assert(before[k] == p);
                }
            }
        }
    }
}

/// Law: forbidden instructions are listed in their order, each as often as it was
/// found.
pub proof fn law_forbidden_instructions_keep_order(a: Seq<PrivInstr>, b: Seq<PrivInstr>)
    ensures
        crate::patch::instrs_within(a + b, crate::abi::v1_forbidden())
            == crate::patch::instrs_within(a, crate::abi::v1_forbidden())
            + crate::patch::instrs_within(b, crate::abi::v1_forbidden()),
        a.len() == 1 ==> crate::patch::instrs_within(a, crate::abi::v1_forbidden()).len() <= 1,
    decreases b.len(),
{
    let x = crate::patch::instrs_within(a, crate::abi::v1_forbidden());
    let y = crate::patch::instrs_within(b, crate::abi::v1_forbidden());
    if a.len() == 1 {
        assert(crate::patch::instrs_within(a.drop_last(), crate::abi::v1_forbidden()).len() == 0);
    }
    if b.len() == 0 {
        assert(a + b =~= a);
        assert(x + y =~= x);
    } else {
        law_forbidden_instructions_keep_order(a, b.drop_last());
        assert((a + b).drop_last() =~= a + b.drop_last());
        assert((a + b).last() == b.last());
        assert(crate::patch::instrs_within(a + b, crate::abi::v1_forbidden()) =~= x + y);
    }
}

proof fn lemma_no_writes(words: Seq<Located>)
    ensures
        crate::csr_scan::csr_writes(words).len() == 0 <==> forall|k: int|
            0 <= k < words.len() ==> !crate::csr_scan::is_csr_write((#[trigger] words[k]).word),
    decreases words.len(),
{
    if words.len() > 0 {
        let front = words.drop_last();
        lemma_no_writes(front);
        assert(words[words.len() - 1] == words.last());
        assert(forall|k: int| 0 <= k < front.len() ==> #[trigger] front[k] == words[k]);
        if crate::csr_scan::csr_writes(words).len() == 0 {
            assert forall|k: int| 0 <= k < words.len() implies !crate::csr_scan::is_csr_write(
                (#[trigger] words[k]).word,
            ) by {
                if k < front.len() {
                    assert(front[k] == words[k]);
                }
            }
        }
        if forall|k: int|
            0 <= k < words.len() ==> !crate::csr_scan::is_csr_write((#[trigger] words[k]).word) {
            assert forall|k: int| 0 <= k < front.len() implies !crate::csr_scan::is_csr_write(
                (#[trigger] front[k]).word,
            ) by {
                assert(front[k] == words[k]);
            }
        }
    }
}

spec fn is_forbidden(word: u32) -> bool {
    ||| word == 0x0010_0073
    ||| word == 0x1050_0073
    ||| word == 0x3020_0073
    ||| word == 0x1020_0073
    ||| word == 0x7b20_0073
}

proof fn lemma_no_instrs(words: Seq<Located>)
    ensures
        crate::patch::instrs_within(
            crate::csr_scan::priv_instrs(words),
            crate::abi::v1_forbidden(),
        ).len() == 0 <==> forall|k: int|
            0 <= k < words.len() ==> !is_forbidden((#[trigger] words[k]).word),
    decreases words.len(),
{
    if words.len() > 0 {
        let front = words.drop_last();
        let last = words.last();
        lemma_no_instrs(front);
        law_privileged_words(last.word);
        let before = crate::csr_scan::priv_instrs(front);
        let here = crate::csr_scan::priv_instr_at(last);
        let all = crate::csr_scan::priv_instrs(words);
        if here.len() > 0 {
            assert(all.drop_last() =~= before);
            assert(all.last() == here[0]);
            law_first_version(1, 0, here[0].kind);
        } else {
            assert(all =~= before);
        }
        assert(words[words.len() - 1] == last);
        assert(forall|k: int| 0 <= k < front.len() ==> #[trigger] front[k] == words[k]);
        if forall|k: int| 0 <= k < words.len() ==> !is_forbidden((#[trigger] words[k]).word) {
            assert forall|k: int| 0 <= k < front.len() implies !is_forbidden(
                (#[trigger] front[k]).word,
            ) by {
                assert(front[k] == words[k]);
            }
        }
        if (forall|k: int| 0 <= k < front.len() ==> !is_forbidden((#[trigger] front[k]).word))
            && !is_forbidden(last.word) {
            assert forall|k: int| 0 <= k < words.len() implies !is_forbidden(
                (#[trigger] words[k]).word,
            ) by {
                if k < front.len() {
                    assert(front[k] == words[k]);
                }
            }
        }
    }
}

proof fn lemma_harmless(words: Seq<Located>)
    ensures
        all_harmless(words) <==> (forall|k: int|
            0 <= k < words.len() ==> !crate::csr_scan::is_csr_write((#[trigger] words[k]).word))
            && (forall|k: int| 0 <= k < words.len() ==> !is_forbidden((#[trigger] words[k]).word)),
{
    assert forall|k: int| 0 <= k < words.len() implies (is_harmless((#[trigger] words[k]).word)
        <==> !crate::csr_scan::is_csr_write(words[k].word) && !is_forbidden(words[k].word)) by {
        law_csr_write_bits(words[k].word);
    }
    if all_harmless(words) {
        assert forall|k: int| 0 <= k < words.len() implies !crate::csr_scan::is_csr_write(
            (#[trigger] words[k]).word,
        ) && !is_forbidden(words[k].word) by {
            assert(is_harmless(words[k].word));
        }
    }
}

/// Law: which code passes. The version is 1, and the code decodes to words that
/// are all harmless.
pub proof fn law_code_passes(version: u8, image: ImageView)
    ensures
        crate::patch::code_fault(version, image) is None <==> {
            &&& version == 1
            &&& crate::csr_scan::executable_words(image.bytes, image.exec_ranges) is Ok
            &&& all_harmless(
                crate::csr_scan::executable_words(image.bytes, image.exec_ranges)->Ok_0,
            )
        },
{
    if let Ok(words) = crate::csr_scan::executable_words(image.bytes, image.exec_ranges) {
        lemma_writes_outside(crate::csr_scan::csr_writes(words));
        lemma_no_writes(words);
        lemma_no_instrs(words);
        lemma_harmless(words);
    }
}

/// Law: which requests are accepted, given the image: version 1 code of harmless
/// words; a word-aligned target and an address behind it to resume at, both in
/// the ROM; and code in whole words, at most 65535, that fits the slot behind a
/// prefix of 76 bytes.
pub proof fn law_requests_are_accepted(req: PatchRequest, image: ImageView)
    ensures
        crate::patch::request_fault(req, image) is None <==> {
            let resume = req.target + 4 * req.resume_offset;
            &&& req.version == 1
            &&& crate::csr_scan::executable_words(image.bytes, image.exec_ranges) is Ok
            &&& all_harmless(
                crate::csr_scan::executable_words(image.bytes, image.exec_ranges)->Ok_0,
            )
            &&& req.target % 4 == 0
            &&& req.target < resume <= 0xFFFF_FFFF
            &&& window_fits(req.rom_bounds)
            &&& is_in_rom(req.rom_bounds, req.target as int)
            &&& is_in_rom(req.rom_bounds, resume)
            &&& 0 < image.bytes.len() <= 4 * 65535
            &&& image.bytes.len() % 4 == 0
            &&& req.slot_size matches Some(slot) ==> 76 + image.bytes.len() <= slot
        },
{
    law_code_passes(req.version, image);
    law_bounds_hold_rom(req.rom_bounds, req.target as int);
    law_bounds_hold_rom(req.rom_bounds, req.target + 4 * req.resume_offset);
    super::block::law_fit_parameters(
        crate::patch::block_fields(req, image),
        crate::patch::code_room(req.slot_size),
    );
}

/// Law: what code is refused for: its version first, then what keeps it from
/// being decoded, then all of its CSR writes, and then all of its forbidden
/// instructions.
pub proof fn law_code_refusals(version: u8, image: ImageView, p: PrivInstr)
    ensures
        match crate::csr_scan::executable_words(image.bytes, image.exec_ranges) {
            Err(e) => version == 1 ==> crate::patch::code_fault(version, image) == Some(
                BuildFault::Scan(e),
            ),
            Ok(words) => version == 1 && !all_harmless(words) ==> {
                &&& crate::csr_scan::csr_writes(words).len() > 0 ==> crate::patch::code_fault(
                    version,
                    image,
                ) == Some(
                    BuildFault::CsrWrites {
                        version: 1,
                        writes: crate::csr_scan::csr_writes(words),
                    },
                )
                &&& crate::csr_scan::csr_writes(words).len() == 0 ==> match crate::patch::code_fault(
                    version,
                    image,
                ) {
                    Some(BuildFault::Forbidden { instrs }) => instrs.contains(p)
                        <==> crate::csr_scan::priv_instrs(words).contains(p) && !(p.kind is Ecall),
                    _ => false,
                }
            },
        },
        version != 1 ==> crate::patch::code_fault(version, image) == Some(
            BuildFault::Version(crate::abi::UnsupportedVersion { version }),
        ),
{
    if let Ok(words) = crate::csr_scan::executable_words(image.bytes, image.exec_ranges) {
        lemma_writes_outside(crate::csr_scan::csr_writes(words));
        lemma_no_writes(words);
        lemma_no_instrs(words);
        lemma_harmless(words);
        lemma_instrs_within(crate::csr_scan::priv_instrs(words), p);
    }
}

/// Law: what addresses are refused for: a resume address outside the address
/// space first, then a window that is, then the target, then the resume address.
pub proof fn law_address_refusals(target: u32, resume_offset: u16, bounds: RomBounds)
    ensures
        ({
            let resume = target + 4 * resume_offset;
            let fault = crate::patch::address_fault(target, resume_offset, bounds);
            let place = match bounds {
                RomBounds::ExecRanges(_) => Place::ExecutableSection,
                _ => Place::Window,
            };
            if resume > 0xFFFF_FFFF {
                fault == Some(BuildFault::ResumeOverflow)
            } else if !window_fits(bounds) {
                fault == Some(BuildFault::RomRange(crate::patch::RomRangeOverflow))
            } else if !is_in_rom(bounds, target as int) {
                fault == Some(BuildFault::TargetOutside { target, place })
            } else if !is_in_rom(bounds, resume) {
                fault == Some(BuildFault::ResumeOutside { resume: resume as u32, place })
            } else {
                fault is None
            }
        }),
{
    law_bounds_hold_rom(bounds, target as int);
    law_bounds_hold_rom(bounds, target + 4 * resume_offset);
}

/// Law: a request is refused for its code first, then for its addresses, then for
/// a slot that its prefix of 76 bytes fills, and then for what is unfit for a
/// block.
pub proof fn law_request_refusals(req: PatchRequest, image: ImageView)
    ensures
        ({
            let fault = crate::patch::request_fault(req, image);
            let code = crate::patch::code_fault(req.version, image);
            let addresses = crate::patch::address_fault(
                req.target,
                req.resume_offset,
                req.rom_bounds,
            );
            &&& code is Some ==> fault == code
            &&& code is None && addresses is Some ==> fault == addresses
            &&& code is None && addresses is None ==> match req.slot_size {
                Some(slot) => if slot <= 76 {
                    fault == Some(BuildFault::SlotTooSmall { slot })
                } else {
                    fault is None || fault->0 is Block
                },
                None => fault is None || fault->0 is Block,
            }
            &&& fault matches Some(BuildFault::Block(e)) ==> match e {
                crate::block::BlockError::TargetUnaligned { target } => target == req.target
                    && target % 4 != 0,
                crate::block::BlockError::ResumeZero => req.resume_offset == 0 && req.target % 4
                    == 0,
                crate::block::BlockError::ResumeOverflow => false,
                crate::block::BlockError::ExceedsSlot { len, max } => image.bytes.len()
                    <= usize::MAX ==> len == image.bytes.len() && max + 76 == req.slot_size->0
                    && len > max,
                crate::block::BlockError::TooManyWords { words } => image.bytes.len() <= usize::MAX
                    ==> 4 * words == image.bytes.len() && words > 65535,
                crate::block::BlockError::EmptyCode => image.bytes.len() == 0,
                crate::block::BlockError::CodeUnaligned { len } => image.bytes.len() <= usize::MAX
                    ==> len == image.bytes.len() && len % 4 != 0,
            }
        }),
{
    super::block::law_unfit_parameters(
        crate::patch::block_fields(req, image),
        crate::patch::code_room(req.slot_size),
    );
}

/// Law: an error tells the fault, as it is.
pub proof fn law_errors_tell_faults(e: BuildError)
    ensures
        match e {
            BuildError::Version(v) => e.fault() == Some(BuildFault::Version(v)),
            BuildError::Scan(s) => e.fault() == Some(BuildFault::Scan(s)),
            BuildError::CsrWrites { version, writes } => e.fault() == Some(
                BuildFault::CsrWrites { version, writes: writes@ },
            ),
            BuildError::Forbidden { instrs } => e.fault() == Some(
                BuildFault::Forbidden { instrs: instrs@ },
            ),
            BuildError::ResumeOverflow => e.fault() == Some(BuildFault::ResumeOverflow),
            BuildError::RomRange(o) => e.fault() == Some(BuildFault::RomRange(o)),
            BuildError::TargetOutside { target, place } => e.fault() == Some(
                BuildFault::TargetOutside { target, place },
            ),
            BuildError::ResumeOutside { resume, place } => e.fault() == Some(
                BuildFault::ResumeOutside { resume, place },
            ),
            BuildError::SlotTooSmall { slot } => e.fault() == Some(
                BuildFault::SlotTooSmall { slot },
            ),
            BuildError::Pack(PackError::Invalid(b)) => e.fault() == Some(BuildFault::Block(b)),
            BuildError::Load(_) => e.fault() is None,
            BuildError::Pack(PackError::Signer(_)) => e.fault() is None,
        },
{
}

/// Law: what may come of a request. A file that is no ELF file, or no
/// replacement, or a request with a fault is an error that tells of it; of any
/// other request comes a block, unless the signer refuses. A seed signer never
/// does, and its block verifies under the public key of the seed.
pub proof fn law_requests_are_answered(
    req: PatchRequest,
    signer: SeedSigner,
    r: Result<Vec<u8>, BuildError>,
)
    requires
        crate::patch::may_build(req, &signer, r),
    ensures
        match crate::elf::parsed_elf(req.replacement_elf@) {
            None => r is Err && r->Err_0 is Load && r->Err_0->Load_0 is Parse,
            Some(elf) => match crate::elf::replacement::replacement(elf, req.replacement_elf@) {
                Err(e) => r matches Err(BuildError::Load(crate::elf::LoadError::Rejected(found)))
                    && found@ == e,
                Ok(image) => match crate::patch::request_fault(req, image) {
                    Some(f) => r is Err && r->Err_0.fault() == Some(f),
                    None => r is Ok && crate::signer::ed25519_verifies(
                        crate::signer::ed25519_public_key(signer.seed()),
                        r->Ok_0@.skip(64),
                        r->Ok_0@.take(64),
                    ),
                },
            },
        },
{
    if let Ok(block) = r {
        law_block_is_the_request(req, &signer, block);
    }
}

} // verus!
