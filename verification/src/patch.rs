//! From a request to a signed block.
//!
//! Pipeline: [`crate::elf::load_replacement`] → [`crate::csr_scan::scan_executable`]
//! and [`crate::abi::AbiPolicy`] → address and slot checks →
//! [`crate::block::pack_and_sign`].

use crate::abi::{AbiPolicy, UnsupportedVersion};
use crate::block::{
    pack_and_sign, BlockError, BlockFields, BlockParams, PackError, CODE_OFFSET, SIGNATURE_SIZE,
};
use crate::csr_scan::{
    scan_executable, CsrWrite, Located, PrivInstr, PrivKind, ScanError, ScanFindings,
};
use crate::elf::replacement::ImageView;
use crate::elf::{load_replacement, CodeImage, ElfView, LoadError};
use crate::signer::PatchSigner;
use crate::text::{push_decimal, push_hex, push_hex3};
use vstd::prelude::*;

verus! {

/// Constraint on where the target and resume addresses may fall in the ROM.
#[derive(Debug, Clone)]
pub enum RomBounds {
    /// No ROM constraint; the in-range check is skipped.
    Unbounded,
    /// A numeric ROM address window `[base, base + size)`.
    Range { base: u32, size: u32 },
    /// Executable `(addr, len)` ranges of the ROM. The target and resume
    /// addresses must each fall within one of them.
    ExecRanges(Vec<(u32, u32)>),
}

/// A ROM window that does not fit the address space.
#[derive(Debug, Clone, Copy, PartialEq, Eq, Structural)]
pub struct RomRangeOverflow;

/// Whether `addr` lies in an `(addr, len)` range. A range whose end does not fit
/// the address space holds no address.
pub open spec fn in_range(range: (u32, u32), addr: int) -> bool {
    range.0 + range.1 <= u32::MAX && range.0 <= addr < range.0 + range.1
}

/// Whether `addr` lies in one of the ranges.
pub open spec fn in_some_range(ranges: Seq<(u32, u32)>, addr: int) -> bool {
    exists|n: int| 0 <= n < ranges.len() && in_range(#[trigger] ranges[n], addr)
}

impl RomBounds {
    /// Whether the bound can be tested: a window must fit the address space.
    pub open spec fn is_sound(&self) -> bool {
        match *self {
            RomBounds::Range { base, size } => base + size <= u32::MAX,
            _ => true,
        }
    }

    /// Whether `addr` satisfies a sound bound.
    pub open spec fn holds(&self, addr: int) -> bool {
        match *self {
            RomBounds::Unbounded => true,
            RomBounds::Range { base, size } => in_range((base, size), addr),
            RomBounds::ExecRanges(ranges) => in_some_range(ranges@, addr),
        }
    }

    /// What the bound is made of.
    pub open spec fn place(&self) -> Place {
        match *self {
            RomBounds::ExecRanges(_) => Place::ExecutableSection,
            _ => Place::Window,
        }
    }

    /// The bound of a request: the ROM's executable ranges if they are known,
    /// else a window if both of its numbers are, else none.
    pub fn select(
        exec_ranges: Option<Vec<(u32, u32)>>,
        base: Option<u32>,
        size: Option<u32>,
    ) -> (bounds: RomBounds)
        ensures
            bounds == match (exec_ranges, base, size) {
                (Some(ranges), _, _) => RomBounds::ExecRanges(ranges),
                (None, Some(base), Some(size)) => RomBounds::Range { base, size },
                _ => RomBounds::Unbounded,
            },
    {
        match (exec_ranges, base, size) {
            (Some(ranges), _, _) => RomBounds::ExecRanges(ranges),
            (None, Some(base), Some(size)) => RomBounds::Range { base, size },
            _ => RomBounds::Unbounded,
        }
    }

    /// Whether `addr` satisfies the bound.
    pub fn allows(&self, addr: u32) -> (r: Result<bool, RomRangeOverflow>)
        ensures
            r == if self.is_sound() {
                Ok::<bool, RomRangeOverflow>(self.holds(addr as int))
            } else {
                Err(RomRangeOverflow)
            },
    {
        match self {
            RomBounds::Unbounded => Ok(true),
            RomBounds::Range { base, size } => match base.checked_add(*size) {
                Some(end) => Ok(addr >= *base && addr < end),
                None => Err(RomRangeOverflow),
            },
            RomBounds::ExecRanges(ranges) => {
                let mut i: usize = 0;
                while i < ranges.len()
                    invariant
                        i <= ranges.len(),
                        *self == RomBounds::ExecRanges(*ranges),
                        forall|n: int|
                            0 <= n < i ==> !in_range(#[trigger] ranges@[n], addr as int),
                    decreases ranges.len() - i,
                {
                    let (start, len) = ranges[i];
                    if let Some(end) = start.checked_add(len) {
                        if addr >= start && addr < end {
                            assert(in_range(ranges@[i as int], addr as int));
                            return Ok(true);
                        }
                    }
                    i = i + 1;
                }
                Ok(false)
            },
        }
    }
}

/// What an address has to lie within.
#[derive(Debug, Clone, Copy, PartialEq, Eq, Structural)]
pub enum Place {
    Window,
    ExecutableSection,
}

impl Place {
    /// The place in words.
    pub open spec fn name(self) -> &'static str {
        match self {
            Place::Window => "the ROM range",
            Place::ExecutableSection => "an executable ROM section",
        }
    }

    /// The place in words.
    pub fn describe(self) -> (s: &'static str)
        ensures
            s == self.name(),
    {
        match self {
            Place::Window => "the ROM range",
            Place::ExecutableSection => "an executable ROM section",
        }
    }
}

/// A request to build one signed patch block.
#[derive(Debug, Clone)]
pub struct PatchRequest {
    /// Raw bytes of the pre-built, relocation-free replacement ELF.
    pub replacement_elf: Vec<u8>,
    /// Absolute target ROM address (4-byte aligned).
    pub target: u32,
    /// Resume offset in 4-byte words from `target` (non-zero).
    pub resume_offset: u16,
    /// Patch format / ABI version (header bits 23:16).
    pub version: u8,
    /// `CRITICAL` flag.
    pub critical: bool,
    /// Total OTP slot size in bytes, if the code-fits check should run. Code is
    /// bounded to `slot_size - 0x4C` (signature and header prefix).
    pub slot_size: Option<usize>,
    /// Constraint on target and resume addresses against the ROM.
    pub rom_bounds: RomBounds,
}

/// Why no block was built.
#[derive(Debug)]
pub enum BuildError {
    /// The replacement ELF gives no image.
    Load(LoadError),
    /// No policy describes the ABI version.
    Version(UnsupportedVersion),
    /// The code is no instruction stream.
    Scan(ScanError),
    /// The code writes CSRs that the policy does not allow.
    CsrWrites { version: u8, writes: Vec<CsrWrite> },
    /// The code holds instructions that the policy forbids.
    Forbidden { instrs: Vec<PrivInstr> },
    /// The resume address does not fit the address space.
    ResumeOverflow,
    /// The ROM window does not fit the address space.
    RomRange(RomRangeOverflow),
    /// The target lies outside the ROM.
    TargetOutside { target: u32, place: Place },
    /// The resume address lies outside the ROM.
    ResumeOutside { resume: u32, place: Place },
    /// The slot has no room for code.
    SlotTooSmall { slot: usize },
    /// The block could not be packed or signed.
    Pack(PackError),
}

/// What is wrong with a request whose ELF gives an image.
#[verifier::ext_equal]
pub enum BuildFault {
    Version(UnsupportedVersion),
    Scan(ScanError),
    CsrWrites { version: u8, writes: Seq<CsrWrite> },
    Forbidden { instrs: Seq<PrivInstr> },
    ResumeOverflow,
    RomRange(RomRangeOverflow),
    TargetOutside { target: u32, place: Place },
    ResumeOutside { resume: u32, place: Place },
    SlotTooSmall { slot: usize },
    Block(BlockError),
}

impl BuildError {
    /// The fault of the request that this error reports, if it reports one.
    pub open spec fn fault(self) -> Option<BuildFault> {
        match self {
            BuildError::Load(_) => None,
            BuildError::Version(e) => Some(BuildFault::Version(e)),
            BuildError::Scan(e) => Some(BuildFault::Scan(e)),
            BuildError::CsrWrites { version, writes } => Some(
                BuildFault::CsrWrites { version, writes: writes@ },
            ),
            BuildError::Forbidden { instrs } => Some(BuildFault::Forbidden { instrs: instrs@ }),
            BuildError::ResumeOverflow => Some(BuildFault::ResumeOverflow),
            BuildError::RomRange(e) => Some(BuildFault::RomRange(e)),
            BuildError::TargetOutside { target, place } => Some(
                BuildFault::TargetOutside { target, place },
            ),
            BuildError::ResumeOutside { resume, place } => Some(
                BuildFault::ResumeOutside { resume, place },
            ),
            BuildError::SlotTooSmall { slot } => Some(BuildFault::SlotTooSmall { slot }),
            BuildError::Pack(PackError::Invalid(e)) => Some(BuildFault::Block(e)),
            BuildError::Pack(PackError::Signer(_)) => None,
        }
    }

    /// The error as text; see [`BuildError::cause`] for what caused it.
    pub open spec fn text(self) -> Seq<char> {
        match self {
            BuildError::Load(_) => "Failed to load replacement ELF"@,
            BuildError::Version(e) => e.text(),
            BuildError::Scan(_) => "Failed to scan replacement executable code"@,
            BuildError::CsrWrites { version, writes } => {
                "Replacement performs CSR write(s) not allowed by the ABI:"@ + write_lines(writes@)
                    + "\n(patch ABI v"@ + crate::text::decimal(version as nat)
                    + " allowlists no CSR writes)"@
            },
            BuildError::Forbidden { instrs } => {
                "Replacement contains instruction(s) forbidden by the patch ABI:"@ + instr_lines(
                    instrs@,
                ) + "\nreplacement code must return to the trap handler with ret"@
            },
            BuildError::ResumeOverflow => "resume address overflows u32"@,
            BuildError::RomRange(_) => "ROM range base+size overflows"@,
            BuildError::TargetOutside { target, place } => "target "@ + crate::text::hex(
                target as nat,
            ) + " is not within "@ + place.name()@,
            BuildError::ResumeOutside { resume, place } => "resume address "@ + crate::text::hex(
                resume as nat,
            ) + " is not within "@ + place.name()@,
            BuildError::SlotTooSmall { slot } => "slot size "@ + crate::text::decimal(slot as nat)
                + " is too small for the "@ + crate::text::decimal(CODE_OFFSET as nat)
                + "-byte header prefix"@,
            BuildError::Pack(_) => "Failed to pack and sign the patch block"@,
        }
    }

    /// The text of the error behind this one.
    pub open spec fn cause_text(self) -> Option<Seq<char>> {
        match self {
            BuildError::Load(e) => Some(e.text()),
            BuildError::Scan(e) => Some(e.text()),
            BuildError::Pack(e) => Some(e.text()),
            _ => None,
        }
    }

    /// The error as text; see [`BuildError::cause`] for what caused it.
    pub fn message(&self) -> (m: String)
        ensures
            m@ == self.text(),
    {
        match self {
            BuildError::Load(_) => "Failed to load replacement ELF".to_string(),
            BuildError::Version(e) => e.message(),
            BuildError::Scan(_) => "Failed to scan replacement executable code".to_string(),
            BuildError::CsrWrites { version, writes } => {
                let mut m: String =
                    "Replacement performs CSR write(s) not allowed by the ABI:".to_string();
                push_write_lines(&mut m, writes);
                m.append("\n(patch ABI v");
                push_decimal(&mut m, *version as u128);
                m.append(" allowlists no CSR writes)");
                m
            },
            BuildError::Forbidden { instrs } => {
                let mut m: String =
                    "Replacement contains instruction(s) forbidden by the patch ABI:".to_string();
                push_instr_lines(&mut m, instrs);
                m.append("\nreplacement code must return to the trap handler with ret");
                m
            },
            BuildError::ResumeOverflow => "resume address overflows u32".to_string(),
            BuildError::RomRange(_) => "ROM range base+size overflows".to_string(),
            BuildError::TargetOutside { target, place } => {
                let mut m: String = "target ".to_string();
                push_hex(&mut m, *target as u64);
                m.append(" is not within ");
                m.append(place.describe());
                m
            },
            BuildError::ResumeOutside { resume, place } => {
                let mut m: String = "resume address ".to_string();
                push_hex(&mut m, *resume as u64);
                m.append(" is not within ");
                m.append(place.describe());
                m
            },
            BuildError::SlotTooSmall { slot } => {
                let mut m: String = "slot size ".to_string();
                push_decimal(&mut m, *slot as u128);
                m.append(" is too small for the ");
                push_decimal(&mut m, CODE_OFFSET as u128);
                m.append("-byte header prefix");
                m
            },
            BuildError::Pack(_) => "Failed to pack and sign the patch block".to_string(),
        }
    }

    /// The text of the error behind this one.
    pub fn cause(&self) -> (r: Option<String>)
        ensures
            match self.cause_text() {
                Some(text) => r is Some && r->Some_0@ == text,
                None => r is None,
            },
    {
        match self {
            BuildError::Load(e) => Some(e.message()),
            BuildError::Scan(e) => Some(e.message()),
            BuildError::Pack(e) => Some(e.message()),
            _ => None,
        }
    }
}

/// One line for each CSR write.
pub open spec fn write_lines(writes: Seq<CsrWrite>) -> Seq<char>
    decreases writes.len(),
{
    if writes.len() == 0 {
        Seq::empty()
    } else {
        let w = writes.last();
        write_lines(writes.drop_last()) + "\n  - "@ + w.mnemonic@ + " to CSR "@ + crate::text::hex3(
            w.csr as nat,
        ) + " at image offset "@ + crate::text::hex(w.offset as nat)
    }
}

/// One line for each instruction.
pub open spec fn instr_lines(instrs: Seq<PrivInstr>) -> Seq<char>
    decreases instrs.len(),
{
    if instrs.len() == 0 {
        Seq::empty()
    } else {
        let p = instrs.last();
        instr_lines(instrs.drop_last()) + "\n  - "@ + p.kind.name()@ + " at image offset "@
            + crate::text::hex(p.offset as nat)
    }
}

fn push_write_lines(out: &mut String, writes: &Vec<CsrWrite>)
    ensures
        final(out)@ == old(out)@ + write_lines(writes@),
{
    let mut i: usize = 0;
    assert(out@ =~= old(out)@ + write_lines(writes@.take(0)));
    while i < writes.len()
        invariant
            i <= writes.len(),
            out@ == old(out)@ + write_lines(writes@.take(i as int)),
        decreases writes.len() - i,
    {
        let w: &CsrWrite = &writes[i];
        out.append("\n  - ");
        out.append(w.mnemonic);
        out.append(" to CSR ");
        push_hex3(out, w.csr);
        out.append(" at image offset ");
        push_hex(out, w.offset as u64);
        proof {
            assert(writes@.take(i + 1).drop_last() =~= writes@.take(i as int));
            assert(out@ =~= old(out)@ + write_lines(writes@.take(i + 1)));
        }
        i = i + 1;
    }
    proof {
        assert(writes@.take(i as int) =~= writes@);
    }
}

fn push_instr_lines(out: &mut String, instrs: &Vec<PrivInstr>)
    ensures
        final(out)@ == old(out)@ + instr_lines(instrs@),
{
    let mut i: usize = 0;
    assert(out@ =~= old(out)@ + instr_lines(instrs@.take(0)));
    while i < instrs.len()
        invariant
            i <= instrs.len(),
            out@ == old(out)@ + instr_lines(instrs@.take(i as int)),
        decreases instrs.len() - i,
    {
        let p: &PrivInstr = &instrs[i];
        out.append("\n  - ");
        out.append(p.kind.mnemonic());
        out.append(" at image offset ");
        push_hex(out, p.offset as u64);
        proof {
            assert(instrs@.take(i + 1).drop_last() =~= instrs@.take(i as int));
            assert(out@ =~= old(out)@ + instr_lines(instrs@.take(i + 1)));
        }
        i = i + 1;
    }
    proof {
        assert(instrs@.take(i as int) =~= instrs@);
    }
}

/// The writes to CSRs that are not among `allowed`.
pub open spec fn writes_outside(writes: Seq<CsrWrite>, allowed: Set<u16>) -> Seq<CsrWrite>
    decreases writes.len(),
{
    if writes.len() == 0 {
        Seq::empty()
    } else if allowed.contains(writes.last().csr) {
        writes_outside(writes.drop_last(), allowed)
    } else {
        writes_outside(writes.drop_last(), allowed).push(writes.last())
    }
}

/// The instructions whose kind is among `forbidden`.
pub open spec fn instrs_within(instrs: Seq<PrivInstr>, forbidden: Set<PrivKind>) -> Seq<PrivInstr>
    decreases instrs.len(),
{
    if instrs.len() == 0 {
        Seq::empty()
    } else if forbidden.contains(instrs.last().kind) {
        instrs_within(instrs.drop_last(), forbidden).push(instrs.last())
    } else {
        instrs_within(instrs.drop_last(), forbidden)
    }
}

/// What the ABI of `version` has against the code of an image, if anything.
pub open spec fn code_fault(version: u8, image: ImageView) -> Option<BuildFault> {
    if !crate::abi::is_supported(version) {
        Some(BuildFault::Version(UnsupportedVersion { version }))
    } else {
        match crate::csr_scan::executable_words(image.bytes, image.exec_ranges) {
            Err(e) => Some(BuildFault::Scan(e)),
            Ok(words) => {
                let writes = writes_outside(
                    crate::csr_scan::csr_writes(words),
                    crate::abi::v1_writable_csrs(),
                );
                let instrs = instrs_within(
                    crate::csr_scan::priv_instrs(words),
                    crate::abi::v1_forbidden(),
                );
                if writes.len() > 0 {
                    Some(BuildFault::CsrWrites { version, writes })
                } else if instrs.len() > 0 {
                    Some(BuildFault::Forbidden { instrs })
                } else {
                    None
                }
            },
        }
    }
}

/// What is wrong with where a patch goes, if anything.
pub open spec fn address_fault(target: u32, resume_offset: u16, bounds: RomBounds) -> Option<
    BuildFault,
> {
    let resume = target + 4 * resume_offset;
    if resume > u32::MAX {
        Some(BuildFault::ResumeOverflow)
    } else if !bounds.is_sound() {
        Some(BuildFault::RomRange(RomRangeOverflow))
    } else if !bounds.holds(target as int) {
        Some(BuildFault::TargetOutside { target, place: bounds.place() })
    } else if !bounds.holds(resume) {
        Some(BuildFault::ResumeOutside { resume: resume as u32, place: bounds.place() })
    } else {
        None
    }
}

/// The room for code in a slot, if a slot size is given.
pub open spec fn code_room(slot_size: Option<usize>) -> Option<usize> {
    match slot_size {
        Some(slot) => Some((slot - CODE_OFFSET) as usize),
        None => None,
    }
}

/// What goes into the block of a request, given its image.
pub open spec fn block_fields(req: PatchRequest, image: ImageView) -> BlockFields {
    BlockFields {
        version: req.version,
        critical: req.critical,
        target: req.target,
        resume_offset: req.resume_offset,
        code: image.bytes,
    }
}

/// The first thing that is wrong with a request, given its image.
pub open spec fn request_fault(req: PatchRequest, image: ImageView) -> Option<BuildFault> {
    match code_fault(req.version, image) {
        Some(f) => Some(f),
        None => match address_fault(req.target, req.resume_offset, req.rom_bounds) {
            Some(f) => Some(f),
            None => if req.slot_size is Some && req.slot_size->Some_0 <= CODE_OFFSET {
                Some(BuildFault::SlotTooSmall { slot: req.slot_size->Some_0 })
            } else {
                match crate::block::fault(block_fields(req, image), code_room(req.slot_size)) {
                    Some(e) => Some(BuildFault::Block(e)),
                    None => None,
                }
            },
        },
    }
}

/// Collects the writes that the policy does not allow.
fn disallowed_writes(policy: &AbiPolicy, writes: &Vec<CsrWrite>) -> (r: Vec<CsrWrite>)
    ensures
        r@ == writes_outside(writes@, policy.allowed()),
{
    let mut r: Vec<CsrWrite> = Vec::new();
    let mut i: usize = 0;
    while i < writes.len()
        invariant
            i <= writes.len(),
            r@ == writes_outside(writes@.take(i as int), policy.allowed()),
        decreases writes.len() - i,
    {
        proof {
            assert(writes@.take(i + 1).drop_last() =~= writes@.take(i as int));
        }
        let w: &CsrWrite = &writes[i];
        if !policy.csr_write_allowed(w.csr) {
            r.push(CsrWrite { offset: w.offset, csr: w.csr, mnemonic: w.mnemonic });
        }
        i = i + 1;
    }
    proof {
        assert(writes@.take(i as int) =~= writes@);
    }
    r
}

/// Collects the instructions that the policy forbids.
fn forbidden_instrs(policy: &AbiPolicy, instrs: &Vec<PrivInstr>) -> (r: Vec<PrivInstr>)
    ensures
        r@ == instrs_within(instrs@, policy.forbids()),
{
    let mut r: Vec<PrivInstr> = Vec::new();
    let mut i: usize = 0;
    while i < instrs.len()
        invariant
            i <= instrs.len(),
            r@ == instrs_within(instrs@.take(i as int), policy.forbids()),
        decreases instrs.len() - i,
    {
        proof {
            assert(instrs@.take(i + 1).drop_last() =~= instrs@.take(i as int));
        }
        let p: &PrivInstr = &instrs[i];
        if policy.is_forbidden(p.kind) {
            r.push(PrivInstr { offset: p.offset, kind: p.kind });
        }
        i = i + 1;
    }
    proof {
        assert(instrs@.take(i as int) =~= instrs@);
    }
    r
}

/// Scans the executable ranges of an image and applies the policy of `version`.
///
/// Read-only data is carried in the signed image but is not scanned as code: a
/// constant may equal a forbidden instruction.
pub fn check_code(version: u8, image: &CodeImage) -> (r: Result<(), BuildError>)
    ensures
        match code_fault(version, image@) {
            Some(f) => r is Err && r->Err_0.fault() == Some(f),
            None => r is Ok,
        },
{
    let policy: AbiPolicy = match AbiPolicy::for_version(version) {
        Ok(policy) => policy,
        Err(e) => return Err(BuildError::Version(e)),
    };
    let findings: ScanFindings = match scan_executable(
        image.bytes.as_slice(),
        image.exec_ranges.as_slice(),
    ) {
        Ok(findings) => findings,
        Err(e) => return Err(BuildError::Scan(e)),
    };
    let writes: Vec<CsrWrite> = disallowed_writes(&policy, &findings.csr_writes);
    if writes.len() > 0 {
        return Err(BuildError::CsrWrites { version: policy.version, writes });
    }
    let instrs: Vec<PrivInstr> = forbidden_instrs(&policy, &findings.priv_instrs);
    if instrs.len() > 0 {
        return Err(BuildError::Forbidden { instrs });
    }
    Ok(())
}

/// Checks that the target and the resume address lie within the ROM.
pub fn check_addresses(target: u32, resume_offset: u16, bounds: &RomBounds) -> (r: Result<
    (),
    BuildError,
>)
    ensures
        match address_fault(target, resume_offset, *bounds) {
            Some(f) => r is Err && r->Err_0.fault() == Some(f),
            None => r is Ok,
        },
{
    let resume: u32 = match target.checked_add(resume_offset as u32 * 4) {
        Some(resume) => resume,
        None => return Err(BuildError::ResumeOverflow),
    };
    let place: Place = match bounds {
        RomBounds::Unbounded => return Ok(()),
        RomBounds::ExecRanges(_) => Place::ExecutableSection,
        RomBounds::Range { .. } => Place::Window,
    };
    match bounds.allows(target) {
        Err(e) => return Err(BuildError::RomRange(e)),
        Ok(false) => return Err(BuildError::TargetOutside { target, place }),
        Ok(true) => {},
    }
    match bounds.allows(resume) {
        Err(e) => Err(BuildError::RomRange(e)),
        Ok(false) => Err(BuildError::ResumeOutside { resume, place }),
        Ok(true) => Ok(()),
    }
}

/// Builds and signs the block of a request from its image.
pub fn build_from_image<S: PatchSigner + ?Sized>(
    req: &PatchRequest,
    image: CodeImage,
    signer: &S,
) -> (r: Result<Vec<u8>, BuildError>)
    ensures
        match request_fault(*req, image@) {
            Some(f) => r is Err && r->Err_0.fault() == Some(f),
            None => match r {
                Ok(block) => {
                    let signature = block@.take(SIGNATURE_SIZE as int);
                    let fields = block_fields(*req, image@);
                    &&& block@.len() >= SIGNATURE_SIZE
                    &&& block@ == crate::block::signed_block(signature, fields)
                    &&& signer.may_sign(crate::block::payload(fields), signature)
                },
                Err(BuildError::Pack(PackError::Signer(e))) => signer.may_refuse(
                    crate::block::payload(block_fields(*req, image@)),
                    e.message@,
                ),
                Err(_) => false,
            },
        },
        r matches Ok(block) ==> {
            &&& block@.len() == 0x4C + image@.bytes.len()
            &&& block@[0x40] == (if req.critical {
                1int
            } else {
                0
            })
            &&& block@[0x41] == 0
            &&& block@[0x42] == req.version
            &&& block@[0x43] == 0xA5
            &&& block@[0x44] + 0x100 * block@[0x45] + 0x1_0000 * block@[0x46] + 0x100_0000
                * block@[0x47] == req.target
            &&& block@[0x48] + 0x100 * block@[0x49] == req.resume_offset
            &&& 4 * (block@[0x4A] + 0x100 * block@[0x4B]) == image@.bytes.len()
            &&& block@.skip(0x4C) == image@.bytes
        },
{
    let ghost loaded = image@;
    if let Err(e) = check_code(req.version, &image) {
        return Err(e);
    }
    if let Err(e) = check_addresses(req.target, req.resume_offset, &req.rom_bounds) {
        return Err(e);
    }
    let max_code_bytes: Option<usize> = match req.slot_size {
        Some(slot) => {
            if slot <= CODE_OFFSET {
                return Err(BuildError::SlotTooSmall { slot });
            }
            Some(slot - CODE_OFFSET)
        },
        None => None,
    };
    let params = BlockParams {
        version: req.version,
        critical: req.critical,
        target: req.target,
        resume_offset: req.resume_offset,
        code: image.bytes,
    };
    match pack_and_sign(&params, signer, max_code_bytes) {
        Ok(block) => {
            proof {
                crate::laws::block::law_block_bytes(block@.take(64), block_fields(*req, loaded));
            }
            Ok(block)
        },
        Err(e) => Err(BuildError::Pack(e)),
    }
}

/// Whether `r` is what building the block of a request through `signer` may give:
/// the error of its file, else the fault of the request, else the block with a
/// signature of the signer over its payload, or the signer's refusal.
pub open spec fn may_build<S: PatchSigner + ?Sized>(
    req: PatchRequest,
    signer: &S,
    r: Result<Vec<u8>, BuildError>,
) -> bool {
    match crate::elf::parsed_elf(req.replacement_elf@) {
        None => r matches Err(BuildError::Load(LoadError::Parse(_))),
        Some(elf) => match crate::elf::replacement::replacement(elf, req.replacement_elf@) {
            Err(e) => r matches Err(BuildError::Load(LoadError::Rejected(found))) && found@ == e,
            Ok(image) => match request_fault(req, image) {
                Some(f) => r is Err && r->Err_0.fault() == Some(f),
                None => match r {
                    Ok(block) => {
                        let signature = block@.take(SIGNATURE_SIZE as int);
                        let fields = block_fields(req, image);
                        &&& block@.len() >= SIGNATURE_SIZE
                        &&& block@ == crate::block::signed_block(signature, fields)
                        &&& signer.may_sign(crate::block::payload(fields), signature)
                    },
                    Err(BuildError::Pack(PackError::Signer(e))) => signer.may_refuse(
                        crate::block::payload(block_fields(req, image)),
                        e.message@,
                    ),
                    Err(_) => false,
                },
            },
        },
    }
}

/// Builds and signs a patch block from a [`PatchRequest`].
pub fn build_patch_block<S: PatchSigner + ?Sized>(
    req: &PatchRequest,
    signer: &S,
) -> (r: Result<Vec<u8>, BuildError>)
    ensures
        may_build(*req, signer, r),
{
    let image: CodeImage = match load_replacement(req.replacement_elf.as_slice()) {
        Ok(image) => image,
        Err(e) => return Err(BuildError::Load(e)),
    };
    build_from_image(req, image, signer)
}

proof fn lemma_no_writes_outside(writes: Seq<CsrWrite>, allowed: Set<u16>)
    requires
        writes_outside(writes, allowed).len() == 0,
    ensures
        forall|k: int| 0 <= k < writes.len() ==> allowed.contains((#[trigger] writes[k]).csr),
    decreases writes.len(),
{
    if writes.len() > 0 {
        let front = writes.drop_last();
        lemma_no_writes_outside(front, allowed);
        assert forall|k: int| 0 <= k < writes.len() implies allowed.contains(
            (#[trigger] writes[k]).csr,
        ) by {
            if k < front.len() {
                assert(front[k] == writes[k]);
            }
        }
    }
}

proof fn lemma_no_instrs_within(words: Seq<Located>, forbidden: Set<PrivKind>)
    requires
        instrs_within(crate::csr_scan::priv_instrs(words), forbidden).len() == 0,
    ensures
        forall|k: int, kind: PrivKind|
            0 <= k < words.len() && (#[trigger] words[k]).word == #[trigger] kind.encoding()
                ==> !forbidden.contains(kind),
    decreases words.len(),
{
    if words.len() > 0 {
        let front = words.drop_last();
        let last = words.last();
        let before = crate::csr_scan::priv_instrs(front);
        let here = crate::csr_scan::priv_instr_at(last);
        let all = crate::csr_scan::priv_instrs(words);
        if here.len() > 0 {
            assert(all.drop_last() =~= before);
        } else {
            assert(all =~= before);
        }
        lemma_no_instrs_within(front, forbidden);
        assert forall|k: int, kind: PrivKind|
            0 <= k < words.len() && (#[trigger] words[k]).word == #[trigger] kind.encoding() implies
            !forbidden.contains(kind) by {
            if k < front.len() {
                assert(front[k] == words[k]);
            } else {
                let found = crate::csr_scan::priv_kind(last.word)->Some_0;
                assert(found.encoding() == last.word);
                assert(found == kind);
            }
        }
    }
}

/// Law: what is signed keeps the ABI. The code of a request without fault
/// decodes in full, and none of its instructions writes a CSR or is one that
/// the ABI forbids.
pub proof fn law_accepted_code_keeps_abi(req: PatchRequest, image: ImageView)
    requires
        request_fault(req, image) is None,
    ensures
        crate::abi::is_supported(req.version),
        crate::csr_scan::executable_words(image.bytes, image.exec_ranges) is Ok,
        forall|k: int|
            #![trigger crate::csr_scan::executable_words(image.bytes, image.exec_ranges)->Ok_0[k]]
            0 <= k < crate::csr_scan::executable_words(
                image.bytes,
                image.exec_ranges,
            )->Ok_0.len() ==> {
                let word = crate::csr_scan::executable_words(
                    image.bytes,
                    image.exec_ranges,
                )->Ok_0[k].word;
                &&& !crate::csr_scan::is_csr_write(word)
                &&& forall|kind: PrivKind|
                    crate::abi::v1_forbidden().contains(kind) ==> word != #[trigger] kind.encoding()
            },
{
    let words = crate::csr_scan::executable_words(image.bytes, image.exec_ranges)->Ok_0;
    let writes = crate::csr_scan::csr_writes(words);
    lemma_no_writes_outside(writes, crate::abi::v1_writable_csrs());
    if writes.len() > 0 {
        assert(crate::abi::v1_writable_csrs().contains(writes[0].csr));
    }
    crate::csr_scan::law_csr_writes_complete(words);
    lemma_no_instrs_within(words, crate::abi::v1_forbidden());
}

/// Law: what is signed lies in the ROM. Where bounds are given, the target of a
/// request without fault and its resume address satisfy them.
pub proof fn law_accepted_addresses_are_in_bounds(req: PatchRequest, image: ImageView)
    requires
        request_fault(req, image) is None,
    ensures
        req.rom_bounds.is_sound(),
        req.rom_bounds.holds(req.target as int),
        req.rom_bounds.holds(req.target + 4 * req.resume_offset),
{
}

/// Whether an address lies in ROM code.
pub open spec fn in_rom_code(rom: ElfView, addr: int) -> bool {
    exists|i: int|
        0 <= i < rom.sections.len() && crate::elf::rom::is_rom_code(#[trigger] rom.sections[i])
            && rom.sections[i].sh_addr <= addr < rom.sections[i].sh_addr + rom.sections[i].sh_size
}

/// Law: with the ranges of a ROM file as bounds, the target of a request without
/// fault and its resume address each lie in an executable section of that file.
pub proof fn law_accepted_addresses_are_rom_code(
    req: PatchRequest,
    image: ImageView,
    rom: ElfView,
    ranges: Vec<(u32, u32)>,
)
    requires
        request_fault(req, image) is None,
        req.rom_bounds == RomBounds::ExecRanges(ranges),
        crate::elf::rom::rom_ranges(rom) == Ok::<Seq<(u32, u32)>, crate::elf::RomElfError>(ranges@),
    ensures
        in_rom_code(rom, req.target as int),
        in_rom_code(rom, req.target + 4 * req.resume_offset),
{
    lemma_in_rom_code(rom, ranges@, req.target as int);
    lemma_in_rom_code(rom, ranges@, req.target + 4 * req.resume_offset);
}

proof fn lemma_in_rom_code(rom: ElfView, ranges: Seq<(u32, u32)>, addr: int)
    requires
        crate::elf::rom::rom_ranges(rom) == Ok::<Seq<(u32, u32)>, crate::elf::RomElfError>(ranges),
        in_some_range(ranges, addr),
    ensures
        in_rom_code(rom, addr),
{
    let n = choose|n: int| 0 <= n < ranges.len() && in_range(#[trigger] ranges[n], addr);
    assert(ranges.contains(ranges[n]));
    crate::elf::rom::law_rom_ranges_are_code(rom, ranges[n]);
    let i = choose|i: int|
        0 <= i < rom.sections.len() && crate::elf::rom::is_range_of(
            ranges[n],
            #[trigger] rom.sections[i],
        );
    assert(crate::elf::rom::is_rom_code(rom.sections[i]));
}

/// Law: what is signed fits its slot. Where a slot size is given, the block of a
/// request without fault has at most that many bytes.
pub proof fn law_accepted_block_fits_slot(
    req: PatchRequest,
    image: ImageView,
    signature: Seq<u8>,
)
    requires
        request_fault(req, image) is None,
        signature.len() == SIGNATURE_SIZE,
        req.slot_size is Some,
    ensures
        crate::block::signed_block(signature, block_fields(req, image)).len()
            <= req.slot_size->Some_0,
{
    crate::block::law_block_fits_slot(
        signature,
        block_fields(req, image),
        req.slot_size->Some_0,
    );
}

/// Law: the loader gives what the later stages take. The code of a loaded image
/// is never empty or cut inside a word, and its executable ranges never reach
/// outside it.
pub proof fn law_loaded_image_is_fit(elf: ElfView, file: Seq<u8>, req: PatchRequest)
    requires
        crate::elf::replacement::replacement(elf, file) is Ok,
    ensures
        ({
            let image = crate::elf::replacement::replacement(elf, file)->Ok_0;
            let fault = request_fault(req, image);
            &&& !(fault matches Some(BuildFault::Block(BlockError::EmptyCode)))
            &&& !(fault matches Some(BuildFault::Block(BlockError::CodeUnaligned { .. })))
            &&& !(fault matches Some(BuildFault::Scan(ScanError::RangeOverflow { .. })))
            &&& !(fault matches Some(BuildFault::Scan(ScanError::RangeOutside { .. })))
        }),
{
    let image = crate::elf::replacement::replacement(elf, file)->Ok_0;
    crate::elf::replacement::law_image_shape(elf, file);
    lemma_no_range_error(image.bytes, image.exec_ranges);
}

proof fn lemma_no_range_error(image: Seq<u8>, ranges: Seq<(usize, usize)>)
    requires
        image.len() <= usize::MAX,
        forall|n: int|
            0 <= n < ranges.len() ==> (#[trigger] ranges[n]).0 + ranges[n].1 <= image.len(),
    ensures
        !(crate::csr_scan::executable_words(image, ranges) matches Err(
            ScanError::RangeOverflow { .. },
        )),
        !(crate::csr_scan::executable_words(image, ranges) matches Err(
            ScanError::RangeOutside { .. },
        )),
    decreases ranges.len(),
{
    if ranges.len() > 0 {
        let front = ranges.drop_last();
        assert forall|n: int| 0 <= n < front.len() implies (#[trigger] front[n]).0 + front[n].1
            <= image.len() by {
            assert(front[n] == ranges[n]);
        }
        lemma_no_range_error(image, front);
        let last = ranges[ranges.len() - 1];
        lemma_stream_error(image, last.0 as int, last.0 + last.1);
    }
}

proof fn lemma_stream_error(image: Seq<u8>, i: int, end: int)
    ensures
        !(crate::csr_scan::stream_words(image, i, end) matches Err(
            ScanError::RangeOverflow { .. },
        )),
        !(crate::csr_scan::stream_words(image, i, end) matches Err(ScanError::RangeOutside { .. })),
    decreases end - i,
{
    if end - i >= 2 {
        lemma_stream_error(image, i + 2, end);
    }
    if end - i >= 4 {
        lemma_stream_error(image, i + 4, end);
    }
}

} // verus!
