use caliptra_rom_patch::csr_scan::{CsrWrite, PrivInstr, PrivKind};
use caliptra_rom_patch::elf::{rom_executable_ranges, CodeImage};
use caliptra_rom_patch::block::verify_block;
use caliptra_rom_patch::manifest::{
    pack_entry, pack_next, place_set, EntryError, Manifest, PatchEntry, PatchError,
};
use caliptra_rom_patch::patch::{
    build_from_image, check_addresses, check_code, BuildError, Place, RomRangeOverflow,
};
use caliptra_rom_patch::signer::{PatchSigner, SeedSigner, SignerError};
use caliptra_rom_patch::{build_patch_block, PatchRequest, RomBounds};
use ed25519_dalek::{Signature, VerifyingKey};

// e_machine
const EM_RISCV: u16 = 243;
// e_type
const ET_EXEC: u16 = 2;
// EI_DATA
const ELFDATA2LSB: u8 = 1;
// sh_type
const SHT_PROGBITS: u32 = 1;
// sh_flags
const SHF_ALLOC: u32 = 0x2;
const SHF_EXECINSTR: u32 = 0x4;

/// RV32 `addi x0, x0, 0` (canonical 32-bit NOP).
const NOP_WORD: [u8; 4] = [0x13, 0x00, 0x00, 0x00];

const ELF_HEADER_SIZE: usize = 52;
const SH_ENTRY_SIZE: usize = 40;

/// A section to place in the test ELF.
struct Section {
    name: &'static str,
    sh_type: u32,
    sh_flags: u32,
    sh_addr: u32,
    data: Vec<u8>,
    /// Override `sh_size` (e.g. for `SHT_NOBITS`); defaults to `data.len()`.
    sh_size: Option<u32>,
}

impl Section {
    /// An allocatable executable code section.
    fn code(name: &'static str, addr: u32, data: &[u8]) -> Self {
        Self {
            name,
            sh_type: SHT_PROGBITS,
            sh_flags: SHF_ALLOC | SHF_EXECINSTR,
            sh_addr: addr,
            data: data.to_vec(),
            sh_size: None,
        }
    }

    /// An allocatable read-only data section.
    fn rodata(name: &'static str, addr: u32, data: &[u8]) -> Self {
        Self {
            name,
            sh_type: SHT_PROGBITS,
            sh_flags: SHF_ALLOC,
            sh_addr: addr,
            data: data.to_vec(),
            sh_size: None,
        }
    }
}

/// Appends the ten words of a section header.
fn push_sh(buf: &mut Vec<u8>, be: bool, words: [u32; 10]) {
    for v in words {
        buf.extend_from_slice(&if be { v.to_be_bytes() } else { v.to_le_bytes() });
    }
}

/// Builds an ELF32 image from `sections`, honouring `e_ident_data` byte order.
fn build_elf32(e_machine: u16, e_ident_data: u8, entry: u32, sections: &[Section]) -> Vec<u8> {
    let be = e_ident_data != ELFDATA2LSB;
    let h16 = |v: u16| if be { v.to_be_bytes() } else { v.to_le_bytes() };
    let h32 = |v: u32| if be { v.to_be_bytes() } else { v.to_le_bytes() };
    // Section header string table: index 0 is the empty name.
    let mut shstrtab = vec![0u8];
    let mut name_offs = Vec::new();
    for s in sections {
        name_offs.push(shstrtab.len() as u32);
        shstrtab.extend_from_slice(s.name.as_bytes());
        shstrtab.push(0);
    }
    let shstrtab_name = shstrtab.len() as u32;
    shstrtab.extend_from_slice(b".shstrtab\0");

    // File offsets for section payloads, after the ELF header.
    let mut off = ELF_HEADER_SIZE;
    let mut data_offs = Vec::new();
    for s in sections {
        if s.data.is_empty() {
            data_offs.push(0);
        } else {
            data_offs.push(off as u32);
            off += s.data.len();
        }
    }
    let shstrtab_off = off;
    off += shstrtab.len();
    let pad = (4 - off % 4) % 4;
    off += pad;
    let shoff = off;

    let shnum = (sections.len() + 2) as u16; // null + sections + shstrtab
    let shstrndx = (sections.len() + 1) as u16;

    // ELF header.
    let mut buf = Vec::new();
    buf.extend_from_slice(&[0x7f, b'E', b'L', b'F']);
    buf.push(1); // EI_CLASS = ELFCLASS32
    buf.push(e_ident_data); // EI_DATA
    buf.push(1); // EI_VERSION
    buf.extend_from_slice(&[0u8; 9]); // pad to EI_NIDENT (16)
    buf.extend_from_slice(&h16(ET_EXEC));
    buf.extend_from_slice(&h16(e_machine));
    buf.extend_from_slice(&h32(1)); // e_version
    buf.extend_from_slice(&h32(entry));
    buf.extend_from_slice(&h32(0)); // e_phoff
    buf.extend_from_slice(&h32(shoff as u32));
    buf.extend_from_slice(&h32(0)); // e_flags
    buf.extend_from_slice(&h16(ELF_HEADER_SIZE as u16));
    buf.extend_from_slice(&h16(0)); // e_phentsize
    buf.extend_from_slice(&h16(0)); // e_phnum
    buf.extend_from_slice(&h16(SH_ENTRY_SIZE as u16));
    buf.extend_from_slice(&h16(shnum));
    buf.extend_from_slice(&h16(shstrndx));
    assert_eq!(buf.len(), ELF_HEADER_SIZE);

    // Section payloads, then shstrtab, then padding to shoff.
    for s in sections {
        buf.extend_from_slice(&s.data);
    }
    buf.extend_from_slice(&shstrtab);
    buf.resize(shoff, 0);

    // Section header table: null entry, sections, then shstrtab.
    push_sh(&mut buf, be, [0; 10]);
    for (i, s) in sections.iter().enumerate() {
        let size = s.sh_size.unwrap_or(s.data.len() as u32);
        let words = [
            name_offs[i],
            s.sh_type,
            s.sh_flags,
            s.sh_addr,
            data_offs[i],
            size,
            0,
            0,
            4,
            0,
        ];
        push_sh(&mut buf, be, words);
    }
    let words = [
        shstrtab_name,
        3, // SHT_STRTAB
        0,
        0,
        shstrtab_off as u32,
        shstrtab.len() as u32,
        0,
        0,
        1,
        0,
    ];
    push_sh(&mut buf, be, words);
    buf
}

/// A minimal valid RV32 replacement: one `.text` section at `base`, entry at
/// `base`, containing `code`.
fn riscv_replacement(base: u32, code: &[u8]) -> Vec<u8> {
    build_elf32(
        EM_RISCV,
        ELFDATA2LSB,
        base,
        &[Section::code(".text", base, code)],
    )
}

fn test_key() -> SeedSigner {
    SeedSigner::from_seed_bytes(&[9u8; 32]).unwrap()
}

fn sample_request() -> PatchRequest {
    PatchRequest {
        // entry at base 0x1000; one NOP word of replacement code.
        replacement_elf: riscv_replacement(0x1000, &NOP_WORD),
        target: 0x1000,
        resume_offset: 1,
        version: 1,
        critical: false,
        slot_size: Some(256),
        rom_bounds: RomBounds::Range {
            base: 0x1000,
            size: 0x100,
        },
    }
}

#[test]
fn builds_and_signs_a_minimal_patch() {
    let key = test_key();
    let block = build_patch_block(&sample_request(), &key).unwrap();

    // Layout: 64-byte sig + 12-byte header + 4-byte code.
    assert_eq!(block.len(), 64 + 12 + 4);
    // Signature verifies over the payload (0x40..end).
    let vk = VerifyingKey::from_bytes(&key.public_key().unwrap()).unwrap();
    let sig = Signature::from_bytes(block[..64].try_into().unwrap());
    assert!(vk.verify_strict(&block[0x40..], &sig).is_ok());
}

#[test]
fn builds_the_block_of_the_request() {
    let mut req = sample_request();
    req.critical = true;
    req.resume_offset = 3;
    let block = build_patch_block(&req, &test_key()).unwrap();
    assert_eq!(
        block[64..],
        [0x01, 0, 0x01, 0xA5, 0x00, 0x10, 0, 0, 3, 0, 1, 0, 0x13, 0, 0, 0]
    );
    assert_eq!(block, build_patch_block(&req, &test_key()).unwrap());
}

#[test]
fn rejects_resume_address_outside_rom_range() {
    let mut req = sample_request();
    req.rom_bounds = RomBounds::Range {
        base: 0x1000,
        size: 4,
    }; // resume 0x1004 out
    let err = build_patch_block(&req, &test_key()).unwrap_err().message();
    assert!(err.contains("resume address"), "{err}");
}

#[test]
fn rejects_target_outside_rom_range() {
    let mut req = sample_request();
    req.rom_bounds = RomBounds::Range {
        base: 0x2000,
        size: 0x100,
    };
    let err = build_patch_block(&req, &test_key()).unwrap_err().message();
    assert!(
        err.contains("target") && err.contains("not within"),
        "{err}"
    );
}

#[test]
fn accepts_target_in_executable_rom_section() {
    let mut req = sample_request();
    req.rom_bounds = RomBounds::ExecRanges(vec![(0x1000, 0x40)]); // covers 0x1000 & 0x1004
    assert!(build_patch_block(&req, &test_key()).is_ok());
}

#[test]
fn rejects_target_outside_executable_rom_sections() {
    let mut req = sample_request();
    // target 0x1000 sits before the only executable section.
    req.rom_bounds = RomBounds::ExecRanges(vec![(0x2000, 0x40)]);
    let err = build_patch_block(&req, &test_key()).unwrap_err().message();
    assert!(err.contains("executable ROM section"), "{err}");
}

#[test]
fn rejects_ebreak_in_replacement() {
    let mut req = sample_request();
    req.replacement_elf = riscv_replacement(0x1000, &0x0010_0073u32.to_le_bytes()); // ebreak
    let err = build_patch_block(&req, &test_key()).unwrap_err().message();
    assert!(err.contains("ebreak") && err.contains("forbidden"), "{err}");
}

#[test]
fn allows_ecall_in_replacement() {
    // ecall is decoded but not forbidden by ABI v1.
    let mut req = sample_request();
    req.replacement_elf = riscv_replacement(0x1000, &0x0000_0073u32.to_le_bytes()); // ecall
    assert!(build_patch_block(&req, &test_key()).is_ok());
}

#[test]
fn rejects_unsupported_abi_version() {
    let mut req = sample_request();
    req.version = 2;
    let err = build_patch_block(&req, &test_key()).unwrap_err().message();
    assert!(err.contains("unsupported patch ABI version"), "{err}");
}

#[test]
fn lists_every_csr_write() {
    let mut code = Vec::new();
    code.extend_from_slice(&0x3000_9073u32.to_le_bytes()); // csrrw x0, mstatus, x1
    code.extend_from_slice(&0x0011_5073u32.to_le_bytes()); // csrrwi x0, fflags, 2
    let mut req = sample_request();
    req.replacement_elf = riscv_replacement(0x1000, &code);
    let e = build_patch_block(&req, &test_key()).unwrap_err();
    assert_eq!(
        e.message(),
        "Replacement performs CSR write(s) not allowed by the ABI:\n  - csrrw to CSR 0x300 at image offset 0x0\n  - csrrwi to CSR 0x001 at image offset 0x4\n(patch ABI v1 allowlists no CSR writes)"
    );
    assert!(e.cause().is_none());
    match e {
        BuildError::CsrWrites { version, writes } => {
            assert_eq!(version, 1);
            assert_eq!(
                writes[1],
                CsrWrite {
                    offset: 4,
                    csr: 1,
                    mnemonic: "csrrwi"
                }
            );
        }
        _ => panic!("another error"),
    }
}

#[test]
fn lists_every_forbidden_instruction() {
    let mut code = Vec::new();
    code.extend_from_slice(&0x3020_0073u32.to_le_bytes()); // mret
    code.extend_from_slice(&0x0000_0073u32.to_le_bytes()); // ecall
    code.extend_from_slice(&0x1050_0073u32.to_le_bytes()); // wfi
    let mut req = sample_request();
    req.replacement_elf = riscv_replacement(0x1000, &code);
    let e = build_patch_block(&req, &test_key()).unwrap_err();
    assert_eq!(
        e.message(),
        "Replacement contains instruction(s) forbidden by the patch ABI:\n  - mret at image offset 0x0\n  - wfi at image offset 0x8\nreplacement code must return to the trap handler with ret"
    );
    match e {
        BuildError::Forbidden { instrs } => assert_eq!(
            instrs,
            [
                PrivInstr {
                    offset: 0,
                    kind: PrivKind::Mret
                },
                PrivInstr {
                    offset: 8,
                    kind: PrivKind::Wfi
                }
            ]
        ),
        _ => panic!("another error"),
    }
}

#[test]
fn constants_are_not_code() {
    let mut req = sample_request();
    req.replacement_elf = build_elf32(
        EM_RISCV,
        ELFDATA2LSB,
        0x1000,
        &[
            Section::code(".text", 0x1000, &NOP_WORD),
            Section::rodata(".rodata", 0x1004, &0x3020_0073u32.to_le_bytes()), // mret
        ],
    );
    let block = build_patch_block(&req, &test_key()).unwrap();
    assert_eq!(block[0x50..], 0x3020_0073u32.to_le_bytes());
}

#[test]
fn each_stage_has_its_error() {
    let key = test_key();

    let mut req = sample_request();
    req.replacement_elf = vec![1, 2, 3];
    let e = build_patch_block(&req, &key).unwrap_err();
    assert!(matches!(e, BuildError::Load(_)));
    assert_eq!(e.message(), "Failed to load replacement ELF");
    assert_eq!(e.cause().unwrap(), "Failed to parse replacement ELF");

    let mut req = sample_request();
    req.replacement_elf = riscv_replacement(0x1002, &NOP_WORD);
    let e = build_patch_block(&req, &key).unwrap_err();
    assert_eq!(
        e.cause().unwrap(),
        "Replacement image base (0x1002) is not 4-byte aligned"
    );

    let mut req = sample_request();
    req.replacement_elf = riscv_replacement(0x1000, &[0x73, 0x00]);
    let e = build_patch_block(&req, &key).unwrap_err();
    assert_eq!(e.message(), "Failed to scan replacement executable code");
    assert_eq!(
        e.cause().unwrap(),
        "truncated 32-bit instruction at offset 0x0"
    );

    let mut req = sample_request();
    req.target = 0xffff_fffc;
    let e = build_patch_block(&req, &key).unwrap_err();
    assert!(matches!(e, BuildError::ResumeOverflow));
    assert_eq!(e.message(), "resume address overflows u32");

    let mut req = sample_request();
    req.rom_bounds = RomBounds::Range {
        base: 0x1000,
        size: 0xffff_f000,
    };
    let e = build_patch_block(&req, &key).unwrap_err();
    assert!(matches!(e, BuildError::RomRange(RomRangeOverflow)));
    assert_eq!(e.message(), "ROM range base+size overflows");

    let mut req = sample_request();
    req.rom_bounds = RomBounds::ExecRanges(vec![(0x1000, 4), (0x1008, 0x40)]);
    let e = build_patch_block(&req, &key).unwrap_err();
    assert!(matches!(
        e,
        BuildError::ResumeOutside {
            resume: 0x1004,
            place: Place::ExecutableSection
        }
    ));
    assert_eq!(
        e.message(),
        "resume address 0x1004 is not within an executable ROM section"
    );

    let mut req = sample_request();
    req.target = 0x2000;
    let e = build_patch_block(&req, &key).unwrap_err();
    assert_eq!(e.message(), "target 0x2000 is not within the ROM range");

    let mut req = sample_request();
    req.slot_size = Some(76);
    let e = build_patch_block(&req, &key).unwrap_err();
    assert!(matches!(e, BuildError::SlotTooSmall { slot: 76 }));
    assert_eq!(
        e.message(),
        "slot size 76 is too small for the 76-byte header prefix"
    );

    let mut req = sample_request();
    req.slot_size = Some(79);
    let e = build_patch_block(&req, &key).unwrap_err();
    assert_eq!(e.message(), "Failed to pack and sign the patch block");
    assert_eq!(
        e.cause().unwrap(),
        "code is 4 bytes but the slot allows at most 3 bytes of code"
    );
    req.slot_size = Some(80);
    assert_eq!(build_patch_block(&req, &key).unwrap().len(), 80);
}

#[test]
fn no_bounds_no_check() {
    let mut req = sample_request();
    req.target = 0x9000_0000;
    req.rom_bounds = RomBounds::Unbounded;
    req.slot_size = None;
    assert!(build_patch_block(&req, &test_key()).is_ok());
}

#[test]
fn rom_code_is_where_patches_go() {
    let rom = build_elf32(
        EM_RISCV,
        ELFDATA2LSB,
        0x1000,
        &[
            Section::code(".text", 0x1000, &[0u8; 8]),
            Section::rodata(".rodata", 0x2000, &[0u8; 8]),
        ],
    );
    let bounds = RomBounds::select(Some(rom_executable_ranges(&rom).unwrap()), None, None);
    assert!(check_addresses(0x1000, 1, &bounds).is_ok());
    assert!(check_addresses(0x1004, 1, &bounds).is_err());
    assert!(check_addresses(0x2000, 1, &bounds).is_err());
}

#[test]
fn bounds_hold_up_to_their_end() {
    let window = RomBounds::Range {
        base: 0x1000,
        size: 8,
    };
    assert_eq!(window.allows(0xfff), Ok(false));
    assert_eq!(window.allows(0x1000), Ok(true));
    assert_eq!(window.allows(0x1007), Ok(true));
    assert_eq!(window.allows(0x1008), Ok(false));
    let wide = RomBounds::Range {
        base: 1,
        size: u32::MAX,
    };
    assert_eq!(wide.allows(1), Err(RomRangeOverflow));
    // A section that reaches the end of the address space is passed over.
    let ranges = RomBounds::ExecRanges(vec![(0xffff_fff0, 0x10), (0x10, 4)]);
    assert_eq!(ranges.allows(0xffff_fff4), Ok(false));
    assert_eq!(ranges.allows(0x12), Ok(true));
    assert_eq!(RomBounds::ExecRanges(vec![]).allows(0), Ok(false));
    assert_eq!(RomBounds::Unbounded.allows(7), Ok(true));
}

#[test]
fn bounds_are_selected_by_strength() {
    assert!(matches!(
        RomBounds::select(Some(vec![(1, 2)]), Some(3), Some(4)),
        RomBounds::ExecRanges(_)
    ));
    assert!(matches!(
        RomBounds::select(None, Some(3), Some(4)),
        RomBounds::Range { base: 3, size: 4 }
    ));
    assert!(matches!(
        RomBounds::select(None, Some(3), None),
        RomBounds::Unbounded
    ));
}

#[test]
fn an_image_is_enough() {
    let image = CodeImage {
        base: 0x1000,
        bytes: NOP_WORD.to_vec(),
        exec_ranges: vec![(0, 4)],
    };
    assert!(check_code(1, &image).is_ok());
    let req = sample_request();
    assert_eq!(
        build_from_image(&req, image, &test_key()).unwrap(),
        build_patch_block(&req, &test_key()).unwrap()
    );
    let image = CodeImage {
        base: 0x1000,
        bytes: vec![],
        exec_ranges: vec![],
    };
    let e = build_from_image(&req, image, &test_key()).unwrap_err();
    assert_eq!(
        e.cause().unwrap(),
        "code_size must be non-zero (no replacement code)"
    );
}

struct Absent;

impl PatchSigner for Absent {
    fn sign(&self, _payload: &[u8]) -> Result<[u8; 64], SignerError> {
        Err(SignerError {
            message: "token removed".to_string(),
        })
    }

    fn public_key(&self) -> Result<[u8; 32], SignerError> {
        Err(SignerError {
            message: "token removed".to_string(),
        })
    }
}

#[test]
fn a_refusal_is_passed_on() {
    let signer: &dyn PatchSigner = &Absent;
    let e = build_patch_block(&sample_request(), signer).unwrap_err();
    assert_eq!(e.message(), "Failed to pack and sign the patch block");
    assert_eq!(e.cause().unwrap(), "token removed");
}

fn sample_entry() -> PatchEntry {
    PatchEntry {
        replacement: "a.elf".to_string(),
        target: "0x1000".to_string(),
        resume_offset: Some(2),
        resume_addr: None,
        version: 1,
        critical: true,
        slot: Some(5),
    }
}

#[test]
fn an_entry_is_packed_as_it_asks() {
    let elf = riscv_replacement(0x1000, &NOP_WORD);
    let bounds = RomBounds::ExecRanges(vec![(0x1000, 0x40)]);
    let p = pack_entry(
        &sample_entry(),
        0x1000,
        2,
        elf.clone(),
        bounds.clone(),
        &test_key(),
    )
    .unwrap();
    assert_eq!(p.target, 0x1000);
    assert_eq!(p.slot, Some(5));
    let mut req = sample_request();
    req.resume_offset = 2;
    req.critical = true;
    req.slot_size = None;
    req.rom_bounds = bounds;
    assert_eq!(p.block, build_patch_block(&req, &test_key()).unwrap());
    assert_eq!(p.block[0x40] & 1, 1);
}

#[test]
fn an_entry_fails_as_its_request_does() {
    let elf = riscv_replacement(0x1000, &NOP_WORD);
    let bounds = RomBounds::ExecRanges(vec![(0x2000, 0x40)]);
    let e = pack_entry(&sample_entry(), 0x1000, 2, elf.clone(), bounds, &test_key()).unwrap_err();
    assert!(matches!(
        e,
        BuildError::TargetOutside {
            target: 0x1000,
            place: Place::ExecutableSection
        }
    ));
    let e = pack_entry(
        &sample_entry(),
        0x1000,
        2,
        vec![0],
        RomBounds::Unbounded,
        &test_key(),
    )
    .unwrap_err();
    assert!(matches!(e, BuildError::Load(_)));
    let e = pack_entry(
        &sample_entry(),
        0x1000,
        2,
        elf,
        RomBounds::Unbounded,
        &Absent,
    )
    .unwrap_err();
    assert_eq!(e.cause().unwrap(), "token removed");
}

fn sample_manifest() -> Manifest {
    let mut second = sample_entry();
    second.target = "0x1008".to_string();
    second.resume_offset = None;
    second.resume_addr = Some("0x100c".to_string());
    second.slot = None;
    Manifest {
        signing_key: "k.bin".to_string(),
        rom_elf: None,
        partition: "P".to_string(),
        item_prefix: "I".to_string(),
        item_size: 32,
        num_items: None,
        lock: false,
        patches: vec![sample_entry(), second],
    }
}

#[test]
fn a_set_is_packed_entry_by_entry() {
    let m = sample_manifest();
    let key = test_key();
    let mut packed = Vec::new();
    while packed.len() < m.patches.len() {
        let elf = riscv_replacement(0x1000, &NOP_WORD);
        assert!(pack_next(&m, &mut packed, elf, RomBounds::Unbounded, &key).is_ok());
    }
    assert_eq!(packed.len(), 2);
    assert_eq!((packed[0].target, packed[0].slot), (0x1000, Some(5)));
    assert_eq!((packed[1].target, packed[1].slot), (0x1008, None));
    assert_eq!(packed[0].block[0x48..0x4A], [2, 0]);
    assert_eq!(packed[1].block[0x48..0x4A], [1, 0]);
    for p in &packed {
        assert!(verify_block(&key.public_key().unwrap(), &p.block));
    }
    let plan = place_set(&m, &packed).unwrap();
    assert_eq!(plan.placements[0].first_item, 5);
    assert_eq!(plan.placements[1].first_item, 8);
    assert_eq!(plan.placements[1].patch_index, 1);
}

#[test]
fn a_failed_step_adds_nothing() {
    let mut m = sample_manifest();
    let key = test_key();
    let elf = riscv_replacement(0x1000, &NOP_WORD);
    let mut packed = Vec::new();
    pack_next(&m, &mut packed, elf.clone(), RomBounds::Unbounded, &key).unwrap();

    let e = pack_next(&m, &mut packed, vec![0], RomBounds::Unbounded, &key).unwrap_err();
    assert!(matches!(e, PatchError::Build(BuildError::Load(_))));
    assert_eq!(e.message(1, "a.elf"), "patch 1 (a.elf)");
    assert_eq!(packed.len(), 1);

    m.patches[1].target = "x".to_string();
    let e = pack_next(&m, &mut packed, elf, RomBounds::Unbounded, &key).unwrap_err();
    assert!(matches!(e, PatchError::Entry(EntryError::Target(_))));
    assert_eq!(e.message(1, "a.elf"), "patch 1: bad target");
    assert_eq!(packed.len(), 1);
}
