use caliptra_rom_patch::elf::replacement::MAX_FLATTENED_IMAGE_BYTES;
use caliptra_rom_patch::elf::{
    self, executable_ranges, load_replacement, replacement_image, rom_executable_ranges, ElfFile,
    LoadError, ReplacementError, RomElfError, RomLoadError,
};

// e_machine
const EM_RISCV: u16 = 243;
// e_type
const ET_EXEC: u16 = 2;
// EI_DATA
const ELFDATA2LSB: u8 = 1;
const ELFDATA2MSB: u8 = 2;
// sh_type
const SHT_PROGBITS: u32 = 1;
const SHT_RELA: u32 = 4;
const SHT_NOBITS: u32 = 8;
// sh_flags
const SHF_WRITE: u32 = 0x1;
const SHF_ALLOC: u32 = 0x2;
const SHF_EXECINSTR: u32 = 0x4;
const SHF_TLS: u32 = 0x400;

/// RV32 `addi x0, x0, 0` (canonical 32-bit NOP).
const NOP_WORD: [u8; 4] = [0x13, 0x00, 0x00, 0x00];

const ELF_HEADER_SIZE: usize = 52;
const SH_ENTRY_SIZE: usize = 40;

/// A section to place in the test ELF.
struct Section {
    name: &'static str,
    sh_type: u32,
    sh_flags: u32,
    sh_addr: u32,
    data: Vec<u8>,
    /// Override `sh_size` (e.g. for `SHT_NOBITS`); defaults to `data.len()`.
    sh_size: Option<u32>,
}

impl Section {
    /// An allocatable executable code section.
    fn code(name: &'static str, addr: u32, data: &[u8]) -> Self {
        Self {
            name,
            sh_type: SHT_PROGBITS,
            sh_flags: SHF_ALLOC | SHF_EXECINSTR,
            sh_addr: addr,
            data: data.to_vec(),
            sh_size: None,
        }
    }

    /// An allocatable read-only data section.
    fn rodata(name: &'static str, addr: u32, data: &[u8]) -> Self {
        Self {
            name,
            sh_type: SHT_PROGBITS,
            sh_flags: SHF_ALLOC,
            sh_addr: addr,
            data: data.to_vec(),
            sh_size: None,
        }
    }
}

/// Appends the ten words of a section header.
fn push_sh(buf: &mut Vec<u8>, be: bool, words: [u32; 10]) {
    for v in words {
        buf.extend_from_slice(&if be { v.to_be_bytes() } else { v.to_le_bytes() });
    }
}

/// Builds an ELF32 image from `sections`, honouring `e_ident_data` byte order.
fn build_elf32(e_machine: u16, e_ident_data: u8, entry: u32, sections: &[Section]) -> Vec<u8> {
    let be = e_ident_data == ELFDATA2MSB;
    let h16 = |v: u16| if be { v.to_be_bytes() } else { v.to_le_bytes() };
    let h32 = |v: u32| if be { v.to_be_bytes() } else { v.to_le_bytes() };
    // Section header string table: index 0 is the empty name.
    let mut shstrtab = vec![0u8];
    let mut name_offs = Vec::new();
    for s in sections {
        name_offs.push(shstrtab.len() as u32);
        shstrtab.extend_from_slice(s.name.as_bytes());
        shstrtab.push(0);
    }
    let shstrtab_name = shstrtab.len() as u32;
    shstrtab.extend_from_slice(b".shstrtab\0");

    // File offsets for section payloads, after the ELF header.
    let mut off = ELF_HEADER_SIZE;
    let mut data_offs = Vec::new();
    for s in sections {
        if s.data.is_empty() {
            data_offs.push(0);
        } else {
            data_offs.push(off as u32);
            off += s.data.len();
        }
    }
    let shstrtab_off = off;
    off += shstrtab.len();
    let pad = (4 - off % 4) % 4;
    off += pad;
    let shoff = off;

    let shnum = (sections.len() + 2) as u16; // null + sections + shstrtab
    let shstrndx = (sections.len() + 1) as u16;

    // ELF header.
    let mut buf = Vec::new();
    buf.extend_from_slice(&[0x7f, b'E', b'L', b'F']);
    buf.push(1); // EI_CLASS = ELFCLASS32
    buf.push(e_ident_data); // EI_DATA
    buf.push(1); // EI_VERSION
    buf.extend_from_slice(&[0u8; 9]); // pad to EI_NIDENT (16)
    buf.extend_from_slice(&h16(ET_EXEC));
    buf.extend_from_slice(&h16(e_machine));
    buf.extend_from_slice(&h32(1)); // e_version
    buf.extend_from_slice(&h32(entry));
    buf.extend_from_slice(&h32(0)); // e_phoff
    buf.extend_from_slice(&h32(shoff as u32));
    buf.extend_from_slice(&h32(0)); // e_flags
    buf.extend_from_slice(&h16(ELF_HEADER_SIZE as u16));
    buf.extend_from_slice(&h16(0)); // e_phentsize
    buf.extend_from_slice(&h16(0)); // e_phnum
    buf.extend_from_slice(&h16(SH_ENTRY_SIZE as u16));
    buf.extend_from_slice(&h16(shnum));
    buf.extend_from_slice(&h16(shstrndx));
    assert_eq!(buf.len(), ELF_HEADER_SIZE);

    // Section payloads, then shstrtab, then padding to shoff.
    for s in sections {
        buf.extend_from_slice(&s.data);
    }
    buf.extend_from_slice(&shstrtab);
    buf.resize(shoff, 0);

    // Section header table: null entry, sections, then shstrtab.
    push_sh(&mut buf, be, [0; 10]);
    for (i, s) in sections.iter().enumerate() {
        let size = s.sh_size.unwrap_or(s.data.len() as u32);
        let words = [
            name_offs[i],
            s.sh_type,
            s.sh_flags,
            s.sh_addr,
            data_offs[i],
            size,
            0,
            0,
            4,
            0,
        ];
        push_sh(&mut buf, be, words);
    }
    let words = [
        shstrtab_name,
        3, // SHT_STRTAB
        0,
        0,
        shstrtab_off as u32,
        shstrtab.len() as u32,
        0,
        0,
        1,
        0,
    ];
    push_sh(&mut buf, be, words);
    buf
}

/// A minimal valid RV32 replacement: one `.text` section at `base`, entry at
/// `base`, containing `code`.
fn riscv_replacement(base: u32, code: &[u8]) -> Vec<u8> {
    build_elf32(
        EM_RISCV,
        ELFDATA2LSB,
        base,
        &[Section::code(".text", base, code)],
    )
}

fn err_of(elf: &[u8]) -> String {
    load_replacement(elf).unwrap_err().message()
}

#[test]
fn loads_a_valid_replacement() {
    let img = load_replacement(&riscv_replacement(0x1000, &NOP_WORD)).unwrap();
    assert_eq!(img.base, 0x1000);
    assert_eq!(img.bytes, NOP_WORD);
    assert_eq!(img.exec_ranges, vec![(0, 4)]);
}

#[test]
fn rom_executable_ranges_collects_exec_sections_only() {
    let rom = build_elf32(
        EM_RISCV,
        ELFDATA2LSB,
        0x8000,
        &[
            Section::code(".text", 0x8000, &[0u8; 0x40]),
            Section::rodata(".rodata", 0x9000, &[0u8; 0x10]), // not executable
        ],
    );
    assert_eq!(rom_executable_ranges(&rom).unwrap(), vec![(0x8000, 0x40)]);
}

#[test]
fn rom_executable_ranges_errors_without_code() {
    let rom = build_elf32(
        EM_RISCV,
        ELFDATA2LSB,
        0x8000,
        &[Section::rodata(".rodata", 0x8000, &[0u8; 0x10])],
    );
    assert!(rom_executable_ranges(&rom).is_err());
}

#[test]
fn rom_executable_ranges_rejects_wrong_elf_identity() {
    let mut rom = build_elf32(
        EM_RISCV,
        ELFDATA2LSB,
        0x8000,
        &[Section::code(".text", 0x8000, &[0u8; 0x40])],
    );
    // ELF e_type is a little-endian u16 at bytes 16..18. 1 is ET_REL.
    rom[16..18].copy_from_slice(&1u16.to_le_bytes());
    assert!(rom_executable_ranges(&rom)
        .unwrap_err()
        .message()
        .contains("ET_EXEC"));
}

#[test]
fn flattens_code_and_rodata_with_gap() {
    // .text at 0x1000 (4 B), .rodata at 0x1008 (4 B) -> 12-byte image, gap zeroed.
    let elf = build_elf32(
        EM_RISCV,
        ELFDATA2LSB,
        0x1000,
        &[
            Section::code(".text", 0x1000, &NOP_WORD),
            Section::rodata(".rodata", 0x1008, &[1, 2, 3, 4]),
        ],
    );
    let img = load_replacement(&elf).unwrap();
    assert_eq!(img.bytes.len(), 12);
    assert_eq!(img.exec_ranges, vec![(0, 4)]);
    assert_eq!(&img.bytes[4..8], &[0, 0, 0, 0]); // rodata included; gap zero-filled
}

#[test]
fn the_image_is_the_memory_of_the_file() {
    // Sections come in any order; the image goes by address and ends in whole words.
    let elf = build_elf32(
        EM_RISCV,
        ELFDATA2LSB,
        0x1000,
        &[
            Section::rodata(".rodata", 0x100a, &[1, 2, 3]),
            Section::code(".text", 0x1000, &[0x13, 0, 0, 0]),
            Section::code(".text2", 0x1004, &[0x01, 0x00]),
        ],
    );
    let img = load_replacement(&elf).unwrap();
    assert_eq!(img.base, 0x1000);
    assert_eq!(
        img.bytes,
        [0x13, 0, 0, 0, 0x01, 0, 0, 0, 0, 0, 1, 2, 3, 0, 0, 0]
    );
    assert_eq!(img.exec_ranges, vec![(0, 4), (4, 2)]);
}

#[test]
fn rejects_rodata_only_image() {
    let elf = build_elf32(
        EM_RISCV,
        ELFDATA2LSB,
        0x1000,
        &[Section::rodata(".rodata", 0x1000, &[1, 2, 3, 4])],
    );
    assert!(err_of(&elf).contains("executable section"));
}

#[test]
fn rejects_non_riscv_machine() {
    let elf = build_elf32(
        62, /* x86-64 */
        ELFDATA2LSB,
        0x1000,
        &[Section::code(".text", 0x1000, &NOP_WORD)],
    );
    assert!(err_of(&elf).contains("expected RISC-V"));
}

#[test]
fn rejects_non_executable_elf_type() {
    let mut elf = riscv_replacement(0x1000, &NOP_WORD);
    // ELF e_type is a little-endian u16 at bytes 16..18. 1 is ET_REL.
    elf[16..18].copy_from_slice(&1u16.to_le_bytes());
    assert!(err_of(&elf).contains("ET_EXEC"));
}

#[test]
fn rejects_big_endian() {
    let elf = build_elf32(
        EM_RISCV,
        ELFDATA2MSB,
        0x1000,
        &[Section::code(".text", 0x1000, &NOP_WORD)],
    );
    assert!(err_of(&elf).contains("little-endian"));
}

#[test]
fn rejects_writable_section() {
    let mut data = Section::rodata(".data", 0x1004, &[0, 0, 0, 0]);
    data.sh_flags = SHF_ALLOC | SHF_WRITE;
    let elf = build_elf32(
        EM_RISCV,
        ELFDATA2LSB,
        0x1000,
        &[Section::code(".text", 0x1000, &NOP_WORD), data],
    );
    assert!(err_of(&elf).contains("writable"));
}

#[test]
fn rejects_nobits_bss() {
    let bss = Section {
        name: ".bss",
        sh_type: SHT_NOBITS,
        sh_flags: SHF_ALLOC | SHF_WRITE,
        sh_addr: 0x1004,
        data: Vec::new(),
        sh_size: Some(8),
    };
    let elf = build_elf32(
        EM_RISCV,
        ELFDATA2LSB,
        0x1000,
        &[Section::code(".text", 0x1000, &NOP_WORD), bss],
    );
    assert!(err_of(&elf).contains("NOBITS"));
}

#[test]
fn rejects_tls() {
    let mut tls = Section::rodata(".tdata", 0x1004, &[0, 0, 0, 0]);
    tls.sh_flags = SHF_ALLOC | SHF_TLS;
    let elf = build_elf32(
        EM_RISCV,
        ELFDATA2LSB,
        0x1000,
        &[Section::code(".text", 0x1000, &NOP_WORD), tls],
    );
    assert!(err_of(&elf).contains("TLS"));
}

#[test]
fn rejects_relocations() {
    let rela = Section {
        name: ".rela.text",
        sh_type: SHT_RELA,
        sh_flags: 0,
        sh_addr: 0,
        data: Vec::new(),
        sh_size: None,
    };
    let elf = build_elf32(
        EM_RISCV,
        ELFDATA2LSB,
        0x1000,
        &[Section::code(".text", 0x1000, &NOP_WORD), rela],
    );
    assert!(err_of(&elf).contains("relocations"));
}

#[test]
fn debug_relocations_do_not_count() {
    for name in [".rela.debug_info", ".rel.debug_line"] {
        let rela = Section {
            name,
            sh_type: SHT_RELA,
            sh_flags: 0,
            sh_addr: 0,
            data: Vec::new(),
            sh_size: None,
        };
        let elf = build_elf32(
            EM_RISCV,
            ELFDATA2LSB,
            0x1000,
            &[Section::code(".text", 0x1000, &NOP_WORD), rela],
        );
        assert!(load_replacement(&elf).is_ok());
    }
}

#[test]
fn rejects_entry_not_at_base() {
    // .text at 0x1000 but entry declared at 0x1004.
    let elf = build_elf32(
        EM_RISCV,
        ELFDATA2LSB,
        0x1004,
        &[Section::code(".text", 0x1000, &NOP_WORD)],
    );
    assert!(err_of(&elf).contains("entry point"));
}

#[test]
fn rejects_overlapping_sections() {
    let elf = build_elf32(
        EM_RISCV,
        ELFDATA2LSB,
        0x1000,
        &[
            Section::code(".text", 0x1000, &[0u8; 8]),
            Section::code(".text2", 0x1004, &[0u8; 8]), // overlaps 0x1004..0x1008
        ],
    );
    assert!(err_of(&elf).contains("overlapping"));
}

#[test]
fn rejects_unaligned_base() {
    let elf = build_elf32(
        EM_RISCV,
        ELFDATA2LSB,
        0x1002,
        &[Section::code(".text", 0x1002, &NOP_WORD)],
    );
    assert!(err_of(&elf).contains("4-byte aligned"));
}

#[test]
fn rejects_what_is_no_elf() {
    let e = load_replacement(b"not an ELF file at all").unwrap_err();
    assert!(matches!(e, LoadError::Parse(_)));
    assert_eq!(e.message(), "Failed to parse replacement ELF");
    let e = rom_executable_ranges(b"").unwrap_err();
    assert!(matches!(e, RomLoadError::Parse(_)));
    assert_eq!(e.message(), "Failed to parse ROM ELF");
}

fn section(name: &str, sh_type: u32, sh_flags: u64, sh_addr: u64, at: u64, len: u64) -> elf::Section {
    elf::Section {
        name: Some(name.to_string()),
        sh_type,
        sh_flags,
        sh_addr,
        sh_offset: at,
        sh_size: len,
    }
}

fn headers(entry: u64, sections: Vec<elf::Section>) -> ElfFile {
    ElfFile {
        machine: EM_RISCV,
        class: 1,
        data: ELFDATA2LSB,
        e_type: ET_EXEC,
        entry,
        sections,
    }
}

fn rejection(elf: &ElfFile, file: &[u8]) -> (ReplacementError<String>, String) {
    let e = replacement_image(elf, file).unwrap_err();
    let m = e.message();
    (e, m)
}

#[test]
fn each_rejected_header_has_its_error() {
    let file = [0u8; 16];
    let text = section(".text", 1, 6, 0x1000, 0, 4);

    let (e, m) = rejection(&headers(0x1000, vec![]), &file);
    assert_eq!(e, ReplacementError::NoSections);
    assert_eq!(m, "No sections in replacement ELF");

    let mut elf = headers(0x1000, vec![text.clone()]);
    elf.machine = 62;
    let (e, m) = rejection(&elf, &file);
    assert_eq!(e, ReplacementError::WrongMachine { machine: 62 });
    assert_eq!(
        m,
        "Replacement ELF machine type is 62, expected RISC-V (243)"
    );
    assert_eq!(
        executable_ranges(&elf).unwrap_err(),
        RomElfError::WrongMachine { machine: 62 }
    );

    let mut elf = headers(0x1000, vec![text.clone()]);
    elf.class = 2;
    let (e, m) = rejection(&elf, &file);
    assert_eq!(e, ReplacementError::NotElf32);
    assert_eq!(m, "Replacement ELF must be ELF32/RV32");
    let e = executable_ranges(&elf).unwrap_err();
    assert_eq!(e, RomElfError::NotElf32);
    assert_eq!(e.message(), "ROM ELF must be ELF32/RV32");

    let mut elf = headers(0x1000, vec![text.clone()]);
    elf.data = 2;
    let (e, m) = rejection(&elf, &file);
    assert_eq!(e, ReplacementError::NotLittleEndian);
    assert_eq!(m, "Replacement ELF must be little-endian");
    let e = executable_ranges(&elf).unwrap_err();
    assert_eq!(e, RomElfError::NotLittleEndian);
    assert_eq!(e.message(), "ROM ELF must be little-endian");

    let mut elf = headers(0x1000, vec![text.clone()]);
    elf.e_type = 3;
    let (e, m) = rejection(&elf, &file);
    assert_eq!(e, ReplacementError::NotExecutable { e_type: 3 });
    assert_eq!(
        m,
        "Replacement ELF must be a fully linked executable (ET_EXEC), got e_type 3"
    );
    let e = executable_ranges(&elf).unwrap_err();
    assert_eq!(e, RomElfError::NotExecutable { e_type: 3 });
    assert_eq!(
        e.message(),
        "ROM ELF must be a linked executable (ET_EXEC), got e_type 3"
    );
}

#[test]
fn each_rejected_section_has_its_error() {
    let file = [0u8; 16];
    let text = section(".text", 1, 6, 0x1000, 0, 4);
    let with = |s: elf::Section| headers(0x1000, vec![text.clone(), s]);

    let (e, m) = rejection(&with(section(".rel.text", 9, 0, 0, 0, 0)), &file);
    assert_eq!(
        e,
        ReplacementError::Relocations {
            name: ".rel.text".to_string()
        }
    );
    assert_eq!(m, "Replacement ELF contains relocations (.rel.text); it must be fully linked and relocation-free");

    let (e, m) = rejection(&with(section(".tdata", 1, 0x402, 0x1004, 0, 4)), &file);
    assert_eq!(
        e,
        ReplacementError::Tls {
            name: ".tdata".to_string()
        }
    );
    assert_eq!(
        m,
        "Replacement ELF has a TLS section (.tdata); TLS is not allowed"
    );

    let (e, m) = rejection(&with(section(".bss", 8, 3, 0x1004, 0, 4)), &file);
    assert_eq!(
        e,
        ReplacementError::NoBits {
            name: ".bss".to_string()
        }
    );
    assert_eq!(m, "Replacement ELF has a NOBITS allocatable section (.bss); .bss-style state is not allowed");

    let mut data = section(".data", 1, 3, 0x1004, 0, 4);
    data.name = None;
    let (e, m) = rejection(&with(data), &file);
    assert_eq!(
        e,
        ReplacementError::Writable {
            name: "<unknown>".to_string()
        }
    );
    assert_eq!(m, "Replacement ELF has a writable allocatable section (<unknown>); .data / mutable globals are not allowed");

    let (e, m) = rejection(&with(section(".rodata", 1, 2, 0x1004, 13, 4)), &file);
    assert_eq!(
        e,
        ReplacementError::PastEndOfFile {
            name: ".rodata".to_string()
        }
    );
    assert_eq!(
        m,
        "Replacement ELF section .rodata extends past end of file"
    );
    let (e, _) = rejection(
        &with(section(".rodata", 1, 2, 0x1004, u64::MAX, u64::MAX)),
        &file,
    );
    assert!(matches!(e, ReplacementError::PastEndOfFile { .. }));
}

#[test]
fn each_rejected_layout_has_its_error() {
    let file = [0u8; 16];
    let text = section(".text", 1, 6, 0x1000, 0, 4);

    let (e, m) = rejection(&headers(0, vec![section(".note", 7, 2, 0, 0, 4)]), &file);
    assert_eq!(e, ReplacementError::NothingToLoad);
    assert_eq!(m, "Replacement ELF has no allocatable code/rodata sections");

    let (e, m) = rejection(
        &headers(0x1001, vec![section(".text", 1, 6, 0x1001, 0, 4)]),
        &file,
    );
    assert_eq!(e, ReplacementError::BaseUnaligned { base: 0x1001 });
    assert_eq!(m, "Replacement image base (0x1001) is not 4-byte aligned");

    let (e, m) = rejection(
        &headers(0, vec![section(".text", 1, 6, u64::MAX - 3, 0, 8)]),
        &file,
    );
    assert_eq!(e, ReplacementError::AddressOverflow);
    assert_eq!(m, "Replacement ELF section address overflows");

    let (e, m) = rejection(
        &headers(
            0x1000,
            vec![text.clone(), section(".text2", 1, 6, 0x1002, 4, 4)],
        ),
        &file,
    );
    assert_eq!(e, ReplacementError::Overlap { addr: 0x1002 });
    assert_eq!(
        m,
        "Replacement ELF has overlapping allocatable sections near 0x1002"
    );

    let (e, m) = rejection(
        &headers(
            0x1000,
            vec![text.clone(), section(".far", 1, 2, 0x10_1000, 4, 4)],
        ),
        &file,
    );
    assert_eq!(e, ReplacementError::TooLarge { len: 0x10_0004 });
    assert_eq!(m, "Replacement ELF flattened image is 1048580 bytes, exceeds the 1048576-byte safety cap");

    let (e, m) = rejection(
        &headers(0x1000, vec![section(".rodata", 1, 2, 0x1000, 0, 4)]),
        &file,
    );
    assert_eq!(e, ReplacementError::NoLeadingCode);
    assert_eq!(
        m,
        "Replacement image must start with a non-empty executable section"
    );

    let (e, m) = rejection(&headers(0x1004, vec![text.clone()]), &file);
    assert_eq!(
        e,
        ReplacementError::EntryNotAtBase {
            entry: 0x1004,
            base: 0x1000
        }
    );
    assert_eq!(m, "Replacement entry point (0x1004) is not at the image base (0x1000); patch_fn must be placed first (e.g. ENTRY(patch_fn) and a linker script that emits it at the lowest address)");
}

#[test]
fn the_largest_image_loads() {
    let mut file = vec![0u8; 8];
    file[0] = 0x13;
    file[7] = 9;
    let img = replacement_image(
        &headers(
            0x1000,
            vec![
                section(".text", 1, 6, 0x1000, 0, 4),
                section(".far", 1, 2, 0x1000 + 0x10_0000 - 4, 4, 4),
            ],
        ),
        &file,
    )
    .unwrap();
    assert_eq!(img.bytes.len(), MAX_FLATTENED_IMAGE_BYTES);
    assert_eq!(img.bytes[0], 0x13);
    assert_eq!(img.bytes[MAX_FLATTENED_IMAGE_BYTES - 1], 9);
    assert_eq!(img.bytes.iter().filter(|b| **b != 0).count(), 2);
}

#[test]
fn rom_ranges_are_the_executable_sections() {
    let elf = headers(
        0,
        vec![
            section(".text", 1, 6, 0x8000, 0, 0x40),
            section(".empty", 1, 6, 0x9000, 0, 0),
            section(".rodata", 1, 2, 0x9000, 0, 0x10),
            section(".bss", 8, 6, 0x9000, 0, 0x10),
            section(".boot", 1, 6, 0x100, 0, 0x20),
        ],
    );
    assert_eq!(
        executable_ranges(&elf).unwrap(),
        vec![(0x8000, 0x40), (0x100, 0x20)]
    );

    let elf = headers(0, vec![section(".text", 1, 6, 1 << 32, 0, 4)]);
    let e = executable_ranges(&elf).unwrap_err();
    assert_eq!(e, RomElfError::AddressTooLarge);
    assert_eq!(
        e.message(),
        "ROM ELF executable section address exceeds 32 bits"
    );

    let elf = headers(0, vec![section(".text", 1, 6, 0, 0, 1 << 32)]);
    let e = executable_ranges(&elf).unwrap_err();
    assert_eq!(e, RomElfError::SizeTooLarge);
    assert_eq!(
        e.message(),
        "ROM ELF executable section size exceeds 32 bits"
    );

    let e = executable_ranges(&headers(0, vec![])).unwrap_err();
    assert_eq!(e, RomElfError::NoCode);
    assert_eq!(
        e.message(),
        "ROM ELF has no executable (SHF_EXECINSTR) sections"
    );
}

#[test]
fn section_order_plays_no_part() {
    let rodata = || Section::rodata(".rodata", 0x1008, &[1, 2, 3, 4]);
    let text = || Section::code(".text", 0x1000, &NOP_WORD);
    let text2 = || Section::code(".text2", 0x1004, &[0x01, 0x00]);
    let load = |sections: &[Section]| {
        load_replacement(&build_elf32(EM_RISCV, ELFDATA2LSB, 0x1000, sections)).unwrap()
    };
    let a = load(&[text(), text2(), rodata()]);
    for b in [
        load(&[rodata(), text2(), text()]),
        load(&[text2(), rodata(), text()]),
    ] {
        assert_eq!(a.base, b.base);
        assert_eq!(a.bytes, b.bytes);
        assert_eq!(a.exec_ranges, b.exec_ranges);
    }
    let overlapping = || Section::code(".text3", 0x1002, &NOP_WORD);
    for sections in [[text(), overlapping()], [overlapping(), text()]] {
        let elf = build_elf32(EM_RISCV, ELFDATA2LSB, 0x1000, &sections);
        assert!(load_replacement(&elf).is_err());
    }
}
