use caliptra_rom_patch::csr_scan::{
    scan_executable, CsrWrite, PrivInstr, PrivKind, ScanError, OPCODE_SYSTEM,
};

/// Encode a 32-bit CSR instruction.
fn csr_insn(funct3: u32, rd: u32, rs1: u32, csr: u32) -> [u8; 4] {
    let word = (csr << 20) | (rs1 << 15) | (funct3 << 12) | (rd << 7) | OPCODE_SYSTEM;
    word.to_le_bytes()
}

const MSTATUS: u32 = 0x300;

fn writes(bytes: &[u8]) -> Vec<CsrWrite> {
    scan_executable(bytes, &[(0, bytes.len())])
        .unwrap()
        .csr_writes
}

fn privs(bytes: &[u8]) -> Vec<PrivInstr> {
    scan_executable(bytes, &[(0, bytes.len())])
        .unwrap()
        .priv_instrs
}

#[test]
fn csrrw_is_always_a_write() {
    let w = writes(&csr_insn(0b001, 0, 1, MSTATUS)); // csrrw x0, mstatus, x1
    assert_eq!(w.len(), 1);
    assert_eq!(w[0].mnemonic, "csrrw");
    assert_eq!(w[0].csr, MSTATUS as u16);
}

#[test]
fn csrrwi_is_always_a_write() {
    let w = writes(&csr_insn(0b101, 0, 0, MSTATUS));
    assert_eq!(w.len(), 1);
    assert_eq!(w[0].mnemonic, "csrrwi");
}

#[test]
fn csrrs_with_rs1_zero_is_a_read() {
    // csrrs x5, mstatus, x0 == csrr x5, mstatus -> pure read
    assert!(writes(&csr_insn(0b010, 5, 0, MSTATUS)).is_empty());
}

#[test]
fn csrrs_with_rs1_nonzero_is_a_write() {
    let w = writes(&csr_insn(0b010, 5, 6, MSTATUS));
    assert_eq!(w.len(), 1);
    assert_eq!(w[0].mnemonic, "csrrs");
}

#[test]
fn csrrc_and_csrrsi_follow_their_source_field() {
    let w = writes(&csr_insn(0b011, 5, 31, 0xfff));
    assert_eq!(
        w,
        [CsrWrite {
            offset: 0,
            csr: 0xfff,
            mnemonic: "csrrc"
        }]
    );
    assert!(writes(&csr_insn(0b011, 5, 0, 0xfff)).is_empty());
    let w = writes(&csr_insn(0b110, 5, 1, 0));
    assert_eq!(w[0].mnemonic, "csrrsi");
    assert_eq!(w[0].csr, 0);
    assert!(writes(&csr_insn(0b110, 5, 0, 0)).is_empty());
}

#[test]
fn funct3_four_is_no_csr_instruction() {
    assert!(writes(&csr_insn(0b100, 0, 1, MSTATUS)).is_empty());
    assert!(privs(&csr_insn(0b100, 0, 1, MSTATUS)).is_empty());
}

#[test]
fn csrrci_with_zero_uimm_is_a_read() {
    assert!(writes(&csr_insn(0b111, 0, 0, MSTATUS)).is_empty());
}

#[test]
fn csrrci_with_nonzero_uimm_is_a_write() {
    let w = writes(&csr_insn(0b111, 0, 0x1f, MSTATUS));
    assert_eq!(w.len(), 1);
    assert_eq!(w[0].mnemonic, "csrrci");
}

#[test]
fn privileged_instructions_are_decoded() {
    for (word, kind) in [
        (0x0000_0073u32, PrivKind::Ecall),
        (0x0010_0073, PrivKind::Ebreak),
        (0x1050_0073, PrivKind::Wfi),
        (0x3020_0073, PrivKind::Mret),
        (0x1020_0073, PrivKind::Sret),
        (0x7b20_0073, PrivKind::Dret),
    ] {
        let p = privs(&word.to_le_bytes());
        assert_eq!(p, [PrivInstr { offset: 0, kind }], "{}", kind.mnemonic());
        // None of these are CSR writes.
        assert!(writes(&word.to_le_bytes()).is_empty());
    }
}

#[test]
fn walks_mixed_compressed_and_full_width() {
    // c.nop, then csrrw x0, mstatus, x1, then c.nop. A naive 4-byte window
    // would misalign on the compressed instructions.
    let mut buf = Vec::new();
    buf.extend_from_slice(&0x0001u16.to_le_bytes()); // c.nop
    buf.extend_from_slice(&csr_insn(0b001, 0, 1, MSTATUS)); // csrrw
    buf.extend_from_slice(&0x0001u16.to_le_bytes()); // c.nop
    let w = writes(&buf);
    assert_eq!(w.len(), 1);
    assert_eq!(w[0].offset, 2);
}

#[test]
fn truncated_32bit_instruction_errors() {
    let buf = [0x73u8, 0x00]; // low bits 0b11 -> expects 4 bytes
    assert!(scan_executable(&buf, &[(0, buf.len())]).is_err());
}

#[test]
fn each_malformed_stream_has_its_error() {
    let e = scan_executable(&[0x01, 0x00, 0x73, 0x00], &[(0, 4)]).unwrap_err();
    assert_eq!(e, ScanError::TruncatedWord { offset: 2 });
    assert_eq!(e.message(), "truncated 32-bit instruction at offset 0x2");

    let e = scan_executable(&[0x01, 0x00, 0x01], &[(0, 3)]).unwrap_err();
    assert_eq!(e, ScanError::Truncated { offset: 2 });
    assert_eq!(
        e.message(),
        "truncated instruction at offset 0x2 (1 byte before end of section)"
    );

    let e = scan_executable(&[0x1f, 0x00, 0x00, 0x00, 0x00, 0x00], &[(0, 6)]).unwrap_err();
    assert_eq!(e, ScanError::Wide { offset: 0 });
    assert_eq!(
        e.message(),
        "unsupported wide (>=48-bit) instruction at offset 0x0"
    );

    let e = scan_executable(&[0u8; 8], &[(4, 0x10)]).unwrap_err();
    assert_eq!(
        e,
        ScanError::RangeOutside {
            start: 4,
            end: 0x14,
            image_len: 8
        }
    );
    assert_eq!(
        e.message(),
        "executable range 0x4..0x14 exceeds image length 8"
    );

    let e = scan_executable(&[0u8; 8], &[(2, usize::MAX)]).unwrap_err();
    assert_eq!(
        e,
        ScanError::RangeOverflow {
            start: 2,
            len: usize::MAX
        }
    );
    assert_eq!(
        e.message(),
        format!("executable range 0x2 length {:#x} overflows", usize::MAX)
    );
}

#[test]
fn the_first_bad_range_decides() {
    let e = scan_executable(&[0x73, 0x00, 0x01], &[(0, 2), (0, 9)]).unwrap_err();
    assert_eq!(e, ScanError::TruncatedWord { offset: 0 });
}

#[test]
fn data_is_not_scanned() {
    // An ebreak between two ranges of nops is data.
    let mut buf = Vec::new();
    buf.extend_from_slice(&[0x13, 0, 0, 0]);
    buf.extend_from_slice(&0x0010_0073u32.to_le_bytes());
    buf.extend_from_slice(&[0x13, 0, 0, 0]);
    let found = scan_executable(&buf, &[(0, 4), (8, 4)]).unwrap();
    assert!(found.csr_writes.is_empty());
    assert!(found.priv_instrs.is_empty());
    let found = scan_executable(&buf, &[(0, 12)]).unwrap();
    assert_eq!(
        found.priv_instrs,
        [PrivInstr {
            offset: 4,
            kind: PrivKind::Ebreak
        }]
    );
}

#[test]
fn no_ranges_no_findings() {
    let found = scan_executable(&0x0010_0073u32.to_le_bytes(), &[]).unwrap();
    assert!(found.csr_writes.is_empty() && found.priv_instrs.is_empty());
}

#[test]
fn what_follows_the_ranges_does_not_count() {
    let code = csr_insn(0b001, 0, 1, MSTATUS);
    let mut longer = code.to_vec();
    longer.extend_from_slice(&0x0010_0073u32.to_le_bytes());
    assert_eq!(
        scan_executable(&code, &[(0, 4)]),
        scan_executable(&longer, &[(0, 4)])
    );
}
