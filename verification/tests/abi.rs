use caliptra_rom_patch::abi::AbiPolicy;
use caliptra_rom_patch::csr_scan::PrivKind;

#[test]
fn v1_forbids_ebreak_and_returns_but_not_ecall() {
    let p = AbiPolicy::for_version(1).unwrap();
    assert!(p.is_forbidden(PrivKind::Ebreak));
    assert!(p.is_forbidden(PrivKind::Mret));
    assert!(p.is_forbidden(PrivKind::Wfi));
    assert!(!p.is_forbidden(PrivKind::Ecall));
}

#[test]
fn v1_forbids_every_trap_return() {
    let p = AbiPolicy::for_version(1).unwrap();
    assert_eq!(p.version, 1);
    assert!(p.is_forbidden(PrivKind::Sret));
    assert!(p.is_forbidden(PrivKind::Dret));
}

#[test]
fn v1_allows_no_csr_writes() {
    let p = AbiPolicy::for_version(1).unwrap();
    assert!(!p.csr_write_allowed(0x300));
}

#[test]
fn a_policy_goes_by_its_lists() {
    let p = AbiPolicy {
        version: 9,
        allowed_csr_writes: vec![0x300, 0x7c0],
        forbidden: vec![PrivKind::Ecall],
    };
    assert!(p.csr_write_allowed(0x7c0));
    assert!(!p.csr_write_allowed(0x301));
    assert!(p.is_forbidden(PrivKind::Ecall));
    assert!(!p.is_forbidden(PrivKind::Ebreak));
}

#[test]
fn unknown_version_is_rejected() {
    assert!(AbiPolicy::for_version(2).is_err());
    assert!(AbiPolicy::for_version(0).is_err());
}

#[test]
fn unknown_version_is_named() {
    let e = AbiPolicy::for_version(255).err().unwrap();
    assert_eq!(e.version, 255);
    assert_eq!(
        e.message(),
        "unsupported patch ABI version 255 (supported: 1)"
    );
}
