use caliptra_rom_patch::block::{
    attach_signature, encode_header, pack_and_sign, verify_block, BlockError, BlockParams,
    PackError, CODE_OFFSET, MAGIC, PAYLOAD_OFFSET, SIGNATURE_SIZE,
};
use caliptra_rom_patch::signer::{PatchSigner, SeedSigner, SignerError};
use ed25519_dalek::{Signature, Verifier, VerifyingKey};

fn test_key() -> SeedSigner {
    // Fixed seed -> deterministic signatures, no RNG needed.
    SeedSigner::from_seed_bytes(&[7u8; 32]).unwrap()
}

#[test]
fn header_encoding() {
    assert_eq!(encode_header(1, false), 0xA501_0000);
    assert_eq!(encode_header(1, true), 0xA501_0001);
    assert_eq!(encode_header(0xFF, true), 0xA5FF_0001);
    // Only magic, version, and bit 0 are ever set; bits 15:1 stay zero.
    assert_eq!(encode_header(2, false) & 0x0000_FFFE, 0);
}

fn sample(code_words: usize) -> BlockParams {
    BlockParams {
        version: 1,
        critical: false,
        target: 0x0000_1040,
        resume_offset: 1,
        code: [0x13, 0x00, 0x00, 0x00].repeat(code_words), // `nop` words
    }
}

#[test]
fn layout_and_fields() {
    let p = sample(3);
    let block = pack_and_sign(&p, &test_key(), None).unwrap();

    assert_eq!(block.len(), CODE_OFFSET + 12); // 76 + 3*4
                                               // Signature occupies [0, 64). Header at 0x40.
    let header = u32::from_le_bytes(block[0x40..0x44].try_into().unwrap());
    assert_eq!(header, 0xA501_0000);
    // Target at 0x44.
    assert_eq!(
        u32::from_le_bytes(block[0x44..0x48].try_into().unwrap()),
        0x0000_1040
    );
    // Resume offset at 0x48.
    assert_eq!(u16::from_le_bytes(block[0x48..0x4A].try_into().unwrap()), 1);
    // Code size (words) at 0x4A.
    assert_eq!(u16::from_le_bytes(block[0x4A..0x4C].try_into().unwrap()), 3);
}

#[test]
fn fields_of_many_bytes_are_little_endian() {
    let p = BlockParams {
        version: 0x12,
        critical: true,
        target: 0x8765_4320,
        resume_offset: 0xabcd,
        code: [1u8, 2, 3, 4].repeat(0x0102),
    };
    let payload = p.encode_payload();
    assert_eq!(
        payload[..16],
        [0x01, 0x00, 0x12, 0xA5, 0x20, 0x43, 0x65, 0x87, 0xcd, 0xab, 0x02, 0x01, 1, 2, 3, 4]
    );
    assert_eq!(payload[12..], p.code[..]);
    assert_eq!(p.code_words(), 0x0102);
}

#[test]
fn signature_verifies_over_payload() {
    let p = sample(2);
    let key = test_key();
    let block = pack_and_sign(&p, &key, None).unwrap();

    let vk = VerifyingKey::from_bytes(&key.public_key().unwrap()).unwrap();
    let sig = Signature::from_bytes(block[..64].try_into().unwrap());
    // Verifies over exactly bytes 0x40..end.
    assert!(vk.verify_strict(&block[PAYLOAD_OFFSET..], &sig).is_ok());
    // Tampering with the payload breaks verification.
    let mut tampered = block.clone();
    tampered[CODE_OFFSET] ^= 0xFF;
    let sig2 = Signature::from_bytes(tampered[..64].try_into().unwrap());
    assert!(vk.verify(&tampered[PAYLOAD_OFFSET..], &sig2).is_err());
}

#[test]
fn rejects_resume_offset_zero() {
    let mut p = sample(1);
    p.resume_offset = 0;
    assert!(pack_and_sign(&p, &test_key(), None).is_err());
}

#[test]
fn rejects_empty_code() {
    let mut p = sample(1);
    p.code.clear();
    assert!(pack_and_sign(&p, &test_key(), None).is_err());
}

#[test]
fn rejects_unaligned_code() {
    let mut p = sample(1);
    p.code.push(0x00); // now 5 bytes
    assert!(pack_and_sign(&p, &test_key(), None).is_err());
}

#[test]
fn rejects_unaligned_target() {
    let mut p = sample(1);
    p.target = 0x1042;
    assert!(pack_and_sign(&p, &test_key(), None).is_err());
}

#[test]
fn rejects_resume_address_overflow() {
    let mut p = sample(1);
    p.target = 0xffff_fffc;
    p.resume_offset = 1;
    assert!(pack_and_sign(&p, &test_key(), None).is_err());
}

#[test]
fn rejects_code_exceeding_slot() {
    let p = sample(2); // 8 bytes of code
                       // Slot allows at most 4 bytes of code.
    assert!(pack_and_sign(&p, &test_key(), Some(4)).is_err());
    assert!(pack_and_sign(&p, &test_key(), Some(8)).is_ok());
}

#[test]
fn each_unfit_parameter_has_its_error() {
    let mut p = sample(1);
    p.target = 0x1042;
    let e = p.validate(None).unwrap_err();
    assert_eq!(e, BlockError::TargetUnaligned { target: 0x1042 });
    assert_eq!(e.message(), "target address 0x1042 is not 4-byte aligned");

    let mut p = sample(1);
    p.resume_offset = 0;
    let e = p.validate(None).unwrap_err();
    assert_eq!(e, BlockError::ResumeZero);
    assert_eq!(
        e.message(),
        "resume_offset must be non-zero (would be an infinite trap loop)"
    );

    let mut p = sample(1);
    p.target = 0xffff_fffc;
    let e = p.validate(None).unwrap_err();
    assert_eq!(e, BlockError::ResumeOverflow);
    assert_eq!(e.message(), "resume address overflows u32");

    let e = sample(0).validate(None).unwrap_err();
    assert_eq!(e, BlockError::EmptyCode);
    assert_eq!(
        e.message(),
        "code_size must be non-zero (no replacement code)"
    );

    let mut p = sample(1);
    p.code.push(0);
    let e = p.validate(None).unwrap_err();
    assert_eq!(e, BlockError::CodeUnaligned { len: 5 });
    assert_eq!(e.message(), "code length 5 is not a multiple of 4 bytes");

    let e = sample(65536).validate(None).unwrap_err();
    assert_eq!(e, BlockError::TooManyWords { words: 65536 });
    assert_eq!(
        e.message(),
        "code is 65536 words, exceeds the 65535-word field"
    );

    let e = sample(2).validate(Some(7)).unwrap_err();
    assert_eq!(e, BlockError::ExceedsSlot { len: 8, max: 7 });
    assert_eq!(
        e.message(),
        "code is 8 bytes but the slot allows at most 7 bytes of code"
    );
}

#[test]
fn the_largest_code_size_fits() {
    let p = sample(65535);
    assert_eq!(p.validate(None), Ok(()));
    assert_eq!(p.code_words(), 65535);
    assert_eq!(sample(65536).code_words(), 0);
}

#[test]
fn the_last_word_can_be_resumed_at() {
    let mut p = sample(1);
    p.target = 0xffff_fff8;
    assert_eq!(p.validate(None), Ok(()));
}

#[test]
fn packing_is_deterministic() {
    let a = pack_and_sign(&sample(2), &test_key(), None).unwrap();
    let b = pack_and_sign(&sample(2), &test_key(), None).unwrap();
    assert_eq!(a, b);
    let other = SeedSigner::from_seed_bytes(&[8u8; 32]).unwrap();
    let c = pack_and_sign(&sample(2), &other, None).unwrap();
    assert_ne!(a[..SIGNATURE_SIZE], c[..SIGNATURE_SIZE]);
    assert_eq!(a[PAYLOAD_OFFSET..], c[PAYLOAD_OFFSET..]);
}

#[test]
fn different_parameters_give_different_payloads() {
    let base = sample(1).encode_payload();
    let mut p = sample(1);
    p.version = 2;
    assert_ne!(p.encode_payload(), base);
    let mut p = sample(1);
    p.critical = true;
    assert_ne!(p.encode_payload(), base);
    let mut p = sample(1);
    p.target += 4;
    assert_ne!(p.encode_payload(), base);
    let mut p = sample(1);
    p.resume_offset += 1;
    assert_ne!(p.encode_payload(), base);
    assert_ne!(sample(2).encode_payload(), base);
}

#[test]
fn a_padded_slot_reads_back() {
    let key = test_key();
    let block = pack_and_sign(&sample(3), &key, Some(256 - CODE_OFFSET)).unwrap();
    assert!(block.len() <= 256 && block.len() >= 80 && block.len() % 4 == 0);
    assert_eq!(block[0x43], MAGIC);
    let mut slot = block.clone();
    slot.resize(256, 0);
    let words = u16::from_le_bytes(slot[0x4A..0x4C].try_into().unwrap()) as usize;
    let signed = &slot[PAYLOAD_OFFSET..CODE_OFFSET + 4 * words];
    assert_eq!(signed, &block[PAYLOAD_OFFSET..]);
    let vk = VerifyingKey::from_bytes(&key.public_key().unwrap()).unwrap();
    let sig = Signature::from_bytes(slot[..64].try_into().unwrap());
    assert!(vk.verify(signed, &sig).is_ok());
}

#[test]
fn a_signature_goes_in_front() {
    let block = attach_signature(Ok([5u8; 64]), &[1, 2, 3]).unwrap();
    assert_eq!(block[..64], [5u8; 64]);
    assert_eq!(block[64..], [1, 2, 3]);
    let e = attach_signature(
        Err(SignerError {
            message: "no token".to_string(),
        }),
        &[1],
    )
    .unwrap_err();
    assert_eq!(e.message(), "no token");
    assert!(matches!(e, PackError::Signer(_)));
}

struct Absent;

impl PatchSigner for Absent {
    fn sign(&self, _payload: &[u8]) -> Result<[u8; 64], SignerError> {
        Err(SignerError {
            message: "HSM is away".to_string(),
        })
    }

    fn public_key(&self) -> Result<[u8; 32], SignerError> {
        Err(SignerError {
            message: "HSM is away".to_string(),
        })
    }
}

#[test]
fn a_signer_may_refuse() {
    let e = pack_and_sign(&sample(1), &Absent, None).unwrap_err();
    assert_eq!(e.message(), "HSM is away");
    // Unfit parameters never reach the signer.
    let e = pack_and_sign(&sample(0), &Absent, None).unwrap_err();
    assert!(matches!(e, PackError::Invalid(BlockError::EmptyCode)));
    assert_eq!(
        e.message(),
        "code_size must be non-zero (no replacement code)"
    );
}

#[test]
fn any_signer_will_do() {
    let key = test_key();
    let signer: &dyn PatchSigner = &key;
    assert_eq!(
        pack_and_sign(&sample(1), signer, None).unwrap(),
        pack_and_sign(&sample(1), &key, None).unwrap()
    );
}

#[test]
fn a_packed_block_verifies() {
    let key = test_key();
    let public = key.public_key().unwrap();
    let block = pack_and_sign(&sample(2), &key, None).unwrap();
    assert!(verify_block(&public, &block));
    // Every part of the block counts.
    for i in [0, 31, 32, 63, 0x40, 0x44, 0x48, 0x4A, CODE_OFFSET, block.len() - 1] {
        let mut tampered = block.clone();
        tampered[i] ^= 1;
        assert!(!verify_block(&public, &tampered), "{i}");
    }
    assert!(!verify_block(&public, &block[..block.len() - 1]));
    let mut longer = block.clone();
    longer.push(0);
    assert!(!verify_block(&public, &longer));
}

#[test]
fn a_block_verifies_under_its_own_key_only() {
    let block = pack_and_sign(&sample(1), &test_key(), None).unwrap();
    let other = SeedSigner::from_seed_bytes(&[8u8; 32]).unwrap();
    assert!(!verify_block(&other.public_key().unwrap(), &block));
    // No point of the curve has this encoding.
    let mut no_key = [0u8; 32];
    no_key[0] = 2;
    assert!(VerifyingKey::from_bytes(&no_key).is_err());
    assert!(!verify_block(&no_key, &block));
}

#[test]
fn what_is_shorter_than_a_signature_does_not_verify() {
    let public = test_key().public_key().unwrap();
    assert!(!verify_block(&public, &[]));
    assert!(!verify_block(&public, &[0u8; 63]));
    // A signature over nothing is a block of 64 bytes.
    let empty = test_key().sign(&[]).unwrap();
    assert!(verify_block(&public, &empty));
}
