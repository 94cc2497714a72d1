use caliptra_rom_patch::signer::{PatchSigner, SeedSigner};
use ed25519_dalek::{Signature, Signer, SigningKey, Verifier, VerifyingKey};

#[test]
fn a_seed_has_32_bytes() {
    assert!(SeedSigner::from_seed_bytes(&[1u8; 32]).is_ok());
    let e = SeedSigner::from_seed_bytes(&[1u8; 31]).err().unwrap();
    assert_eq!(e.len, 31);
    assert_eq!(
        e.message(),
        "signing key must be a raw 32-byte Ed25519 seed, got 31 bytes"
    );
    let e = SeedSigner::from_seed_bytes(&[]).err().unwrap();
    assert_eq!(
        e.message(),
        "signing key must be a raw 32-byte Ed25519 seed, got 0 bytes"
    );
    assert!(SeedSigner::from_seed_bytes(&[1u8; 64]).is_err());
}

#[test]
fn a_seed_signs_with_its_own_key() {
    let mut seed = [0u8; 32];
    for (i, b) in seed.iter_mut().enumerate() {
        *b = i as u8;
    }
    let signer = SeedSigner::from_seed_bytes(&seed).unwrap();
    let key = SigningKey::from_bytes(&seed);
    assert_eq!(
        signer.public_key().unwrap(),
        key.verifying_key().to_bytes()
    );
    assert_eq!(
        signer.sign(b"payload").unwrap(),
        key.sign(b"payload").to_bytes()
    );
}

#[test]
fn a_known_answer() {
    // The empty message under the well-known first test seed of the scheme.
    let seed: [u8; 32] = [
        0x9d, 0x61, 0xb1, 0x9d, 0xef, 0xfd, 0x5a, 0x60, 0xba, 0x84, 0x4a, 0xf4, 0x92, 0xec, 0x2c,
        0xc4, 0x44, 0x49, 0xc5, 0x69, 0x7b, 0x32, 0x69, 0x19, 0x70, 0x3b, 0xac, 0x03, 0x1c, 0xae,
        0x7f, 0x60,
    ];
    let signer = SeedSigner::from_seed_bytes(&seed).unwrap();
    assert_eq!(
        signer.public_key().unwrap()[..4],
        [0xd7, 0x5a, 0x98, 0x01]
    );
    assert_eq!(signer.sign(b"").unwrap()[..4], [0xe5, 0x56, 0x43, 0x00]);
}

#[test]
fn a_signature_verifies_under_the_published_key() {
    let signer = SeedSigner::from_seed_bytes(&[3u8; 32]).unwrap();
    let vk = VerifyingKey::from_bytes(&signer.public_key().unwrap()).unwrap();
    let sig = Signature::from_bytes(&signer.sign(b"abc").unwrap());
    assert!(vk.verify(b"abc", &sig).is_ok());
    assert!(vk.verify(b"abd", &sig).is_err());
}

#[test]
fn signing_is_deterministic() {
    let a = SeedSigner::from_seed_bytes(&[3u8; 32]).unwrap();
    let b = SeedSigner::from_seed_bytes(&[3u8; 32]).unwrap();
    assert_eq!(a.sign(b"abc").unwrap(), b.sign(b"abc").unwrap());
    assert_eq!(a.public_key().unwrap(), b.public_key().unwrap());
}
