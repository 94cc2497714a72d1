//! Patch signing.
//!
//! The packer signs through a [`PatchSigner`], so the in-process raw-seed signer
//! used for bring-up can be swapped for a production backend (an HSM, Caliptra
//! key provisioning) without touching the block-packing logic.

use crate::text::push_decimal;
use ed25519_dalek::{Signature, Signer, SigningKey, Verifier, VerifyingKey};
use vstd::prelude::*;

verus! {

/// Why a signer returned no signature or no key.
#[derive(Debug, Clone)]
pub struct SignerError {
    pub message: String,
}

/// Signs a patch payload with pure Ed25519.
///
/// A backend says by the spec functions which outcomes it can have (any, unless
/// it says otherwise); callers learn of an outcome that it is one of these.
pub trait PatchSigner {
    /// Whether `signature` may be returned for `payload`.
    open spec fn may_sign(&self, payload: Seq<u8>, signature: Seq<u8>) -> bool {
        true
    }

    /// Whether `payload` may be refused with this message.
    open spec fn may_refuse(&self, payload: Seq<u8>, message: Seq<char>) -> bool {
        true
    }

    /// Whether `key` may be returned as the public key.
    open spec fn may_publish(&self, key: Seq<u8>) -> bool {
        true
    }

    /// Whether the public key may be withheld with this message.
    open spec fn may_withhold(&self, message: Seq<char>) -> bool {
        true
    }

    /// Returns the 64-byte Ed25519 signature over `payload`.
    fn sign(&self, payload: &[u8]) -> (r: Result<[u8; 64], SignerError>)
        ensures
            match r {
                Ok(signature) => self.may_sign(payload@, signature@),
                Err(e) => self.may_refuse(payload@, e.message@),
            },
    ;

    /// Returns the 32-byte Ed25519 public key (for provisioning).
    fn public_key(&self) -> (r: Result<[u8; 32], SignerError>)
        ensures
            match r {
                Ok(key) => self.may_publish(key@),
                Err(e) => self.may_withhold(e.message@),
            },
    ;
}

/// The signature that `ed25519_dalek`'s `SigningKey` of a 32-byte seed gives for
/// a message.
pub uninterp spec fn ed25519_signature(seed: Seq<u8>, message: Seq<u8>) -> Seq<u8>;

/// The public key of `ed25519_dalek`'s `SigningKey` of a 32-byte seed.
pub uninterp spec fn ed25519_public_key(seed: Seq<u8>) -> Seq<u8>;

/// Whether `ed25519_dalek` reads `public_key` as a `VerifyingKey` and that key's
/// `verify` accepts `signature` for `message`.
pub uninterp spec fn ed25519_verifies(
    public_key: Seq<u8>,
    message: Seq<u8>,
    signature: Seq<u8>,
) -> bool;

/// Calls `SigningKey::sign` of `ed25519_dalek`.
///
/// Trusted: the signature depends on the seed and the message alone (Ed25519
/// draws no random numbers), and `VerifyingKey::verify` accepts it under the
/// public key of that seed. Nothing is claimed of `verify_strict`, which also
/// refuses points of small order.
#[verifier::external_body]
fn ed25519_sign(seed: &[u8; 32], message: &[u8]) -> (signature: [u8; 64])
    ensures
        signature@ == ed25519_signature(seed@, message@),
        ed25519_verifies(ed25519_public_key(seed@), message@, signature@),
{
    SigningKey::from_bytes(seed).sign(message).to_bytes()
}

/// Calls `SigningKey::verifying_key` of `ed25519_dalek`.
///
/// Trusted: the key depends on the seed alone.
#[verifier::external_body]
fn ed25519_derive_public_key(seed: &[u8; 32]) -> (key: [u8; 32])
    ensures
        key@ == ed25519_public_key(seed@),
{
    SigningKey::from_bytes(seed).verifying_key().to_bytes()
}

/// Calls `VerifyingKey::from_bytes` and `VerifyingKey::verify` of
/// `ed25519_dalek`.
///
/// Trusted: whether the key is read and the signature accepted depends on the
/// three arguments alone.
#[verifier::external_body]
pub(crate) fn ed25519_verify(key: &[u8; 32], message: &[u8], signature: &[u8; 64]) -> (ok: bool)
    ensures
        ok == ed25519_verifies(key@, message@, signature@),
{
    match VerifyingKey::from_bytes(key) {
        Ok(key) => key.verify(message, &Signature::from_bytes(signature)).is_ok(),
        Err(_) => false,
    }
}

/// A signing key whose length is not that of a seed.
#[derive(Debug, Clone, Copy, PartialEq, Eq, Structural)]
pub struct SeedLengthError {
    pub len: usize,
}

impl SeedLengthError {
    /// The error as text.
    pub open spec fn text(self) -> Seq<char> {
        "signing key must be a raw 32-byte Ed25519 seed, got "@ + crate::text::decimal(
            self.len as nat,
        ) + " bytes"@
    }

    /// The error as text.
    pub fn message(&self) -> (m: String)
        ensures
            m@ == self.text(),
    {
        let mut m: String = "signing key must be a raw 32-byte Ed25519 seed, got ".to_string();
        push_decimal(&mut m, self.len as u128);
        m.append(" bytes");
        m
    }
}

/// A [`PatchSigner`] backed by a raw 32-byte Ed25519 seed held in process.
///
/// Intended for bring-up and tests. Production signing should provide another
/// [`PatchSigner`]: the packer only depends on the trait.
pub struct SeedSigner {
    seed: [u8; 32],
}

impl SeedSigner {
    /// The seed.
    pub closed spec fn seed(&self) -> Seq<u8> {
        self.seed@
    }

    /// Builds a signer from a raw 32-byte Ed25519 seed.
    pub fn from_seed_bytes(bytes: &[u8]) -> (r: Result<Self, SeedLengthError>)
        ensures
            bytes.len() == 32 ==> r is Ok && r->Ok_0.seed() == bytes@,
            bytes.len() != 32 ==> r == Err::<Self, SeedLengthError>(
                SeedLengthError { len: bytes@.len() as usize },
            ),
    {
        if bytes.len() != 32 {
            return Err(SeedLengthError { len: bytes.len() });
        }
        let mut seed: [u8; 32] = [0u8; 32];
        let mut i: usize = 0;
        while i < 32
            invariant
                i <= 32,
                bytes.len() == 32,
                forall|k: int| 0 <= k < i ==> seed@[k] == bytes@[k],
            decreases 32 - i,
        {
            seed[i] = bytes[i];
            i = i + 1;
        }
        assert(seed@ =~= bytes@);
        Ok(SeedSigner { seed })
    }
}

impl PatchSigner for SeedSigner {
    open spec fn may_sign(&self, payload: Seq<u8>, signature: Seq<u8>) -> bool {
        &&& signature == ed25519_signature(self.seed(), payload)
        &&& ed25519_verifies(ed25519_public_key(self.seed()), payload, signature)
    }

    open spec fn may_refuse(&self, payload: Seq<u8>, message: Seq<char>) -> bool {
        false
    }

    open spec fn may_publish(&self, key: Seq<u8>) -> bool {
        key == ed25519_public_key(self.seed())
    }

    open spec fn may_withhold(&self, message: Seq<char>) -> bool {
        false
    }

    fn sign(&self, payload: &[u8]) -> (r: Result<[u8; 64], SignerError>) {
        Ok(ed25519_sign(&self.seed, payload))
    }

    fn public_key(&self) -> (r: Result<[u8; 32], SignerError>) {
        Ok(ed25519_derive_public_key(&self.seed))
    }
}

/// Law: what a seed signer signs verifies under the public key that it
/// publishes.
pub proof fn law_seed_signature_verifies(
    signer: SeedSigner,
    payload: Seq<u8>,
    signature: Seq<u8>,
    key: Seq<u8>,
)
    requires
        signer.may_sign(payload, signature),
        signer.may_publish(key),
    ensures
        ed25519_verifies(key, payload, signature),
{
}

/// Law: a seed signer is deterministic. Signers of one seed give one signature
/// for one payload, and one public key.
pub proof fn law_seed_signer_is_deterministic(
    a: SeedSigner,
    b: SeedSigner,
    payload: Seq<u8>,
    signature_a: Seq<u8>,
    signature_b: Seq<u8>,
    key_a: Seq<u8>,
    key_b: Seq<u8>,
)
    requires
        a.seed() == b.seed(),
        a.may_sign(payload, signature_a),
        b.may_sign(payload, signature_b),
        a.may_publish(key_a),
        b.may_publish(key_b),
    ensures
        signature_a == signature_b,
        key_a == key_b,
{
}

} // verus!
