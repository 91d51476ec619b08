//! Digests and signatures.
//!
//! BLAKE3 and Ed25519 are computed by the `blake3` and `ed25519-dalek` crates.
//! The contracts name their results; what the names mean is left to the crates.
use crate::bytes;
use crate::bytes::put_u64;
use vstd::prelude::*;
use vstd::string::*;
use vstd::utf8::*;

verus! {

pub type Digest = [u8; 32];

pub type PublicKeyBytes = [u8; 32];

pub type SignatureBytes = [u8; 64];

/// The BLAKE3 digest of a byte string.
pub uninterp spec fn blake3_digest(input: Seq<u8>) -> Seq<u8>;

/// The Ed25519 public key that belongs to a secret seed.
pub uninterp spec fn ed25519_public(seed: Seq<u8>) -> Seq<u8>;

/// The Ed25519 signature of a message under a secret seed.
pub uninterp spec fn ed25519_signature(seed: Seq<u8>, message: Seq<u8>) -> Seq<u8>;

/// Whether a byte string is the encoding of an Ed25519 public key.
pub uninterp spec fn ed25519_key_decodes(public: Seq<u8>) -> bool;

/// Whether a signature passes strict Ed25519 verification.
pub uninterp spec fn ed25519_strictly_verifies(
    public: Seq<u8>,
    message: Seq<u8>,
    signature: Seq<u8>,
) -> bool;

/// Whether a list of signatures passes Ed25519 batch verification.
pub uninterp spec fn ed25519_batch_verifies(
    messages: Seq<Seq<u8>>,
    signatures: Seq<Seq<u8>>,
    publics: Seq<Seq<u8>>,
) -> bool;

/// `blake3::Hasher`, fed `head` and then `tail`: the result is the BLAKE3
/// digest of the two byte strings joined.
#[verifier::external_body]
fn blake3_of(head: &[u8], tail: &[u8]) -> (d: Digest)
    ensures
        d@ == blake3_digest(head@ + tail@),
{
    let mut hasher = blake3::Hasher::new();
    hasher.update(head);
    hasher.update(tail);
    *hasher.finalize().as_bytes()
}

/// `ed25519_dalek::SigningKey::verifying_key`: the public key is a function of
/// the seed.
#[verifier::external_body]
fn ed25519_public_of(seed: &[u8; 32]) -> (public: PublicKeyBytes)
    ensures
        public@ == ed25519_public(seed@),
{
    ed25519_dalek::SigningKey::from_bytes(seed).verifying_key().to_bytes()
}

/// The encoding of the neutral point of the curve.
pub open spec fn neutral_point() -> Seq<u8> {
    Seq::new(
        32,
        |i: int|
            if i == 0 {
                1u8
            } else {
                0u8
            },
    )
}

/// A signature was made with a nonce other than zero: its first half, the nonce times
/// the base point, is not the neutral point.
pub open spec fn has_nonce(signature: SignatureBytes) -> bool {
    signature@.subrange(0, 32) != neutral_point()
}

/// `ed25519_dalek::SigningKey::sign`: the signature is a function of the seed
/// and the message. Strict verification under the public key of the seed accepts it,
/// unless its nonce happens to be zero: strict verification refuses points of small
/// order, of which the neutral one is the only multiple of the base point. The public
/// key is no such point, because the secret scalar is clamped.
#[verifier::external_body]
fn ed25519_sign(seed: &[u8; 32], message: &[u8]) -> (signature: SignatureBytes)
    ensures
        signature@ == ed25519_signature(seed@, message@),
        has_nonce(signature) ==> ed25519_key_decodes(public_key(*seed)@)
            && ed25519_strictly_verifies(public_key(*seed)@, message@, signature@),
{
    let key = ed25519_dalek::SigningKey::from_bytes(seed);
    ed25519_dalek::Signer::sign(&key, message).to_bytes()
}

/// `ed25519_dalek::VerifyingKey::from_bytes`: whether it accepts the bytes.
#[verifier::external_body]
fn ed25519_decodes(public: &PublicKeyBytes) -> (r: bool)
    ensures
        r == ed25519_key_decodes(public@),
{
    ed25519_dalek::VerifyingKey::from_bytes(public).is_ok()
}

/// `ed25519_dalek::VerifyingKey::verify_strict`: whether it accepts the
/// signature, which is a function of the key, the message and the signature. No
/// signature is accepted under bytes that `VerifyingKey::from_bytes` refuses.
#[verifier::external_body]
fn ed25519_verify_strict(
    public: &PublicKeyBytes,
    message: &[u8],
    signature: &SignatureBytes,
) -> (r: bool)
    ensures
        r == ed25519_strictly_verifies(public@, message@, signature@),
        r ==> ed25519_key_decodes(public@),
{
    let signature = ed25519_dalek::Signature::from_bytes(signature);
    match ed25519_dalek::VerifyingKey::from_bytes(public) {
        Ok(key) => key.verify_strict(message, &signature).is_ok(),
        Err(_) => false,
    }
}

/// Each message of a list as a byte string.
pub open spec fn each<const N: usize>(s: Seq<[u8; N]>) -> Seq<Seq<u8>> {
    Seq::new(s.len(), |i: int| s[i]@)
}

/// `ed25519_dalek::verify_batch`: whether it accepts the lists. The weights of
/// the batch equation are derived from the arguments, so the answer is a
/// function of them.
#[verifier::external_body]
pub(crate) fn ed25519_verify_batch(
    messages: &Vec<[u8; 88]>,
    signatures: &Vec<SignatureBytes>,
    publics: &Vec<PublicKeyBytes>,
) -> (r: bool)
    ensures
        r == ed25519_batch_verifies(each(messages@), each(signatures@), each(publics@)),
{
    let messages: Vec<&[u8]> = messages.iter().map(|m| &m[..]).collect();
    let signatures: Vec<_> =
        signatures.iter().map(ed25519_dalek::Signature::from_bytes).collect();
    let keys: Result<Vec<_>, _> =
        publics.iter().map(ed25519_dalek::VerifyingKey::from_bytes).collect();
    match keys {
        Ok(keys) => ed25519_dalek::verify_batch(&messages, &signatures, &keys).is_ok(),
        Err(_) => false,
    }
}

/// The bytes of a text.
pub open spec fn ascii(s: Seq<char>) -> Seq<u8> {
    encode_utf8(s)
}

/// The digest of a byte string under a domain tag.
pub open spec fn digest(domain: Seq<char>, bytes: Seq<u8>) -> Digest {
    bytes::arr::<32>(blake3_digest(ascii(domain) + bytes))
}

/// The public key of a seed.
pub open spec fn public_key(seed: [u8; 32]) -> PublicKeyBytes {
    bytes::arr::<32>(ed25519_public(seed@))
}

/// The signature of a message under a seed.
pub open spec fn signature(seed: [u8; 32], message: Seq<u8>) -> SignatureBytes {
    bytes::arr::<64>(ed25519_signature(seed@, message))
}

/// Strict verification accepts the signature that a seed makes for a message. It does
/// where the signature has a nonce other than zero, as [`SigningKey::sign`] states.
pub open spec fn signs_well(seed: [u8; 32], message: Seq<u8>) -> bool {
    &&& ed25519_key_decodes(public_key(seed)@)
    &&& ed25519_strictly_verifies(public_key(seed)@, message, signature(seed, message)@)
}

/// The signature that a seed makes for a message is accepted for no other message.
pub open spec fn signs_only(seed: [u8; 32], message: Seq<u8>) -> bool {
    forall|other: Seq<u8>| #[trigger]
        ed25519_strictly_verifies(public_key(seed)@, other, signature(seed, message)@) ==> other
            == message
}

/// The digest tells two byte strings apart.
pub open spec fn tells_apart(domain: Seq<char>, a: Seq<u8>, b: Seq<u8>) -> bool {
    digest(domain, a) == digest(domain, b) ==> a == b
}

/// The digest of `bytes` under the domain tag `domain`.
pub fn hash_domain(domain: &str, bytes: &[u8]) -> (d: Digest)
    ensures
        d == digest(domain@, bytes@),
{
    let d: Digest = blake3_of(domain.as_bytes(), bytes);
    proof {
        bytes::lemma_arr_of_view(d);
    }
    d
}

/// The digest of a byte string under no domain tag.
pub fn hash_bytes(bytes: &[u8]) -> (d: Digest)
    ensures
        d@ == blake3_digest(bytes@),
{
    let none: [u8; 0] = [];
    assert(none@ + bytes@ =~= bytes@);
    blake3_of(&none, bytes)
}

/// An Ed25519 secret seed.
#[derive(Clone, Copy, Debug, PartialEq, Eq)]
pub struct SigningKey {
    pub seed: [u8; 32],
}

/// An Ed25519 public key in its encoded form.
#[derive(Clone, Copy, Debug, PartialEq, Eq)]
pub struct VerifyingKey {
    pub bytes: PublicKeyBytes,
}

impl SigningKey {
    pub fn from_bytes(seed: &[u8; 32]) -> (r: Self)
        ensures
            r.seed == *seed,
    {
        SigningKey { seed: *seed }
    }

    /// The public key of this seed.
    pub fn verifying_key(&self) -> (r: VerifyingKey)
        ensures
            r.bytes == public_key(self.seed),
    {
        let bytes: PublicKeyBytes = ed25519_public_of(&self.seed);
        proof {
            bytes::lemma_arr_of_view(bytes);
        }
        VerifyingKey { bytes }
    }

    /// The signature of `message`.
    pub fn sign(&self, message: &[u8]) -> (r: SignatureBytes)
        ensures
            r == signature(self.seed, message@),
            has_nonce(r) ==> signs_well(self.seed, message@),
    {
        let r: SignatureBytes = ed25519_sign(&self.seed, message);
        proof {
            bytes::lemma_arr_of_view(r);
        }
        r
    }
}

impl VerifyingKey {
    pub fn to_bytes(&self) -> (r: PublicKeyBytes)
        ensures
            r == self.bytes,
    {
        self.bytes
    }

    /// Whether the bytes are the encoding of a public key.
    pub fn decodes(&self) -> (r: bool)
        ensures
            r == ed25519_key_decodes(self.bytes@),
    {
        ed25519_decodes(&self.bytes)
    }

    /// Whether `signature` is accepted for `message` by strict verification.
    pub fn verify_strict(&self, message: &[u8], signature: &SignatureBytes) -> (r: bool)
        ensures
            r == ed25519_strictly_verifies(self.bytes@, message@, signature@),
            r ==> ed25519_key_decodes(self.bytes@),
    {
        ed25519_verify_strict(&self.bytes, message, signature)
    }
}

/// A signing key derived from a domain tag and a number.
pub fn deterministic_key(domain: &str, label: u64) -> (key: SigningKey)
    ensures
        key.seed == digest(domain@, bytes::le64(label)),
{
    let mut bytes: Vec<u8> = Vec::new();
    put_u64(&mut bytes, label);
    assert(bytes@ =~= bytes::le64(label));
    SigningKey { seed: hash_domain(domain, &bytes) }
}

} // verus!
