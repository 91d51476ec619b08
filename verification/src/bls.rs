//! BLS signatures over BLS12-381, with public keys in the smaller group.
//!
//! They are computed by the `blst` crate. The contracts name its results.
use vstd::prelude::*;

verus! {

pub type BlsSecretBytes = [u8; 32];

pub type BlsPublicBytes = [u8; 48];

pub type BlsSignatureBytes = [u8; 96];

/// The secret key that BLS key generation derives.
pub uninterp spec fn bls_secret(ikm: Seq<u8>, info: Seq<u8>) -> Seq<u8>;

/// Whether a byte string is the encoding of a secret key.
pub uninterp spec fn bls_secret_decodes(secret: Seq<u8>) -> bool;

/// The public key that belongs to a secret key.
pub uninterp spec fn bls_public(secret: Seq<u8>) -> Seq<u8>;

/// The signature of a message under a secret key.
pub uninterp spec fn bls_signature(
    secret: Seq<u8>,
    message: Seq<u8>,
    dst: Seq<u8>,
    aug: Seq<u8>,
) -> Seq<u8>;

/// Whether a byte string is the encoding of a public key.
pub uninterp spec fn bls_key_decodes(public: Seq<u8>) -> bool;

/// Whether a byte string is the encoding of a signature.
pub uninterp spec fn bls_signature_decodes(signature: Seq<u8>) -> bool;

/// Whether a signature passes verification.
pub uninterp spec fn bls_verifies(
    signature: Seq<u8>,
    message: Seq<u8>,
    dst: Seq<u8>,
    aug: Seq<u8>,
    public: Seq<u8>,
) -> bool;

/// The aggregate of some signatures, where there is one.
pub uninterp spec fn bls_aggregate(signatures: Seq<Seq<u8>>) -> Option<Seq<u8>>;

/// Whether an aggregate passes verification for a list of messages and keys.
pub uninterp spec fn bls_aggregate_verifies(
    signature: Seq<u8>,
    messages: Seq<Seq<u8>>,
    dst: Seq<u8>,
    publics: Seq<Seq<u8>>,
) -> bool;

/// The most bytes of info for a key: key generation keeps them on the stack.
pub const MAX_INFO: usize = 1024;

/// `blst::min_pk::SecretKey::key_gen`: the key is a function of the key material
/// and the info, and it is one that `SecretKey::from_bytes` takes. There is a key
/// for any key material of at least 32 bytes.
#[verifier::external_body]
fn bls_key_gen(ikm: &[u8; 32], info: &[u8]) -> (secret: BlsSecretBytes)
    requires
        info@.len() <= MAX_INFO,
    ensures
        secret@ == bls_secret(ikm@, info@),
        bls_secret_decodes(secret@),
{
    blst::min_pk::SecretKey::key_gen(ikm, info).unwrap().to_bytes()
}

/// `blst::min_pk::SecretKey::sk_to_pk`: the public key is a function of the secret
/// key.
#[verifier::external_body]
fn bls_public_of(secret: &BlsSecretBytes) -> (public: BlsPublicBytes)
    requires
        bls_secret_decodes(secret@),
    ensures
        public@ == bls_public(secret@),
{
    blst::min_pk::SecretKey::from_bytes(secret).unwrap().sk_to_pk().to_bytes()
}

/// `blst::min_pk::SecretKey::sign`: the signature is a function of the secret key,
/// the message, the domain tag and the augmentation.
#[verifier::external_body]
fn bls_sign(secret: &BlsSecretBytes, message: &[u8], dst: &[u8], aug: &[u8]) -> (signature:
    BlsSignatureBytes)
    requires
        bls_secret_decodes(secret@),
    ensures
        signature@ == bls_signature(secret@, message@, dst@, aug@),
{
    blst::min_pk::SecretKey::from_bytes(secret).unwrap().sign(message, dst, aug).to_bytes()
}

/// `blst::min_pk::PublicKey::from_bytes`: whether it takes the bytes.
#[verifier::external_body]
pub(crate) fn bls_reads_key(public: &BlsPublicBytes) -> (r: bool)
    ensures
        r == bls_key_decodes(public@),
{
    blst::min_pk::PublicKey::from_bytes(public).is_ok()
}

/// `blst::min_pk::Signature::from_bytes`: whether it takes the bytes.
#[verifier::external_body]
pub(crate) fn bls_reads_signature(signature: &BlsSignatureBytes) -> (r: bool)
    ensures
        r == bls_signature_decodes(signature@),
{
    blst::min_pk::Signature::from_bytes(signature).is_ok()
}

/// `blst::min_pk::Signature::verify`, with both group checks: whether it accepts
/// the signature, which is a function of the arguments. Bytes that are no key or
/// no signature are not accepted.
#[verifier::external_body]
pub(crate) fn bls_verify(
    signature: &BlsSignatureBytes,
    message: &[u8],
    dst: &[u8],
    aug: &[u8],
    public: &BlsPublicBytes,
) -> (r: bool)
    ensures
        r == bls_verifies(signature@, message@, dst@, aug@, public@),
{
    let signature = blst::min_pk::Signature::from_bytes(signature);
    let public = blst::min_pk::PublicKey::from_bytes(public);
    match (signature, public) {
        (Ok(signature), Ok(public)) => signature.verify(true, message, dst, aug, &public, true)
            == blst::BLST_ERROR::BLST_SUCCESS,
        _ => false,
    }
}

/// `blst::min_pk::AggregateSignature::aggregate`, with the group check: the
/// aggregate, which is a function of the signatures. There is none for bytes that
/// are no signature, nor where the crate gives an error.
#[verifier::external_body]
pub(crate) fn bls_aggregate_of(signatures: &Vec<BlsSignatureBytes>) -> (r: Option<
    BlsSignatureBytes,
>)
    ensures
        match r {
            Some(a) => bls_aggregate(crate::crypto::each(signatures@)) == Some(a@),
            None => bls_aggregate(crate::crypto::each(signatures@)) is None,
        },
{
    let read: Result<Vec<_>, _> =
        signatures.iter().map(|s| blst::min_pk::Signature::from_bytes(s)).collect();
    let read = read.ok()?;
    let refs: Vec<&blst::min_pk::Signature> = read.iter().collect();
    let sum = blst::min_pk::AggregateSignature::aggregate(&refs, true).ok()?;
    Some(sum.to_signature().to_bytes())
}

/// `blst::min_pk::Signature::aggregate_verify`, with both group checks: whether it
/// accepts the aggregate, which is a function of the arguments. Bytes that are no
/// key or no signature are not accepted.
#[verifier::external_body]
pub(crate) fn bls_aggregate_verify(
    signature: &BlsSignatureBytes,
    messages: &Vec<[u8; 88]>,
    dst: &[u8],
    publics: &Vec<BlsPublicBytes>,
) -> (r: bool)
    ensures
        r == bls_aggregate_verifies(
            signature@,
            crate::crypto::each(messages@),
            dst@,
            crate::crypto::each(publics@),
        ),
{
    let messages: Vec<&[u8]> = messages.iter().map(|m| &m[..]).collect();
    let keys: Result<Vec<_>, _> =
        publics.iter().map(|p| blst::min_pk::PublicKey::from_bytes(p)).collect();
    match (blst::min_pk::Signature::from_bytes(signature), keys) {
        (Ok(signature), Ok(keys)) => {
            let keys: Vec<&blst::min_pk::PublicKey> = keys.iter().collect();
            signature.aggregate_verify(true, &messages, dst, &keys, true)
                == blst::BLST_ERROR::BLST_SUCCESS
        },
        _ => false,
    }
}

/// A BLS secret key.
#[derive(Clone, Copy, Debug)]
pub struct SecretKey {
    bytes: BlsSecretBytes,
}

impl SecretKey {
    /// The bytes are those of a secret key.
    #[verifier::type_invariant]
    spec fn decodes(self) -> bool {
        bls_secret_decodes(self.bytes@)
    }

    /// The encoding of this key.
    pub closed spec fn encoding(&self) -> Seq<u8> {
        self.bytes@
    }

    /// The key that is derived from key material.
    pub fn key_gen(ikm: &[u8; 32], info: &[u8]) -> (r: Self)
        requires
            info@.len() <= MAX_INFO,
        ensures
            r.encoding() == bls_secret(ikm@, info@),
    {
        SecretKey { bytes: bls_key_gen(ikm, info) }
    }

    pub fn sk_to_pk(&self) -> (r: BlsPublicBytes)
        ensures
            r@ == bls_public(self.encoding()),
    {
        proof {
            use_type_invariant(self);
        }
        bls_public_of(&self.bytes)
    }

    pub fn sign(&self, message: &[u8], dst: &[u8], aug: &[u8]) -> (r: BlsSignatureBytes)
        ensures
            r@ == bls_signature(self.encoding(), message@, dst@, aug@),
    {
        proof {
            use_type_invariant(self);
        }
        bls_sign(&self.bytes, message, dst, aug)
    }
}

/// Whether a signature is accepted for a message and a key.
pub fn verify_signature(
    signature: &BlsSignatureBytes,
    message: &[u8],
    dst: &[u8],
    aug: &[u8],
    public: &BlsPublicBytes,
) -> (r: bool)
    ensures
        r == bls_verifies(signature@, message@, dst@, aug@, public@),
{
    bls_verify(signature, message, dst, aug, public)
}

/// Whether an aggregate is accepted for a list of messages and keys.
pub fn verify_aggregate(
    signature: &BlsSignatureBytes,
    messages: &Vec<[u8; 88]>,
    dst: &[u8],
    publics: &Vec<BlsPublicBytes>,
) -> (r: bool)
    ensures
        r == bls_aggregate_verifies(
            signature@,
            crate::crypto::each(messages@),
            dst@,
            crate::crypto::each(publics@),
        ),
{
    bls_aggregate_verify(signature, messages, dst, publics)
}

} // verus!
