//! One trusted certifier: the owner of the inputs authorizes a spend, the
//! certifier certifies it, and the core makes it on the certifier's word alone.
use crate::bytes;
use crate::bytes::same_array;
use crate::crypto;
use crate::crypto::{SigningKey, VerifyingKey};
use crate::model::{Digest, PublicKeyBytes, SignatureBytes, Verdict};
use crate::spend;
use crate::spend::{
    apply_spend, commit, share_message_for, sign_spend, spend_to, verify_authorization, Cell,
    SpendModel, SpendTx, UserAuthorization, VerifiedSpend, NETWORK_ID,
};
use crate::text;
use crate::text::text;
use std::collections::HashMap;
use vstd::prelude::*;

verus! {

pub const CERT_EPOCH: u64 = 1;

#[derive(Clone, Copy, Debug)]
pub struct AuthorizationCertificate {
    pub certifier: PublicKeyBytes,
    pub user_signer: PublicKeyBytes,
    pub tx_digest: Digest,
    pub epoch: u64,
    pub signature: SignatureBytes,
}

#[derive(Debug)]
pub struct CoreState {
    pub active: HashMap<u64, Cell>,
    pub trusted_certifier: PublicKeyBytes,
}

pub fn deterministic_key(label: u64) -> (key: SigningKey)
    ensures
        key.seed == crypto::digest("CALIBRE_SEC001_DETERMINISTIC_KEY_V1"@, bytes::le64(label)),
{
    crate::crypto::deterministic_key("CALIBRE_SEC001_DETERMINISTIC_KEY_V1", label)
}

/// The message that the owner of the inputs signs.
pub fn canonical_user_message(tx: &SpendTx) -> (r: Vec<u8>)
    ensures
        r@ == spend::user_message("CALIBRE_SEC001_USER_SPEND_V1"@, tx@),
{
    crate::spend::canonical_user_message("CALIBRE_SEC001_USER_SPEND_V1", tx)
}

/// The commitment to a spend and its signer, as this committee of one makes it.
pub open spec fn single_commitment(tx: SpendModel, signer: PublicKeyBytes) -> Digest {
    spend::commitment(
        "CALIBRE_SEC001_AUTHORIZED_TX_COMMITMENT_V1"@,
        "CALIBRE_SEC001_USER_SPEND_V1"@,
        tx,
        signer,
    )
}

pub fn tx_commitment(tx: &SpendTx, signer: &PublicKeyBytes) -> (d: Digest)
    ensures
        d == single_commitment(tx@, *signer),
{
    commit(
        "CALIBRE_SEC001_AUTHORIZED_TX_COMMITMENT_V1",
        "CALIBRE_SEC001_USER_SPEND_V1",
        tx,
        signer,
    )
}

/// What the certifier signs.
pub open spec fn certificate_bytes(tx_digest: Digest, user_signer: PublicKeyBytes, epoch: u64)
    -> Seq<u8> {
    spend::share_message_bytes("CALIBRE_SEC001_AUTH_CERTIFICATE_V1"@, tx_digest, user_signer, epoch)
}

pub fn certificate_message(tx_digest: &Digest, user_signer: &PublicKeyBytes, epoch: u64) -> (r: Vec<
    u8,
>)
    ensures
        r@ == certificate_bytes(*tx_digest, *user_signer, epoch),
{
    share_message_for("CALIBRE_SEC001_AUTH_CERTIFICATE_V1", tx_digest, user_signer, epoch)
}

pub fn sign_user_spend(tx: &SpendTx, sk: &SigningKey) -> (r: UserAuthorization)
    ensures
        r == spend::authorization("CALIBRE_SEC001_USER_SPEND_V1"@, tx@, sk.seed),
        crypto::has_nonce(r.signature) ==> crypto::signs_well(
            sk.seed,
            spend::user_message("CALIBRE_SEC001_USER_SPEND_V1"@, tx@),
        ),
{
    sign_spend("CALIBRE_SEC001_USER_SPEND_V1", tx, sk)
}

/// What an authorization yields: the spend that it is for, or why it is refused.
pub open spec fn single_authorization(
    tx: SpendModel,
    auth: UserAuthorization,
    cells: Map<u64, Cell>,
) -> Result<VerifiedSpend, Seq<char>> {
    spend::verified_spend(
        "CALIBRE_SEC001_USER_SPEND_V1"@,
        "CALIBRE_SEC001_AUTHORIZED_TX_COMMITMENT_V1"@,
        true,
        tx,
        auth,
        cells,
    )
}

pub fn verify_user_authorization(
    tx: &SpendTx,
    auth: &UserAuthorization,
    cells: &HashMap<u64, Cell>,
) -> (r: Result<VerifiedSpend, String>)
    ensures
        text::shown(r) == single_authorization(tx@, *auth, cells@),
{
    verify_authorization(
        "CALIBRE_SEC001_USER_SPEND_V1",
        "CALIBRE_SEC001_AUTHORIZED_TX_COMMITMENT_V1",
        true,
        tx,
        auth,
        cells,
    )
}

/// The certificate that a certifier gives for a spend.
pub open spec fn issued_certificate(verified: VerifiedSpend, seed: [u8; 32])
    -> AuthorizationCertificate {
    AuthorizationCertificate {
        certifier: crypto::public_key(seed),
        user_signer: verified.user_signer,
        tx_digest: verified.tx_digest,
        epoch: CERT_EPOCH,
        signature: crypto::signature(
            seed,
            certificate_bytes(verified.tx_digest, verified.user_signer, CERT_EPOCH),
        ),
    }
}

pub fn issue_certificate(verified: VerifiedSpend, certifier_sk: &SigningKey) -> (r:
    AuthorizationCertificate)
    ensures
        r == issued_certificate(verified, certifier_sk.seed),
        crypto::has_nonce(r.signature) ==> crypto::signs_well(
            certifier_sk.seed,
            certificate_bytes(verified.tx_digest, verified.user_signer, CERT_EPOCH),
        ),
{
    let message: Vec<u8> = certificate_message(
        &verified.tx_digest,
        &verified.user_signer,
        CERT_EPOCH,
    );
    AuthorizationCertificate {
        certifier: certifier_sk.verifying_key().to_bytes(),
        user_signer: verified.user_signer,
        tx_digest: verified.tx_digest,
        epoch: CERT_EPOCH,
        signature: certifier_sk.sign(&message),
    }
}

/// A certificate for a spend that no owner authorized: what a certifier can do
/// that lies about its check.
pub fn issue_raw_certificate_without_user_check(
    tx: &SpendTx,
    claimed_user: PublicKeyBytes,
    certifier_sk: &SigningKey,
) -> (r: AuthorizationCertificate)
    ensures
        r == issued_certificate(
            (VerifiedSpend {
                tx_digest: single_commitment(tx@, claimed_user),
                user_signer: claimed_user,
            }),
            certifier_sk.seed,
        ),
{
    issue_certificate(
        VerifiedSpend {
            tx_digest: tx_commitment(tx, &claimed_user),
            user_signer: claimed_user,
        },
        certifier_sk,
    )
}

/// The verdict on a certificate for a spend.
pub open spec fn single_certificate_verdict(
    trusted: PublicKeyBytes,
    tx: SpendModel,
    cert: AuthorizationCertificate,
) -> Verdict {
    if tx.network_id != NETWORK_ID {
        Err("core wrong network/domain"@)
    } else if cert.epoch != CERT_EPOCH {
        Err("certificate epoch mismatch"@)
    } else if cert.certifier != trusted {
        Err("certificate signer is not trusted"@)
    } else if single_commitment(tx, cert.user_signer) != cert.tx_digest {
        Err("certificate does not bind this exact transaction"@)
    } else if !crypto::ed25519_key_decodes(cert.certifier@) {
        Err("invalid certificate public key"@)
    } else if !crypto::ed25519_strictly_verifies(
        cert.certifier@,
        certificate_bytes(cert.tx_digest, cert.user_signer, cert.epoch),
        cert.signature@,
    ) {
        Err("certificate signature rejected"@)
    } else {
        Ok(())
    }
}

/// Whether the core makes a certified spend.
pub open spec fn single_spend_verdict(
    cells: Map<u64, Cell>,
    trusted: PublicKeyBytes,
    tx: SpendModel,
    cert: AuthorizationCertificate,
) -> Verdict {
    match single_certificate_verdict(trusted, tx, cert) {
        Err(e) => Err(e),
        Ok(_) => spend::core_verdict(cells, tx, true),
    }
}

impl CoreState {
    pub fn new(cells: HashMap<u64, Cell>, trusted_certifier: PublicKeyBytes) -> (r: Self)
        ensures
            r.active@ == cells@,
            r.trusted_certifier == trusted_certifier,
    {
        CoreState { active: cells, trusted_certifier }
    }

    /// Checks that the trusted certifier certified exactly this spend.
    fn check_certificate(&self, tx: &SpendTx, cert: &AuthorizationCertificate) -> (r: Result<
        (),
        String,
    >)
        ensures
            text::shown(r) == single_certificate_verdict(self.trusted_certifier, tx@, *cert),
    {
        if tx.network_id != NETWORK_ID {
            return Err(text("core wrong network/domain"));
        }
        if cert.epoch != CERT_EPOCH {
            return Err(text("certificate epoch mismatch"));
        }
        if !same_array(&cert.certifier, &self.trusted_certifier) {
            return Err(text("certificate signer is not trusted"));
        }
        let expected: Digest = tx_commitment(tx, &cert.user_signer);
        if !same_array(&expected, &cert.tx_digest) {
            return Err(text("certificate does not bind this exact transaction"));
        }
        let key: VerifyingKey = VerifyingKey { bytes: cert.certifier };
        if !key.decodes() {
            return Err(text("invalid certificate public key"));
        }
        let message: Vec<u8> = certificate_message(&cert.tx_digest, &cert.user_signer, cert.epoch);
        if !key.verify_strict(&message, &cert.signature) {
            return Err(text("certificate signature rejected"));
        }
        Ok(())
    }

    /// Makes a certified spend: its inputs go, its output comes. A refused spend
    /// changes nothing.
    pub fn apply_certified_spend(&mut self, tx: &SpendTx, cert: &AuthorizationCertificate) -> (r:
        Result<Cell, String>)
        ensures
            match single_spend_verdict(
                old(self).active@,
                old(self).trusted_certifier,
                tx@,
                *cert,
            ) {
                Ok(_) => r == Ok::<Cell, String>(spend::output_cell_of(tx@)) && final(self).active@
                    == spend::spent(old(self).active@, tx@),
                Err(e) => r is Err && r->Err_0@ == e && final(self).active@ == old(self).active@,
            },
            final(self).trusted_certifier == old(self).trusted_certifier,
    {
        self.check_certificate(tx, cert)?;
        apply_spend(&mut self.active, tx, true)
    }
}

/// The spend of all fixture cells.
pub fn base_tx(recipient: PublicKeyBytes) -> (r: SpendTx)
    ensures
        r@ == spend::fixture_spend(recipient, 42, 9000),
{
    spend_to(recipient, 42, 9000)
}

// ---------------------------------------------------------------------------
// Laws.
// ---------------------------------------------------------------------------

/// A certificate that the trusted certifier issues for what an owner authorized
/// is accepted for that spend, and for no spend with another commitment.
pub proof fn law_certificate_binds_the_spend(
    tx: SpendModel,
    verified: VerifiedSpend,
    seed: [u8; 32],
    other: SpendModel,
)
    requires
        verified.tx_digest == single_commitment(tx, verified.user_signer),
        single_commitment(other, verified.user_signer) != verified.tx_digest,
    ensures
        single_certificate_verdict(crypto::public_key(seed), other, issued_certificate(verified, seed))
            is Err,
{
}

/// A certificate of a certifier that is not trusted is refused.
pub proof fn law_untrusted_certifier_is_refused(
    trusted: PublicKeyBytes,
    tx: SpendModel,
    verified: VerifiedSpend,
    seed: [u8; 32],
)
    requires
        crypto::public_key(seed) != trusted,
    ensures
        single_certificate_verdict(trusted, tx, issued_certificate(verified, seed)) is Err,
{
}

/// The core makes a spend once: after it was made, the same certificate is
/// refused.
pub proof fn law_certificate_is_spent_once(
    cells: Map<u64, Cell>,
    trusted: PublicKeyBytes,
    tx: SpendModel,
    cert: AuthorizationCertificate,
)
    requires
        cells.dom().finite(),
        single_spend_verdict(cells, trusted, tx, cert) is Ok,
    ensures
        single_spend_verdict(spend::spent(cells, tx), trusted, tx, cert) is Err,
{
    spend::law_no_second_spend(cells, tx, true, tx, 0, 0);
}

/// The core trusts the certifier's word: the certificate that the certifier gives
/// for a spend is accepted whatever the owner of the inputs said, as far as
/// verification accepts what signing makes.
pub proof fn law_certifier_is_believed(
    tx: SpendModel,
    claimed_user: PublicKeyBytes,
    seed: [u8; 32],
)
    requires
        tx.network_id == NETWORK_ID,
        crypto::signs_well(
            seed,
            certificate_bytes(single_commitment(tx, claimed_user), claimed_user, CERT_EPOCH),
        ),
    ensures
        single_certificate_verdict(
            crypto::public_key(seed),
            tx,
            issued_certificate(
                (VerifiedSpend {
                    tx_digest: single_commitment(tx, claimed_user),
                    user_signer: claimed_user,
                }),
                seed,
            ),
        ) is Ok,
{
}

/// A certified spend is made exactly if it is of this network, the certificate is of the
/// first epoch, by the trusted certifier, on this very spend and well signed, the spend has
/// one to eight inputs with different identifiers that are active in the stated generations,
/// its output is not active yet, and its value is that of the inputs. Who owns the inputs is
/// not asked again.
pub proof fn law_certified_spend_is_made_if(
    cells: Map<u64, Cell>,
    trusted: PublicKeyBytes,
    tx: SpendModel,
    cert: AuthorizationCertificate,
)
    ensures
        single_spend_verdict(cells, trusted, tx, cert) is Ok <==> {
            &&& tx.network_id == 1
            &&& cert.epoch == 1
            &&& cert.certifier == trusted
            &&& cert.tx_digest == single_commitment(tx, cert.user_signer)
            &&& crypto::ed25519_key_decodes(trusted@)
            &&& crypto::ed25519_strictly_verifies(
                trusted@,
                certificate_bytes(cert.tx_digest, cert.user_signer, 1),
                cert.signature@,
            )
            &&& 1 <= tx.inputs.len() <= 8
            &&& !cells.contains_key(tx.output_id)
            &&& forall|i: int, j: int|
                0 <= i < j < tx.inputs.len() ==> (#[trigger] tx.inputs[i]).id != (
                #[trigger] tx.inputs[j]).id
            &&& forall|k: int|
                0 <= k < tx.inputs.len() ==> cells.contains_key((#[trigger] tx.inputs[k]).id)
                    && cells[tx.inputs[k].id].generation == tx.inputs[k].generation
            &&& spend::inputs_value(cells, tx.inputs, 0) == tx.output_value
        },
{
    spend::law_core_verdict(cells, tx, true);
    if single_certificate_verdict(trusted, tx, cert) is Ok && spend::spendable(
        cells,
        tx.inputs,
        None,
    ) {
        assert(spend::distinct_ids(tx.inputs));
    }
    if forall|i: int, j: int|
        0 <= i < j < tx.inputs.len() ==> (#[trigger] tx.inputs[i]).id != (
        #[trigger] tx.inputs[j]).id {
        assert(spend::distinct_ids(tx.inputs));
    }
}

/// From the owner's key to the new cell: what the owner of the inputs signs is verified, the
/// certificate that is issued on it is accepted, and the spend is made.
pub proof fn law_owners_spend_goes_through(
    cells: Map<u64, Cell>,
    tx: SpendModel,
    owner_seed: [u8; 32],
    certifier_seed: [u8; 32],
)
    requires
        tx.network_id == 1,
        1 <= tx.inputs.len() <= 8,
        !cells.contains_key(tx.output_id),
        forall|i: int, j: int|
            0 <= i < j < tx.inputs.len() ==> (#[trigger] tx.inputs[i]).id != (
            #[trigger] tx.inputs[j]).id,
        forall|k: int|
            0 <= k < tx.inputs.len() ==> {
                &&& cells.contains_key((#[trigger] tx.inputs[k]).id)
                &&& cells[tx.inputs[k].id].generation == tx.inputs[k].generation
                &&& cells[tx.inputs[k].id].owner == crypto::public_key(owner_seed)
            },
        spend::inputs_value(cells, tx.inputs, 0) == tx.output_value,
        crypto::signs_well(
            owner_seed,
            spend::user_message("CALIBRE_SEC001_USER_SPEND_V1"@, tx),
        ),
        crypto::signs_well(
            certifier_seed,
            certificate_bytes(
                single_commitment(tx, crypto::public_key(owner_seed)),
                crypto::public_key(owner_seed),
                1,
            ),
        ),
    ensures
        ({
            let verified = single_authorization(
                tx,
                spend::authorization("CALIBRE_SEC001_USER_SPEND_V1"@, tx, owner_seed),
                cells,
            );
            &&& verified is Ok
            &&& single_spend_verdict(
                cells,
                crypto::public_key(certifier_seed),
                tx,
                issued_certificate(verified->Ok_0, certifier_seed),
            ) is Ok
        }),
{
    assert(spend::distinct_ids(tx.inputs));
    assert(spend::spendable(cells, tx.inputs, Some(crypto::public_key(owner_seed))));
    spend::law_owner_can_spend(
        "CALIBRE_SEC001_USER_SPEND_V1"@,
        "CALIBRE_SEC001_AUTHORIZED_TX_COMMITMENT_V1"@,
        true,
        tx,
        owner_seed,
        cells,
    );
    let cert = issued_certificate(
        VerifiedSpend {
            tx_digest: single_commitment(tx, crypto::public_key(owner_seed)),
            user_signer: crypto::public_key(owner_seed),
        },
        certifier_seed,
    );
    law_certified_spend_is_made_if(cells, crypto::public_key(certifier_seed), tx, cert);
}

} // verus!
