//! Threshold certificates: a spend that enough certifiers of a committee signed,
//! and a core that makes such spends.
use crate::bytes::{copy_vec, same_array};
use crate::crypto;
use crate::crypto::{SigningKey, VerifyingKey};
use crate::model::{Digest, PublicKeyBytes, SignatureBytes, Verdict};
use crate::ordmap::OrdSet;
use crate::spend;
use crate::spend::{
    apply_spend, commit, share_message_for, Cell, SpendModel, SpendTx, UserAuthorization, VerifiedSpend,
    NETWORK_ID,
};
use crate::text;
use crate::text::{push_dec, text};
use std::collections::HashMap;
use vstd::prelude::*;

verus! {

/// The domain tags and the epoch under which a committee works.
#[derive(Clone, Copy, Debug)]
pub struct Scheme {
    pub user: &'static str,
    pub commitment: &'static str,
    pub share: &'static str,
    pub epoch: u64,
}

/// The mathematical content of a [`Scheme`].
pub struct SchemeModel {
    pub user: Seq<char>,
    pub commitment: Seq<char>,
    pub share: Seq<char>,
    pub epoch: u64,
}

impl View for Scheme {
    type V = SchemeModel;

    open spec fn view(&self) -> SchemeModel {
        SchemeModel {
            user: self.user@,
            commitment: self.commitment@,
            share: self.share@,
            epoch: self.epoch,
        }
    }
}

#[derive(Clone, Copy, Debug)]
pub struct CertifierShare {
    pub certifier: PublicKeyBytes,
    pub tx_digest: Digest,
    pub user_signer: PublicKeyBytes,
    pub epoch: u64,
    pub signature: SignatureBytes,
}

#[derive(Debug)]
pub struct ThresholdCertificate {
    pub tx_digest: Digest,
    pub user_signer: PublicKeyBytes,
    pub epoch: u64,
    pub shares: Vec<CertifierShare>,
}

/// The mathematical content of a [`ThresholdCertificate`].
#[verifier::ext_equal]
pub struct CertificateModel {
    pub tx_digest: Digest,
    pub user_signer: PublicKeyBytes,
    pub epoch: u64,
    pub shares: Seq<CertifierShare>,
}

impl View for ThresholdCertificate {
    type V = CertificateModel;

    open spec fn view(&self) -> CertificateModel {
        CertificateModel {
            tx_digest: self.tx_digest,
            user_signer: self.user_signer,
            epoch: self.epoch,
            shares: self.shares@,
        }
    }
}

impl Clone for ThresholdCertificate {
    fn clone(&self) -> (r: Self)
        ensures
            r@ == self@,
    {
        ThresholdCertificate {
            tx_digest: self.tx_digest,
            user_signer: self.user_signer,
            epoch: self.epoch,
            shares: copy_vec(&self.shares),
        }
    }
}

/// The share that a certifier signs for a spend.
pub open spec fn share_of(s: SchemeModel, seed: [u8; 32], verified: VerifiedSpend)
    -> CertifierShare {
    CertifierShare {
        certifier: crypto::public_key(seed),
        tx_digest: verified.tx_digest,
        user_signer: verified.user_signer,
        epoch: s.epoch,
        signature: crypto::signature(
            seed,
            spend::share_message_bytes(s.share, verified.tx_digest, verified.user_signer, s.epoch),
        ),
    }
}

pub fn make_share(scheme: &Scheme, sk: &SigningKey, verified: VerifiedSpend) -> (r: CertifierShare)
    ensures
        r == share_of(scheme@, sk.seed, verified),
        crypto::has_nonce(r.signature) ==> crypto::signs_well(
            sk.seed,
            spend::share_message_bytes(
                scheme@.share,
                verified.tx_digest,
                verified.user_signer,
                scheme@.epoch,
            ),
        ),
{
    let message: Vec<u8> = share_message_for(
        scheme.share,
        &verified.tx_digest,
        &verified.user_signer,
        scheme.epoch,
    );
    CertifierShare {
        certifier: sk.verifying_key().to_bytes(),
        tx_digest: verified.tx_digest,
        user_signer: verified.user_signer,
        epoch: scheme.epoch,
        signature: sk.sign(&message),
    }
}

/// The commitment of a scheme to a spend and its signer.
pub open spec fn scheme_commitment(s: SchemeModel, tx: SpendModel, signer: PublicKeyBytes)
    -> Digest {
    spend::commitment(s.commitment, s.user, tx, signer)
}

/// What an authorization yields: the spend that it is for, or why it is refused.
pub open spec fn scheme_authorization(
    s: SchemeModel,
    tx: SpendModel,
    auth: UserAuthorization,
    cells: Map<u64, Cell>,
) -> Result<VerifiedSpend, Seq<char>> {
    spend::verified_spend(s.user, s.commitment, false, tx, auth, cells)
}

/// The claim that a spend was authorized, without a check of it.
pub fn raw_claim(scheme: &Scheme, tx: &SpendTx, claimed_user: PublicKeyBytes) -> (r: VerifiedSpend)
    ensures
        r == (VerifiedSpend {
            tx_digest: scheme_commitment(scheme@, tx@, claimed_user),
            user_signer: claimed_user,
        }),
{
    VerifiedSpend {
        tx_digest: commit(scheme.commitment, scheme.user, tx, &claimed_user),
        user_signer: claimed_user,
    }
}

/// The certificate that a list of shares makes.
pub open spec fn certificate_of(shares: Seq<CertifierShare>) -> CertificateModel {
    CertificateModel {
        tx_digest: shares[0].tx_digest,
        user_signer: shares[0].user_signer,
        epoch: shares[0].epoch,
        shares,
    }
}

pub fn certificate_from(shares: Vec<CertifierShare>) -> (r: ThresholdCertificate)
    requires
        shares@.len() > 0,
    ensures
        r@ == certificate_of(shares@),
{
    ThresholdCertificate {
        tx_digest: shares[0].tx_digest,
        user_signer: shares[0].user_signer,
        epoch: shares[0].epoch,
        shares,
    }
}

/// Whether the signature of a share is valid.
pub open spec fn share_verifies(s: SchemeModel, share: CertifierShare) -> bool {
    crypto::ed25519_strictly_verifies(
        share.certifier@,
        spend::share_message_bytes(s.share, share.tx_digest, share.user_signer, share.epoch),
        share.signature@,
    )
}

/// The certifiers whose shares count, from share number `i` on, where those in
/// `unique` count already. A second share of a certifier is passed over.
pub open spec fn shares_result(
    s: SchemeModel,
    committee: Set<PublicKeyBytes>,
    cert: CertificateModel,
    i: int,
    unique: Set<PublicKeyBytes>,
) -> Result<Set<PublicKeyBytes>, Seq<char>>
    decreases cert.shares.len() - i,
{
    if i < 0 || i >= cert.shares.len() {
        Ok(unique)
    } else {
        let share = cert.shares[i];
        if share.epoch != cert.epoch || share.tx_digest != cert.tx_digest || share.user_signer
            != cert.user_signer {
            Err("share/certificate mismatch"@)
        } else if !committee.contains(share.certifier) {
            Err("share from untrusted certifier"@)
        } else if unique.contains(share.certifier) {
            shares_result(s, committee, cert, i + 1, unique)
        } else if !crypto::ed25519_key_decodes(share.certifier@) {
            Err("invalid certifier public key"@)
        } else if !share_verifies(s, share) {
            Err("threshold share signature rejected"@)
        } else {
            shares_result(s, committee, cert, i + 1, unique.insert(share.certifier))
        }
    }
}

/// The verdict on a certificate for a spend.
pub open spec fn threshold_verdict(
    s: SchemeModel,
    committee: Set<PublicKeyBytes>,
    threshold: nat,
    tx: SpendModel,
    cert: CertificateModel,
) -> Verdict {
    if cert.epoch != s.epoch {
        Err("certificate epoch mismatch"@)
    } else if scheme_commitment(s, tx, cert.user_signer) != cert.tx_digest {
        Err("threshold certificate does not bind exact transaction"@)
    } else {
        match shares_result(s, committee, cert, 0, Set::empty()) {
            Err(e) => Err(e),
            Ok(unique) => if unique.len() < threshold {
                Err(
                    "insufficient threshold shares: have "@ + text::dec(unique.len()) + " need "@ + text::dec(
                        threshold,
                    ),
                )
            } else {
                Ok(())
            },
        }
    }
}

/// The keys of a list.
pub open spec fn keys_in(committee: Seq<PublicKeyBytes>) -> Set<PublicKeyBytes> {
    committee.to_set()
}

fn is_member(committee: &Vec<PublicKeyBytes>, key: &PublicKeyBytes) -> (r: bool)
    ensures
        r == keys_in(committee@).contains(*key),
{
    let mut i: usize = 0;
    while i < committee.len()
        invariant
            i <= committee@.len(),
            forall|k: int| 0 <= k < i ==> #[trigger] committee@[k] != *key,
        decreases committee@.len() - i,
    {
        if same_array(&committee[i], key) {
            assert(committee@.contains(*key));
            return true;
        }
        i = i + 1;
    }
    assert(!committee@.contains(*key));
    false
}

/// The state of a core: the active cells, and the committee that it trusts.
#[derive(Debug)]
pub struct CoreState {
    pub scheme: Scheme,
    pub active: HashMap<u64, Cell>,
    pub committee: Vec<PublicKeyBytes>,
    pub threshold: usize,
}

/// Whether a core makes a spend.
pub open spec fn certified_verdict(core: CoreState, tx: SpendModel, cert: CertificateModel)
    -> Verdict {
    if tx.network_id != NETWORK_ID {
        Err("core wrong network/domain"@)
    } else {
        match threshold_verdict(
            core.scheme@,
            keys_in(core.committee@),
            core.threshold as nat,
            tx,
            cert,
        ) {
            Err(e) => Err(e),
            Ok(_) => spend::core_verdict(core.active@, tx, false),
        }
    }
}

impl CoreState {
    pub fn new(
        scheme: Scheme,
        cells: HashMap<u64, Cell>,
        committee: Vec<PublicKeyBytes>,
        threshold: usize,
    ) -> (r: Self)
        ensures
            r.scheme == scheme,
            r.active@ == cells@,
            r.committee@ == committee@,
            r.threshold == threshold,
    {
        CoreState { scheme, active: cells, committee, threshold }
    }

    /// The certifiers whose shares count.
    fn count_shares(&self, cert: &ThresholdCertificate) -> (r: Result<OrdSet<Digest>, String>)
        ensures
            match shares_result(
                self.scheme@,
                keys_in(self.committee@),
                cert@,
                0,
                Set::empty(),
            ) {
                Ok(unique) => r is Ok && r->Ok_0@ == unique,
                Err(e) => r is Err && r->Err_0@ == e,
            },
    {
        let mut unique: OrdSet<Digest> = OrdSet::new();
        let mut i: usize = 0;
        while i < cert.shares.len()
            invariant
                i <= cert.shares@.len(),
                shares_result(self.scheme@, keys_in(self.committee@), cert@, 0, Set::empty())
                    == shares_result(
                    self.scheme@,
                    keys_in(self.committee@),
                    cert@,
                    i as int,
                    unique@,
                ),
            decreases cert.shares@.len() - i,
        {
            let share: CertifierShare = cert.shares[i];
            if share.epoch != cert.epoch || !same_array(&share.tx_digest, &cert.tx_digest)
                || !same_array(&share.user_signer, &cert.user_signer) {
                return Err(text("share/certificate mismatch"));
            }
            if !is_member(&self.committee, &share.certifier) {
                return Err(text("share from untrusted certifier"));
            }
            if !unique.contains(&share.certifier) {
                let key: VerifyingKey = VerifyingKey { bytes: share.certifier };
                if !key.decodes() {
                    return Err(text("invalid certifier public key"));
                }
                let message: Vec<u8> = share_message_for(
                    self.scheme.share,
                    &share.tx_digest,
                    &share.user_signer,
                    share.epoch,
                );
                if !key.verify_strict(&message, &share.signature) {
                    return Err(text("threshold share signature rejected"));
                }
                unique.insert(share.certifier);
            }
            i = i + 1;
        }
        Ok(unique)
    }

    /// Checks that enough certifiers signed for exactly this spend.
    pub fn verify_threshold_certificate(&self, tx: &SpendTx, cert: &ThresholdCertificate) -> (r:
        Result<(), String>)
        ensures
            text::shown(r) == threshold_verdict(
                self.scheme@,
                keys_in(self.committee@),
                self.threshold as nat,
                tx@,
                cert@,
            ),
    {
        if cert.epoch != self.scheme.epoch {
            return Err(text("certificate epoch mismatch"));
        }
        let expected: Digest = commit(
            self.scheme.commitment,
            self.scheme.user,
            tx,
            &cert.user_signer,
        );
        if !same_array(&expected, &cert.tx_digest) {
            return Err(text("threshold certificate does not bind exact transaction"));
        }
        let unique: OrdSet<Digest> = self.count_shares(cert)?;
        let count: usize = unique.len();
        if count < self.threshold {
            let mut refusal: String = text("insufficient threshold shares: have ");
            push_dec(&mut refusal, count as u64);
            refusal.append(" need ");
            push_dec(&mut refusal, self.threshold as u64);
            return Err(refusal);
        }
        Ok(())
    }

    /// Makes a spend that is certified.
    pub fn apply_certified_spend(&mut self, tx: &SpendTx, cert: &ThresholdCertificate) -> (r:
        Result<Cell, String>)
        ensures
            match certified_verdict(*old(self), tx@, cert@) {
                Ok(_) => r == Ok::<Cell, String>(spend::output_cell_of(tx@)) && final(self).active@
                    == spend::spent(old(self).active@, tx@),
                Err(e) => r is Err && r->Err_0@ == e && final(self).active@ == old(self).active@,
            },
            final(self).scheme == old(self).scheme,
            final(self).committee@ == old(self).committee@,
            final(self).threshold == old(self).threshold,
    {
        if tx.network_id != NETWORK_ID {
            return Err(text("core wrong network/domain"));
        }
        self.verify_threshold_certificate(tx, cert)?;
        apply_spend(&mut self.active, tx, false)
    }
}

// ---------------------------------------------------------------------------
// Laws.
// ---------------------------------------------------------------------------

/// The shares count from number `i` on: what that says of the certifiers.
proof fn lemma_shares(
    s: SchemeModel,
    committee: Set<PublicKeyBytes>,
    cert: CertificateModel,
    i: int,
    unique: Set<PublicKeyBytes>,
)
    requires
        0 <= i,
        shares_result(s, committee, cert, i, unique) is Ok,
        unique.finite(),
    ensures
        unique.subset_of(shares_result(s, committee, cert, i, unique)->Ok_0),
        shares_result(s, committee, cert, i, unique)->Ok_0.finite(),
        forall|k: PublicKeyBytes| #[trigger]
            shares_result(s, committee, cert, i, unique)->Ok_0.contains(k) && !unique.contains(k)
                ==> committee.contains(k) && signed_by(s, cert, k),
    decreases cert.shares.len() - i,
{
    if i < cert.shares.len() {
        let share = cert.shares[i];
        if unique.contains(share.certifier) {
            lemma_shares(s, committee, cert, i + 1, unique);
        } else {
            lemma_shares(s, committee, cert, i + 1, unique.insert(share.certifier));
            assert(share_counts(s, cert, i));
        }
    }
}

/// The share number `i` of a certificate is a valid signature of what the
/// certificate states.
pub open spec fn share_counts(s: SchemeModel, cert: CertificateModel, i: int) -> bool {
    &&& 0 <= i < cert.shares.len()
    &&& cert.shares[i].tx_digest == cert.tx_digest
    &&& cert.shares[i].user_signer == cert.user_signer
    &&& cert.shares[i].epoch == cert.epoch
    &&& share_verifies(s, cert.shares[i])
}

/// A certifier signed what a certificate states.
pub open spec fn signed_by(s: SchemeModel, cert: CertificateModel, key: PublicKeyBytes) -> bool {
    exists|i: int| #[trigger] share_counts(s, cert, i) && cert.shares[i].certifier == key
}

/// The certifiers of a certificate.
pub open spec fn certifiers(s: SchemeModel, committee: Set<PublicKeyBytes>, cert: CertificateModel)
    -> Set<PublicKeyBytes> {
    shares_result(s, committee, cert, 0, Set::empty())->Ok_0
}

/// An accepted certificate has the signatures of at least the threshold of
/// different members of the committee, on exactly the spend.
pub proof fn law_certificate_has_a_quorum(
    s: SchemeModel,
    committee: Set<PublicKeyBytes>,
    threshold: nat,
    tx: SpendModel,
    cert: CertificateModel,
)
    requires
        threshold_verdict(s, committee, threshold, tx, cert) is Ok,
    ensures
        certifiers(s, committee, cert).finite(),
        certifiers(s, committee, cert).len() >= threshold,
        certifiers(s, committee, cert).subset_of(committee),
        forall|k: PublicKeyBytes| #[trigger]
            certifiers(s, committee, cert).contains(k) ==> signed_by(s, cert, k),
        cert.tx_digest == scheme_commitment(s, tx, cert.user_signer),
{
    lemma_shares(s, committee, cert, 0, Set::empty());
}

/// Two accepted certificates of a committee share at least two thresholds less
/// the size of the committee of their certifiers.
pub proof fn law_certificates_intersect(
    s: SchemeModel,
    committee: Set<PublicKeyBytes>,
    threshold: nat,
    tx: SpendModel,
    cert: CertificateModel,
    other_tx: SpendModel,
    other: CertificateModel,
)
    requires
        committee.finite(),
        threshold_verdict(s, committee, threshold, tx, cert) is Ok,
        threshold_verdict(s, committee, threshold, other_tx, other) is Ok,
    ensures
        certifiers(s, committee, cert).intersect(certifiers(s, committee, other)).len()
            + committee.len() >= 2 * threshold,
{
    law_certificate_has_a_quorum(s, committee, threshold, tx, cert);
    law_certificate_has_a_quorum(s, committee, threshold, other_tx, other);
    let a = certifiers(s, committee, cert);
    let b = certifiers(s, committee, other);
    vstd::set_lib::lemma_set_intersect_union_lens(a, b);
    vstd::set_lib::lemma_len_subset(a.union(b), committee);
}

/// A second share of a certifier counts no more than the first: a certificate
/// that repeats one share has one certifier.
pub proof fn law_repeated_share_counts_once(
    s: SchemeModel,
    committee: Set<PublicKeyBytes>,
    cert: CertificateModel,
    i: int,
    unique: Set<PublicKeyBytes>,
    key: PublicKeyBytes,
)
    requires
        0 <= i,
        shares_result(s, committee, cert, i, unique) is Ok,
        forall|k: int| i <= k < cert.shares.len() ==> (#[trigger] cert.shares[k]).certifier == key,
        unique.subset_of(Set::empty().insert(key)),
    ensures
        shares_result(s, committee, cert, i, unique)->Ok_0.len() <= 1,
    decreases cert.shares.len() - i,
{
    let one = Set::<PublicKeyBytes>::empty().insert(key);
    vstd::set_lib::lemma_len_subset(unique, one);
    if i < cert.shares.len() {
        let next = if unique.contains(cert.shares[i].certifier) {
            unique
        } else {
            unique.insert(cert.shares[i].certifier)
        };
        law_repeated_share_counts_once(s, committee, cert, i + 1, next, key);
    }
}

/// With fewer Byzantine members than two quorums have to share, no two accepted
/// certificates conflict: if a valid share means that its certifier signed, and
/// honest certifiers sign for one digest only, both certificates are for the same
/// digest.
pub proof fn law_no_conflicting_certificates(
    s: SchemeModel,
    committee: Set<PublicKeyBytes>,
    threshold: nat,
    byzantine: Set<PublicKeyBytes>,
    signed: spec_fn(PublicKeyBytes, Digest) -> bool,
    tx: SpendModel,
    cert: CertificateModel,
    other_tx: SpendModel,
    other: CertificateModel,
)
    requires
        committee.finite(),
        byzantine.finite(),
        byzantine.len() + committee.len() < 2 * threshold,
        forall|k: PublicKeyBytes| #[trigger]
            signed_by(s, cert, k) && !byzantine.contains(k) ==> signed(k, cert.tx_digest),
        forall|k: PublicKeyBytes| #[trigger]
            signed_by(s, other, k) && !byzantine.contains(k) ==> signed(k, other.tx_digest),
        forall|k: PublicKeyBytes, a: Digest, b: Digest|
            !byzantine.contains(k) && #[trigger] signed(k, a) && #[trigger] signed(k, b) ==> a
                == b,
        threshold_verdict(s, committee, threshold, tx, cert) is Ok,
        threshold_verdict(s, committee, threshold, other_tx, other) is Ok,
    ensures
        cert.tx_digest == other.tx_digest,
{
    law_certificate_has_a_quorum(s, committee, threshold, tx, cert);
    law_certificate_has_a_quorum(s, committee, threshold, other_tx, other);
    law_certificates_intersect(s, committee, threshold, tx, cert, other_tx, other);
    let both = certifiers(s, committee, cert).intersect(certifiers(s, committee, other));
    if both.subset_of(byzantine) {
        vstd::set_lib::lemma_len_subset(both, byzantine);
    }
    let k = choose|k: PublicKeyBytes| both.contains(k) && !byzantine.contains(k);
    assert(both.contains(k) && !byzantine.contains(k));
    assert(signed_by(s, cert, k));
    assert(signed_by(s, other, k));
}

/// The shares of the certifiers with these seeds for one spend.
pub open spec fn shares_of(s: SchemeModel, seeds: Seq<[u8; 32]>, verified: VerifiedSpend) -> Seq<
    CertifierShare,
> {
    seeds.map_values(|seed: [u8; 32]| share_of(s, seed, verified))
}

proof fn lemma_quorum(
    s: SchemeModel,
    committee: Set<PublicKeyBytes>,
    seeds: Seq<[u8; 32]>,
    verified: VerifiedSpend,
    i: int,
    unique: Set<PublicKeyBytes>,
)
    requires
        0 <= i <= seeds.len(),
        unique.finite(),
        forall|k: int|
            0 <= k < seeds.len() ==> committee.contains(crypto::public_key(#[trigger] seeds[k]))
                && crypto::signs_well(
                seeds[k],
                spend::share_message_bytes(s.share, verified.tx_digest, verified.user_signer, s.epoch),
            ),
        forall|k: int, j: int|
            0 <= k < j < seeds.len() ==> crypto::public_key(#[trigger] seeds[k]) != crypto::public_key(
                #[trigger] seeds[j],
            ),
        forall|k: int|
            i <= k < seeds.len() ==> !unique.contains(crypto::public_key(#[trigger] seeds[k])),
    ensures
        shares_result(s, committee, certificate_of(shares_of(s, seeds, verified)), i, unique)
            is Ok,
        shares_result(
            s,
            committee,
            certificate_of(shares_of(s, seeds, verified)),
            i,
            unique,
        )->Ok_0.len() == unique.len() + seeds.len() - i,
    decreases seeds.len() - i,
{
    let cert = certificate_of(shares_of(s, seeds, verified));
    if i < seeds.len() {
        assert(cert.shares[i] == share_of(s, seeds[i], verified));
        assert(cert.shares[0] == share_of(s, seeds[0], verified));
        lemma_quorum(
            s,
            committee,
            seeds,
            verified,
            i + 1,
            unique.insert(crypto::public_key(seeds[i])),
        );
    }
}

/// Enough different members of the committee can certify a spend: the certificate
/// that their shares make is accepted, as far as verification accepts what signing
/// makes.
pub proof fn law_quorum_is_accepted(
    s: SchemeModel,
    committee: Set<PublicKeyBytes>,
    threshold: nat,
    tx: SpendModel,
    seeds: Seq<[u8; 32]>,
    verified: VerifiedSpend,
)
    requires
        seeds.len() > 0,
        seeds.len() >= threshold,
        verified.tx_digest == scheme_commitment(s, tx, verified.user_signer),
        forall|k: int|
            0 <= k < seeds.len() ==> committee.contains(crypto::public_key(#[trigger] seeds[k]))
                && crypto::signs_well(
                seeds[k],
                spend::share_message_bytes(s.share, verified.tx_digest, verified.user_signer, s.epoch),
            ),
        forall|k: int, j: int|
            0 <= k < j < seeds.len() ==> crypto::public_key(#[trigger] seeds[k]) != crypto::public_key(
                #[trigger] seeds[j],
            ),
    ensures
        threshold_verdict(
            s,
            committee,
            threshold,
            tx,
            certificate_of(shares_of(s, seeds, verified)),
        ) is Ok,
{
    lemma_quorum(s, committee, seeds, verified, 0, Set::empty());
    assert(shares_of(s, seeds, verified)[0] == share_of(s, seeds[0], verified));
}

/// The certifiers that the shares from number `i` on name.
pub open spec fn named_from(cert: CertificateModel, i: int) -> Set<PublicKeyBytes> {
    Set::new(
        |key: PublicKeyBytes|
            exists|k: int|
                i <= k < cert.shares.len() && (#[trigger] cert.shares[k]).certifier == key,
    )
}

/// The share number `k` is the first of its certifier from number `i` on that is not among
/// those already counted.
pub open spec fn first_of(cert: CertificateModel, i: int, unique: Set<PublicKeyBytes>, k: int) -> bool {
    !unique.contains(cert.shares[k].certifier) && forall|j: int|
        i <= j < k ==> (#[trigger] cert.shares[j]).certifier != cert.shares[k].certifier
}

proof fn lemma_shares_exact(
    s: SchemeModel,
    committee: Set<PublicKeyBytes>,
    cert: CertificateModel,
    i: int,
    unique: Set<PublicKeyBytes>,
)
    requires
        0 <= i <= cert.shares.len(),
    ensures
        shares_result(s, committee, cert, i, unique) is Ok <==> {
            &&& forall|k: int|
                i <= k < cert.shares.len() ==> {
                    &&& (#[trigger] cert.shares[k]).epoch == cert.epoch
                    &&& cert.shares[k].tx_digest == cert.tx_digest
                    &&& cert.shares[k].user_signer == cert.user_signer
                    &&& committee.contains(cert.shares[k].certifier)
                }
            &&& forall|k: int|
                i <= k < cert.shares.len() && #[trigger] first_of(cert, i, unique, k)
                    ==> crypto::ed25519_key_decodes(cert.shares[k].certifier@) && share_verifies(
                    s,
                    cert.shares[k],
                )
        },
        shares_result(s, committee, cert, i, unique) matches Ok(all) ==> all =~= unique.union(
            named_from(cert, i),
        ),
    decreases cert.shares.len() - i,
{
    if i < cert.shares.len() {
        let share = cert.shares[i];
        let now = unique.insert(share.certifier);
        lemma_shares_exact(s, committee, cert, i + 1, now);
        lemma_shares_exact(s, committee, cert, i + 1, unique);
        assert(first_of(cert, i, unique, i) <==> !unique.contains(share.certifier));
        assert forall|k: int| i + 1 <= k < cert.shares.len() implies #[trigger] first_of(
            cert,
            i,
            unique,
            k,
        ) == first_of(cert, i + 1, now, k) by {
            if first_of(cert, i, unique, k) {
                assert(cert.shares[i].certifier != cert.shares[k].certifier);
            }
        }
        let next = i + 1;
        assert forall|k: int| next <= k < cert.shares.len() implies first_of(cert, i, unique, k)
            == #[trigger] first_of(cert, next, now, k) by {
            assert(first_of(cert, i, unique, k) == first_of(cert, i + 1, now, k));
        }
        if unique.contains(share.certifier) {
            assert(now =~= unique);
        }
        assert forall|key: PublicKeyBytes|
            named_from(cert, i).contains(key) == (named_from(cert, next).contains(key) || key
                == share.certifier) by {
            if named_from(cert, i).contains(key) {
                let k = choose|k: int|
                    i <= k < cert.shares.len() && (#[trigger] cert.shares[k]).certifier == key;
                if k != i {
                    assert(next <= k < cert.shares.len() && cert.shares[k].certifier == key);
                }
            }
            if named_from(cert, next).contains(key) {
                let k = choose|k: int|
                    next <= k < cert.shares.len() && (#[trigger] cert.shares[k]).certifier == key;
                assert(i <= k < cert.shares.len() && cert.shares[k].certifier == key);
            }
            assert(i <= i < cert.shares.len() && cert.shares[i].certifier == share.certifier);
        }
    } else {
        assert(named_from(cert, i) =~= Set::empty());
    }
}

/// A certificate is accepted exactly if it is of the scheme's epoch and on this very spend,
/// every share says what it says and is by a member, the first share of every member is well
/// signed, and the members that signed are as many as the threshold or more.
pub proof fn law_certificate_is_accepted_if(
    s: SchemeModel,
    committee: Set<PublicKeyBytes>,
    threshold: nat,
    tx: SpendModel,
    cert: CertificateModel,
)
    ensures
        threshold_verdict(s, committee, threshold, tx, cert) is Ok <==> {
            &&& cert.epoch == s.epoch
            &&& cert.tx_digest == scheme_commitment(s, tx, cert.user_signer)
            &&& forall|k: int|
                0 <= k < cert.shares.len() ==> {
                    &&& (#[trigger] cert.shares[k]).epoch == cert.epoch
                    &&& cert.shares[k].tx_digest == cert.tx_digest
                    &&& cert.shares[k].user_signer == cert.user_signer
                    &&& committee.contains(cert.shares[k].certifier)
                }
            &&& forall|k: int|
                0 <= k < cert.shares.len() && #[trigger] first_of(cert, 0, Set::empty(), k)
                    ==> crypto::ed25519_key_decodes(
                    cert.shares[k].certifier@,
                ) && crypto::ed25519_strictly_verifies(
                    cert.shares[k].certifier@,
                    spend::share_message_bytes(s.share, cert.tx_digest, cert.user_signer, s.epoch),
                    cert.shares[k].signature@,
                )
            &&& named_from(cert, 0).len() >= threshold
        },
{
    lemma_shares_exact(s, committee, cert, 0, Set::empty());
    let none = Set::<PublicKeyBytes>::empty();
    assert(none.union(named_from(cert, 0)) =~= named_from(cert, 0));
}

/// A certified spend is made exactly if it is of this network, its certificate is accepted,
/// it has one to eight inputs with different identifiers that are active in the stated
/// generations, its output is not active yet, and its value is that of the inputs.
pub proof fn law_certified_spend_is_made_if(core: CoreState, tx: SpendModel, cert: CertificateModel)
    ensures
        certified_verdict(core, tx, cert) is Ok <==> {
            &&& tx.network_id == 1
            &&& threshold_verdict(
                core.scheme@,
                core.committee@.to_set(),
                core.threshold as nat,
                tx,
                cert,
            ) is Ok
            &&& 1 <= tx.inputs.len() <= 8
            &&& !core.active@.contains_key(tx.output_id)
            &&& forall|i: int, j: int|
                0 <= i < j < tx.inputs.len() ==> (#[trigger] tx.inputs[i]).id != (
                #[trigger] tx.inputs[j]).id
            &&& forall|k: int|
                0 <= k < tx.inputs.len() ==> core.active@.contains_key(
                    (#[trigger] tx.inputs[k]).id,
                ) && core.active@[tx.inputs[k].id].generation == tx.inputs[k].generation
            &&& spend::inputs_value(core.active@, tx.inputs, 0) == tx.output_value
        },
{
    spend::law_core_verdict(core.active@, tx, false);
    if forall|i: int, j: int|
        0 <= i < j < tx.inputs.len() ==> (#[trigger] tx.inputs[i]).id != (
        #[trigger] tx.inputs[j]).id {
        assert(spend::distinct_ids(tx.inputs));
    }
}

} // verus!
