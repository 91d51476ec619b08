//! Locks that survive the loss of a certifier's own store: a certifier anchors its
//! lock with five of seven witnesses before it signs, and asks six of seven
//! witnesses for an earlier lock before it locks.
use crate::bytes;
use crate::bytes::{
    array_from, copy_slice, copy_vec, get_u64, put_bytes, put_digest, put_u64, same_array,
    same_bytes,
};
use crate::crypto;
use crate::crypto::{hash_domain, SigningKey, VerifyingKey};
use crate::model::{Digest, PublicKeyBytes, SignatureBytes, Verdict};
use crate::ordmap::{Model, OrdKey, OrdMap, OrdSet, Ordered};
use crate::sec002;
use crate::sec003;
use crate::spend;
use crate::spend::{
    commit, make_spend, sign_spend, Cell, InputRef, SpendModel, SpendTx, UserAuthorization,
    MAX_INPUTS, NETWORK_ID,
};
use crate::text;
use crate::text::{push_dec, text};
use std::collections::HashMap;
use vstd::prelude::*;

verus! {

pub const EPOCH: u64 = 4;

pub const N: usize = 7;

pub const AUTH_Q: usize = 5;

pub const ANCHOR_Q: usize = 5;

pub const RECOVERY_Q: usize = 6;

pub const F: usize = 2;

pub const WITNESS_RECORD_SIZE: usize = 192;

// ---------------------------------------------------------------------------
// What owners sign.
// ---------------------------------------------------------------------------

#[derive(Clone, Copy, Debug)]
pub struct VerifiedSpend {
    pub digest: Digest,
    pub signer: PublicKeyBytes,
}

pub fn deterministic_key(domain: &str, label: u64) -> (key: SigningKey)
    ensures
        key.seed == crypto::digest(domain@, bytes::le64(label)),
{
    crate::crypto::deterministic_key(domain, label)
}

/// What the owner of the inputs signs.
pub open spec fn witnessed_message(tx: SpendModel) -> Seq<u8> {
    spend::user_message("CALIBRE_SEC004_USER_SPEND_V1"@, tx)
}

pub fn canonical_user_message(tx: &SpendTx) -> (r: Vec<u8>)
    ensures
        r@ == witnessed_message(tx@),
{
    crate::spend::canonical_user_message("CALIBRE_SEC004_USER_SPEND_V1", tx)
}

/// The commitment to a spend and its signer.
pub open spec fn witnessed_commitment(tx: SpendModel, signer: PublicKeyBytes) -> Digest {
    spend::commitment(
        "CALIBRE_SEC004_AUTHORIZED_TX_V1"@,
        "CALIBRE_SEC004_USER_SPEND_V1"@,
        tx,
        signer,
    )
}

pub fn tx_commitment(tx: &SpendTx, signer: &PublicKeyBytes) -> (d: Digest)
    ensures
        d == witnessed_commitment(tx@, *signer),
{
    commit("CALIBRE_SEC004_AUTHORIZED_TX_V1", "CALIBRE_SEC004_USER_SPEND_V1", tx, signer)
}

pub fn sign_user_spend(tx: &SpendTx, sk: &SigningKey) -> (r: UserAuthorization)
    ensures
        r == spend::authorization("CALIBRE_SEC004_USER_SPEND_V1"@, tx@, sk.seed),
        crypto::has_nonce(r.signature) ==> crypto::signs_well(
            sk.seed,
            spend::user_message("CALIBRE_SEC004_USER_SPEND_V1"@, tx@),
        ),
{
    sign_spend("CALIBRE_SEC004_USER_SPEND_V1", tx, sk)
}

/// What the inputs from number `i` on add to a total.
pub open spec fn owned_result(
    cells: Map<u64, Cell>,
    inputs: Seq<InputRef>,
    owner: PublicKeyBytes,
    i: int,
    total: nat,
) -> Result<nat, Seq<char>>
    decreases inputs.len() - i,
{
    if i < 0 || i >= inputs.len() {
        Ok(total)
    } else {
        let input = inputs[i];
        if inputs.subrange(0, i).contains(input) {
            Err("duplicate input"@)
        } else if !cells.contains_key(input.id) {
            Err("input not active"@)
        } else if cells[input.id].generation != input.generation {
            Err("generation mismatch"@)
        } else if cells[input.id].owner != owner {
            Err("owner mismatch"@)
        } else if total + cells[input.id].value > u64::MAX {
            Err("value overflow"@)
        } else {
            owned_result(cells, inputs, owner, i + 1, total + cells[input.id].value as nat)
        }
    }
}

/// The spend that an owner authorized, or why it is refused.
pub open spec fn witnessed_authorization(
    tx: SpendModel,
    auth: UserAuthorization,
    cells: Map<u64, Cell>,
) -> Result<VerifiedSpend, Seq<char>> {
    if tx.network_id != NETWORK_ID {
        Err("wrong network"@)
    } else if tx.inputs.len() == 0 || tx.inputs.len() > MAX_INPUTS {
        Err("invalid input count"@)
    } else if !crypto::ed25519_key_decodes(auth.signer@) {
        Err("invalid user key"@)
    } else if !crypto::ed25519_strictly_verifies(auth.signer@, witnessed_message(tx), auth.signature@) {
        Err("user signature rejected"@)
    } else {
        match owned_result(cells, tx.inputs, auth.signer, 0, 0) {
            Err(e) => Err(e),
            Ok(total) => if total != tx.output_value {
                Err("value conservation mismatch"@)
            } else {
                Ok(
                    VerifiedSpend {
                        digest: witnessed_commitment(tx, auth.signer),
                        signer: auth.signer,
                    },
                )
            },
        }
    }
}

fn occurs_before(inputs: &Vec<InputRef>, i: usize) -> (r: bool)
    requires
        i < inputs@.len(),
    ensures
        r == inputs@.subrange(0, i as int).contains(inputs@[i as int]),
{
    let mut j: usize = 0;
    while j < i
        invariant
            j <= i < inputs@.len(),
            forall|k: int| 0 <= k < j ==> #[trigger] inputs@[k] != inputs@[i as int],
        decreases i - j,
    {
        if inputs[j] == inputs[i] {
            assert(inputs@.subrange(0, i as int)[j as int] == inputs@[i as int]);
            return true;
        }
        j = j + 1;
    }
    false
}

fn owned_value(cells: &HashMap<u64, Cell>, inputs: &Vec<InputRef>, owner: &PublicKeyBytes) -> (r:
    Result<u64, String>)
    ensures
        match owned_result(cells@, inputs@, *owner, 0, 0) {
            Ok(total) => r is Ok && r->Ok_0 == total,
            Err(e) => r is Err && r->Err_0@ == e,
        },
{
    let mut total: u64 = 0;
    let mut i: usize = 0;
    while i < inputs.len()
        invariant
            i <= inputs@.len(),
            owned_result(cells@, inputs@, *owner, 0, 0) == owned_result(
                cells@,
                inputs@,
                *owner,
                i as int,
                total as nat,
            ),
        decreases inputs@.len() - i,
    {
        if occurs_before(inputs, i) {
            return Err(text("duplicate input"));
        }
        match cells.get(&inputs[i].id) {
            None => {
                return Err(text("input not active"));
            },
            Some(cell) => {
                if cell.generation != inputs[i].generation {
                    return Err(text("generation mismatch"));
                }
                if !same_array(&cell.owner, owner) {
                    return Err(text("owner mismatch"));
                }
                match total.checked_add(cell.value) {
                    None => {
                        return Err(text("value overflow"));
                    },
                    Some(sum) => {
                        total = sum;
                    },
                }
            },
        }
        i = i + 1;
    }
    Ok(total)
}

/// Checks that the owner of every input authorized the spend, and that the spend
/// keeps their value.
pub fn verify_user_authorization(
    tx: &SpendTx,
    auth: &UserAuthorization,
    cells: &HashMap<u64, Cell>,
) -> (r: Result<VerifiedSpend, String>)
    ensures
        text::shown(r) == witnessed_authorization(tx@, *auth, cells@),
{
    if tx.network_id != NETWORK_ID {
        return Err(text("wrong network"));
    }
    if tx.inputs.len() == 0 || tx.inputs.len() > MAX_INPUTS {
        return Err(text("invalid input count"));
    }
    let key: VerifyingKey = VerifyingKey { bytes: auth.signer };
    if !key.decodes() {
        return Err(text("invalid user key"));
    }
    let message: Vec<u8> = canonical_user_message(tx);
    if !key.verify_strict(&message, &auth.signature) {
        return Err(text("user signature rejected"));
    }
    let total: u64 = owned_value(cells, &tx.inputs, &auth.signer)?;
    if total != tx.output_value {
        return Err(text("value conservation mismatch"));
    }
    Ok(VerifiedSpend { digest: tx_commitment(tx, &auth.signer), signer: auth.signer })
}

// ---------------------------------------------------------------------------
// Evidence.
// ---------------------------------------------------------------------------

/// A certifier's signed word that it locked an input to a spend.
#[derive(Clone, Copy, Debug)]
pub struct LockEvidence {
    pub certifier: PublicKeyBytes,
    pub epoch: u64,
    pub input: InputRef,
    pub digest: Digest,
    pub signature: SignatureBytes,
}

impl Model for LockEvidence {
    type M = LockEvidence;

    open spec fn model(&self) -> LockEvidence {
        *self
    }

    fn duplicate(&self) -> (r: Self) {
        *self
    }
}

/// A witness's signed word that it keeps some evidence.
#[derive(Clone, Copy, Debug)]
pub struct WitnessAck {
    pub witness: PublicKeyBytes,
    pub evidence_fingerprint: Digest,
    pub signature: SignatureBytes,
}

/// What a certifier signs for a lock.
pub open spec fn evidence_bytes(certifier: PublicKeyBytes, input: InputRef, tx_digest: Digest)
    -> Seq<u8> {
    crypto::ascii("CALIBRE_SEC004_LOCK_EVIDENCE_V1"@) + bytes::le64(EPOCH) + certifier@ + bytes::le64(input.id) + bytes::le64(
        input.generation,
    ) + tx_digest@
}

pub fn evidence_message(certifier: &PublicKeyBytes, input: InputRef, digest: &Digest) -> (r: Vec<
    u8,
>)
    ensures
        r@ == evidence_bytes(*certifier, input, *digest),
{
    let mut out: Vec<u8> = Vec::new();
    put_bytes(&mut out, "CALIBRE_SEC004_LOCK_EVIDENCE_V1".as_bytes());
    put_u64(&mut out, EPOCH);
    put_digest(&mut out, certifier);
    put_u64(&mut out, input.id);
    put_u64(&mut out, input.generation);
    put_digest(&mut out, digest);
    assert(out@ =~= evidence_bytes(*certifier, input, *digest));
    out
}

/// The evidence that a certifier makes.
pub open spec fn evidence_of(seed: [u8; 32], input: InputRef, tx_digest: Digest) -> LockEvidence {
    LockEvidence {
        certifier: crypto::public_key(seed),
        epoch: EPOCH,
        input,
        digest: tx_digest,
        signature: crypto::signature(seed, evidence_bytes(crypto::public_key(seed), input, tx_digest)),
    }
}

pub fn make_evidence(sk: &SigningKey, input: InputRef, digest: Digest) -> (r: LockEvidence)
    ensures
        r == evidence_of(sk.seed, input, digest),
{
    let certifier: PublicKeyBytes = sk.verifying_key().to_bytes();
    let message: Vec<u8> = evidence_message(&certifier, input, &digest);
    LockEvidence { certifier, epoch: EPOCH, input, digest, signature: sk.sign(&message) }
}

/// The verdict on evidence.
pub open spec fn lock_evidence_verdict(e: LockEvidence) -> Verdict {
    if e.epoch != EPOCH {
        Err("evidence epoch mismatch"@)
    } else if !crypto::ed25519_key_decodes(e.certifier@) {
        Err("invalid evidence key"@)
    } else if !crypto::ed25519_strictly_verifies(
        e.certifier@,
        evidence_bytes(e.certifier, e.input, e.digest),
        e.signature@,
    ) {
        Err("evidence signature rejected"@)
    } else {
        Ok(())
    }
}

pub fn verify_evidence(e: &LockEvidence) -> (r: Result<(), String>)
    ensures
        text::shown(r) == lock_evidence_verdict(*e),
{
    if e.epoch != EPOCH {
        return Err(text("evidence epoch mismatch"));
    }
    let key: VerifyingKey = VerifyingKey { bytes: e.certifier };
    if !key.decodes() {
        return Err(text("invalid evidence key"));
    }
    let message: Vec<u8> = evidence_message(&e.certifier, e.input, &e.digest);
    if !key.verify_strict(&message, &e.signature) {
        return Err(text("evidence signature rejected"));
    }
    Ok(())
}

/// The fields of evidence, one after the other.
pub open spec fn evidence_fields(e: LockEvidence) -> Seq<u8> {
    e.certifier@ + bytes::le64(e.epoch) + bytes::le64(e.input.id) + bytes::le64(e.input.generation) + e.digest@
        + e.signature@
}

fn put_evidence(out: &mut Vec<u8>, e: &LockEvidence)
    ensures
        final(out)@ == old(out)@ + evidence_fields(*e),
{
    let ghost before = out@;
    put_digest(out, &e.certifier);
    put_u64(out, e.epoch);
    put_u64(out, e.input.id);
    put_u64(out, e.input.generation);
    put_digest(out, &e.digest);
    put_bytes(out, &e.signature);
    assert(out@ =~= before + evidence_fields(*e));
}

/// The fingerprint of evidence.
pub open spec fn fingerprint_of(e: LockEvidence) -> Digest {
    crypto::digest("CALIBRE_SEC004_EVIDENCE_FINGERPRINT_V1"@, evidence_fields(e))
}

pub fn evidence_fingerprint(e: &LockEvidence) -> (d: Digest)
    ensures
        d == fingerprint_of(*e),
{
    let mut bytes: Vec<u8> = Vec::new();
    put_evidence(&mut bytes, e);
    assert(bytes@ =~= evidence_fields(*e));
    hash_domain("CALIBRE_SEC004_EVIDENCE_FINGERPRINT_V1", &bytes)
}

/// What a witness signs.
pub open spec fn ack_bytes(fingerprint: Digest) -> Seq<u8> {
    crypto::ascii("CALIBRE_SEC004_WITNESS_ACK_V1"@) + bytes::le64(EPOCH) + fingerprint@
}

pub fn ack_message(fingerprint: &Digest) -> (r: Vec<u8>)
    ensures
        r@ == ack_bytes(*fingerprint),
{
    let mut out: Vec<u8> = Vec::new();
    put_bytes(&mut out, "CALIBRE_SEC004_WITNESS_ACK_V1".as_bytes());
    put_u64(&mut out, EPOCH);
    put_digest(&mut out, fingerprint);
    assert(out@ =~= ack_bytes(*fingerprint));
    out
}

/// The verdict on the word of a witness.
pub open spec fn ack_verdict(ack: WitnessAck, trusted: Set<PublicKeyBytes>, fp: Digest) -> Verdict {
    if !trusted.contains(ack.witness) || ack.evidence_fingerprint != fp {
        Err("invalid witness ack membership/content"@)
    } else if !crypto::ed25519_key_decodes(ack.witness@) {
        Err("invalid witness key"@)
    } else if !crypto::ed25519_strictly_verifies(ack.witness@, ack_bytes(fp), ack.signature@) {
        Err("witness ack signature rejected"@)
    } else {
        Ok(())
    }
}

pub fn verify_ack(ack: &WitnessAck, trusted: &OrdSet<PublicKeyBytes>, fp: &Digest) -> (r: Result<
    (),
    String,
>)
    ensures
        text::shown(r) == ack_verdict(*ack, trusted@, *fp),
{
    if !trusted.contains(&ack.witness) || !same_array(&ack.evidence_fingerprint, fp) {
        return Err(text("invalid witness ack membership/content"));
    }
    let key: VerifyingKey = VerifyingKey { bytes: ack.witness };
    if !key.decodes() {
        return Err(text("invalid witness key"));
    }
    let message: Vec<u8> = ack_message(fp);
    if !key.verify_strict(&message, &ack.signature) {
        return Err(text("witness ack signature rejected"));
    }
    Ok(())
}

// ---------------------------------------------------------------------------
// Records.
// ---------------------------------------------------------------------------

pub open spec fn witness_sum(prefix: Seq<u8>) -> Digest {
    crypto::digest("CALIBRE_SEC004_WITNESS_RECORD_CHECKSUM_V1"@, prefix)
}

pub fn record_checksum(prefix: &[u8]) -> (d: Digest)
    ensures
        d == witness_sum(prefix@),
{
    hash_domain("CALIBRE_SEC004_WITNESS_RECORD_CHECKSUM_V1", prefix)
}

/// The part of a record that its checksum covers.
pub open spec fn witness_prefix(e: LockEvidence) -> Seq<u8> {
    crypto::ascii("CALWA004"@) + evidence_fields(e)
}

/// The record of evidence.
#[verifier::opaque]
pub open spec fn witness_record(e: LockEvidence) -> Seq<u8> {
    witness_prefix(e) + witness_sum(witness_prefix(e))@
}

proof fn lemma_witness_magic()
    ensures
        crypto::ascii("CALWA004"@).len() == 8,
{
    reveal_strlit("CALWA004");
    assert(vstd::utf8::is_ascii_chars("CALWA004"@));
    vstd::utf8::is_ascii_chars_encode_utf8("CALWA004"@);
}

pub fn encode_record(e: &LockEvidence) -> (r: Vec<u8>)
    ensures
        r@ == witness_record(*e),
        r@.len() == WITNESS_RECORD_SIZE,
{
    let mut out: Vec<u8> = Vec::new();
    put_bytes(&mut out, "CALWA004".as_bytes());
    put_evidence(&mut out, e);
    assert(out@ =~= witness_prefix(*e));
    let sum: Digest = record_checksum(&out);
    put_digest(&mut out, &sum);
    proof {
        reveal(witness_record);
        lemma_witness_magic();
    }
    out
}

/// The evidence in the fields of a record.
pub open spec fn evidence_in(b: Seq<u8>) -> LockEvidence {
    LockEvidence {
        certifier: bytes::arr::<32>(b.subrange(8, 40)),
        epoch: bytes::from_le64(b.subrange(40, 48)),
        input: InputRef {
            id: bytes::from_le64(b.subrange(48, 56)),
            generation: bytes::from_le64(b.subrange(56, 64)),
        },
        digest: bytes::arr::<32>(b.subrange(64, 96)),
        signature: bytes::arr::<64>(b.subrange(96, 160)),
    }
}

/// The evidence that a record is of, or why the record is refused.
pub open spec fn evidence_decoded(b: Seq<u8>) -> Result<LockEvidence, Seq<char>> {
    if b.len() != WITNESS_RECORD_SIZE || b.subrange(0, 8) != crypto::ascii("CALWA004"@) {
        Err("witness record format rejected"@)
    } else if witness_sum(b.subrange(0, 160))@ != b.subrange(160, 192) {
        Err("witness record checksum rejected"@)
    } else {
        match lock_evidence_verdict(evidence_in(b)) {
            Err(e) => Err(e),
            Ok(_) => Ok(evidence_in(b)),
        }
    }
}

pub fn decode_record(buf: &[u8]) -> (r: Result<LockEvidence, String>)
    ensures
        text::shown(r) == evidence_decoded(buf@),
{
    if buf.len() != WITNESS_RECORD_SIZE {
        return Err(text("witness record format rejected"));
    }
    if !same_bytes(&buf[0..8], "CALWA004".as_bytes()) {
        return Err(text("witness record format rejected"));
    }
    let expected: Digest = record_checksum(&buf[0..160]);
    if !same_bytes(&expected, &buf[160..192]) {
        return Err(text("witness record checksum rejected"));
    }
    let e: LockEvidence = LockEvidence {
        certifier: array_from(&buf[8..40]),
        epoch: get_u64(&buf[40..48]),
        input: InputRef { id: get_u64(&buf[48..56]), generation: get_u64(&buf[56..64]) },
        digest: array_from(&buf[64..96]),
        signature: array_from(&buf[96..160]),
    };
    verify_evidence(&e)?;
    Ok(e)
}

// ---------------------------------------------------------------------------
// The store of a witness.
// ---------------------------------------------------------------------------

/// What evidence is about: an input that a certifier locks in an epoch.
#[derive(Clone, Copy, Debug)]
pub struct EvidenceKey {
    pub certifier: PublicKeyBytes,
    pub epoch: u64,
    pub input: InputRef,
}

impl Ordered for EvidenceKey {
    open spec fn lt(self, other: Self) -> bool {
        Ordered::lt(self.certifier, other.certifier) || self.certifier == other.certifier && (
        self.epoch < other.epoch || self.epoch == other.epoch && Ordered::lt(
            self.input,
            other.input,
        ))
    }

    proof fn lt_irreflexive(a: Self) {
        <PublicKeyBytes as Ordered>::lt_irreflexive(a.certifier);
    }

    proof fn lt_transitive(a: Self, b: Self, c: Self) {
        if Ordered::lt(a.certifier, b.certifier) && Ordered::lt(b.certifier, c.certifier) {
            <PublicKeyBytes as Ordered>::lt_transitive(a.certifier, b.certifier, c.certifier);
        }
    }

    proof fn lt_total(a: Self, b: Self) {
        <PublicKeyBytes as Ordered>::lt_total(a.certifier, b.certifier);
    }
}

impl OrdKey for EvidenceKey {
    type Key = EvidenceKey;

    open spec fn key(&self) -> EvidenceKey {
        *self
    }

    fn twin(&self) -> (r: Self) {
        *self
    }

    fn before(&self, other: &Self) -> (r: bool) {
        proof {
            assert(self.certifier.key() == self.certifier);
            assert(other.certifier.key() == other.certifier);
        }
        let r: bool = self.certifier.before(&other.certifier) || same_array(
            &self.certifier,
            &other.certifier,
        ) && (self.epoch < other.epoch || self.epoch == other.epoch && self.input.before(
            &other.input,
        ));
        assert(self.input.key() == self.input && other.input.key() == other.input);
        assert(r == Ordered::lt(*self, *other));
        r
    }

    fn same(&self, other: &Self) -> (r: bool) {
        same_array(&self.certifier, &other.certifier) && self.epoch == other.epoch && self.input
            == other.input
    }
}

/// The key of evidence.
pub open spec fn evidence_key(e: LockEvidence) -> EvidenceKey {
    EvidenceKey { certifier: e.certifier, epoch: e.epoch, input: e.input }
}

/// The record number `i` of a log.
pub open spec fn witness_slot(log: Seq<u8>, i: int) -> Seq<u8> {
    log.subrange(192 * i, 192 * i + 192)
}

/// The evidence after one more record, or why the record is refused.
pub open spec fn evidence_taken(kept: Map<EvidenceKey, LockEvidence>, record: Seq<u8>) -> Result<
    Map<EvidenceKey, LockEvidence>,
    Seq<char>,
> {
    match evidence_decoded(record) {
        Err(e) => Err(e),
        Ok(e) => if kept.contains_key(evidence_key(e)) && kept[evidence_key(e)].digest
            != e.digest {
            Err("witness durable store contains conflicting evidence"@)
        } else {
            Ok(kept.insert(evidence_key(e), e))
        },
    }
}

/// The evidence that the first `n` records of a log hold.
pub open spec fn evidence_from(log: Seq<u8>, n: int) -> Result<
    Map<EvidenceKey, LockEvidence>,
    Seq<char>,
>
    decreases n,
{
    if n <= 0 {
        Ok(Map::empty())
    } else {
        match evidence_from(log, n - 1) {
            Err(e) => Err(e),
            Ok(kept) => evidence_taken(kept, witness_slot(log, n - 1)),
        }
    }
}

/// How many complete records a log holds.
pub open spec fn witness_count(log: Seq<u8>) -> int {
    log.len() as int / 192
}

/// A log without the incomplete record at its end.
pub open spec fn whole_witness_log(log: Seq<u8>) -> Seq<u8> {
    log.subrange(0, 192 * witness_count(log))
}

/// The evidence that a log holds.
#[verifier::opaque]
pub open spec fn replayed_evidence(log: Seq<u8>) -> Result<
    Map<EvidenceKey, LockEvidence>,
    Seq<char>,
> {
    evidence_from(log, witness_count(log))
}

/// The evidence that a witness keeps and the bytes of its log.
#[derive(Debug)]
pub struct WitnessStore {
    log: Vec<u8>,
    evidence: OrdMap<EvidenceKey, LockEvidence>,
}

/// The mathematical content of a [`WitnessStore`].
#[verifier::ext_equal]
pub struct WitnessStoreModel {
    pub log: Seq<u8>,
    pub evidence: Map<EvidenceKey, LockEvidence>,
}

impl View for WitnessStore {
    type V = WitnessStoreModel;

    closed spec fn view(&self) -> WitnessStoreModel {
        WitnessStoreModel { log: self.log@, evidence: self.evidence@ }
    }
}

/// Evidence under a key is about that key, and valid.
pub open spec fn evidence_filed(kept: Map<EvidenceKey, LockEvidence>) -> bool {
    forall|k: EvidenceKey| #[trigger]
        kept.contains_key(k) ==> evidence_key(kept[k]) == k && lock_evidence_verdict(kept[k])
            is Ok
}

/// The log of a store holds its evidence, and nothing but complete records.
pub open spec fn witness_durable(s: WitnessStoreModel) -> bool {
    &&& s.log.len() % 192 == 0
    &&& replayed_evidence(s.log) == Ok::<Map<EvidenceKey, LockEvidence>, Seq<char>>(s.evidence)
}

/// The store that a log gives, or why the log is refused.
pub open spec fn opened_witness_store(log: Seq<u8>) -> Result<WitnessStoreModel, Seq<char>> {
    match replayed_evidence(log) {
        Err(e) => Err(e),
        Ok(evidence) => Ok(WitnessStoreModel { log: whole_witness_log(log), evidence }),
    }
}

/// Whether a store keeps some evidence.
pub open spec fn persist_verdict(s: WitnessStoreModel, e: LockEvidence) -> Verdict {
    match lock_evidence_verdict(e) {
        Err(e) => Err(e),
        Ok(_) => if s.evidence.contains_key(evidence_key(e)) && s.evidence[evidence_key(e)].digest
            != e.digest {
            Err("honest witness refuses conflicting evidence"@)
        } else {
            Ok(())
        },
    }
}

/// The store after it was given some evidence.
pub open spec fn after_persist(s: WitnessStoreModel, e: LockEvidence) -> WitnessStoreModel {
    if persist_verdict(s, e) is Err || s.evidence.contains_key(evidence_key(e)) {
        s
    } else {
        WitnessStoreModel {
            log: s.log + witness_record(e),
            evidence: s.evidence.insert(evidence_key(e), e),
        }
    }
}

// ---------------------------------------------------------------------------
// What a log holds.
// ---------------------------------------------------------------------------

/// Reading back the record of valid evidence gives the evidence.
pub proof fn law_witness_record_round_trip(e: LockEvidence)
    requires
        lock_evidence_verdict(e) is Ok,
    ensures
        evidence_decoded(witness_record(e)) == Ok::<LockEvidence, Seq<char>>(e),
        witness_record(e).len() == WITNESS_RECORD_SIZE,
{
    broadcast use {bytes::lemma_le64, bytes::lemma_arr_of_view};

    reveal(witness_record);
    lemma_witness_magic();
    let b = witness_record(e);
    assert(b.subrange(0, 8) =~= crypto::ascii("CALWA004"@));
    assert(b.subrange(8, 40) =~= e.certifier@);
    assert(b.subrange(40, 48) =~= bytes::le64(e.epoch));
    assert(b.subrange(48, 56) =~= bytes::le64(e.input.id));
    assert(b.subrange(56, 64) =~= bytes::le64(e.input.generation));
    assert(b.subrange(64, 96) =~= e.digest@);
    assert(b.subrange(96, 160) =~= e.signature@);
    assert(b.subrange(0, 160) =~= witness_prefix(e));
    assert(b.subrange(160, 192) =~= witness_sum(witness_prefix(e))@);
}

proof fn lemma_evidence_prefix(log: Seq<u8>, tail: Seq<u8>, n: int)
    requires
        0 <= n,
        192 * n <= log.len(),
    ensures
        evidence_from(log + tail, n) == evidence_from(log, n),
    decreases n,
{
    if n > 0 {
        lemma_evidence_prefix(log, tail, n - 1);
        assert(witness_slot(log + tail, n - 1) =~= witness_slot(log, n - 1));
    }
}

proof fn lemma_evidence_fails(log: Seq<u8>, n: int, m: int)
    requires
        0 <= n <= m,
        evidence_from(log, n) is Err,
    ensures
        evidence_from(log, m) == evidence_from(log, n),
    decreases m,
{
    if n < m {
        lemma_evidence_fails(log, n, m - 1);
    }
}

proof fn lemma_evidence_filed(log: Seq<u8>, n: int)
    requires
        evidence_from(log, n) is Ok,
    ensures
        evidence_filed(evidence_from(log, n)->Ok_0),
    decreases n,
{
    if n > 0 {
        lemma_evidence_filed(log, n - 1);
    }
}

/// A store in step with its log keeps valid evidence only, each under its key.
pub proof fn law_kept_evidence_is_valid(s: WitnessStoreModel)
    requires
        witness_durable(s),
    ensures
        evidence_filed(s.evidence),
{
    reveal(replayed_evidence);
    lemma_evidence_filed(s.log, witness_count(s.log));
}

/// An incomplete record at the end of a log is as if it had never been written.
pub proof fn law_torn_witness_log(log: Seq<u8>, torn: Seq<u8>)
    requires
        log.len() % 192 == 0,
        torn.len() < 192,
    ensures
        replayed_evidence(log + torn) == replayed_evidence(log),
        whole_witness_log(log + torn) == log,
{
    reveal(replayed_evidence);
    assert(witness_count(log + torn) == witness_count(log));
    lemma_evidence_prefix(log, torn, witness_count(log));
    assert(whole_witness_log(log + torn) =~= log);
}

/// What a witness keeps is on disk: replaying the log gives it back.
pub proof fn law_evidence_is_durable(s: WitnessStoreModel, e: LockEvidence)
    requires
        witness_durable(s),
    ensures
        witness_durable(after_persist(s, e)),
{
    if after_persist(s, e) != s {
        law_witness_record_round_trip(e);
        reveal(replayed_evidence);
        let record = witness_record(e);
        let n = witness_count(s.log);
        assert(witness_count(s.log + record) == n + 1);
        lemma_evidence_prefix(s.log, record, n);
        assert(witness_slot(s.log + record, n) =~= record);
    }
}

/// Takes one record of a log.
fn take_evidence(kept: &mut OrdMap<EvidenceKey, LockEvidence>, record: &[u8]) -> (r: Result<
    (),
    String,
>)
    ensures
        match evidence_taken(old(kept)@, record@) {
            Err(e) => r is Err && r->Err_0@ == e,
            Ok(next) => r is Ok && final(kept)@ == next,
        },
{
    let e: LockEvidence = decode_record(record)?;
    let key: EvidenceKey = EvidenceKey { certifier: e.certifier, epoch: e.epoch, input: e.input };
    if let Some(existing) = kept.get(&key) {
        if !same_array(&existing.digest, &e.digest) {
            return Err(text("witness durable store contains conflicting evidence"));
        }
    }
    kept.insert(key, e);
    Ok(())
}

/// Takes all complete records of a log.
fn take_log(log: &Vec<u8>) -> (r: Result<OrdMap<EvidenceKey, LockEvidence>, String>)
    ensures
        text::shown_view(r) == replayed_evidence(log@),
{
    proof {
        reveal(replayed_evidence);
    }
    let size: usize = log.len();
    let records: usize = size / WITNESS_RECORD_SIZE;
    let mut kept: OrdMap<EvidenceKey, LockEvidence> = OrdMap::new();
    let mut i: usize = 0;
    while i < records
        invariant
            i <= records,
            records == witness_count(log@),
            192 * records <= size,
            size == log@.len(),
            replayed_evidence(log@) == evidence_from(log@, records as int),
            evidence_from(log@, i as int) == Ok::<Map<EvidenceKey, LockEvidence>, Seq<char>>(kept@),
        decreases records - i,
    {
        let start: usize = i * WITNESS_RECORD_SIZE;
        let taken: Result<(), String> = take_evidence(
            &mut kept,
            &log.as_slice()[start..start + WITNESS_RECORD_SIZE],
        );
        assert(witness_slot(log@, i as int) =~= log@.subrange(start as int, start + 192));
        if let Err(e) = taken {
            proof {
                lemma_evidence_fails(log@, i + 1, records as int);
            }
            return Err(e);
        }
        i = i + 1;
    }
    Ok(kept)
}

impl WitnessStore {
    /// Opens a store from the bytes of its log. An incomplete record at the end is
    /// cut off: the file is to be cut to the length of [`WitnessStore::log`].
    pub fn open(log: Vec<u8>) -> (r: Result<Self, String>)
        ensures
            text::shown_view(r) == opened_witness_store(log@),
            r is Ok ==> witness_durable(r->Ok_0@),
    {
        let records: usize = log.len() / WITNESS_RECORD_SIZE;
        let evidence: OrdMap<EvidenceKey, LockEvidence> = take_log(&log)?;
        let kept: Vec<u8> = copy_slice(&log.as_slice()[0..records * WITNESS_RECORD_SIZE]);
        proof {
            assert(kept@ =~= whole_witness_log(log@));
            assert(log@ =~= kept@ + log@.subrange(192 * records, log@.len() as int));
            law_torn_witness_log(kept@, log@.subrange(192 * records, log@.len() as int));
        }
        Ok(WitnessStore { log: kept, evidence })
    }

    /// The bytes of the log.
    pub fn log(&self) -> (r: Vec<u8>)
        ensures
            r@ == self@.log,
    {
        copy_vec(&self.log)
    }

    /// Keeps some evidence. Evidence that contradicts what is kept is refused, and
    /// nothing changes; evidence on a lock that is known adds nothing.
    pub fn persist(&mut self, e: LockEvidence) -> (r: Result<(), String>)
        requires
            witness_durable(old(self)@),
        ensures
            witness_durable(final(self)@),
            text::shown(r) == persist_verdict(old(self)@, e),
            final(self)@ == after_persist(old(self)@, e),
    {
        proof {
            law_evidence_is_durable(self@, e);
        }
        verify_evidence(&e)?;
        let key: EvidenceKey = EvidenceKey {
            certifier: e.certifier,
            epoch: e.epoch,
            input: e.input,
        };
        if let Some(existing) = self.evidence.get(&key) {
            if !same_array(&existing.digest, &e.digest) {
                return Err(text("honest witness refuses conflicting evidence"));
            }
            return Ok(());
        }
        let record: Vec<u8> = encode_record(&e);
        put_bytes(&mut self.log, &record);
        self.evidence.insert(key, e);
        Ok(())
    }

    /// The evidence on an input of a certifier.
    pub fn get(&self, certifier: PublicKeyBytes, input: InputRef) -> (r: Option<LockEvidence>)
        ensures
            r == kept_evidence(self@, certifier, input),
    {
        match self.evidence.get(&EvidenceKey { certifier, epoch: EPOCH, input }) {
            None => None,
            Some(e) => Some(*e),
        }
    }
}

/// The evidence that a store keeps on an input of a certifier.
pub open spec fn kept_evidence(s: WitnessStoreModel, certifier: PublicKeyBytes, input: InputRef)
    -> Option<LockEvidence> {
    let key = EvidenceKey { certifier, epoch: EPOCH, input };
    if s.evidence.contains_key(key) {
        Some(s.evidence[key])
    } else {
        None
    }
}

// ---------------------------------------------------------------------------
// Witnesses.
// ---------------------------------------------------------------------------

/// A witness. A Byzantine one acknowledges everything and keeps nothing.
#[derive(Debug)]
pub struct WitnessNode {
    pub sk: SigningKey,
    pub byzantine: bool,
    pub store: WitnessStore,
}

/// The mathematical content of a [`WitnessNode`].
#[verifier::ext_equal]
pub struct WitnessModel {
    pub seed: [u8; 32],
    pub byzantine: bool,
    pub store: WitnessStoreModel,
}

impl View for WitnessNode {
    type V = WitnessModel;

    open spec fn view(&self) -> WitnessModel {
        WitnessModel { seed: self.sk.seed, byzantine: self.byzantine, store: self.store@ }
    }
}

/// What a witness answers to evidence.
pub open spec fn witness_reply(w: WitnessModel, e: LockEvidence) -> Result<WitnessAck, Seq<char>> {
    let verdict = if w.byzantine {
        lock_evidence_verdict(e)
    } else {
        persist_verdict(w.store, e)
    };
    match verdict {
        Err(e) => Err(e),
        Ok(_) => Ok(
            WitnessAck {
                witness: crypto::public_key(w.seed),
                evidence_fingerprint: fingerprint_of(e),
                signature: crypto::signature(w.seed, ack_bytes(fingerprint_of(e))),
            },
        ),
    }
}

/// The witness after it was given evidence.
pub open spec fn after_evidence(w: WitnessModel, e: LockEvidence) -> WitnessModel {
    if w.byzantine {
        w
    } else {
        WitnessModel { store: after_persist(w.store, e), ..w }
    }
}

/// What a witness says of an input of a certifier.
pub open spec fn witness_answer(w: WitnessModel, certifier: PublicKeyBytes, input: InputRef)
    -> Option<LockEvidence> {
    if w.byzantine {
        None
    } else {
        kept_evidence(w.store, certifier, input)
    }
}

pub open spec fn witness_seed(index: usize) -> Digest {
    crypto::digest("CALIBRE_SEC004_WITNESS_KEY_V1"@, bytes::le64(index as u64))
}

impl WitnessNode {
    /// Opens a witness from the bytes of its log.
    pub fn open(index: usize, byzantine: bool, log: Vec<u8>) -> (r: Result<Self, String>)
        ensures
            match opened_witness_store(log@) {
                Err(e) => r is Err && r->Err_0@ == e,
                Ok(store) => r is Ok && r->Ok_0@ == (WitnessModel {
                    seed: witness_seed(index),
                    byzantine,
                    store,
                }) && witness_durable(r->Ok_0@.store),
            },
    {
        let store: WitnessStore = WitnessStore::open(log)?;
        Ok(
            WitnessNode {
                sk: deterministic_key("CALIBRE_SEC004_WITNESS_KEY_V1", index as u64),
                byzantine,
                store,
            },
        )
    }

    pub fn public(&self) -> (r: PublicKeyBytes)
        ensures
            r == crypto::public_key(self@.seed),
    {
        self.sk.verifying_key().to_bytes()
    }

    /// Takes evidence and acknowledges it.
    pub fn accept(&mut self, e: LockEvidence) -> (r: Result<WitnessAck, String>)
        requires
            witness_durable(old(self)@.store),
        ensures
            witness_durable(final(self)@.store),
            text::shown(r) == witness_reply(old(self)@, e),
            final(self)@ == after_evidence(old(self)@, e),
    {
        verify_evidence(&e)?;
        if !self.byzantine {
            self.store.persist(e)?;
        }
        let fp: Digest = evidence_fingerprint(&e);
        let message: Vec<u8> = ack_message(&fp);
        Ok(
            WitnessAck {
                witness: self.public(),
                evidence_fingerprint: fp,
                signature: self.sk.sign(&message),
            },
        )
    }

    /// Answers what it knows of an input of a certifier.
    pub fn query(&self, certifier: PublicKeyBytes, input: InputRef) -> (r: Option<LockEvidence>)
        ensures
            r == witness_answer(self@, certifier, input),
    {
        if self.byzantine {
            None
        } else {
            self.store.get(certifier, input)
        }
    }
}

/// The views of some witnesses.
pub open spec fn witness_models(nodes: Seq<WitnessNode>) -> Seq<WitnessModel> {
    nodes.map_values(|n: WitnessNode| n@)
}

/// The stores of witnesses are in step with their logs.
pub open spec fn witnesses_durable(nodes: Seq<WitnessModel>) -> bool {
    forall|k: int| 0 <= k < nodes.len() ==> witness_durable((#[trigger] nodes[k]).store)
}

/// The first `n` witnesses, opened from their logs; the first `F` are Byzantine.
/// The first log that is refused decides.
pub open spec fn opened_witnesses(logs: Seq<Seq<u8>>, n: int) -> Result<
    Seq<WitnessModel>,
    Seq<char>,
>
    decreases n,
{
    if n <= 0 || n > logs.len() {
        Ok(Seq::empty())
    } else {
        match opened_witnesses(logs, n - 1) {
            Err(e) => Err(e),
            Ok(nodes) => match opened_witness_store(logs[n - 1]) {
                Err(e) => Err(e),
                Ok(store) => Ok(
                    nodes.push(
                        WitnessModel {
                            seed: witness_seed((n - 1) as usize),
                            byzantine: n - 1 < F,
                            store,
                        },
                    ),
                ),
            },
        }
    }
}

proof fn lemma_witnesses_fail(logs: Seq<Seq<u8>>, n: int, m: int)
    requires
        0 <= n <= m <= logs.len(),
        opened_witnesses(logs, n) is Err,
    ensures
        opened_witnesses(logs, m) == opened_witnesses(logs, n),
    decreases m,
{
    if n < m {
        lemma_witnesses_fail(logs, n, m - 1);
    }
}

/// Opens the witnesses from their logs.
pub fn open_witnesses(logs: &Vec<Vec<u8>>) -> (r: Result<Vec<WitnessNode>, String>)
    requires
        logs@.len() == N,
    ensures
        match opened_witnesses(sec003::log_bytes(logs@), N as int) {
            Err(e) => r is Err && r->Err_0@ == e,
            Ok(nodes) => r is Ok && witness_models(r->Ok_0@) == nodes && witnesses_durable(nodes),
        },
{
    let ghost bytes = sec003::log_bytes(logs@);
    let mut nodes: Vec<WitnessNode> = Vec::new();
    let mut i: usize = 0;
    assert(witness_models(nodes@) =~= Seq::empty());
    while i < N
        invariant
            i <= N,
            logs@.len() == N,
            bytes == sec003::log_bytes(logs@),
            witnesses_durable(witness_models(nodes@)),
            opened_witnesses(bytes, i as int) == Ok::<Seq<WitnessModel>, Seq<char>>(
                witness_models(nodes@),
            ),
        decreases N - i,
    {
        assert(bytes[i as int] == logs@[i as int]@);
        let node: Result<WitnessNode, String> = WitnessNode::open(i, i < F, copy_vec(&logs[i]));
        match node {
            Err(e) => {
                proof {
                    lemma_witnesses_fail(bytes, i + 1, N as int);
                }
                return Err(e);
            },
            Ok(node) => {
                let ghost before = witness_models(nodes@);
                nodes.push(node);
                assert(witness_models(nodes@) =~= before.push(node@));
            },
        }
        i = i + 1;
    }
    Ok(nodes)
}

// ---------------------------------------------------------------------------
// Certifiers.
// ---------------------------------------------------------------------------

#[derive(Clone, Copy, Debug)]
pub struct CertifierShare {
    pub certifier: PublicKeyBytes,
    pub digest: Digest,
    pub user_signer: PublicKeyBytes,
    pub epoch: u64,
    pub signature: SignatureBytes,
}

/// A certifier with locks in memory only.
#[derive(Debug)]
pub struct CertifierNode {
    pub sk: SigningKey,
    pub byzantine: bool,
    pub local_locks: OrdMap<InputRef, Digest>,
}

/// The mathematical content of a [`CertifierNode`].
#[verifier::ext_equal]
pub struct AnchoringCertifier {
    pub seed: [u8; 32],
    pub byzantine: bool,
    pub local_locks: Map<InputRef, Digest>,
}

impl View for CertifierNode {
    type V = AnchoringCertifier;

    open spec fn view(&self) -> AnchoringCertifier {
        AnchoringCertifier {
            seed: self.sk.seed,
            byzantine: self.byzantine,
            local_locks: self.local_locks@,
        }
    }
}

/// The public keys of witnesses.
pub open spec fn witness_keys(ws: Seq<WitnessModel>) -> Seq<PublicKeyBytes> {
    ws.map_values(|w: WitnessModel| crypto::public_key(w.seed))
}

/// The indices name witnesses.
pub open spec fn name_witnesses(indices: Seq<usize>, n: int) -> bool {
    forall|k: int| 0 <= k < indices.len() ==> #[trigger] indices[k] < n
}

/// Who has answered and what they said, after one more witness was asked.
#[verifier::opaque]
pub open spec fn heard_from(
    certifier: PublicKeyBytes,
    input: InputRef,
    w: WitnessModel,
    heard: Set<PublicKeyBytes>,
    found: Option<Digest>,
) -> Result<(Set<PublicKeyBytes>, Option<Digest>), Seq<char>> {
    let now = heard.insert(crypto::public_key(w.seed));
    match witness_answer(w, certifier, input) {
        None => Ok((now, found)),
        Some(e) => match lock_evidence_verdict(e) {
            Err(x) => Err(x),
            Ok(_) => if e.certifier != certifier || e.input != input {
                Err("recovery evidence mismatch"@)
            } else if found is Some && found->Some_0 != e.digest {
                Err("conflicting signed recovery evidence"@)
            } else {
                Ok((now, Some(e.digest)))
            },
        },
    }
}

/// What asking the witnesses from number `i` on gives, where those in `heard` have
/// answered and `found` is what they said.
pub open spec fn recovered_from(
    certifier: PublicKeyBytes,
    input: InputRef,
    ws: Seq<WitnessModel>,
    indices: Seq<usize>,
    i: int,
    heard: Set<PublicKeyBytes>,
    found: Option<Digest>,
) -> Result<Option<Digest>, Seq<char>>
    decreases indices.len() - i,
{
    if i < 0 || i >= indices.len() {
        if heard.len() < RECOVERY_Q {
            Err("insufficient recovery responses"@)
        } else {
            Ok(found)
        }
    } else {
        match heard_from(certifier, input, ws[indices[i] as int], heard, found) {
            Err(e) => Err(e),
            Ok((now, said)) => recovered_from(certifier, input, ws, indices, i + 1, now, said),
        }
    }
}

/// The spend that witnesses know an input to be locked to.
#[verifier::opaque]
pub open spec fn recovered(
    certifier: PublicKeyBytes,
    input: InputRef,
    ws: Seq<WitnessModel>,
    indices: Seq<usize>,
) -> Result<Option<Digest>, Seq<char>> {
    recovered_from(certifier, input, ws, indices, 0, Set::empty(), None)
}

/// Where anchoring stands: the witnesses, and those that acknowledged.
#[verifier::ext_equal]
pub struct Anchoring {
    pub witnesses: Seq<WitnessModel>,
    pub acked: Result<Set<PublicKeyBytes>, Seq<char>>,
}

/// Where anchoring stands after one more witness was asked.
#[verifier::opaque]
pub open spec fn anchor_step(
    before: Anchoring,
    e: LockEvidence,
    trusted: Set<PublicKeyBytes>,
    i: int,
) -> Anchoring {
    match before.acked {
        Err(_) => before,
        Ok(acked) => Anchoring {
            witnesses: before.witnesses.update(i, after_evidence(before.witnesses[i], e)),
            acked: match witness_reply(before.witnesses[i], e) {
                Err(_) => Ok(acked),
                Ok(ack) => match ack_verdict(ack, trusted, fingerprint_of(e)) {
                    Err(x) => Err(x),
                    Ok(_) => Ok(acked.insert(ack.witness)),
                },
            },
        },
    }
}

/// Where anchoring stands after the first `n` of the chosen witnesses.
pub open spec fn anchored(ws: Seq<WitnessModel>, e: LockEvidence, indices: Seq<usize>, n: int)
    -> Anchoring
    decreases n,
{
    if n <= 0 || n > indices.len() {
        Anchoring { witnesses: ws, acked: Ok(Set::empty()) }
    } else {
        anchor_step(
            anchored(ws, e, indices, n - 1),
            e,
            witness_keys(ws).to_set(),
            indices[n - 1] as int,
        )
    }
}

/// Whether enough witnesses acknowledged.
pub open spec fn anchor_verdict(acked: Result<Set<PublicKeyBytes>, Seq<char>>) -> Verdict {
    match acked {
        Err(e) => Err(e),
        Ok(acked) => if acked.len() < ANCHOR_Q {
            Err("insufficient witness anchor acks: "@ + text::dec(acked.len()))
        } else {
            Ok(())
        },
    }
}

/// The witnesses, and whether an input was anchored.
#[verifier::opaque]
pub open spec fn input_anchored(
    seed: [u8; 32],
    tx_digest: Digest,
    ws: Seq<WitnessModel>,
    indices: Seq<usize>,
    input: InputRef,
) -> (Seq<WitnessModel>, Verdict) {
    let done = anchored(
        ws,
        evidence_of(seed, input, tx_digest),
        indices,
        indices.len() as int,
    );
    (done.witnesses, anchor_verdict(done.acked))
}

/// The witnesses, and whether the first `n` inputs were anchored. The first that
/// is not decides, and none is tried after it.
pub open spec fn inputs_anchored(
    seed: [u8; 32],
    tx_digest: Digest,
    ws: Seq<WitnessModel>,
    indices: Seq<usize>,
    inputs: Seq<InputRef>,
    n: int,
) -> (Seq<WitnessModel>, Verdict)
    decreases n,
{
    if n <= 0 || n > inputs.len() {
        (ws, Ok(()))
    } else {
        let before = inputs_anchored(seed, tx_digest, ws, indices, inputs, n - 1);
        if before.1 is Err {
            before
        } else {
            input_anchored(seed, tx_digest, before.0, indices, inputs[n - 1])
        }
    }
}

/// The local locks, and whether an input is free: it may not be locked to another
/// spend, neither for the witnesses nor locally.
#[verifier::opaque]
pub open spec fn input_free(
    certifier: PublicKeyBytes,
    locks: Map<InputRef, Digest>,
    tx_digest: Digest,
    ws: Seq<WitnessModel>,
    indices: Seq<usize>,
    input: InputRef,
) -> (Map<InputRef, Digest>, Verdict) {
    match recovered(certifier, input, ws, indices) {
        Err(e) => (locks, Err(e)),
        Ok(found) => if found is Some && found->Some_0 != tx_digest {
            (locks, Err("distributed anti-rollback recovery found prior conflicting lock"@))
        } else {
            let now = if found is Some {
                locks.insert(input, tx_digest)
            } else {
                locks
            };
            if now.contains_key(input) && now[input] != tx_digest {
                (now, Err("local conflict lock rejected"@))
            } else {
                (now, Ok(()))
            }
        },
    }
}

/// The local locks, and whether the inputs from number `i` on are free.
pub open spec fn inputs_free(
    certifier: PublicKeyBytes,
    locks: Map<InputRef, Digest>,
    tx_digest: Digest,
    ws: Seq<WitnessModel>,
    indices: Seq<usize>,
    inputs: Seq<InputRef>,
    i: int,
) -> (Map<InputRef, Digest>, Verdict)
    decreases inputs.len() - i,
{
    if i < 0 || i >= inputs.len() {
        (locks, Ok(()))
    } else {
        let (now, free) = input_free(certifier, locks, tx_digest, ws, indices, inputs[i]);
        if free is Err {
            (now, free)
        } else {
            inputs_free(certifier, now, tx_digest, ws, indices, inputs, i + 1)
        }
    }
}

/// What a certifier signs for a spend.
pub open spec fn witnessed_share_bytes(tx_digest: Digest, user: PublicKeyBytes) -> Seq<u8> {
    spend::share_message_bytes("CALIBRE_SEC004_CERTIFIER_SHARE_V1"@, tx_digest, user, EPOCH)
}

pub fn certifier_share_message(digest: &Digest, user: &PublicKeyBytes) -> (r: Vec<u8>)
    ensures
        r@ == witnessed_share_bytes(*digest, *user),
{
    crate::spend::share_message_for("CALIBRE_SEC004_CERTIFIER_SHARE_V1", digest, user, EPOCH)
}

/// The share of a certifier for a spend.
pub open spec fn witnessed_share(seed: [u8; 32], verified: VerifiedSpend) -> CertifierShare {
    CertifierShare {
        certifier: crypto::public_key(seed),
        digest: verified.digest,
        user_signer: verified.signer,
        epoch: EPOCH,
        signature: crypto::signature(seed, witnessed_share_bytes(verified.digest, verified.signer)),
    }
}

/// What a request for a share does.
#[verifier::ext_equal]
pub struct Requested {
    pub local_locks: Map<InputRef, Digest>,
    pub witnesses: Seq<WitnessModel>,
    pub share: Result<CertifierShare, Seq<char>>,
}

/// What a request for a share of a verified spend does.
pub open spec fn signed_for(
    node: AnchoringCertifier,
    verified: VerifiedSpend,
    inputs: Seq<InputRef>,
    ws: Seq<WitnessModel>,
    anchor: Seq<usize>,
    recovery: Seq<usize>,
) -> Requested {
    if node.byzantine {
        Requested {
            local_locks: node.local_locks,
            witnesses: ws,
            share: Ok(witnessed_share(node.seed, verified)),
        }
    } else {
        let (locks, free) = inputs_free(
            crypto::public_key(node.seed),
            node.local_locks,
            verified.digest,
            ws,
            recovery,
            inputs,
            0,
        );
        match free {
            Err(e) => Requested { local_locks: locks, witnesses: ws, share: Err(e) },
            Ok(_) => {
                let (after, done) = inputs_anchored(
                    node.seed,
                    verified.digest,
                    ws,
                    anchor,
                    inputs,
                    inputs.len() as int,
                );
                match done {
                    Err(e) => Requested { local_locks: locks, witnesses: after, share: Err(e) },
                    Ok(_) => Requested {
                        local_locks: sec002::locked(locks, inputs, verified.digest, inputs.len() as int),
                        witnesses: after,
                        share: Ok(witnessed_share(node.seed, verified)),
                    },
                }
            },
        }
    }
}

/// What a request for a share does.
pub open spec fn requested(
    node: AnchoringCertifier,
    tx: SpendModel,
    auth: UserAuthorization,
    cells: Map<u64, Cell>,
    ws: Seq<WitnessModel>,
    anchor: Seq<usize>,
    recovery: Seq<usize>,
) -> Requested {
    match witnessed_authorization(tx, auth, cells) {
        Err(e) => Requested { local_locks: node.local_locks, witnesses: ws, share: Err(e) },
        Ok(verified) => signed_for(node, verified, tx.inputs, ws, anchor, recovery),
    }
}

proof fn lemma_anchored_shape(ws: Seq<WitnessModel>, e: LockEvidence, indices: Seq<usize>, n: int)
    requires
        0 <= n <= indices.len(),
        name_witnesses(indices, ws.len() as int),
    ensures
        anchored(ws, e, indices, n).witnesses.len() == ws.len(),
        witness_keys(anchored(ws, e, indices, n).witnesses) == witness_keys(ws),
        witnesses_durable(ws) ==> witnesses_durable(anchored(ws, e, indices, n).witnesses),
        forall|k: int|
            0 <= k < ws.len() ==> (#[trigger] anchored(ws, e, indices, n).witnesses[k]).byzantine
                == ws[k].byzantine,
    decreases n,
{
    if n > 0 {
        lemma_anchored_shape(ws, e, indices, n - 1);
        reveal(anchor_step);
        let before = anchored(ws, e, indices, n - 1);
        let i = indices[n - 1] as int;
        if witnesses_durable(ws) {
            assert(witness_durable(before.witnesses[i].store));
            law_evidence_is_durable(before.witnesses[i].store, e);
        }
        assert(witness_keys(anchored(ws, e, indices, n).witnesses) =~= witness_keys(ws)) by {
            assert(witness_keys(before.witnesses)[i] == witness_keys(ws)[i]);
            assert forall|k: int| 0 <= k < ws.len() implies witness_keys(
                anchored(ws, e, indices, n).witnesses,
            )[k] == witness_keys(ws)[k] by {
                assert(witness_keys(before.witnesses)[k] == witness_keys(ws)[k]);
            }
        }
    } else {
        assert(witness_keys(anchored(ws, e, indices, n).witnesses) =~= witness_keys(ws));
    }
}

/// The set of the keys of witnesses.
fn trusted_keys(witnesses: &Vec<WitnessNode>) -> (r: OrdSet<PublicKeyBytes>)
    ensures
        r@ == witness_keys(witness_models(witnesses@)).to_set(),
{
    let ghost keys = witness_keys(witness_models(witnesses@));
    let mut trusted: OrdSet<PublicKeyBytes> = OrdSet::new();
    let mut i: usize = 0;
    assert(trusted@ =~= keys.take(0).to_set());
    while i < witnesses.len()
        invariant
            i <= witnesses@.len(),
            keys == witness_keys(witness_models(witnesses@)),
            trusted@ == keys.take(i as int).to_set(),
        decreases witnesses@.len() - i,
    {
        trusted.insert(witnesses[i].public());
        proof {
            let key = keys[i as int];
            assert(keys.take(i + 1) =~= keys.take(i as int).push(key));
            assert forall|k: PublicKeyBytes| #[trigger] keys.take(i + 1).to_set().contains(k)
                == keys.take(i as int).to_set().insert(key).contains(k) by {
                if keys.take(i as int).contains(k) {
                    let j = choose|j: int| 0 <= j < i && keys.take(i as int)[j] == k;
                    assert(keys.take(i + 1)[j] == k);
                }
                assert(keys.take(i + 1)[i as int] == key);
            }
            assert(keys.take(i + 1).to_set() =~= keys.take(i as int).to_set().insert(key));
        }
        i = i + 1;
    }
    assert(keys.take(i as int) =~= keys);
    trusted
}

impl CertifierNode {
    pub fn new(index: usize, byzantine: bool) -> (r: Self)
        ensures
            r@ == (AnchoringCertifier {
                seed: crypto::digest("CALIBRE_SEC004_CERTIFIER_KEY_V1"@, bytes::le64(index as u64)),
                byzantine,
                local_locks: Map::empty(),
            }),
    {
        CertifierNode {
            sk: deterministic_key("CALIBRE_SEC004_CERTIFIER_KEY_V1", index as u64),
            byzantine,
            local_locks: OrdMap::new(),
        }
    }

    pub fn public(&self) -> (r: PublicKeyBytes)
        ensures
            r == crypto::public_key(self@.seed),
    {
        self.sk.verifying_key().to_bytes()
    }

    /// Forgets the local locks.
    pub fn rollback_local_state(&mut self)
        ensures
            final(self)@ == (AnchoringCertifier { local_locks: Map::empty(), ..old(self)@ }),
    {
        self.local_locks.clear();
    }

    /// Asks one witness for an earlier lock on an input.
    fn ask(
        &self,
        input: InputRef,
        witness: &WitnessNode,
        heard: &mut OrdSet<PublicKeyBytes>,
        found: Option<Digest>,
    ) -> (r: Result<Option<Digest>, String>)
        ensures
            match heard_from(crypto::public_key(self@.seed), input, witness@, old(heard)@, found) {
                Err(e) => r is Err && r->Err_0@ == e,
                Ok((now, said)) => r == Ok::<Option<Digest>, String>(said) && final(heard)@ == now,
            },
    {
        proof {
            reveal(heard_from);
        }
        let certifier: PublicKeyBytes = self.public();
        heard.insert(witness.public());
        match witness.query(certifier, input) {
            None => Ok(found),
            Some(e) => {
                verify_evidence(&e)?;
                if !same_array(&e.certifier, &certifier) || e.input != input {
                    return Err(text("recovery evidence mismatch"));
                }
                if let Some(d) = found {
                    if !same_array(&d, &e.digest) {
                        return Err(text("conflicting signed recovery evidence"));
                    }
                }
                Ok(Some(e.digest))
            },
        }
    }

    /// Asks witnesses for an earlier lock on an input.
    pub fn recover_input(
        &self,
        input: InputRef,
        witnesses: &Vec<WitnessNode>,
        recovery_indices: &Vec<usize>,
    ) -> (r: Result<Option<Digest>, String>)
        requires
            name_witnesses(recovery_indices@, witnesses@.len() as int),
        ensures
            text::shown(r) == recovered(
                crypto::public_key(self@.seed),
                input,
                witness_models(witnesses@),
                recovery_indices@,
            ),
    {
        proof {
            reveal(recovered);
        }
        let ghost certifier = crypto::public_key(self@.seed);
        let ghost ws = witness_models(witnesses@);
        let ghost all = recovered(certifier, input, ws, recovery_indices@);
        let mut heard: OrdSet<PublicKeyBytes> = OrdSet::new();
        let mut found: Option<Digest> = None;
        let mut k: usize = 0;
        while k < recovery_indices.len()
            invariant
                k <= recovery_indices@.len(),
                certifier == crypto::public_key(self@.seed),
                ws == witness_models(witnesses@),
                all == recovered(certifier, input, ws, recovery_indices@),
                name_witnesses(recovery_indices@, witnesses@.len() as int),
                all == recovered_from(
                    certifier,
                    input,
                    ws,
                    recovery_indices@,
                    k as int,
                    heard@,
                    found,
                ),
            decreases recovery_indices@.len() - k,
        {
            let i: usize = recovery_indices[k];
            assert(ws[i as int] == witnesses@[i as int]@);
            found = self.ask(input, &witnesses[i], &mut heard, found)?;
            k = k + 1;
        }
        if heard.len() < RECOVERY_Q {
            return Err(text("insufficient recovery responses"));
        }
        Ok(found)
    }

    /// Anchors a lock with witnesses.
    pub fn anchor_input(
        &self,
        input: InputRef,
        digest: Digest,
        witnesses: &mut Vec<WitnessNode>,
        anchor_indices: &Vec<usize>,
    ) -> (r: Result<(), String>)
        requires
            name_witnesses(anchor_indices@, old(witnesses)@.len() as int),
            witnesses_durable(witness_models(old(witnesses)@)),
        ensures
            final(witnesses)@.len() == old(witnesses)@.len(),
            witnesses_durable(witness_models(final(witnesses)@)),
            (witness_models(final(witnesses)@), text::shown(r)) == input_anchored(
                self@.seed,
                digest,
                witness_models(old(witnesses)@),
                anchor_indices@,
                input,
            ),
    {
        proof {
            reveal(input_anchored);
        }
        let evidence: LockEvidence = make_evidence(&self.sk, input, digest);
        let ghost ws = witness_models(witnesses@);
        proof {
            lemma_anchored_shape(ws, evidence, anchor_indices@, anchor_indices@.len() as int);
        }
        let unique: OrdSet<PublicKeyBytes> = collect_acks(&evidence, witnesses, anchor_indices)?;
        let count: usize = unique.len();
        if count < ANCHOR_Q {
            let mut refusal: String = text("insufficient witness anchor acks: ");
            push_dec(&mut refusal, count as u64);
            return Err(refusal);
        }
        Ok(())
    }

    /// Checks that an input is not locked to another spend, neither for the
    /// witnesses nor locally, and takes over what the witnesses know.
    fn check_input_free(
        &mut self,
        input: InputRef,
        digest: &Digest,
        witnesses: &Vec<WitnessNode>,
        recovery_indices: &Vec<usize>,
    ) -> (r: Result<(), String>)
        requires
            name_witnesses(recovery_indices@, witnesses@.len() as int),
        ensures
            final(self)@.seed == old(self)@.seed,
            final(self)@.byzantine == old(self)@.byzantine,
            (final(self)@.local_locks, text::shown(r)) == input_free(
                crypto::public_key(old(self)@.seed),
                old(self)@.local_locks,
                *digest,
                witness_models(witnesses@),
                recovery_indices@,
                input,
            ),
    {
        proof {
            reveal(input_free);
        }
        let found: Option<Digest> = self.recover_input(input, witnesses, recovery_indices)?;
        if let Some(earlier) = found {
            if !same_array(&earlier, digest) {
                return Err(
                    text("distributed anti-rollback recovery found prior conflicting lock"),
                );
            }
            self.local_locks.insert(input, earlier);
        }
        if let Some(existing) = self.local_locks.get(&input) {
            if !same_array(existing, digest) {
                return Err(text("local conflict lock rejected"));
            }
        }
        Ok(())
    }

    fn check_inputs_free(
        &mut self,
        inputs: &Vec<InputRef>,
        digest: &Digest,
        witnesses: &Vec<WitnessNode>,
        recovery_indices: &Vec<usize>,
    ) -> (r: Result<(), String>)
        requires
            name_witnesses(recovery_indices@, witnesses@.len() as int),
        ensures
            final(self)@.seed == old(self)@.seed,
            final(self)@.byzantine == old(self)@.byzantine,
            (final(self)@.local_locks, text::shown(r)) == inputs_free(
                crypto::public_key(old(self)@.seed),
                old(self)@.local_locks,
                *digest,
                witness_models(witnesses@),
                recovery_indices@,
                inputs@,
                0,
            ),
    {
        let ghost before = self@;
        let ghost ws = witness_models(witnesses@);
        let ghost all = inputs_free(
            crypto::public_key(before.seed),
            before.local_locks,
            *digest,
            ws,
            recovery_indices@,
            inputs@,
            0,
        );
        let mut i: usize = 0;
        while i < inputs.len()
            invariant
                i <= inputs@.len(),
                ws == witness_models(witnesses@),
                name_witnesses(recovery_indices@, witnesses@.len() as int),
                self@.seed == before.seed,
                self@.byzantine == before.byzantine,
                before == old(self)@,
                all == inputs_free(
                    crypto::public_key(before.seed),
                    before.local_locks,
                    *digest,
                    ws,
                    recovery_indices@,
                    inputs@,
                    0,
                ),
                all == inputs_free(
                    crypto::public_key(before.seed),
                    self@.local_locks,
                    *digest,
                    ws,
                    recovery_indices@,
                    inputs@,
                    i as int,
                ),
            decreases inputs@.len() - i,
        {
            self.check_input_free(inputs[i], digest, witnesses, recovery_indices)?;
            i = i + 1;
        }
        Ok(())
    }

    /// Anchors every input of a spend.
    fn anchor_inputs(
        &self,
        inputs: &Vec<InputRef>,
        digest: Digest,
        witnesses: &mut Vec<WitnessNode>,
        anchor_indices: &Vec<usize>,
    ) -> (r: Result<(), String>)
        requires
            name_witnesses(anchor_indices@, old(witnesses)@.len() as int),
            witnesses_durable(witness_models(old(witnesses)@)),
        ensures
            final(witnesses)@.len() == old(witnesses)@.len(),
            witnesses_durable(witness_models(final(witnesses)@)),
            (witness_models(final(witnesses)@), text::shown(r)) == inputs_anchored(
                self@.seed,
                digest,
                witness_models(old(witnesses)@),
                anchor_indices@,
                inputs@,
                inputs@.len() as int,
            ),
    {
        let ghost ws = witness_models(witnesses@);
        let mut i: usize = 0;
        while i < inputs.len()
            invariant
                i <= inputs@.len(),
                ws == witness_models(old(witnesses)@),
                ws.len() == witnesses@.len(),
                name_witnesses(anchor_indices@, witnesses@.len() as int),
                witnesses_durable(witness_models(witnesses@)),
                inputs_anchored(self@.seed, digest, ws, anchor_indices@, inputs@, i as int) == (
                    witness_models(witnesses@),
                    Ok::<(), Seq<char>>(()),
                ),
            decreases inputs@.len() - i,
        {
            let done: Result<(), String> = self.anchor_input(
                inputs[i],
                digest,
                witnesses,
                anchor_indices,
            );
            if let Err(e) = done {
                proof {
                    lemma_inputs_stop(
                        self@.seed,
                        digest,
                        ws,
                        anchor_indices@,
                        inputs@,
                        i + 1,
                        inputs@.len() as int,
                    );
                }
                return Err(e);
            }
            i = i + 1;
        }
        Ok(())
    }

    fn lock_inputs(&mut self, inputs: &Vec<InputRef>, digest: Digest)
        ensures
            final(self)@ == (AnchoringCertifier {
                local_locks: sec002::locked(
                    old(self)@.local_locks,
                    inputs@,
                    digest,
                    inputs@.len() as int,
                ),
                ..old(self)@
            }),
    {
        let ghost before = self@;
        let mut i: usize = 0;
        while i < inputs.len()
            invariant
                i <= inputs@.len(),
                self@ == (AnchoringCertifier {
                    local_locks: sec002::locked(before.local_locks, inputs@, digest, i as int),
                    ..before
                }),
            decreases inputs@.len() - i,
        {
            self.local_locks.insert(inputs[i], digest);
            i = i + 1;
        }
    }

    /// Signs for a spend that the owner authorized, once its inputs are known to be
    /// free, anchored and locked. A Byzantine certifier skips all of that.
    pub fn authorize_anchor_and_sign(
        &mut self,
        tx: &SpendTx,
        auth: &UserAuthorization,
        cells: &HashMap<u64, Cell>,
        witnesses: &mut Vec<WitnessNode>,
        anchor_indices: &Vec<usize>,
        recovery_indices: &Vec<usize>,
    ) -> (r: Result<CertifierShare, String>)
        requires
            name_witnesses(anchor_indices@, old(witnesses)@.len() as int),
            name_witnesses(recovery_indices@, old(witnesses)@.len() as int),
            witnesses_durable(witness_models(old(witnesses)@)),
        ensures
            final(witnesses)@.len() == old(witnesses)@.len(),
            witnesses_durable(witness_models(final(witnesses)@)),
            ({
                let done = requested(
                    old(self)@,
                    tx@,
                    *auth,
                    cells@,
                    witness_models(old(witnesses)@),
                    anchor_indices@,
                    recovery_indices@,
                );
                &&& text::shown(r) == done.share
                &&& witness_models(final(witnesses)@) == done.witnesses
                &&& final(self)@ == (AnchoringCertifier {
                    local_locks: done.local_locks,
                    ..old(self)@
                })
            }),
    {
        let verified: VerifiedSpend = verify_user_authorization(tx, auth, cells)?;
        if !self.byzantine {
            self.check_inputs_free(&tx.inputs, &verified.digest, witnesses, recovery_indices)?;
            self.anchor_inputs(&tx.inputs, verified.digest, witnesses, anchor_indices)?;
            self.lock_inputs(&tx.inputs, verified.digest);
        }
        let message: Vec<u8> = certifier_share_message(&verified.digest, &verified.signer);
        Ok(
            CertifierShare {
                certifier: self.public(),
                digest: verified.digest,
                user_signer: verified.signer,
                epoch: EPOCH,
                signature: self.sk.sign(&message),
            },
        )
    }
}

/// Gives evidence to one witness.
fn ask_to_keep(
    evidence: &LockEvidence,
    witnesses: &mut Vec<WitnessNode>,
    i: usize,
    trusted: &OrdSet<PublicKeyBytes>,
    fp: &Digest,
    unique: &mut OrdSet<PublicKeyBytes>,
) -> (r: Result<(), String>)
    requires
        i < old(witnesses)@.len(),
        witnesses_durable(witness_models(old(witnesses)@)),
        *fp == fingerprint_of(*evidence),
    ensures
        final(witnesses)@.len() == old(witnesses)@.len(),
        witnesses_durable(witness_models(final(witnesses)@)),
        ({
            let next = anchor_step(
                Anchoring {
                    witnesses: witness_models(old(witnesses)@),
                    acked: Ok(old(unique)@),
                },
                *evidence,
                trusted@,
                i as int,
            );
            &&& witness_models(final(witnesses)@) == next.witnesses
            &&& match next.acked {
                Err(e) => r is Err && r->Err_0@ == e,
                Ok(acked) => r is Ok && final(unique)@ == acked,
            }
        }),
{
    proof {
        reveal(anchor_step);
    }
    let ghost asked = witness_models(witnesses@);
    let ghost held = witnesses@;
    proof {
        assert(asked[i as int] == held[i as int]@);
        assert(witness_durable(asked[i as int].store));
    }
    let mut witness: WitnessNode = witnesses.remove(i);
    let reply: Result<WitnessAck, String> = witness.accept(*evidence);
    witnesses.insert(i, witness);
    proof {
        assert(witnesses@ =~= held.update(i as int, witness));
        let next = asked.update(i as int, after_evidence(asked[i as int], *evidence));
        assert(witness_models(witnesses@) =~= next);
        assert forall|k: int| 0 <= k < next.len() implies witness_durable(
            (#[trigger] next[k]).store,
        ) by {
            assert(witness_durable(asked[k].store));
        }
    }
    if let Ok(ack) = reply {
        verify_ack(&ack, trusted, fp)?;
        unique.insert(ack.witness);
    }
    Ok(())
}

/// Gives evidence to the chosen witnesses; the result is those that acknowledged.
fn collect_acks(
    evidence: &LockEvidence,
    witnesses: &mut Vec<WitnessNode>,
    anchor_indices: &Vec<usize>,
) -> (r: Result<OrdSet<PublicKeyBytes>, String>)
    requires
        name_witnesses(anchor_indices@, old(witnesses)@.len() as int),
        witnesses_durable(witness_models(old(witnesses)@)),
    ensures
        final(witnesses)@.len() == old(witnesses)@.len(),
        witnesses_durable(witness_models(final(witnesses)@)),
        ({
            let done = anchored(
                witness_models(old(witnesses)@),
                *evidence,
                anchor_indices@,
                anchor_indices@.len() as int,
            );
            &&& witness_models(final(witnesses)@) == done.witnesses
            &&& text::shown_view(r) == done.acked
        }),
{
    let fp: Digest = evidence_fingerprint(evidence);
    let trusted: OrdSet<PublicKeyBytes> = trusted_keys(witnesses);
    let ghost ws = witness_models(witnesses@);
    let mut unique: OrdSet<PublicKeyBytes> = OrdSet::new();
    let mut k: usize = 0;
    while k < anchor_indices.len()
        invariant
            k <= anchor_indices@.len(),
            ws == witness_models(old(witnesses)@),
            ws.len() == witnesses@.len(),
            name_witnesses(anchor_indices@, witnesses@.len() as int),
            witnesses_durable(witness_models(witnesses@)),
            fp == fingerprint_of(*evidence),
            trusted@ == witness_keys(ws).to_set(),
            anchored(ws, *evidence, anchor_indices@, k as int) == (Anchoring {
                witnesses: witness_models(witnesses@),
                acked: Ok(unique@),
            }),
        decreases anchor_indices@.len() - k,
    {
        let asked: Result<(), String> = ask_to_keep(
            evidence,
            witnesses,
            anchor_indices[k],
            &trusted,
            &fp,
            &mut unique,
        );
        if let Err(e) = asked {
            proof {
                lemma_anchor_stops(
                    ws,
                    *evidence,
                    anchor_indices@,
                    k + 1,
                    anchor_indices@.len() as int,
                );
            }
            return Err(e);
        }
        k = k + 1;
    }
    Ok(unique)
}

proof fn lemma_anchor_stops(
    ws: Seq<WitnessModel>,
    e: LockEvidence,
    indices: Seq<usize>,
    n: int,
    m: int,
)
    requires
        0 <= n <= m <= indices.len(),
        anchored(ws, e, indices, n).acked is Err,
    ensures
        anchored(ws, e, indices, m) == anchored(ws, e, indices, n),
    decreases m,
{
    if n < m {
        reveal(anchor_step);
        lemma_anchor_stops(ws, e, indices, n, m - 1);
    }
}

proof fn lemma_inputs_stop(
    seed: [u8; 32],
    tx_digest: Digest,
    ws: Seq<WitnessModel>,
    indices: Seq<usize>,
    inputs: Seq<InputRef>,
    n: int,
    m: int,
)
    requires
        0 <= n <= m <= inputs.len(),
        inputs_anchored(seed, tx_digest, ws, indices, inputs, n).1 is Err,
    ensures
        inputs_anchored(seed, tx_digest, ws, indices, inputs, m) == inputs_anchored(
            seed,
            tx_digest,
            ws,
            indices,
            inputs,
            n,
        ),
    decreases m,
{
    if n < m {
        lemma_inputs_stop(seed, tx_digest, ws, indices, inputs, n, m - 1);
    }
}

// ---------------------------------------------------------------------------
// The core.
// ---------------------------------------------------------------------------

#[derive(Debug)]
pub struct ThresholdCertificate {
    pub digest: Digest,
    pub user_signer: PublicKeyBytes,
    pub shares: Vec<CertifierShare>,
}

/// The mathematical content of a [`ThresholdCertificate`].
pub struct WitnessedCertificate {
    pub digest: Digest,
    pub user_signer: PublicKeyBytes,
    pub shares: Seq<CertifierShare>,
}

impl View for ThresholdCertificate {
    type V = WitnessedCertificate;

    open spec fn view(&self) -> WitnessedCertificate {
        WitnessedCertificate {
            digest: self.digest,
            user_signer: self.user_signer,
            shares: self.shares@,
        }
    }
}

/// The certifiers that count after one more share. A share of a stranger, or a
/// second share of a certifier, is passed over.
#[verifier::opaque]
pub open spec fn share_counted(
    committee: Set<PublicKeyBytes>,
    cert: WitnessedCertificate,
    share: CertifierShare,
    unique: Set<PublicKeyBytes>,
) -> Result<Set<PublicKeyBytes>, Seq<char>> {
    if share.epoch != EPOCH || share.digest != cert.digest || share.user_signer
        != cert.user_signer {
        Err("share mismatch"@)
    } else if !committee.contains(share.certifier) || unique.contains(share.certifier) {
        Ok(unique)
    } else if !crypto::ed25519_key_decodes(share.certifier@) {
        Err("bad certifier key"@)
    } else if !crypto::ed25519_strictly_verifies(
        share.certifier@,
        witnessed_share_bytes(share.digest, share.user_signer),
        share.signature@,
    ) {
        Err("bad certifier signature"@)
    } else {
        Ok(unique.insert(share.certifier))
    }
}

/// The certifiers that count from share number `i` on.
pub open spec fn shares_counted(
    committee: Set<PublicKeyBytes>,
    cert: WitnessedCertificate,
    i: int,
    unique: Set<PublicKeyBytes>,
) -> Result<Set<PublicKeyBytes>, Seq<char>>
    decreases cert.shares.len() - i,
{
    if i < 0 || i >= cert.shares.len() {
        Ok(unique)
    } else {
        match share_counted(committee, cert, cert.shares[i], unique) {
            Err(e) => Err(e),
            Ok(now) => shares_counted(committee, cert, i + 1, now),
        }
    }
}

/// The verdict on a certificate for a spend.
pub open spec fn witnessed_verdict(
    tx: SpendModel,
    cert: WitnessedCertificate,
    committee: Set<PublicKeyBytes>,
) -> Verdict {
    if witnessed_commitment(tx, cert.user_signer) != cert.digest {
        Err("certificate transaction mismatch"@)
    } else {
        match shares_counted(committee, cert, 0, Set::empty()) {
            Err(e) => Err(e),
            Ok(unique) => if unique.len() < AUTH_Q {
                Err("insufficient certifier quorum"@)
            } else {
                Ok(())
            },
        }
    }
}

fn in_committee(committee: &Vec<PublicKeyBytes>, key: &PublicKeyBytes) -> (r: bool)
    ensures
        r == committee@.to_set().contains(*key),
{
    let mut i: usize = 0;
    while i < committee.len()
        invariant
            i <= committee@.len(),
            forall|k: int| 0 <= k < i ==> #[trigger] committee@[k] != *key,
        decreases committee@.len() - i,
    {
        if same_array(&committee[i], key) {
            assert(committee@.contains(*key));
            return true;
        }
        i = i + 1;
    }
    assert(!committee@.contains(*key));
    false
}

fn count_share(
    committee: &Vec<PublicKeyBytes>,
    cert: &ThresholdCertificate,
    share: &CertifierShare,
    unique: &mut OrdSet<PublicKeyBytes>,
) -> (r: Result<(), String>)
    ensures
        match share_counted(committee@.to_set(), cert@, *share, old(unique)@) {
            Err(e) => r is Err && r->Err_0@ == e,
            Ok(now) => r is Ok && final(unique)@ == now,
        },
{
    proof {
        reveal(share_counted);
    }
    if share.epoch != EPOCH || !same_array(&share.digest, &cert.digest) || !same_array(
        &share.user_signer,
        &cert.user_signer,
    ) {
        return Err(text("share mismatch"));
    }
    if !in_committee(committee, &share.certifier) || unique.contains(&share.certifier) {
        return Ok(());
    }
    let key: VerifyingKey = VerifyingKey { bytes: share.certifier };
    if !key.decodes() {
        return Err(text("bad certifier key"));
    }
    let message: Vec<u8> = certifier_share_message(&share.digest, &share.user_signer);
    if !key.verify_strict(&message, &share.signature) {
        return Err(text("bad certifier signature"));
    }
    unique.insert(share.certifier);
    Ok(())
}

/// Checks that enough certifiers signed for exactly this spend.
pub fn verify_threshold(
    tx: &SpendTx,
    cert: &ThresholdCertificate,
    committee: &Vec<PublicKeyBytes>,
) -> (r: Result<(), String>)
    ensures
        text::shown(r) == witnessed_verdict(tx@, cert@, committee@.to_set()),
{
    let expected: Digest = tx_commitment(tx, &cert.user_signer);
    if !same_array(&expected, &cert.digest) {
        return Err(text("certificate transaction mismatch"));
    }
    let mut unique: OrdSet<PublicKeyBytes> = OrdSet::new();
    let mut i: usize = 0;
    while i < cert.shares.len()
        invariant
            i <= cert.shares@.len(),
            witnessed_commitment(tx@, cert.user_signer) == cert.digest,
            shares_counted(committee@.to_set(), cert@, 0, Set::empty()) == shares_counted(
                committee@.to_set(),
                cert@,
                i as int,
                unique@,
            ),
        decreases cert.shares@.len() - i,
    {
        count_share(committee, cert, &cert.shares[i], &mut unique)?;
        i = i + 1;
    }
    if unique.len() < AUTH_Q {
        return Err(text("insufficient certifier quorum"));
    }
    Ok(())
}

/// What the inputs from number `i` on add to a total. The core counts an input as
/// often as it occurs.
pub open spec fn summed(cells: Map<u64, Cell>, inputs: Seq<InputRef>, i: int, total: nat)
    -> Result<nat, Seq<char>>
    decreases inputs.len() - i,
{
    if i < 0 || i >= inputs.len() {
        Ok(total)
    } else if !cells.contains_key(inputs[i].id) {
        Err("core input inactive"@)
    } else if cells[inputs[i].id].generation != inputs[i].generation {
        Err("core generation mismatch"@)
    } else {
        summed(cells, inputs, i + 1, total + cells[inputs[i].id].value as nat)
    }
}

/// The sum of the inputs up to the first that is refused fits.
pub open spec fn sums_fit(cells: Map<u64, Cell>, inputs: Seq<InputRef>, i: int, total: nat) -> bool
    decreases inputs.len() - i,
{
    if i < 0 || i >= inputs.len() || !cells.contains_key(inputs[i].id)
        || cells[inputs[i].id].generation != inputs[i].generation {
        true
    } else {
        total + cells[inputs[i].id].value <= u64::MAX && sums_fit(
            cells,
            inputs,
            i + 1,
            total + cells[inputs[i].id].value as nat,
        )
    }
}

/// Whether the core makes a certified spend.
pub open spec fn witnessed_spend_verdict(
    cells: Map<u64, Cell>,
    committee: Set<PublicKeyBytes>,
    tx: SpendModel,
    cert: WitnessedCertificate,
) -> Verdict {
    match witnessed_verdict(tx, cert, committee) {
        Err(e) => Err(e),
        Ok(_) => match summed(cells, tx.inputs, 0, 0) {
            Err(e) => Err(e),
            Ok(total) => if total != tx.output_value {
                Err("core value mismatch"@)
            } else {
                Ok(())
            },
        },
    }
}

#[derive(Debug)]
pub struct CoreState {
    pub active: HashMap<u64, Cell>,
    pub committee: Vec<PublicKeyBytes>,
}

fn summed_value(cells: &HashMap<u64, Cell>, inputs: &Vec<InputRef>) -> (r: Result<u64, String>)
    requires
        sums_fit(cells@, inputs@, 0, 0),
    ensures
        match summed(cells@, inputs@, 0, 0) {
            Ok(total) => r is Ok && r->Ok_0 == total,
            Err(e) => r is Err && r->Err_0@ == e,
        },
{
    let mut total: u64 = 0;
    let mut i: usize = 0;
    while i < inputs.len()
        invariant
            i <= inputs@.len(),
            sums_fit(cells@, inputs@, i as int, total as nat),
            summed(cells@, inputs@, 0, 0) == summed(cells@, inputs@, i as int, total as nat),
        decreases inputs@.len() - i,
    {
        match cells.get(&inputs[i].id) {
            None => {
                return Err(text("core input inactive"));
            },
            Some(cell) => {
                if cell.generation != inputs[i].generation {
                    return Err(text("core generation mismatch"));
                }
                total = total + cell.value;
            },
        }
        i = i + 1;
    }
    Ok(total)
}

impl CoreState {
    pub fn new(active: HashMap<u64, Cell>, committee: Vec<PublicKeyBytes>) -> (r: Self)
        ensures
            r.active@ == active@,
            r.committee@ == committee@,
    {
        CoreState { active, committee }
    }

    /// Makes a certified spend. A refused spend changes nothing.
    pub fn apply(&mut self, tx: &SpendTx, cert: &ThresholdCertificate) -> (r: Result<Cell, String>)
        requires
            sums_fit(old(self).active@, tx@.inputs, 0, 0),
        ensures
            match witnessed_spend_verdict(
                old(self).active@,
                old(self).committee@.to_set(),
                tx@,
                cert@,
            ) {
                Ok(_) => r == Ok::<Cell, String>(spend::output_cell_of(tx@)) && final(self).active@
                    == spend::spent(old(self).active@, tx@),
                Err(e) => r is Err && r->Err_0@ == e && final(self).active@ == old(self).active@,
            },
            final(self).committee@ == old(self).committee@,
    {
        verify_threshold(tx, cert, &self.committee)?;
        let total: u64 = summed_value(&self.active, &tx.inputs)?;
        if total != tx.output_value {
            return Err(text("core value mismatch"));
        }
        Ok(make_spend(&mut self.active, tx))
    }
}

} // verus!
