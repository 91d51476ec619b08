//! Canonical monetary and quorum model.
//!
//! The deterministic keys in this module are laboratory fixtures. They are
//! deliberately reproducible and must never be used as production key
//! management.
use crate::bytes;
use crate::bytes::{
    copy_vec, get_u64, no_digest, put_bytes, put_digest, put_u16, put_u32, put_u64, put_u8,
    same_array,
};
use crate::crypto;
use crate::crypto::{deterministic_key, hash_domain, SigningKey, VerifyingKey};
use crate::finality;
use crate::ordmap;
use crate::ordmap::{Model, OrdKey, OrdMap, OrdSet, Ordered};
use crate::text;
use crate::text::text;
use std::collections::BTreeMap;
use vstd::prelude::*;

verus! {

pub type Digest = [u8; 32];

pub type PublicKeyBytes = [u8; 32];

pub type SignatureBytes = [u8; 64];

pub const PROTOCOL_VERSION: u16 = 1;

pub const NETWORK_ID: u32 = 1;

pub const N: usize = 7;

pub const Q: usize = 5;

pub const OLD_EPOCH: u64 = 100;

pub const NEW_EPOCH: u64 = 101;

pub const PHASE_PREVOTE: u8 = 1;

pub const PHASE_PRECOMMIT: u8 = 2;

pub const ASSET_CALIBRE: u32 = 1;

/// The verdict of a check: nothing, or the message with which it refuses.
pub type Verdict = Result<(), Seq<char>>;

// ---------------------------------------------------------------------------
// Data.
// ---------------------------------------------------------------------------

#[derive(Clone, Copy, Debug, PartialEq, Eq)]
pub struct CommitteeMember {
    pub index: u8,
    pub public_key: PublicKeyBytes,
}

#[derive(Debug, PartialEq, Eq)]
pub struct CommitteeManifest {
    pub network_id: u32,
    pub epoch: u64,
    pub threshold: u8,
    pub members: Vec<CommitteeMember>,
}

/// The mathematical content of a [`CommitteeManifest`].
#[verifier::ext_equal]
pub struct ManifestModel {
    pub network_id: u32,
    pub epoch: u64,
    pub threshold: u8,
    pub members: Seq<CommitteeMember>,
}

impl View for CommitteeManifest {
    type V = ManifestModel;

    open spec fn view(&self) -> ManifestModel {
        ManifestModel {
            network_id: self.network_id,
            epoch: self.epoch,
            threshold: self.threshold,
            members: self.members@,
        }
    }
}

impl Clone for CommitteeManifest {
    fn clone(&self) -> (r: Self)
        ensures
            r@ == self@,
    {
        CommitteeManifest {
            network_id: self.network_id,
            epoch: self.epoch,
            threshold: self.threshold,
            members: copy_vec(&self.members),
        }
    }
}

#[derive(Clone, Copy, Debug, PartialEq, Eq, PartialOrd, Ord, Hash)]
pub struct CellRef {
    pub asset_id: u32,
    pub id: Digest,
    pub generation: u64,
}

/// References are ordered by asset, identifier and generation, in this order.
impl Ordered for CellRef {
    open spec fn lt(self, other: Self) -> bool {
        ||| self.asset_id < other.asset_id
        ||| self.asset_id == other.asset_id && self.id.lt(other.id)
        ||| self.asset_id == other.asset_id && self.id == other.id && self.generation
            < other.generation
    }

    proof fn lt_irreflexive(a: Self) {
        <Digest as Ordered>::lt_irreflexive(a.id);
    }

    proof fn lt_transitive(a: Self, b: Self, c: Self) {
        if a.id.lt(b.id) && b.id.lt(c.id) {
            <Digest as Ordered>::lt_transitive(a.id, b.id, c.id);
        }
    }

    proof fn lt_total(a: Self, b: Self) {
        <Digest as Ordered>::lt_total(a.id, b.id);
    }
}

impl OrdKey for CellRef {
    type Key = CellRef;

    open spec fn key(&self) -> CellRef {
        *self
    }

    fn twin(&self) -> (r: Self) {
        *self
    }

    fn before(&self, other: &Self) -> (r: bool) {
        proof {
            <Digest as Ordered>::lt_irreflexive(self.id);
        }
        let r: bool = if self.asset_id != other.asset_id {
            self.asset_id < other.asset_id
        } else if !same_array(&self.id, &other.id) {
            self.id.before(&other.id)
        } else {
            self.generation < other.generation
        };
        assert(r == Ordered::lt(*self, *other));
        r
    }

    fn same(&self, other: &Self) -> (r: bool) {
        self.asset_id == other.asset_id && same_array(&self.id, &other.id) && self.generation
            == other.generation
    }
}

#[derive(Clone, Copy, Debug, PartialEq, Eq)]
pub struct Cell {
    pub reference: CellRef,
    pub amount: u64,
    pub owner: PublicKeyBytes,
    pub predecessor: Digest,
    pub state_digest: Digest,
}

impl Model for Cell {
    type M = Cell;

    open spec fn model(&self) -> Cell {
        *self
    }

    fn duplicate(&self) -> (r: Self) {
        *self
    }
}

impl Cell {
    /// Whether two cells agree in every field.
    pub fn same(&self, other: &Cell) -> (r: bool)
        ensures
            r == (*self == *other),
    {
        self.reference.same(&other.reference) && self.amount == other.amount && same_array(
            &self.owner,
            &other.owner,
        ) && same_array(&self.predecessor, &other.predecessor) && same_array(
            &self.state_digest,
            &other.state_digest,
        )
    }
}

#[derive(Clone, Copy, Debug, PartialEq, Eq)]
pub struct Output {
    pub asset_id: u32,
    pub amount: u64,
    pub owner: PublicKeyBytes,
}

#[derive(Debug, PartialEq, Eq)]
pub struct Tx {
    pub version: u16,
    pub network_id: u32,
    pub epoch: u64,
    pub committee_hash: Digest,
    pub input: Cell,
    pub outputs: Vec<Output>,
    pub fee: u64,
    pub salt: Digest,
}

/// The mathematical content of a [`Tx`].
#[verifier::ext_equal]
pub struct TxModel {
    pub version: u16,
    pub network_id: u32,
    pub epoch: u64,
    pub committee_hash: Digest,
    pub input: Cell,
    pub outputs: Seq<Output>,
    pub fee: u64,
    pub salt: Digest,
}

impl View for Tx {
    type V = TxModel;

    open spec fn view(&self) -> TxModel {
        TxModel {
            version: self.version,
            network_id: self.network_id,
            epoch: self.epoch,
            committee_hash: self.committee_hash,
            input: self.input,
            outputs: self.outputs@,
            fee: self.fee,
            salt: self.salt,
        }
    }
}

impl Clone for Tx {
    fn clone(&self) -> (r: Self)
        ensures
            r@ == self@,
    {
        Tx {
            version: self.version,
            network_id: self.network_id,
            epoch: self.epoch,
            committee_hash: self.committee_hash,
            input: self.input,
            outputs: copy_vec(&self.outputs),
            fee: self.fee,
            salt: self.salt,
        }
    }
}

#[derive(Clone, Copy, Debug, PartialEq, Eq)]
pub struct UserAuth {
    pub signer: PublicKeyBytes,
    pub signature: SignatureBytes,
}

#[derive(Clone, Copy, Debug, PartialEq, Eq)]
pub struct Vote {
    pub network_id: u32,
    pub epoch: u64,
    pub committee_hash: Digest,
    pub phase: u8,
    pub round: u64,
    pub conflict_key: Digest,
    pub intent: Digest,
    pub justify: Digest,
    pub signer_index: u8,
    pub signature: SignatureBytes,
}

#[derive(Debug, PartialEq, Eq)]
pub struct Qc {
    pub votes: Vec<Vote>,
}

/// A quorum certificate is its list of votes.
impl View for Qc {
    type V = Seq<Vote>;

    open spec fn view(&self) -> Seq<Vote> {
        self.votes@
    }
}

impl Clone for Qc {
    fn clone(&self) -> (r: Self)
        ensures
            r@ == self@,
    {
        Qc { votes: copy_vec(&self.votes) }
    }
}

#[derive(Debug, PartialEq, Eq)]
pub struct Proposal {
    pub round: u64,
    pub proposer_index: u8,
    pub tx: Tx,
    pub auth: UserAuth,
    pub intent: Digest,
    pub justify: Option<Qc>,
    pub signature: SignatureBytes,
}

/// The mathematical content of a [`Proposal`].
#[verifier::ext_equal]
pub struct ProposalModel {
    pub round: u64,
    pub proposer_index: u8,
    pub tx: TxModel,
    pub auth: UserAuth,
    pub intent: Digest,
    pub justify: Option<Seq<Vote>>,
    pub signature: SignatureBytes,
}

/// An optional quorum certificate as an optional list of votes.
pub open spec fn optional_votes(qc: Option<Qc>) -> Option<Seq<Vote>> {
    match qc {
        Some(qc) => Some(qc@),
        None => None,
    }
}

impl View for Proposal {
    type V = ProposalModel;

    open spec fn view(&self) -> ProposalModel {
        ProposalModel {
            round: self.round,
            proposer_index: self.proposer_index,
            tx: self.tx@,
            auth: self.auth,
            intent: self.intent,
            justify: optional_votes(self.justify),
            signature: self.signature,
        }
    }
}

impl Clone for Proposal {
    fn clone(&self) -> (r: Self)
        ensures
            r@ == self@,
    {
        let justify: Option<Qc> = match &self.justify {
            Some(qc) => Some(qc.clone()),
            None => None,
        };
        Proposal {
            round: self.round,
            proposer_index: self.proposer_index,
            tx: self.tx.clone(),
            auth: self.auth,
            intent: self.intent,
            justify,
            signature: self.signature,
        }
    }
}

#[derive(Debug, PartialEq, Eq)]
pub struct ApplyReceipt {
    pub intent: Digest,
    pub certificate_digest: Digest,
    pub output_refs: Vec<CellRef>,
}

/// The mathematical content of an [`ApplyReceipt`].
#[verifier::ext_equal]
pub struct ReceiptModel {
    pub intent: Digest,
    pub certificate_digest: Digest,
    pub output_refs: Seq<CellRef>,
}

impl View for ApplyReceipt {
    type V = ReceiptModel;

    open spec fn view(&self) -> ReceiptModel {
        ReceiptModel {
            intent: self.intent,
            certificate_digest: self.certificate_digest,
            output_refs: self.output_refs@,
        }
    }
}

impl Clone for ApplyReceipt {
    fn clone(&self) -> (r: Self)
        ensures
            r@ == self@,
    {
        ApplyReceipt {
            intent: self.intent,
            certificate_digest: self.certificate_digest,
            output_refs: copy_vec(&self.output_refs),
        }
    }
}

impl Model for ApplyReceipt {
    type M = ReceiptModel;

    open spec fn model(&self) -> ReceiptModel {
        self@
    }

    fn duplicate(&self) -> (r: Self) {
        self.clone()
    }
}

#[derive(Debug, PartialEq, Eq)]
pub struct State {
    pub live: OrdMap<CellRef, Cell>,
    pub spent_by: OrdMap<CellRef, Digest>,
    pub known_ids: OrdSet<Digest>,
    pub applied: OrdMap<Digest, ApplyReceipt>,
}

/// The mathematical content of a [`State`].
#[verifier::ext_equal]
pub struct StateModel {
    pub live: Map<CellRef, Cell>,
    pub spent_by: Map<CellRef, Digest>,
    pub known_ids: Set<Digest>,
    pub applied: Map<Digest, ReceiptModel>,
}

impl View for State {
    type V = StateModel;

    open spec fn view(&self) -> StateModel {
        StateModel {
            live: self.live@,
            spent_by: self.spent_by@,
            known_ids: self.known_ids@,
            applied: self.applied@,
        }
    }
}

impl Clone for State {
    fn clone(&self) -> (r: Self)
        ensures
            r@ == self@,
    {
        State {
            live: self.live.copy(),
            spent_by: self.spent_by.copy(),
            known_ids: self.known_ids.copy(),
            applied: self.applied.copy(),
        }
    }
}

/// The state without any cell.
pub open spec fn empty_state() -> StateModel {
    StateModel {
        live: Map::empty(),
        spent_by: Map::empty(),
        known_ids: Set::empty(),
        applied: Map::empty(),
    }
}

impl Default for State {
    fn default() -> (r: Self)
        ensures
            r@ == empty_state(),
    {
        State {
            live: OrdMap::new(),
            spent_by: OrdMap::new(),
            known_ids: OrdSet::new(),
            applied: OrdMap::new(),
        }
    }
}

#[derive(Debug, PartialEq, Eq)]
pub enum ApplyOutcome {
    Applied(ApplyReceipt),
    AlreadyApplied(ApplyReceipt),
}

/// The mathematical content of an [`ApplyOutcome`].
pub enum OutcomeModel {
    Applied(ReceiptModel),
    AlreadyApplied(ReceiptModel),
}

impl View for ApplyOutcome {
    type V = OutcomeModel;

    open spec fn view(&self) -> OutcomeModel {
        match *self {
            ApplyOutcome::Applied(receipt) => OutcomeModel::Applied(receipt@),
            ApplyOutcome::AlreadyApplied(receipt) => OutcomeModel::AlreadyApplied(receipt@),
        }
    }
}

// ---------------------------------------------------------------------------
// Committees.
// ---------------------------------------------------------------------------

pub fn lab_user_key(label: u64) -> (key: SigningKey)
    ensures
        key.seed == user_seed(label),
{
    deterministic_key("CALIBRE_INTEGRATION001_LAB_USER_KEY_V1", label)
}

/// The seed of a laboratory user.
pub open spec fn user_seed(label: u64) -> [u8; 32] {
    crypto::digest("CALIBRE_INTEGRATION001_LAB_USER_KEY_V1"@, bytes::le64(label))
}

/// The number from which a validator key is derived: `epoch * 1000 + index`,
/// wrapping at 64 bits.
pub open spec fn validator_label(epoch: u64, index: int) -> u64 {
    epoch.wrapping_mul(1000).wrapping_add(index as u64)
}

/// The seed of a laboratory validator.
pub open spec fn validator_seed(epoch: u64, index: int) -> [u8; 32] {
    crypto::digest(
        "CALIBRE_INTEGRATION001_LAB_VALIDATOR_KEY_V1"@,
        bytes::le64(validator_label(epoch, index)),
    )
}

pub fn lab_validator_key(epoch: u64, index: usize) -> (key: SigningKey)
    ensures
        key.seed == validator_seed(epoch, index as int),
{
    let label: u64 = epoch.wrapping_mul(1000).wrapping_add(index as u64);
    deterministic_key("CALIBRE_INTEGRATION001_LAB_VALIDATOR_KEY_V1", label)
}

/// The member that holds the laboratory validator key of a slot.
pub open spec fn lab_member(epoch: u64, index: int) -> CommitteeMember {
    CommitteeMember {
        index: index as u8,
        public_key: crate::crypto::public_key(validator_seed(epoch, index)),
    }
}

/// The laboratory committee of an epoch.
pub open spec fn lab_manifest(epoch: u64) -> ManifestModel {
    ManifestModel {
        network_id: NETWORK_ID,
        epoch,
        threshold: Q as u8,
        members: Seq::new(N as nat, |i: int| lab_member(epoch, i)),
    }
}

pub fn lab_committee(epoch: u64) -> (manifest: CommitteeManifest)
    ensures
        manifest@ == lab_manifest(epoch),
{
    let mut members: Vec<CommitteeMember> = Vec::with_capacity(N);
    let mut index: usize = 0;
    while index < N
        invariant
            index <= N,
            members@ == Seq::new(index as nat, |i: int| lab_member(epoch, i)),
        decreases N - index,
    {
        members.push(
            CommitteeMember {
                index: index as u8,
                public_key: lab_validator_key(epoch, index).verifying_key().to_bytes(),
            },
        );
        index = index + 1;
        assert(members@ =~= Seq::new(index as nat, |i: int| lab_member(epoch, i)));
    }
    CommitteeManifest { network_id: NETWORK_ID, epoch, threshold: Q as u8, members }
}

/// Whether the key of the member number `i` occurs before it.
pub open spec fn repeated_key(members: Seq<CommitteeMember>, i: int) -> bool {
    exists|j: int| 0 <= j < i && (#[trigger] members[j]).public_key == members[i].public_key
}

/// The verdict on the members from number `i` on.
pub open spec fn members_verdict(members: Seq<CommitteeMember>, i: int) -> Verdict
    decreases members.len() - i,
{
    if i < 0 || i >= members.len() {
        Ok(())
    } else if members[i].index != i {
        Err("committee indices must be canonical 0..6"@)
    } else if !crypto::ed25519_key_decodes(members[i].public_key@) {
        Err("invalid committee public key"@)
    } else if repeated_key(members, i) {
        Err("duplicate committee public key"@)
    } else {
        members_verdict(members, i + 1)
    }
}

/// The verdict on a committee.
pub open spec fn manifest_verdict(m: ManifestModel) -> Verdict {
    if m.network_id != NETWORK_ID {
        Err("wrong network in committee manifest"@)
    } else if m.threshold != Q {
        Err("committee threshold must be five"@)
    } else if m.members.len() != N {
        Err("committee must contain seven members"@)
    } else {
        members_verdict(m.members, 0)
    }
}

/// A committee of seven members in canonical order, with distinct keys that
/// decode and a threshold of five.
pub open spec fn manifest_valid(m: ManifestModel) -> bool {
    &&& m.network_id == NETWORK_ID
    &&& m.threshold == Q
    &&& m.members.len() == N
    &&& forall|i: int| 0 <= i < N ==> (#[trigger] m.members[i]).index == i
    &&& forall|i: int| 0 <= i < N ==> crypto::ed25519_key_decodes((#[trigger] m.members[i]).public_key@)
    &&& forall|i: int, j: int|
        0 <= i < j < N ==> (#[trigger] m.members[i]).public_key != (
        #[trigger] m.members[j]).public_key
}

proof fn lemma_members_verdict(members: Seq<CommitteeMember>, i: int)
    requires
        0 <= i <= members.len(),
    ensures
        members_verdict(members, i) is Ok <==> forall|k: int|
            i <= k < members.len() ==> (#[trigger] members[k]).index == k && crypto::ed25519_key_decodes(
                members[k].public_key@,
            ) && !repeated_key(members, k),
    decreases members.len() - i,
{
    if i < members.len() {
        lemma_members_verdict(members, i + 1);
    }
}

/// A committee is accepted exactly if it is valid.
pub proof fn law_manifest_verdict(m: ManifestModel)
    ensures
        manifest_verdict(m) is Ok <==> manifest_valid(m),
{
    if m.members.len() == N {
        lemma_members_verdict(m.members, 0);
        if forall|i: int, j: int|
            0 <= i < j < N ==> (#[trigger] m.members[i]).public_key != (
            #[trigger] m.members[j]).public_key {
            assert forall|k: int| 0 <= k < N implies !repeated_key(m.members, k) by {}
        }
        if manifest_verdict(m) is Ok {
            assert forall|i: int, j: int| 0 <= i < j < N implies (
            #[trigger] m.members[i]).public_key != (#[trigger] m.members[j]).public_key by {
                assert(!repeated_key(m.members, j));
            }
        }
    }
}

pub fn validate_manifest(manifest: &CommitteeManifest) -> (r: Result<(), String>)
    ensures
        text::shown(r) == manifest_verdict(manifest@),
{
    if manifest.network_id != NETWORK_ID {
        return Err(text("wrong network in committee manifest"));
    }
    if manifest.threshold as usize != Q {
        return Err(text("committee threshold must be five"));
    }
    if manifest.members.len() != N {
        return Err(text("committee must contain seven members"));
    }
    let mut keys: OrdSet<PublicKeyBytes> = OrdSet::new();
    let mut i: usize = 0;
    let ghost members = manifest.members@;
    while i < manifest.members.len()
        invariant
            i <= members.len(),
            members == manifest.members@,
            members.len() == N,
            manifest_verdict(manifest@) == members_verdict(members, i as int),
            forall|k: PublicKeyBytes|
                keys@.contains(k) <==> exists|j: int|
                    0 <= j < i && (#[trigger] members[j]).public_key == k,
        decreases members.len() - i,
    {
        let member: CommitteeMember = manifest.members[i];
        if member.index as usize != i {
            return Err(text("committee indices must be canonical 0..6"));
        }
        if !(VerifyingKey { bytes: member.public_key }).decodes() {
            return Err(text("invalid committee public key"));
        }
        let ghost before = keys@;
        if !keys.insert(member.public_key) {
            assert(repeated_key(members, i as int));
            return Err(text("duplicate committee public key"));
        }
        proof {
            assert forall|k: PublicKeyBytes| keys@.contains(k) <==> exists|j: int|
                0 <= j < i + 1 && (#[trigger] members[j]).public_key == k by {
                if keys@.contains(k) {
                    if before.contains(k) {
                        let j = choose|j: int|
                            0 <= j < i && (#[trigger] members[j]).public_key == k;
                        assert(0 <= j < i + 1 && members[j].public_key == k);
                    } else {
                        assert(members[i as int].public_key == k);
                    }
                }
                if exists|j: int| 0 <= j < i + 1 && (#[trigger] members[j]).public_key == k {
                    let j = choose|j: int|
                        0 <= j < i + 1 && (#[trigger] members[j]).public_key == k;
                    if j < i {
                        assert(before.contains(k));
                    }
                }
            }
        }
        i = i + 1;
    }
    Ok(())
}

/// How a member enters the digest of its committee.
pub open spec fn member_bytes() -> spec_fn(CommitteeMember) -> Seq<u8> {
    |m: CommitteeMember| seq![m.index] + m.public_key@
}

/// What is hashed of a committee.
pub open spec fn committee_bytes(m: ManifestModel) -> Seq<u8> {
    bytes::le16(PROTOCOL_VERSION) + bytes::le32(m.network_id) + bytes::le64(m.epoch) + seq![m.threshold] + bytes::le32(
        m.members.len() as u32,
    ) + bytes::flat(m.members, member_bytes())
}

/// The digest of a committee, without a check of it.
pub open spec fn committee_digest(m: ManifestModel) -> Digest {
    crypto::digest("CALIBRE_INTEGRATION001_COMMITTEE_V1"@, committee_bytes(m))
}

/// The digest of a valid committee, or why it is not valid.
pub open spec fn committee_result(m: ManifestModel) -> Result<Digest, Seq<char>> {
    match manifest_verdict(m) {
        Ok(_) => Ok(committee_digest(m)),
        Err(e) => Err(e),
    }
}

pub fn committee_hash(manifest: &CommitteeManifest) -> (r: Result<Digest, String>)
    ensures
        text::shown(r) == committee_result(manifest@),
{
    validate_manifest(manifest)?;
    let mut bytes: Vec<u8> = Vec::new();
    put_u16(&mut bytes, PROTOCOL_VERSION);
    put_u32(&mut bytes, manifest.network_id);
    put_u64(&mut bytes, manifest.epoch);
    put_u8(&mut bytes, manifest.threshold);
    put_u32(&mut bytes, manifest.members.len() as u32);
    let ghost head = bytes@;
    let ghost members = manifest.members@;
    let mut i: usize = 0;
    proof {
        bytes::lemma_flat_ends(members, member_bytes());
        assert(head + Seq::<u8>::empty() =~= head);
    }
    while i < manifest.members.len()
        invariant
            i <= members.len(),
            members == manifest.members@,
            bytes@ == head + bytes::flat(members.subrange(0, i as int), member_bytes()),
        decreases members.len() - i,
    {
        let member: CommitteeMember = manifest.members[i];
        put_u8(&mut bytes, member.index);
        put_digest(&mut bytes, &member.public_key);
        proof {
            bytes::lemma_flat_step(members, member_bytes(), i as int);
            assert(bytes@ =~= head + (bytes::flat(members.subrange(0, i as int), member_bytes()) + (
            seq![member.index] + member.public_key@)));
        }
        i = i + 1;
    }
    proof {
        bytes::lemma_flat_ends(members, member_bytes());
        assert(head =~= bytes::le16(PROTOCOL_VERSION) + bytes::le32(manifest.network_id) + bytes::le64(manifest.epoch)
            + seq![manifest.threshold] + bytes::le32(members.len() as u32));
    }
    Ok(hash_domain("CALIBRE_INTEGRATION001_COMMITTEE_V1", &bytes))
}

// ---------------------------------------------------------------------------
// Cells.
// ---------------------------------------------------------------------------

/// The bytes of a reference.
pub open spec fn ref_bytes(r: CellRef) -> Seq<u8> {
    bytes::le32(r.asset_id) + r.id@ + bytes::le64(r.generation)
}

/// The digest that binds the contents of a cell.
pub open spec fn cell_digest(
    reference: CellRef,
    amount: u64,
    owner: PublicKeyBytes,
    predecessor: Digest,
) -> Digest {
    crypto::digest(
        "CALIBRE_INTEGRATION001_CELL_V1"@,
        ref_bytes(reference) + bytes::le64(amount) + owner@ + predecessor@,
    )
}

pub(crate) fn put_ref(out: &mut Vec<u8>, reference: &CellRef)
    ensures
        final(out)@ == old(out)@ + ref_bytes(*reference),
{
    put_u32(out, reference.asset_id);
    put_digest(out, &reference.id);
    put_u64(out, reference.generation);
    assert(out@ =~= old(out)@ + ref_bytes(*reference));
}

pub fn compute_cell_digest(
    reference: CellRef,
    amount: u64,
    owner: PublicKeyBytes,
    predecessor: Digest,
) -> (d: Digest)
    ensures
        d == cell_digest(reference, amount, owner, predecessor),
{
    let mut bytes: Vec<u8> = Vec::new();
    put_ref(&mut bytes, &reference);
    put_u64(&mut bytes, amount);
    put_digest(&mut bytes, &owner);
    put_digest(&mut bytes, &predecessor);
    assert(bytes@ =~= ref_bytes(reference) + bytes::le64(amount) + owner@ + predecessor@);
    hash_domain("CALIBRE_INTEGRATION001_CELL_V1", &bytes)
}

/// The reference of a genesis cell.
pub open spec fn genesis_ref(label: u64) -> CellRef {
    CellRef {
        asset_id: ASSET_CALIBRE,
        id: crypto::digest("CALIBRE_INTEGRATION001_GENESIS_ID_V1"@, bytes::le64(label)),
        generation: 0,
    }
}

/// The genesis cell with a label.
pub open spec fn genesis_cell(label: u64, amount: u64, owner: PublicKeyBytes) -> Cell {
    Cell {
        reference: genesis_ref(label),
        amount,
        owner,
        predecessor: bytes::zero_digest(),
        state_digest: cell_digest(genesis_ref(label), amount, owner, bytes::zero_digest()),
    }
}

pub fn make_genesis_cell(label: u64, amount: u64, owner: PublicKeyBytes) -> (cell: Cell)
    ensures
        cell == genesis_cell(label, amount, owner),
{
    let mut id_bytes: Vec<u8> = Vec::new();
    put_u64(&mut id_bytes, label);
    assert(id_bytes@ =~= bytes::le64(label));
    let reference: CellRef = CellRef {
        asset_id: ASSET_CALIBRE,
        id: hash_domain("CALIBRE_INTEGRATION001_GENESIS_ID_V1", &id_bytes),
        generation: 0,
    };
    let predecessor: Digest = no_digest();
    Cell {
        reference,
        amount,
        owner,
        predecessor,
        state_digest: compute_cell_digest(reference, amount, owner, predecessor),
    }
}

/// The verdict on a cell.
pub open spec fn cell_verdict(cell: Cell) -> Verdict {
    if cell.amount == 0 {
        Err("zero-value cells are forbidden"@)
    } else if cell.reference.asset_id != ASSET_CALIBRE {
        Err("unsupported asset"@)
    } else if cell.state_digest != cell_digest(
        cell.reference,
        cell.amount,
        cell.owner,
        cell.predecessor,
    ) {
        Err("cell state digest mismatch"@)
    } else {
        Ok(())
    }
}

pub fn validate_cell(cell: &Cell) -> (r: Result<(), String>)
    ensures
        text::shown(r) == cell_verdict(*cell),
{
    if cell.amount == 0 {
        return Err(text("zero-value cells are forbidden"));
    }
    if cell.reference.asset_id != ASSET_CALIBRE {
        return Err(text("unsupported asset"));
    }
    let expected: Digest = compute_cell_digest(
        cell.reference,
        cell.amount,
        cell.owner,
        cell.predecessor,
    );
    if !same_array(&cell.state_digest, &expected) {
        return Err(text("cell state digest mismatch"));
    }
    Ok(())
}

// ---------------------------------------------------------------------------
// Transactions.
// ---------------------------------------------------------------------------

/// How an output enters the intent of its transaction.
pub open spec fn output_bytes() -> spec_fn(Output) -> Seq<u8> {
    |o: Output| bytes::le32(o.asset_id) + bytes::le64(o.amount) + o.owner@
}

/// What is hashed of a transaction.
pub open spec fn intent_bytes(tx: TxModel) -> Seq<u8> {
    bytes::le16(tx.version) + bytes::le32(tx.network_id) + bytes::le64(tx.epoch) + tx.committee_hash@ + ref_bytes(
        tx.input.reference,
    ) + bytes::le64(tx.input.amount) + tx.input.owner@ + tx.input.predecessor@ + tx.input.state_digest@
        + bytes::le32(tx.outputs.len() as u32) + bytes::flat(tx.outputs, output_bytes()) + bytes::le64(tx.fee)
        + tx.salt@
}

/// The intent of a transaction, without a check of its output count.
pub open spec fn intent_digest(tx: TxModel) -> Digest {
    crypto::digest("CALIBRE_INTEGRATION001_TX_INTENT_V1"@, intent_bytes(tx))
}

/// The intent of a transaction with one to eight outputs.
pub open spec fn intent_result(tx: TxModel) -> Result<Digest, Seq<char>> {
    if tx.outputs.len() == 0 || tx.outputs.len() > 8 {
        Err("transaction must contain 1..=8 outputs"@)
    } else {
        Ok(intent_digest(tx))
    }
}

fn tx_bytes(tx: &Tx) -> (r: Result<Vec<u8>, String>)
    ensures
        tx.outputs@.len() == 0 || tx.outputs@.len() > 8 ==> r is Err && r->Err_0@
            == "transaction must contain 1..=8 outputs"@,
        1 <= tx.outputs@.len() <= 8 ==> r is Ok && r->Ok_0@ == intent_bytes(tx@),
{
    if tx.outputs.is_empty() || tx.outputs.len() > 8 {
        return Err(text("transaction must contain 1..=8 outputs"));
    }
    let mut bytes: Vec<u8> = Vec::new();
    put_u16(&mut bytes, tx.version);
    put_u32(&mut bytes, tx.network_id);
    put_u64(&mut bytes, tx.epoch);
    put_digest(&mut bytes, &tx.committee_hash);
    put_ref(&mut bytes, &tx.input.reference);
    put_u64(&mut bytes, tx.input.amount);
    put_digest(&mut bytes, &tx.input.owner);
    put_digest(&mut bytes, &tx.input.predecessor);
    put_digest(&mut bytes, &tx.input.state_digest);
    put_u32(&mut bytes, tx.outputs.len() as u32);
    let ghost head = bytes@;
    let ghost outputs = tx.outputs@;
    let mut i: usize = 0;
    proof {
        bytes::lemma_flat_ends(outputs, output_bytes());
        assert(head + Seq::<u8>::empty() =~= head);
        assert(head =~= bytes::le16(tx.version) + bytes::le32(tx.network_id) + bytes::le64(tx.epoch)
            + tx.committee_hash@ + ref_bytes(tx.input.reference) + bytes::le64(tx.input.amount)
            + tx.input.owner@ + tx.input.predecessor@ + tx.input.state_digest@ + bytes::le32(
            outputs.len() as u32,
        ));
    }
    while i < tx.outputs.len()
        invariant
            i <= outputs.len(),
            outputs == tx.outputs@,
            bytes@ == head + bytes::flat(outputs.subrange(0, i as int), output_bytes()),
        decreases outputs.len() - i,
    {
        let output: Output = tx.outputs[i];
        put_u32(&mut bytes, output.asset_id);
        put_u64(&mut bytes, output.amount);
        put_digest(&mut bytes, &output.owner);
        proof {
            bytes::lemma_flat_step(outputs, output_bytes(), i as int);
            assert(bytes@ =~= head + (bytes::flat(outputs.subrange(0, i as int), output_bytes()) + (bytes::le32(
                output.asset_id,
            ) + bytes::le64(output.amount) + output.owner@)));
        }
        i = i + 1;
    }
    put_u64(&mut bytes, tx.fee);
    put_digest(&mut bytes, &tx.salt);
    proof {
        bytes::lemma_flat_ends(outputs, output_bytes());
    }
    Ok(bytes)
}

pub fn intent_hash(tx: &Tx) -> (r: Result<Digest, String>)
    ensures
        text::shown(r) == intent_result(tx@),
{
    let bytes: Vec<u8> = tx_bytes(tx)?;
    Ok(hash_domain("CALIBRE_INTEGRATION001_TX_INTENT_V1", &bytes))
}

/// The key under which transactions that spend one cell conflict.
pub open spec fn conflict_digest(reference: CellRef) -> Digest {
    crypto::digest("CALIBRE_INTEGRATION001_CONFLICT_KEY_V1"@, ref_bytes(reference))
}

pub fn conflict_key(reference: CellRef) -> (d: Digest)
    ensures
        d == conflict_digest(reference),
{
    let mut bytes: Vec<u8> = Vec::new();
    put_ref(&mut bytes, &reference);
    assert(bytes@ =~= ref_bytes(reference));
    hash_domain("CALIBRE_INTEGRATION001_CONFLICT_KEY_V1", &bytes)
}

/// The sum of the amounts of the first `i` outputs.
pub open spec fn outputs_total(outputs: Seq<Output>, i: int) -> nat
    decreases i,
{
    if i <= 0 || i > outputs.len() {
        0
    } else {
        outputs_total(outputs, i - 1) + outputs[i - 1].amount as nat
    }
}

/// The verdict on the outputs from number `i` on: each has the asset of the
/// input and a nonzero amount, and the running total with the fee fits.
pub open spec fn outputs_verdict(tx: TxModel, i: int) -> Verdict
    decreases tx.outputs.len() - i,
{
    if i < 0 || i >= tx.outputs.len() {
        if tx.fee + outputs_total(tx.outputs, tx.outputs.len() as int) != tx.input.amount {
            Err("transaction does not conserve value"@)
        } else {
            match intent_result(tx) {
                Ok(_) => Ok(()),
                Err(e) => Err(e),
            }
        }
    } else if tx.outputs[i].asset_id != tx.input.reference.asset_id {
        Err("output asset mismatch"@)
    } else if tx.outputs[i].amount == 0 {
        Err("zero-value output"@)
    } else if tx.fee + outputs_total(tx.outputs, i + 1) > u64::MAX {
        Err("output value overflow"@)
    } else {
        outputs_verdict(tx, i + 1)
    }
}

/// The verdict on a transaction for a committee.
pub open spec fn tx_verdict(tx: TxModel, m: ManifestModel) -> Verdict {
    match manifest_verdict(m) {
        Err(e) => Err(e),
        Ok(_) => match cell_verdict(tx.input) {
            Err(e) => Err(e),
            Ok(_) => if tx.version != PROTOCOL_VERSION {
                Err("unsupported transaction version"@)
            } else if tx.network_id != m.network_id {
                Err("transaction network mismatch"@)
            } else if tx.epoch != m.epoch {
                Err("transaction epoch mismatch"@)
            } else if tx.committee_hash != committee_digest(m) {
                Err("transaction committee mismatch"@)
            } else if tx.fee == 0 {
                Err("fee must be explicit and nonzero in this experiment"@)
            } else {
                outputs_verdict(tx, 0)
            },
        },
    }
}

pub fn validate_tx(tx: &Tx, manifest: &CommitteeManifest) -> (r: Result<(), String>)
    ensures
        text::shown(r) == tx_verdict(tx@, manifest@),
{
    validate_manifest(manifest)?;
    validate_cell(&tx.input)?;
    if tx.version != PROTOCOL_VERSION {
        return Err(text("unsupported transaction version"));
    }
    if tx.network_id != manifest.network_id {
        return Err(text("transaction network mismatch"));
    }
    if tx.epoch != manifest.epoch {
        return Err(text("transaction epoch mismatch"));
    }
    let committee: Digest = committee_hash(manifest)?;
    if !same_array(&tx.committee_hash, &committee) {
        return Err(text("transaction committee mismatch"));
    }
    if tx.fee == 0 {
        return Err(text("fee must be explicit and nonzero in this experiment"));
    }
    let mut total: u64 = tx.fee;
    let mut i: usize = 0;
    while i < tx.outputs.len()
        invariant
            i <= tx.outputs@.len(),
            total == tx.fee + outputs_total(tx.outputs@, i as int),
            tx_verdict(tx@, manifest@) == outputs_verdict(tx@, i as int),
        decreases tx.outputs@.len() - i,
    {
        let output: Output = tx.outputs[i];
        if output.asset_id != tx.input.reference.asset_id {
            return Err(text("output asset mismatch"));
        }
        if output.amount == 0 {
            return Err(text("zero-value output"));
        }
        total = match total.checked_add(output.amount) {
            Some(sum) => sum,
            None => {
                return Err(text("output value overflow"));
            },
        };
        i = i + 1;
    }
    if total != tx.input.amount {
        return Err(text("transaction does not conserve value"));
    }
    let _intent: Digest = intent_hash(tx)?;
    Ok(())
}

proof fn lemma_totals_grow(outputs: Seq<Output>, i: int, j: int)
    requires
        0 <= i <= j <= outputs.len(),
    ensures
        outputs_total(outputs, i) <= outputs_total(outputs, j),
    decreases j - i,
{
    if i < j {
        lemma_totals_grow(outputs, i, j - 1);
    }
}

/// The outputs of a transaction are one to eight, each is worth something and is of the
/// input's asset, and with the fee they add up to the input.
pub open spec fn outputs_valid(tx: TxModel) -> bool {
    &&& 1 <= tx.outputs.len() <= 8
    &&& forall|k: int|
        0 <= k < tx.outputs.len() ==> (#[trigger] tx.outputs[k]).amount > 0
            && tx.outputs[k].asset_id == tx.input.reference.asset_id
    &&& tx.fee + outputs_total(tx.outputs, tx.outputs.len() as int) == tx.input.amount
}

proof fn lemma_outputs_verdict(tx: TxModel, i: int)
    requires
        0 <= i <= tx.outputs.len(),
    ensures
        outputs_verdict(tx, i) is Ok <==> {
            &&& tx.fee + outputs_total(tx.outputs, tx.outputs.len() as int) == tx.input.amount
            &&& 1 <= tx.outputs.len() <= 8
            &&& forall|k: int|
                i <= k < tx.outputs.len() ==> (#[trigger] tx.outputs[k]).amount > 0
                    && tx.outputs[k].asset_id == tx.input.reference.asset_id
        },
    decreases tx.outputs.len() - i,
{
    if i < tx.outputs.len() {
        lemma_outputs_verdict(tx, i + 1);
        lemma_totals_grow(tx.outputs, i + 1, tx.outputs.len() as int);
    }
}

/// A transaction that a committee takes.
pub open spec fn tx_valid(tx: TxModel, m: ManifestModel) -> bool {
    &&& manifest_valid(m)
    &&& cell_verdict(tx.input) is Ok
    &&& tx.version == PROTOCOL_VERSION
    &&& tx.network_id == m.network_id
    &&& tx.epoch == m.epoch
    &&& tx.committee_hash == committee_digest(m)
    &&& tx.fee > 0
    &&& outputs_valid(tx)
}

/// A transaction is accepted exactly if it is valid.
pub proof fn law_tx_verdict(tx: TxModel, m: ManifestModel)
    ensures
        tx_verdict(tx, m) is Ok <==> tx_valid(tx, m),
{
    law_manifest_verdict(m);
    lemma_outputs_verdict(tx, 0);
}

/// An accepted transaction conserves value: the outputs and the fee add up to
/// the input, every output is worth something and is of the input's asset.
pub proof fn law_valid_tx_conserves_value(tx: TxModel, m: ManifestModel)
    requires
        tx_verdict(tx, m) is Ok,
    ensures
        tx.fee + outputs_total(tx.outputs, tx.outputs.len() as int) == tx.input.amount,
        tx.fee > 0,
        1 <= tx.outputs.len() <= 8,
        forall|k: int|
            0 <= k < tx.outputs.len() ==> (#[trigger] tx.outputs[k]).amount > 0
                && tx.outputs[k].asset_id == tx.input.reference.asset_id,
{
    law_tx_verdict(tx, m);
}

// ---------------------------------------------------------------------------
// Owner authorization.
// ---------------------------------------------------------------------------

/// What the owner signs: the intent.
fn user_message(tx: &Tx) -> (r: Result<Vec<u8>, String>)
    ensures
        match intent_result(tx@) {
            Ok(d) => r is Ok && r->Ok_0@ == d@,
            Err(e) => r is Err && r->Err_0@ == e,
        },
{
    let intent: Digest = intent_hash(tx)?;
    let mut bytes: Vec<u8> = Vec::new();
    put_digest(&mut bytes, &intent);
    assert(bytes@ =~= intent@);
    Ok(bytes)
}

/// The authorization of a transaction under a seed.
pub open spec fn user_signed(tx: TxModel, seed: [u8; 32]) -> Result<UserAuth, Seq<char>> {
    match intent_result(tx) {
        Ok(intent) => Ok(
            UserAuth {
                signer: crate::crypto::public_key(seed),
                signature: crate::crypto::signature(seed, intent@),
            },
        ),
        Err(e) => Err(e),
    }
}

/// Signs a transaction as its owner. What the owner of the input signs is accepted by
/// every committee that the transaction is valid for.
pub fn sign_user(tx: &Tx, key: &SigningKey) -> (r: Result<UserAuth, String>)
    ensures
        text::shown(r) == user_signed(tx@, key.seed),
        r matches Ok(auth) ==> crypto::has_nonce(auth.signature) && tx@.input.owner
            == crypto::public_key(key.seed) ==> forall|m: ManifestModel|
            #[trigger] tx_verdict(tx@, m) is Ok ==> auth_verdict(tx@, auth, m) is Ok,
{
    let message: Vec<u8> = user_message(tx)?;
    let signature: SignatureBytes = key.sign(&message);
    let auth: UserAuth = UserAuth { signer: key.verifying_key().to_bytes(), signature };
    proof {
        if crypto::has_nonce(auth.signature) && tx@.input.owner == crypto::public_key(key.seed) {
            assert forall|m: ManifestModel| #[trigger] tx_verdict(tx@, m) is Ok implies auth_verdict(
                tx@,
                auth,
                m,
            ) is Ok by {
                finality::law_owner_is_accepted(tx@, m, key.seed);
            }
        }
    }
    Ok(auth)
}

/// The verdict on the authorization of a transaction.
pub open spec fn auth_verdict(tx: TxModel, auth: UserAuth, m: ManifestModel) -> Verdict {
    match tx_verdict(tx, m) {
        Err(e) => Err(e),
        Ok(_) => if auth.signer != tx.input.owner {
            Err("signer does not own exact input"@)
        } else if !crypto::ed25519_key_decodes(auth.signer@) {
            Err("invalid owner key"@)
        } else if !crypto::ed25519_strictly_verifies(auth.signer@, intent_digest(tx)@, auth.signature@) {
            Err("invalid owner signature"@)
        } else {
            Ok(())
        },
    }
}

pub fn verify_user_auth(tx: &Tx, auth: &UserAuth, manifest: &CommitteeManifest) -> (r: Result<
    (),
    String,
>)
    ensures
        text::shown(r) == auth_verdict(tx@, *auth, manifest@),
{
    validate_tx(tx, manifest)?;
    proof {
        law_valid_tx_conserves_value(tx@, manifest@);
    }
    if !same_array(&auth.signer, &tx.input.owner) {
        return Err(text("signer does not own exact input"));
    }
    let key: VerifyingKey = VerifyingKey { bytes: auth.signer };
    if !key.decodes() {
        return Err(text("invalid owner key"));
    }
    let message: Vec<u8> = user_message(tx)?;
    if !key.verify_strict(&message, &auth.signature) {
        return Err(text("invalid owner signature"));
    }
    Ok(())
}

// ---------------------------------------------------------------------------
// Votes and quorum certificates.
// ---------------------------------------------------------------------------

/// The slot that leads a conflict in a round.
pub open spec fn leader_slot(conflict: Digest, round: u64) -> int {
    (bytes::from_le64(conflict@.subrange(0, 8)) as int % 7 + round as int % 7) % 7
}

/// The leader of a conflict in a round: the conflict picks the first slot, and
/// each round moves on by one.
pub fn leader(conflict: Digest, round: u64) -> (slot: usize)
    ensures
        slot == leader_slot(conflict, round),
        slot < N,
{
    let offset: u64 = get_u64(&conflict[0..8]) % 7;
    ((offset + round % 7) % 7) as usize
}

/// What is hashed of a vote.
pub open spec fn vote_bytes(
    m: ManifestModel,
    phase: u8,
    round: u64,
    conflict: Digest,
    intent: Digest,
    justify: Digest,
    signer_index: u8,
) -> Seq<u8> {
    bytes::le16(PROTOCOL_VERSION) + bytes::le32(m.network_id) + bytes::le64(m.epoch) + committee_digest(m)@
        + seq![phase] + bytes::le64(round) + conflict@ + intent@ + justify@ + seq![signer_index]
}

/// What a validator signs for a vote.
pub open spec fn vote_statement(
    m: ManifestModel,
    phase: u8,
    round: u64,
    conflict: Digest,
    intent: Digest,
    justify: Digest,
    signer_index: u8,
) -> Digest {
    crypto::digest(
        "CALIBRE_INTEGRATION001_VOTE_STATEMENT_V1"@,
        vote_bytes(m, phase, round, conflict, intent, justify, signer_index),
    )
}

/// What a validator signs for a vote in a known phase of a valid committee.
pub open spec fn vote_statement_result(
    m: ManifestModel,
    phase: u8,
    round: u64,
    conflict: Digest,
    intent: Digest,
    justify: Digest,
    signer_index: u8,
) -> Result<Digest, Seq<char>> {
    if phase != PHASE_PREVOTE && phase != PHASE_PRECOMMIT {
        Err("invalid vote phase"@)
    } else {
        match manifest_verdict(m) {
            Ok(_) => Ok(vote_statement(m, phase, round, conflict, intent, justify, signer_index)),
            Err(e) => Err(e),
        }
    }
}

fn vote_message(
    manifest: &CommitteeManifest,
    phase: u8,
    round: u64,
    conflict: Digest,
    intent: Digest,
    justify: Digest,
    signer_index: u8,
) -> (r: Result<Digest, String>)
    ensures
        text::shown(r) == vote_statement_result(
            manifest@,
            phase,
            round,
            conflict,
            intent,
            justify,
            signer_index,
        ),
{
    if phase != PHASE_PREVOTE && phase != PHASE_PRECOMMIT {
        return Err(text("invalid vote phase"));
    }
    let mut bytes: Vec<u8> = Vec::new();
    put_u16(&mut bytes, PROTOCOL_VERSION);
    put_u32(&mut bytes, manifest.network_id);
    put_u64(&mut bytes, manifest.epoch);
    let committee: Digest = committee_hash(manifest)?;
    put_digest(&mut bytes, &committee);
    put_u8(&mut bytes, phase);
    put_u64(&mut bytes, round);
    put_digest(&mut bytes, &conflict);
    put_digest(&mut bytes, &intent);
    put_digest(&mut bytes, &justify);
    put_u8(&mut bytes, signer_index);
    assert(bytes@ =~= vote_bytes(
        manifest@,
        phase,
        round,
        conflict,
        intent,
        justify,
        signer_index,
    ));
    Ok(hash_domain("CALIBRE_INTEGRATION001_VOTE_STATEMENT_V1", &bytes))
}

/// The vote that a key casts, or why it may not.
pub open spec fn vote_signed(
    m: ManifestModel,
    phase: u8,
    round: u64,
    conflict: Digest,
    intent: Digest,
    justify: Digest,
    signer_index: u8,
    seed: [u8; 32],
) -> Result<Vote, Seq<char>> {
    match manifest_verdict(m) {
        Err(e) => Err(e),
        Ok(_) => if signer_index >= m.members.len() {
            Err("signer index is not a member"@)
        } else if m.members[signer_index as int].index != signer_index
            || m.members[signer_index as int].public_key != crate::crypto::public_key(seed) {
            Err("signing key does not match manifest slot"@)
        } else if phase == PHASE_PREVOTE && justify != bytes::zero_digest() {
            Err("prevote cannot carry a justify digest"@)
        } else if phase == PHASE_PRECOMMIT && justify == bytes::zero_digest() {
            Err("precommit must bind its prevote QC"@)
        } else {
            match vote_statement_result(m, phase, round, conflict, intent, justify, signer_index) {
                Err(e) => Err(e),
                Ok(statement) => Ok(
                    Vote {
                        network_id: m.network_id,
                        epoch: m.epoch,
                        committee_hash: committee_digest(m),
                        phase,
                        round,
                        conflict_key: conflict,
                        intent,
                        justify,
                        signer_index,
                        signature: crate::crypto::signature(seed, statement@),
                    },
                ),
            }
        },
    }
}

pub fn sign_vote(
    manifest: &CommitteeManifest,
    phase: u8,
    round: u64,
    conflict: Digest,
    intent: Digest,
    justify: Digest,
    signer_index: u8,
    key: &SigningKey,
) -> (r: Result<Vote, String>)
    ensures
        text::shown(r) == vote_signed(
            manifest@,
            phase,
            round,
            conflict,
            intent,
            justify,
            signer_index,
            key.seed,
        ),
        r matches Ok(vote) ==> crypto::has_nonce(vote.signature) ==> vote_verdict(vote, manifest@) is Ok,
{
    validate_manifest(manifest)?;
    if signer_index as usize >= manifest.members.len() {
        return Err(text("signer index is not a member"));
    }
    let member: CommitteeMember = manifest.members[signer_index as usize];
    let public: PublicKeyBytes = key.verifying_key().to_bytes();
    if member.index != signer_index || !same_array(&member.public_key, &public) {
        return Err(text("signing key does not match manifest slot"));
    }
    let zero: Digest = no_digest();
    if phase == PHASE_PREVOTE && !same_array(&justify, &zero) {
        return Err(text("prevote cannot carry a justify digest"));
    }
    if phase == PHASE_PRECOMMIT && same_array(&justify, &zero) {
        return Err(text("precommit must bind its prevote QC"));
    }
    let message: Digest = vote_message(
        manifest,
        phase,
        round,
        conflict,
        intent,
        justify,
        signer_index,
    )?;
    let signature: SignatureBytes = key.sign(&message);
    proof {
        if crypto::has_nonce(signature) {
            finality::law_cast_vote_is_accepted(
                manifest@,
                phase,
                round,
                conflict,
                intent,
                justify,
                signer_index,
                key.seed,
            );
        }
    }
    let committee: Digest = committee_hash(manifest)?;
    Ok(
        Vote {
            network_id: manifest.network_id,
            epoch: manifest.epoch,
            committee_hash: committee,
            phase,
            round,
            conflict_key: conflict,
            intent,
            justify,
            signer_index,
            signature,
        },
    )
}

/// The verdict on a vote.
pub open spec fn vote_verdict(vote: Vote, m: ManifestModel) -> Verdict {
    match manifest_verdict(m) {
        Err(e) => Err(e),
        Ok(_) => if vote.network_id != m.network_id || vote.epoch != m.epoch {
            Err("vote network or epoch mismatch"@)
        } else if vote.committee_hash != committee_digest(m) {
            Err("vote committee mismatch"@)
        } else if vote.phase == PHASE_PREVOTE && vote.justify != bytes::zero_digest() {
            Err("prevote has a justify digest"@)
        } else if vote.phase == PHASE_PRECOMMIT && vote.justify == bytes::zero_digest() {
            Err("precommit omits prevote QC digest"@)
        } else if vote.signer_index >= m.members.len() {
            Err("vote signer is not a member"@)
        } else if m.members[vote.signer_index as int].index != vote.signer_index {
            Err("vote signer index mismatch"@)
        } else if !crypto::ed25519_key_decodes(m.members[vote.signer_index as int].public_key@) {
            Err("invalid validator key"@)
        } else if vote.phase != PHASE_PREVOTE && vote.phase != PHASE_PRECOMMIT {
            Err("invalid vote phase"@)
        } else if !crypto::ed25519_strictly_verifies(
            m.members[vote.signer_index as int].public_key@,
            vote_statement(
                m,
                vote.phase,
                vote.round,
                vote.conflict_key,
                vote.intent,
                vote.justify,
                vote.signer_index,
            )@,
            vote.signature@,
        ) {
            Err("invalid validator vote signature"@)
        } else {
            Ok(())
        },
    }
}

pub fn verify_vote(vote: &Vote, manifest: &CommitteeManifest) -> (r: Result<(), String>)
    ensures
        text::shown(r) == vote_verdict(*vote, manifest@),
{
    validate_manifest(manifest)?;
    if vote.network_id != manifest.network_id || vote.epoch != manifest.epoch {
        return Err(text("vote network or epoch mismatch"));
    }
    let committee: Digest = committee_hash(manifest)?;
    if !same_array(&vote.committee_hash, &committee) {
        return Err(text("vote committee mismatch"));
    }
    let zero: Digest = no_digest();
    if vote.phase == PHASE_PREVOTE && !same_array(&vote.justify, &zero) {
        return Err(text("prevote has a justify digest"));
    }
    if vote.phase == PHASE_PRECOMMIT && same_array(&vote.justify, &zero) {
        return Err(text("precommit omits prevote QC digest"));
    }
    if vote.signer_index as usize >= manifest.members.len() {
        return Err(text("vote signer is not a member"));
    }
    let member: CommitteeMember = manifest.members[vote.signer_index as usize];
    if member.index != vote.signer_index {
        return Err(text("vote signer index mismatch"));
    }
    let key: VerifyingKey = VerifyingKey { bytes: member.public_key };
    if !key.decodes() {
        return Err(text("invalid validator key"));
    }
    let message: Digest = vote_message(
        manifest,
        vote.phase,
        vote.round,
        vote.conflict_key,
        vote.intent,
        vote.justify,
        vote.signer_index,
    )?;
    if !key.verify_strict(&message, &vote.signature) {
        return Err(text("invalid validator vote signature"));
    }
    Ok(())
}

/// What the votes of a certificate state.
pub struct Statement {
    pub phase: u8,
    pub round: u64,
    pub conflict: Digest,
    pub intent: Digest,
    pub justify: Option<Digest>,
}

/// Whether a vote is on a statement, apart from its justification.
pub open spec fn vote_on(vote: Vote, s: Statement) -> bool {
    vote.phase == s.phase && vote.round == s.round && vote.conflict_key == s.conflict
        && vote.intent == s.intent
}

/// The verdict on the votes of a certificate from number `i` on.
pub open spec fn votes_verdict(
    votes: Seq<Vote>,
    m: ManifestModel,
    s: Statement,
    i: int,
) -> Verdict
    decreases votes.len() - i,
{
    if i < 0 || i >= votes.len() {
        Ok(())
    } else {
        match vote_verdict(votes[i], m) {
            Err(e) => Err(e),
            Ok(_) => if !vote_on(votes[i], s) {
                Err("QC contains a mixed statement"@)
            } else if s.justify is Some && votes[i].justify != s.justify->Some_0 {
                Err("QC justify digest mismatch"@)
            } else if s.justify is None && votes[i].justify != bytes::zero_digest() {
                Err("QC unexpectedly carries justification"@)
            } else if i > 0 && votes[i].signer_index <= votes[i - 1].signer_index {
                Err("QC signers must be unique and sorted"@)
            } else {
                votes_verdict(votes, m, s, i + 1)
            },
        }
    }
}

/// The verdict on a certificate for a statement.
pub open spec fn qc_verdict(votes: Seq<Vote>, m: ManifestModel, s: Statement) -> Verdict {
    if votes.len() < Q || votes.len() > N {
        Err("QC does not contain 5..=7 votes"@)
    } else {
        votes_verdict(votes, m, s, 0)
    }
}

pub fn verify_qc(
    qc: &Qc,
    manifest: &CommitteeManifest,
    phase: u8,
    round: u64,
    conflict: Digest,
    intent: Digest,
    expected_justify: Option<Digest>,
) -> (r: Result<(), String>)
    ensures
        text::shown(r) == qc_verdict(
            qc@,
            manifest@,
            (Statement { phase, round, conflict, intent, justify: expected_justify }),
        ),
{
    if qc.votes.len() < Q || qc.votes.len() > N {
        return Err(text("QC does not contain 5..=7 votes"));
    }
    let zero: Digest = no_digest();
    let ghost s = Statement { phase, round, conflict, intent, justify: expected_justify };
    let mut i: usize = 0;
    while i < qc.votes.len()
        invariant
            i <= qc.votes@.len(),
            zero == bytes::zero_digest(),
            s == (Statement { phase, round, conflict, intent, justify: expected_justify }),
            qc_verdict(qc@, manifest@, s) == votes_verdict(qc@, manifest@, s, i as int),
        decreases qc.votes@.len() - i,
    {
        let vote: Vote = qc.votes[i];
        verify_vote(&vote, manifest)?;
        if vote.phase != phase || vote.round != round || !same_array(&vote.conflict_key, &conflict)
            || !same_array(&vote.intent, &intent) {
            return Err(text("QC contains a mixed statement"));
        }
        match expected_justify {
            Some(justify) => {
                if !same_array(&vote.justify, &justify) {
                    return Err(text("QC justify digest mismatch"));
                }
            },
            None => {
                if !same_array(&vote.justify, &zero) {
                    return Err(text("QC unexpectedly carries justification"));
                }
            },
        }
        if i > 0 && vote.signer_index <= qc.votes[i - 1].signer_index {
            return Err(text("QC signers must be unique and sorted"));
        }
        i = i + 1;
    }
    Ok(())
}

/// The votes gathered by signer from number `i` on, or why they do not form a
/// certificate.
pub open spec fn gathered(
    votes: Seq<Vote>,
    m: ManifestModel,
    s: Statement,
    i: int,
    by_index: Map<u8, Vote>,
) -> Result<Map<u8, Vote>, Seq<char>>
    decreases votes.len() - i,
{
    if i < 0 || i >= votes.len() {
        Ok(by_index)
    } else {
        match vote_verdict(votes[i], m) {
            Err(e) => Err(e),
            Ok(_) => if !vote_on(votes[i], s) {
                Err("mixed vote statements cannot form a QC"@)
            } else if s.justify is Some && votes[i].justify != s.justify->Some_0 {
                Err("vote justify digest mismatch"@)
            } else if by_index.contains_key(votes[i].signer_index) {
                Err("duplicate signer in QC input"@)
            } else {
                gathered(votes, m, s, i + 1, by_index.insert(votes[i].signer_index, votes[i]))
            },
        }
    }
}

/// The votes of a map from signers, in ascending order of the signers.
pub open spec fn votes_listed(by_index: Map<u8, Vote>) -> Seq<Vote> {
    Seq::new(ordmap::listed(by_index).len(), |i: int| ordmap::listed(by_index)[i].1)
}

/// The certificate that votes form for a statement, or why they do not.
pub open spec fn assembled(votes: Seq<Vote>, m: ManifestModel, s: Statement) -> Result<
    Seq<Vote>,
    Seq<char>,
> {
    match gathered(votes, m, s, 0, Map::empty()) {
        Err(e) => Err(e),
        Ok(by_index) => match qc_verdict(votes_listed(by_index), m, s) {
            Err(e) => Err(e),
            Ok(_) => Ok(votes_listed(by_index)),
        },
    }
}

proof fn lemma_votes_in_order(keys: Seq<u8>, by_index: Map<u8, Vote>)
    requires
        vstd::std_specs::btree::increasing_seq(keys),
        keys.to_set() == by_index.dom(),
    ensures
        votes_listed(by_index) == keys.map_values(|k: u8| by_index[k]),
{
    let entries = keys.map_values(|k: u8| (k, by_index[k]));
    assert forall|i: int, j: int| 0 <= i < j < entries.len() implies ordmap::Ordered::lt(
        (#[trigger] entries[i]).0,
        (#[trigger] entries[j]).0,
    ) by {
        assert(vstd::std_specs::cmp::OrdSpec::cmp_spec(&keys[i], &keys[j]) is Less);
    }
    assert(ordmap::map_of(entries) =~= by_index) by {
        assert forall|k: u8| #[trigger] ordmap::has_entry(entries, k) <==> by_index.contains_key(
            k,
        ) by {
            if by_index.contains_key(k) {
                assert(keys.to_set().contains(k));
                let i = keys.index_of(k);
                assert(entries[i].0 == k);
            }
            if ordmap::has_entry(entries, k) {
                let i = ordmap::entry_index(entries, k);
                assert(keys[i] == k);
                assert(keys.to_set().contains(k));
            }
        }
    }
    ordmap::lemma_listed(entries);
    assert(votes_listed(by_index) =~= keys.map_values(|k: u8| by_index[k]));
}

/// The votes under their signers, in the order of the signers.
fn votes_in_order(by_index: &BTreeMap<u8, Vote>) -> (r: Vec<Vote>)
    ensures
        r@ == votes_listed(by_index@),
{
    let mut sorted: Vec<Vote> = Vec::new();
    let values = by_index.values();
    proof {
        let keys = choose|keys: Seq<u8>|
            {
                &&& vstd::std_specs::btree::increasing_seq(keys)
                &&& keys.to_set() == by_index@.dom()
                &&& keys.no_duplicates()
                &&& vstd::std_specs::iter::IteratorSpec::remaining(&values) == keys.map(|i: int, k: u8| &by_index@[k])
            };
        lemma_votes_in_order(keys, by_index@);
        assert(vstd::std_specs::iter::IteratorSpec::remaining(&values).unref() =~= votes_listed(by_index@));
    }
    for vote in walk: values
        invariant
            walk.seq().unref() == votes_listed(by_index@),
            sorted@ == votes_listed(by_index@).take(walk.index()),
    {
        sorted.push(*vote);
    }
    sorted
}

pub fn assemble_qc(
    votes: Vec<Vote>,
    manifest: &CommitteeManifest,
    phase: u8,
    round: u64,
    conflict: Digest,
    intent: Digest,
    expected_justify: Option<Digest>,
) -> (r: Result<Qc, String>)
    ensures
        text::shown_view(r) == assembled(
            votes@,
            manifest@,
            (Statement { phase, round, conflict, intent, justify: expected_justify }),
        ),
{
    let ghost s = Statement { phase, round, conflict, intent, justify: expected_justify };
    let mut by_index: BTreeMap<u8, Vote> = BTreeMap::new();
    let mut i: usize = 0;
    while i < votes.len()
        invariant
            i <= votes@.len(),
            s == (Statement { phase, round, conflict, intent, justify: expected_justify }),
            gathered(votes@, manifest@, s, 0, Map::empty()) == gathered(
                votes@,
                manifest@,
                s,
                i as int,
                by_index@,
            ),
        decreases votes@.len() - i,
    {
        let vote: Vote = votes[i];
        verify_vote(&vote, manifest)?;
        if vote.phase != phase || vote.round != round || !same_array(&vote.conflict_key, &conflict)
            || !same_array(&vote.intent, &intent) {
            return Err(text("mixed vote statements cannot form a QC"));
        }
        match expected_justify {
            Some(justify) => {
                if !same_array(&vote.justify, &justify) {
                    return Err(text("vote justify digest mismatch"));
                }
            },
            None => {},
        }
        if by_index.insert(vote.signer_index, vote).is_some() {
            return Err(text("duplicate signer in QC input"));
        }
        i = i + 1;
    }
    let sorted: Vec<Vote> = votes_in_order(&by_index);
    let qc: Qc = Qc { votes: sorted };
    verify_qc(&qc, manifest, phase, round, conflict, intent, expected_justify)?;
    Ok(qc)
}

/// The statement that the first vote of a certificate makes.
pub open spec fn own_statement(votes: Seq<Vote>) -> Statement {
    let first = votes[0];
    Statement {
        phase: first.phase,
        round: first.round,
        conflict: first.conflict_key,
        intent: first.intent,
        justify: if first.phase == PHASE_PRECOMMIT {
            Some(first.justify)
        } else {
            None
        },
    }
}

/// How a vote enters the digest of its certificate.
pub open spec fn share_bytes() -> spec_fn(Vote) -> Seq<u8> {
    |v: Vote| seq![v.signer_index] + v.signature@
}

/// What is hashed of a certificate.
pub open spec fn qc_bytes(votes: Seq<Vote>) -> Seq<u8> {
    bytes::le32(votes.len() as u32) + bytes::flat(votes, share_bytes()) + seq![votes[0].phase] + bytes::le64(
        votes[0].round,
    ) + votes[0].conflict_key@ + votes[0].intent@ + votes[0].justify@
}

/// The digest of a certificate, without a check of it.
pub open spec fn qc_hash(votes: Seq<Vote>) -> Digest {
    crypto::digest("CALIBRE_INTEGRATION001_QC_V1"@, qc_bytes(votes))
}

/// The digest of a valid certificate, or why it is not valid.
pub open spec fn qc_digest_result(votes: Seq<Vote>, m: ManifestModel) -> Result<
    Digest,
    Seq<char>,
> {
    if votes.len() == 0 {
        Err("empty QC"@)
    } else {
        match qc_verdict(votes, m, own_statement(votes)) {
            Ok(_) => Ok(qc_hash(votes)),
            Err(e) => Err(e),
        }
    }
}

pub fn qc_digest(qc: &Qc, manifest: &CommitteeManifest) -> (r: Result<Digest, String>)
    ensures
        text::shown(r) == qc_digest_result(qc@, manifest@),
{
    if qc.votes.is_empty() {
        return Err(text("empty QC"));
    }
    let first: Vote = qc.votes[0];
    let justify: Option<Digest> = if first.phase == PHASE_PRECOMMIT {
        Some(first.justify)
    } else {
        None
    };
    verify_qc(
        qc,
        manifest,
        first.phase,
        first.round,
        first.conflict_key,
        first.intent,
        justify,
    )?;
    let mut bytes: Vec<u8> = Vec::new();
    put_u32(&mut bytes, qc.votes.len() as u32);
    let ghost head = bytes@;
    let ghost votes = qc.votes@;
    let mut i: usize = 0;
    proof {
        bytes::lemma_flat_ends(votes, share_bytes());
        assert(head =~= bytes::le32(votes.len() as u32));
        assert(head + Seq::<u8>::empty() =~= head);
    }
    while i < qc.votes.len()
        invariant
            i <= votes.len(),
            votes == qc.votes@,
            bytes@ == head + bytes::flat(votes.subrange(0, i as int), share_bytes()),
        decreases votes.len() - i,
    {
        let vote: Vote = qc.votes[i];
        put_u8(&mut bytes, vote.signer_index);
        put_bytes(&mut bytes, &vote.signature);
        proof {
            bytes::lemma_flat_step(votes, share_bytes(), i as int);
            assert(bytes@ =~= head + (bytes::flat(votes.subrange(0, i as int), share_bytes()) + (
            seq![vote.signer_index] + vote.signature@)));
        }
        i = i + 1;
    }
    put_u8(&mut bytes, first.phase);
    put_u64(&mut bytes, first.round);
    put_digest(&mut bytes, &first.conflict_key);
    put_digest(&mut bytes, &first.intent);
    put_digest(&mut bytes, &first.justify);
    proof {
        bytes::lemma_flat_ends(votes, share_bytes());
        assert(bytes@ =~= qc_bytes(votes));
    }
    Ok(hash_domain("CALIBRE_INTEGRATION001_QC_V1", &bytes))
}

/// A vote justifies itself as a statement asks: with the digest in the statement, or
/// with none.
pub open spec fn justified(vote: Vote, s: Statement) -> bool {
    vote.justify == (match s.justify {
        Some(d) => d,
        None => bytes::zero_digest(),
    })
}

proof fn lemma_votes_verdict(votes: Seq<Vote>, m: ManifestModel, s: Statement, i: int)
    requires
        0 <= i <= votes.len(),
    ensures
        votes_verdict(votes, m, s, i) is Ok <==> {
            &&& forall|k: int|
                i <= k < votes.len() ==> vote_verdict(#[trigger] votes[k], m) is Ok && vote_on(
                    votes[k],
                    s,
                ) && justified(votes[k], s)
            &&& forall|k: int|
                i <= k < votes.len() && k > 0 ==> votes[k - 1].signer_index < (
                #[trigger] votes[k]).signer_index
        },
    decreases votes.len() - i,
{
    if i < votes.len() {
        lemma_votes_verdict(votes, m, s, i + 1);
    }
}

/// A certificate: five to seven votes that are accepted, all on its statement and
/// justified as it asks, in ascending order of their signers.
pub open spec fn qc_valid(votes: Seq<Vote>, m: ManifestModel, s: Statement) -> bool {
    &&& Q <= votes.len() <= N
    &&& forall|k: int|
        0 <= k < votes.len() ==> vote_verdict(#[trigger] votes[k], m) is Ok && vote_on(votes[k], s)
            && justified(votes[k], s)
    &&& forall|i: int, j: int|
        0 <= i < j < votes.len() ==> (#[trigger] votes[i]).signer_index < (
        #[trigger] votes[j]).signer_index
}

/// A certificate is accepted exactly if it is valid.
pub proof fn law_qc_verdict(votes: Seq<Vote>, m: ManifestModel, s: Statement)
    ensures
        qc_verdict(votes, m, s) is Ok <==> qc_valid(votes, m, s),
{
    lemma_votes_verdict(votes, m, s, 0);
    if qc_verdict(votes, m, s) is Ok {
        assert forall|i: int, j: int| 0 <= i < j < votes.len() implies (
        #[trigger] votes[i]).signer_index < (#[trigger] votes[j]).signer_index by {
            lemma_ascending_signers(votes, i, j);
        }
    }
    if qc_valid(votes, m, s) {
        assert forall|k: int| 0 < k < votes.len() implies votes[k - 1].signer_index < (
        #[trigger] votes[k]).signer_index by {
            assert(votes[k - 1].signer_index < votes[k].signer_index);
        }
    }
}

proof fn lemma_ascending_signers(votes: Seq<Vote>, i: int, j: int)
    requires
        0 <= i < j < votes.len(),
        forall|k: int|
            0 < k < votes.len() ==> votes[k - 1].signer_index < (#[trigger] votes[k]).signer_index,
    ensures
        votes[i].signer_index < votes[j].signer_index,
    decreases j - i,
{
    if i + 1 < j {
        lemma_ascending_signers(votes, i, j - 1);
    }
    assert(votes[j - 1].signer_index < votes[j].signer_index);
}

/// The members whose votes a certificate holds.
pub open spec fn signers(votes: Seq<Vote>) -> Set<int> {
    Set::new(|k: int| exists|i: int| 0 <= i < votes.len() && (#[trigger] votes[i]).signer_index == k)
}

proof fn lemma_signers_size(votes: Seq<Vote>)
    requires
        forall|i: int, j: int|
            0 <= i < j < votes.len() ==> (#[trigger] votes[i]).signer_index < (
            #[trigger] votes[j]).signer_index,
    ensures
        signers(votes).finite(),
        signers(votes).len() == votes.len(),
    decreases votes.len(),
{
    if votes.len() == 0 {
        assert(signers(votes) =~= Set::<int>::empty());
    } else {
        let rest = votes.drop_last();
        let k = votes.last().signer_index as int;
        lemma_signers_size(rest);
        assert(signers(votes) =~= signers(rest).insert(k)) by {
            assert forall|x: int| signers(votes).contains(x) <==> signers(rest).insert(
                k,
            ).contains(x) by {
                if signers(votes).contains(x) && x != k {
                    let i = choose|i: int|
                        0 <= i < votes.len() && (#[trigger] votes[i]).signer_index == x;
                    assert(rest[i] == votes[i]);
                }
                if signers(rest).contains(x) {
                    let i = choose|i: int|
                        0 <= i < rest.len() && (#[trigger] rest[i]).signer_index == x;
                    assert(votes[i] == rest[i]);
                }
                assert(votes[votes.len() - 1].signer_index == k);
            }
        }
        assert(!signers(rest).contains(k)) by {
            if signers(rest).contains(k) {
                let i = choose|i: int|
                    0 <= i < rest.len() && (#[trigger] rest[i]).signer_index == k;
                assert(votes[i].signer_index < votes[votes.len() - 1].signer_index);
            }
        }
    }
}

/// A certificate holds the accepted votes of at least five distinct members,
/// all on its statement.
pub proof fn law_qc_has_a_quorum(votes: Seq<Vote>, m: ManifestModel, s: Statement)
    requires
        qc_verdict(votes, m, s) is Ok,
    ensures
        signers(votes).finite(),
        Q <= signers(votes).len() <= N,
        signers(votes).subset_of(vstd::set_lib::set_int_range(0, N as int)),
        forall|k: int|
            0 <= k < votes.len() ==> vote_verdict(#[trigger] votes[k], m) is Ok && vote_on(
                votes[k],
                s,
            ),
{
    law_qc_verdict(votes, m, s);
    lemma_signers_size(votes);
    law_manifest_verdict(m);
    assert forall|k: int| #[trigger] signers(votes).contains(
        k,
    ) implies vstd::set_lib::set_int_range(0, N as int).contains(k) by {
        let i = choose|i: int| 0 <= i < votes.len() && (#[trigger] votes[i]).signer_index == k;
        assert(vote_verdict(votes[i], m) is Ok);
    }
}

/// Any two certificates of one committee share at least three members, one
/// more than the two that may be Byzantine.
pub proof fn law_quorums_intersect(
    a: Seq<Vote>,
    b: Seq<Vote>,
    m: ManifestModel,
    s: Statement,
    t: Statement,
)
    requires
        qc_verdict(a, m, s) is Ok,
        qc_verdict(b, m, t) is Ok,
    ensures
        signers(a).intersect(signers(b)).len() >= 2 * Q - N,
        2 * Q - N > 2,
{
    law_qc_has_a_quorum(a, m, s);
    law_qc_has_a_quorum(b, m, t);
    let all = vstd::set_lib::set_int_range(0, N as int);
    vstd::set_lib::lemma_int_range(0, N as int);
    vstd::set_lib::lemma_set_intersect_union_lens(signers(a), signers(b));
    let u = signers(a).union(signers(b));
    assert(u.subset_of(all));
    vstd::set_lib::lemma_len_subset(u, all);
}

// ---------------------------------------------------------------------------
// Proposals.
// ---------------------------------------------------------------------------

/// What the proposer signs.
pub open spec fn proposal_statement(
    m: ManifestModel,
    round: u64,
    proposer_index: u8,
    intent: Digest,
    justify_digest: Digest,
) -> Digest {
    crypto::digest(
        "CALIBRE_INTEGRATION001_PROPOSAL_V1"@,
        bytes::le16(PROTOCOL_VERSION) + bytes::le32(m.network_id) + bytes::le64(m.epoch) + committee_digest(m)@ + bytes::le64(
            round,
        ) + seq![proposer_index] + intent@ + justify_digest@,
    )
}

fn proposal_message(
    manifest: &CommitteeManifest,
    round: u64,
    proposer_index: u8,
    intent: Digest,
    justify_digest: Digest,
) -> (r: Result<Digest, String>)
    ensures
        match manifest_verdict(manifest@) {
            Ok(_) => r == Ok::<Digest, String>(
                proposal_statement(manifest@, round, proposer_index, intent, justify_digest),
            ),
            Err(e) => r is Err && r->Err_0@ == e,
        },
{
    let mut bytes: Vec<u8> = Vec::new();
    put_u16(&mut bytes, PROTOCOL_VERSION);
    put_u32(&mut bytes, manifest.network_id);
    put_u64(&mut bytes, manifest.epoch);
    let committee: Digest = committee_hash(manifest)?;
    put_digest(&mut bytes, &committee);
    put_u64(&mut bytes, round);
    put_u8(&mut bytes, proposer_index);
    put_digest(&mut bytes, &intent);
    put_digest(&mut bytes, &justify_digest);
    assert(bytes@ =~= bytes::le16(PROTOCOL_VERSION) + bytes::le32(manifest.network_id) + bytes::le64(manifest.epoch)
        + committee_digest(manifest@)@ + bytes::le64(round) + seq![proposer_index] + intent@
        + justify_digest@);
    Ok(hash_domain("CALIBRE_INTEGRATION001_PROPOSAL_V1", &bytes))
}

/// The digest of what justifies a proposal: zero without a certificate, else
/// that of a prevote certificate of a lower round for the same intent.
pub open spec fn justify_result(
    justify: Option<Seq<Vote>>,
    m: ManifestModel,
    round: u64,
    conflict: Digest,
    intent: Digest,
    late: Seq<char>,
) -> Result<Digest, Seq<char>> {
    match justify {
        None => Ok(bytes::zero_digest()),
        Some(votes) => if votes.len() == 0 {
            Err("empty proposal justify QC"@)
        } else {
            match qc_verdict(
                votes,
                m,
                Statement {
                    phase: PHASE_PREVOTE,
                    round: votes[0].round,
                    conflict,
                    intent,
                    justify: None,
                },
            ) {
                Err(e) => Err(e),
                Ok(_) => if votes[0].round >= round {
                    Err(late)
                } else {
                    qc_digest_result(votes, m)
                },
            }
        },
    }
}

fn justify_digest_of(
    justify: &Option<Qc>,
    manifest: &CommitteeManifest,
    round: u64,
    conflict: Digest,
    intent: Digest,
    late: &str,
) -> (r: Result<Digest, String>)
    ensures
        text::shown(r) == justify_result(
            optional_votes(*justify),
            manifest@,
            round,
            conflict,
            intent,
            late@,
        ),
{
    match justify {
        Some(qc) => {
            if qc.votes.len() == 0 {
                return Err(text("empty proposal justify QC"));
            }
            let first_round: u64 = qc.votes[0].round;
            verify_qc(qc, manifest, PHASE_PREVOTE, first_round, conflict, intent, None)?;
            if first_round >= round {
                return Err(text(late));
            }
            qc_digest(qc, manifest)
        },
        None => Ok(no_digest()),
    }
}

/// The proposal that the leader of a round makes, or why there is none.
pub open spec fn proposed(
    m: ManifestModel,
    round: u64,
    tx: TxModel,
    auth: UserAuth,
    justify: Option<Seq<Vote>>,
) -> Result<ProposalModel, Seq<char>> {
    match auth_verdict(tx, auth, m) {
        Err(e) => Err(e),
        Ok(_) => {
            let conflict = conflict_digest(tx.input.reference);
            let slot = leader_slot(conflict, round);
            match justify_result(
                justify,
                m,
                round,
                conflict,
                intent_digest(tx),
                "justify QC must be from a lower round"@,
            ) {
                Err(e) => Err(e),
                Ok(justify_digest) => Ok(
                    ProposalModel {
                        round,
                        proposer_index: slot as u8,
                        tx,
                        auth,
                        intent: intent_digest(tx),
                        justify,
                        signature: crate::crypto::signature(
                            validator_seed(m.epoch, slot),
                            proposal_statement(
                                m,
                                round,
                                slot as u8,
                                intent_digest(tx),
                                justify_digest,
                            )@,
                        ),
                    },
                ),
            }
        },
    }
}

/// Proposes an authorized transaction as the leader of its conflict in a round. What a
/// leader of the laboratory committee proposes is accepted.
pub fn make_proposal(
    manifest: &CommitteeManifest,
    round: u64,
    tx: Tx,
    auth: UserAuth,
    justify: Option<Qc>,
) -> (r: Result<Proposal, String>)
    ensures
        text::shown_view(r) == proposed(manifest@, round, tx@, auth, optional_votes(justify)),
        r matches Ok(p) ==> crypto::has_nonce(p.signature) && manifest@ == lab_manifest(
            manifest@.epoch,
        ) ==> proposal_verdict(p@, manifest@) is Ok,
{
    verify_user_auth(&tx, &auth, manifest)?;
    proof {
        law_valid_tx_conserves_value(tx@, manifest@);
    }
    let intent: Digest = intent_hash(&tx)?;
    let conflict: Digest = conflict_key(tx.input.reference);
    let proposer_index: u8 = leader(conflict, round) as u8;
    let justify_digest: Digest = justify_digest_of(
        &justify,
        manifest,
        round,
        conflict,
        intent,
        "justify QC must be from a lower round",
    )?;
    let key: SigningKey = lab_validator_key(manifest.epoch, proposer_index as usize);
    let message: Digest = proposal_message(
        manifest,
        round,
        proposer_index,
        intent,
        justify_digest,
    )?;
    let signature: SignatureBytes = key.sign(&message);
    proof {
        if crypto::has_nonce(signature) && manifest@ == lab_manifest(manifest@.epoch) {
            finality::law_leaders_proposal_is_accepted(
                manifest@,
                round,
                tx@,
                auth,
                optional_votes(justify),
            );
        }
    }
    Ok(Proposal { round, proposer_index, tx, auth, intent, justify, signature })
}

/// The verdict on a proposal.
pub open spec fn proposal_verdict(p: ProposalModel, m: ManifestModel) -> Verdict {
    let conflict = conflict_digest(p.tx.input.reference);
    match auth_verdict(p.tx, p.auth, m) {
        Err(e) => Err(e),
        Ok(_) => if p.intent != intent_digest(p.tx) {
            Err("proposal intent mismatch"@)
        } else if p.proposer_index != leader_slot(conflict, p.round) {
            Err("wrong conflict-local proposer"@)
        } else {
            match justify_result(
                p.justify,
                m,
                p.round,
                conflict,
                p.intent,
                "proposal justify is not from a lower round"@,
            ) {
                Err(e) => Err(e),
                Ok(justify_digest) => if p.proposer_index >= m.members.len() {
                    Err("proposal signer is not a member"@)
                } else if !crypto::ed25519_key_decodes(m.members[p.proposer_index as int].public_key@) {
                    Err("invalid proposer key"@)
                } else if !crypto::ed25519_strictly_verifies(
                    m.members[p.proposer_index as int].public_key@,
                    proposal_statement(m, p.round, p.proposer_index, p.intent, justify_digest)@,
                    p.signature@,
                ) {
                    Err("invalid proposal signature"@)
                } else {
                    Ok(())
                },
            }
        },
    }
}

pub fn verify_proposal(proposal: &Proposal, manifest: &CommitteeManifest) -> (r: Result<
    (),
    String,
>)
    ensures
        text::shown(r) == proposal_verdict(proposal@, manifest@),
{
    verify_user_auth(&proposal.tx, &proposal.auth, manifest)?;
    proof {
        law_valid_tx_conserves_value(proposal.tx@, manifest@);
    }
    let intent: Digest = intent_hash(&proposal.tx)?;
    if !same_array(&proposal.intent, &intent) {
        return Err(text("proposal intent mismatch"));
    }
    let conflict: Digest = conflict_key(proposal.tx.input.reference);
    if proposal.proposer_index as usize != leader(conflict, proposal.round) {
        return Err(text("wrong conflict-local proposer"));
    }
    let justify_digest: Digest = justify_digest_of(
        &proposal.justify,
        manifest,
        proposal.round,
        conflict,
        proposal.intent,
        "proposal justify is not from a lower round",
    )?;
    if proposal.proposer_index as usize >= manifest.members.len() {
        return Err(text("proposal signer is not a member"));
    }
    let key: VerifyingKey = VerifyingKey {
        bytes: manifest.members[proposal.proposer_index as usize].public_key,
    };
    if !key.decodes() {
        return Err(text("invalid proposer key"));
    }
    let message: Digest = proposal_message(
        manifest,
        proposal.round,
        proposal.proposer_index,
        proposal.intent,
        justify_digest,
    )?;
    if !key.verify_strict(&message, &proposal.signature) {
        return Err(text("invalid proposal signature"));
    }
    Ok(())
}

// ---------------------------------------------------------------------------
// Outputs.
// ---------------------------------------------------------------------------

/// The reference of the output number `index`, one generation on.
pub open spec fn output_reference(tx: TxModel, index: int) -> CellRef {
    CellRef {
        asset_id: tx.input.reference.asset_id,
        id: crypto::digest(
            "CALIBRE_INTEGRATION001_OUTPUT_REF_V1"@,
            intent_digest(tx)@ + bytes::le32(index as u32),
        ),
        generation: (tx.input.reference.generation + 1) as u64,
    }
}

/// The reference of the output number `index`, or why it has none.
pub open spec fn output_ref_result(tx: TxModel, index: int) -> Result<CellRef, Seq<char>> {
    if tx.input.reference.generation == u64::MAX {
        Err("cell generation overflow"@)
    } else {
        match intent_result(tx) {
            Err(e) => Err(e),
            Ok(_) => if index > u32::MAX {
                Err("output index overflow"@)
            } else {
                Ok(output_reference(tx, index))
            },
        }
    }
}

pub fn output_ref(tx: &Tx, output_index: usize) -> (r: Result<CellRef, String>)
    ensures
        text::shown(r) == output_ref_result(tx@, output_index as int),
{
    if tx.input.reference.generation == u64::MAX {
        return Err(text("cell generation overflow"));
    }
    let generation: u64 = tx.input.reference.generation + 1;
    let mut bytes: Vec<u8> = Vec::new();
    let intent: Digest = intent_hash(tx)?;
    put_digest(&mut bytes, &intent);
    if output_index as u64 > u32::MAX as u64 {
        return Err(text("output index overflow"));
    }
    put_u32(&mut bytes, output_index as u32);
    assert(bytes@ =~= intent@ + bytes::le32(output_index as u32));
    Ok(
        CellRef {
            asset_id: tx.input.reference.asset_id,
            id: hash_domain("CALIBRE_INTEGRATION001_OUTPUT_REF_V1", &bytes),
            generation,
        },
    )
}

/// The key to which fees are paid.
pub open spec fn fee_owner() -> PublicKeyBytes {
    crate::crypto::public_key(user_seed(9_999))
}

pub fn fee_collector() -> (r: PublicKeyBytes)
    ensures
        r == fee_owner(),
{
    lab_user_key(9_999).verifying_key().to_bytes()
}

/// What a transaction pays: its outputs, and the fee last.
pub open spec fn effects(tx: TxModel) -> Seq<Output> {
    tx.outputs.push(
        Output { asset_id: tx.input.reference.asset_id, amount: tx.fee, owner: fee_owner() },
    )
}

/// The cell that the effect number `index` creates.
pub open spec fn created_cell(tx: TxModel, index: int) -> Cell {
    let reference = output_reference(tx, index);
    let output = effects(tx)[index];
    Cell {
        reference,
        amount: output.amount,
        owner: output.owner,
        predecessor: tx.input.state_digest,
        state_digest: cell_digest(reference, output.amount, output.owner, tx.input.state_digest),
    }
}

/// The cells that a transaction creates.
pub open spec fn created_cells(tx: TxModel) -> Seq<Cell> {
    Seq::new(tx.outputs.len() + 1, |i: int| created_cell(tx, i))
}

pub(crate) fn materialize_outputs(tx: &Tx) -> (r: Result<Vec<Cell>, String>)
    requires
        1 <= tx.outputs@.len() <= 8,
    ensures
        tx.input.reference.generation == u64::MAX ==> r is Err && r->Err_0@
            == "cell generation overflow"@,
        tx.input.reference.generation < u64::MAX ==> r is Ok && r->Ok_0@ == created_cells(tx@),
{
    let mut effects: Vec<Output> = copy_vec(&tx.outputs);
    effects.push(
        Output {
            asset_id: tx.input.reference.asset_id,
            amount: tx.fee,
            owner: fee_collector(),
        },
    );
    assert(effects@ =~= self::effects(tx@));
    let mut cells: Vec<Cell> = Vec::with_capacity(effects.len());
    let mut index: usize = 0;
    while index < effects.len()
        invariant
            index <= effects@.len(),
            1 <= tx.outputs@.len() <= 8,
            effects@ == self::effects(tx@),
            index > 0 ==> tx.input.reference.generation < u64::MAX,
            cells@ == created_cells(tx@).subrange(0, index as int),
        decreases effects@.len() - index,
    {
        let output: Output = effects[index];
        let reference: CellRef = output_ref(tx, index)?;
        let predecessor: Digest = tx.input.state_digest;
        cells.push(
            Cell {
                reference,
                amount: output.amount,
                owner: output.owner,
                predecessor,
                state_digest: compute_cell_digest(
                    reference,
                    output.amount,
                    output.owner,
                    predecessor,
                ),
            },
        );
        proof {
            assert(cells@[index as int] == created_cell(tx@, index as int));
            assert(created_cells(tx@).subrange(0, index + 1) =~= created_cells(tx@).subrange(
                0,
                index as int,
            ).push(created_cell(tx@, index as int)));
        }
        index = index + 1;
    }
    assert(created_cells(tx@).subrange(0, index as int) =~= created_cells(tx@));
    Ok(cells)
}

/// The transfer that is made of its parts, or why it is refused.
pub open spec fn transfer(
    m: ManifestModel,
    input: Cell,
    outputs: Seq<Output>,
    fee: u64,
    salt: Digest,
) -> Result<TxModel, Seq<char>> {
    let tx = TxModel {
        version: PROTOCOL_VERSION,
        network_id: m.network_id,
        epoch: m.epoch,
        committee_hash: committee_digest(m),
        input,
        outputs,
        fee,
        salt,
    };
    match tx_verdict(tx, m) {
        Ok(_) => Ok(tx),
        Err(e) => Err(e),
    }
}

pub fn make_transfer(
    manifest: &CommitteeManifest,
    input: Cell,
    outputs: Vec<Output>,
    fee: u64,
    salt: Digest,
) -> (r: Result<Tx, String>)
    ensures
        text::shown_view(r) == transfer(manifest@, input, outputs@, fee, salt),
{
    let committee: Digest = committee_hash(manifest)?;
    let tx: Tx = Tx {
        version: PROTOCOL_VERSION,
        network_id: manifest.network_id,
        epoch: manifest.epoch,
        committee_hash: committee,
        input,
        outputs,
        fee,
        salt,
    };
    validate_tx(&tx, manifest)?;
    Ok(tx)
}

} // verus!
