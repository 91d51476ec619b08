//! Durable, append-only validator state.
//!
//! The node verifies signatures and certificates before it calls this module.
//! The store's job is narrower: make a decision durable before a reply can
//! escape, reject equivocation after a restart, and make the retirement of a
//! committee terminal.
//!
//! A decision is made in two steps. A `plan_..` method decides and names the
//! record that has to reach the disk; [`WalStore::settle`] takes up what came of
//! writing it. The methods `activate`, `persist_vote`, `apply_verified` and
//! `retire` are both steps with a write that succeeds.
use crate::bytes;
use crate::bytes::{
    array_from, copy_slice, copy_vec, get_u16, get_u32, get_u64, is_zero, put_bytes, put_digest,
    put_u16, put_u32, put_u64, put_u8, same_array, same_bytes,
};
use crate::crypto;
use crate::crypto::hash_domain;
use crate::model::{Digest, Verdict, PHASE_PRECOMMIT, PHASE_PREVOTE};
use crate::ordmap::{Model, OrdKey, OrdMap, Ordered};
use crate::store_laws;
use crate::text;
use crate::text::{concat2, concat3, text};
use crate::wire::Parsed;
use vstd::prelude::*;

verus! {

pub const WAL_VERSION: u16 = 1;

pub const HEADER_LEN: usize = 24;

pub const CHECKSUM_LEN: usize = 32;

pub const MAX_SNAPSHOT_BYTES: usize = 8388608;

pub const MAX_PAYLOAD_BYTES: usize = 8389120;

pub const KIND_INITIALIZE: u8 = 1;

pub const KIND_ACTIVATE: u8 = 2;

pub const KIND_VOTE: u8 = 3;

pub const KIND_APPLY: u8 = 4;

pub const KIND_RETIRE: u8 = 5;

#[derive(Clone, Copy, Debug, PartialEq, Eq, Structural)]
pub enum Lifecycle {
    Initialized,
    Active,
    Retired,
}

#[derive(Clone, Copy, Debug, PartialEq, Eq, Structural)]
pub enum PersistOutcome {
    Persisted,
    AlreadyPresent,
}

// ---------------------------------------------------------------------------
// Data.
// ---------------------------------------------------------------------------

#[derive(Debug, PartialEq, Eq)]
pub struct Snapshot {
    pub committee_hash: Digest,
    pub epoch: u64,
    pub state_root: Digest,
    pub bytes: Vec<u8>,
}

/// The mathematical content of a [`Snapshot`].
#[verifier::ext_equal]
pub struct SnapshotModel {
    pub committee_hash: Digest,
    pub epoch: u64,
    pub state_root: Digest,
    pub bytes: Seq<u8>,
}

impl View for Snapshot {
    type V = SnapshotModel;

    open spec fn view(&self) -> SnapshotModel {
        SnapshotModel {
            committee_hash: self.committee_hash,
            epoch: self.epoch,
            state_root: self.state_root,
            bytes: self.bytes@,
        }
    }
}

impl Clone for Snapshot {
    fn clone(&self) -> (r: Self)
        ensures
            r@ == self@,
    {
        Snapshot {
            committee_hash: self.committee_hash,
            epoch: self.epoch,
            state_root: self.state_root,
            bytes: copy_vec(&self.bytes),
        }
    }
}

impl Snapshot {
    /// Whether two snapshots agree in every field.
    pub fn same(&self, other: &Snapshot) -> (r: bool)
        ensures
            r == (self@ == other@),
    {
        let r: bool = same_array(&self.committee_hash, &other.committee_hash) && self.epoch
            == other.epoch && same_array(&self.state_root, &other.state_root) && same_bytes(
            &self.bytes,
            &other.bytes,
        );
        proof {
            if r {
                assert(self@ =~= other@);
            }
        }
        r
    }
}

#[derive(Debug, PartialEq, Eq)]
pub struct ActivationRecord {
    pub handoff_hash: Digest,
    pub snapshot: Snapshot,
}

/// The mathematical content of an [`ActivationRecord`].
#[verifier::ext_equal]
pub struct ActivationModel {
    pub handoff_hash: Digest,
    pub snapshot: SnapshotModel,
}

impl View for ActivationRecord {
    type V = ActivationModel;

    open spec fn view(&self) -> ActivationModel {
        ActivationModel { handoff_hash: self.handoff_hash, snapshot: self.snapshot@ }
    }
}

impl Clone for ActivationRecord {
    fn clone(&self) -> (r: Self)
        ensures
            r@ == self@,
    {
        ActivationRecord { handoff_hash: self.handoff_hash, snapshot: self.snapshot.clone() }
    }
}

#[derive(Debug, PartialEq, Eq)]
pub struct RetirementRecord {
    pub handoff_hash: Digest,
    pub next_committee: Digest,
    pub next_epoch: u64,
    pub snapshot: Snapshot,
}

/// The mathematical content of a [`RetirementRecord`].
#[verifier::ext_equal]
pub struct RetirementModel {
    pub handoff_hash: Digest,
    pub next_committee: Digest,
    pub next_epoch: u64,
    pub snapshot: SnapshotModel,
}

impl View for RetirementRecord {
    type V = RetirementModel;

    open spec fn view(&self) -> RetirementModel {
        RetirementModel {
            handoff_hash: self.handoff_hash,
            next_committee: self.next_committee,
            next_epoch: self.next_epoch,
            snapshot: self.snapshot@,
        }
    }
}

impl Clone for RetirementRecord {
    fn clone(&self) -> (r: Self)
        ensures
            r@ == self@,
    {
        RetirementRecord {
            handoff_hash: self.handoff_hash,
            next_committee: self.next_committee,
            next_epoch: self.next_epoch,
            snapshot: self.snapshot.clone(),
        }
    }
}

#[derive(Clone, Copy, Debug, PartialEq, Eq)]
pub struct PrecommitLock {
    pub round: u64,
    pub digest: Digest,
}

impl Model for PrecommitLock {
    type M = PrecommitLock;

    open spec fn model(&self) -> PrecommitLock {
        *self
    }

    fn duplicate(&self) -> (r: Self) {
        *self
    }
}

#[derive(Debug, PartialEq, Eq)]
pub struct AppliedRecord {
    pub tx_digest: Digest,
    pub certificate_digest: Digest,
    pub prior_state_root: Digest,
    pub next_snapshot: Snapshot,
}

/// The mathematical content of an [`AppliedRecord`].
#[verifier::ext_equal]
pub struct AppliedModel {
    pub tx_digest: Digest,
    pub certificate_digest: Digest,
    pub prior_state_root: Digest,
    pub next_snapshot: SnapshotModel,
}

impl View for AppliedRecord {
    type V = AppliedModel;

    open spec fn view(&self) -> AppliedModel {
        AppliedModel {
            tx_digest: self.tx_digest,
            certificate_digest: self.certificate_digest,
            prior_state_root: self.prior_state_root,
            next_snapshot: self.next_snapshot@,
        }
    }
}

impl Clone for AppliedRecord {
    fn clone(&self) -> (r: Self)
        ensures
            r@ == self@,
    {
        AppliedRecord {
            tx_digest: self.tx_digest,
            certificate_digest: self.certificate_digest,
            prior_state_root: self.prior_state_root,
            next_snapshot: self.next_snapshot.clone(),
        }
    }
}

impl Model for AppliedRecord {
    type M = AppliedModel;

    open spec fn model(&self) -> AppliedModel {
        self@
    }

    fn duplicate(&self) -> (r: Self) {
        self.clone()
    }
}

/// What a vote is cast on: one conflict, one round, one phase.
#[derive(Clone, Copy, Debug, PartialEq, Eq, Hash)]
pub struct VoteKey {
    pub conflict_key: Digest,
    pub round: u64,
    pub phase: u8,
}

impl Ordered for VoteKey {
    open spec fn lt(self, other: Self) -> bool {
        ||| self.conflict_key.lt(other.conflict_key)
        ||| self.conflict_key == other.conflict_key && self.round < other.round
        ||| self.conflict_key == other.conflict_key && self.round == other.round && self.phase
            < other.phase
    }

    proof fn lt_irreflexive(a: Self) {
        <Digest as Ordered>::lt_irreflexive(a.conflict_key);
    }

    proof fn lt_transitive(a: Self, b: Self, c: Self) {
        if a.conflict_key.lt(b.conflict_key) && b.conflict_key.lt(c.conflict_key) {
            <Digest as Ordered>::lt_transitive(a.conflict_key, b.conflict_key, c.conflict_key);
        }
    }

    proof fn lt_total(a: Self, b: Self) {
        <Digest as Ordered>::lt_total(a.conflict_key, b.conflict_key);
    }
}

impl OrdKey for VoteKey {
    type Key = VoteKey;

    open spec fn key(&self) -> VoteKey {
        *self
    }

    fn twin(&self) -> (r: Self) {
        *self
    }

    fn before(&self, other: &Self) -> (r: bool) {
        proof {
            <Digest as Ordered>::lt_irreflexive(self.conflict_key);
        }
        let r: bool = if !same_array(&self.conflict_key, &other.conflict_key) {
            self.conflict_key.before(&other.conflict_key)
        } else if self.round != other.round {
            self.round < other.round
        } else {
            self.phase < other.phase
        };
        assert(r == Ordered::lt(*self, *other));
        r
    }

    fn same(&self, other: &Self) -> (r: bool) {
        same_array(&self.conflict_key, &other.conflict_key) && self.round == other.round
            && self.phase == other.phase
    }
}

/// What a log has brought about.
#[derive(Debug)]
pub struct ReplayState {
    pub initial_snapshot: Snapshot,
    pub lifecycle: Lifecycle,
    pub current_snapshot: Snapshot,
    pub activation: Option<ActivationRecord>,
    pub retirement: Option<RetirementRecord>,
    pub votes: OrdMap<VoteKey, Digest>,
    pub locks: OrdMap<Digest, PrecommitLock>,
    pub applied: OrdMap<Digest, AppliedRecord>,
    pub next_sequence: u64,
}

/// The mathematical content of a [`ReplayState`].
#[verifier::ext_equal]
pub struct ReplayModel {
    pub initial_snapshot: SnapshotModel,
    pub lifecycle: Lifecycle,
    pub current_snapshot: SnapshotModel,
    pub activation: Option<ActivationModel>,
    pub retirement: Option<RetirementModel>,
    pub votes: Map<VoteKey, Digest>,
    pub locks: Map<Digest, PrecommitLock>,
    pub applied: Map<Digest, AppliedModel>,
    pub next_sequence: nat,
}

pub open spec fn optional_activation(a: Option<ActivationRecord>) -> Option<ActivationModel> {
    match a {
        Some(a) => Some(a@),
        None => None,
    }
}

pub open spec fn optional_retirement(a: Option<RetirementRecord>) -> Option<RetirementModel> {
    match a {
        Some(a) => Some(a@),
        None => None,
    }
}

impl View for ReplayState {
    type V = ReplayModel;

    open spec fn view(&self) -> ReplayModel {
        ReplayModel {
            initial_snapshot: self.initial_snapshot@,
            lifecycle: self.lifecycle,
            current_snapshot: self.current_snapshot@,
            activation: optional_activation(self.activation),
            retirement: optional_retirement(self.retirement),
            votes: self.votes@,
            locks: self.locks@,
            applied: self.applied@,
            next_sequence: self.next_sequence as nat,
        }
    }
}

// ---------------------------------------------------------------------------
// Records.
// ---------------------------------------------------------------------------

/// The bytes with which every record starts: the ASCII letters `CALINT1W`.
pub open spec fn wal_magic() -> Seq<u8> {
    seq![67u8, 65u8, 76u8, 73u8, 78u8, 84u8, 49u8, 87u8]
}

/// The header of a record.
pub open spec fn header_bytes(sequence: nat, kind: u8, payload_len: nat) -> Seq<u8> {
    wal_magic() + bytes::le16(WAL_VERSION) + seq![kind, 0u8] + bytes::le32(payload_len as u32) + bytes::le64(
        sequence as u64,
    )
}

/// The checksum of a record.
pub open spec fn checksum_of(header: Seq<u8>, payload: Seq<u8>) -> Digest {
    crypto::digest("CALIBRE_INTEGRATION001_APPEND_ONLY_WAL_CHECKSUM_V1"@, header + payload)
}

/// A whole record.
pub open spec fn record_bytes(sequence: nat, kind: u8, payload: Seq<u8>) -> Seq<u8> {
    let header = header_bytes(sequence, kind, payload.len());
    header + payload + checksum_of(header, payload)@
}

fn put_magic(out: &mut Vec<u8>)
    ensures
        final(out)@ == old(out)@ + wal_magic(),
{
    put_bytes(out, &[67, 65, 76, 73, 78, 84, 49, 87]);
    assert(out@ =~= old(out)@ + wal_magic());
}

fn wal_checksum(header: &[u8], payload: &[u8]) -> (d: Digest)
    ensures
        d == checksum_of(header@, payload@),
{
    let mut bytes: Vec<u8> = Vec::with_capacity(header.len());
    put_bytes(&mut bytes, header);
    put_bytes(&mut bytes, payload);
    assert(bytes@ =~= header@ + payload@);
    hash_domain("CALIBRE_INTEGRATION001_APPEND_ONLY_WAL_CHECKSUM_V1", &bytes)
}

/// The record number `sequence`.
pub fn encode_record(sequence: u64, kind: u8, payload: &[u8]) -> (r: Result<Vec<u8>, String>)
    ensures
        payload@.len() <= MAX_PAYLOAD_BYTES ==> r is Ok && r->Ok_0@ == record_bytes(
            sequence as nat,
            kind,
            payload@,
        ),
        payload@.len() > MAX_PAYLOAD_BYTES ==> r is Err && r->Err_0@
            == "WAL payload exceeds safety limit"@,
{
    if payload.len() > MAX_PAYLOAD_BYTES {
        return Err(text("WAL payload exceeds safety limit"));
    }
    let mut record: Vec<u8> = Vec::new();
    put_magic(&mut record);
    put_u16(&mut record, WAL_VERSION);
    put_u8(&mut record, kind);
    put_u8(&mut record, 0);
    put_u32(&mut record, payload.len() as u32);
    put_u64(&mut record, sequence);
    assert(record@ =~= header_bytes(sequence as nat, kind, payload@.len()));
    let checksum: Digest = wal_checksum(&record, payload);
    put_bytes(&mut record, payload);
    put_digest(&mut record, &checksum);
    Ok(record)
}

// ---------------------------------------------------------------------------
// Payloads.
// ---------------------------------------------------------------------------

/// The bytes of a snapshot.
pub open spec fn snapshot_bytes(s: SnapshotModel) -> Seq<u8> {
    s.committee_hash@ + bytes::le64(s.epoch) + s.state_root@ + bytes::le32(s.bytes.len() as u32) + s.bytes
}

/// The bytes of a snapshot that is not too large.
pub fn encode_snapshot(snapshot: &Snapshot) -> (r: Result<Vec<u8>, String>)
    ensures
        snapshot.bytes@.len() <= MAX_SNAPSHOT_BYTES ==> r is Ok && r->Ok_0@ == snapshot_bytes(
            snapshot@,
        ),
        snapshot.bytes@.len() > MAX_SNAPSHOT_BYTES ==> r is Err && r->Err_0@
            == "snapshot exceeds safety limit"@,
{
    if snapshot.bytes.len() > MAX_SNAPSHOT_BYTES {
        return Err(text("snapshot exceeds safety limit"));
    }
    let mut out: Vec<u8> = Vec::with_capacity(76);
    put_digest(&mut out, &snapshot.committee_hash);
    put_u64(&mut out, snapshot.epoch);
    put_digest(&mut out, &snapshot.state_root);
    put_u32(&mut out, snapshot.bytes.len() as u32);
    put_bytes(&mut out, &snapshot.bytes);
    assert(out@ =~= snapshot_bytes(snapshot@));
    Ok(out)
}

#[verifier::opaque]
pub open spec fn w_take(s: Seq<u8>, n: int) -> Parsed<Seq<u8>> {
    if s.len() < n {
        Err("truncated WAL payload; fail closed"@)
    } else {
        Ok((s.subrange(0, n), s.subrange(n, s.len() as int)))
    }
}

pub open spec fn w_u8(s: Seq<u8>) -> Parsed<u8> {
    match w_take(s, 1) {
        Ok((b, rest)) => Ok((b[0], rest)),
        Err(e) => Err(e),
    }
}

pub open spec fn w_u32(s: Seq<u8>) -> Parsed<u32> {
    match w_take(s, 4) {
        Ok((b, rest)) => Ok((bytes::from_le32(b), rest)),
        Err(e) => Err(e),
    }
}

pub open spec fn w_u64(s: Seq<u8>) -> Parsed<u64> {
    match w_take(s, 8) {
        Ok((b, rest)) => Ok((bytes::from_le64(b), rest)),
        Err(e) => Err(e),
    }
}

pub open spec fn w_digest(s: Seq<u8>) -> Parsed<Digest> {
    match w_take(s, 32) {
        Ok((b, rest)) => Ok((bytes::arr::<32>(b), rest)),
        Err(e) => Err(e),
    }
}

pub open spec fn w_snapshot(s: Seq<u8>) -> Parsed<SnapshotModel> {
    match w_digest(s) {
        Err(e) => Err(e),
        Ok((committee_hash, s)) => match w_u64(s) {
            Err(e) => Err(e),
            Ok((epoch, s)) => match w_digest(s) {
                Err(e) => Err(e),
                Ok((state_root, s)) => match w_u32(s) {
                    Err(e) => Err(e),
                    Ok((len, s)) => if len > MAX_SNAPSHOT_BYTES {
                        Err("snapshot in WAL exceeds safety limit; fail closed"@)
                    } else {
                        match w_take(s, len as int) {
                            Err(e) => Err(e),
                            Ok((bytes, s)) => Ok(
                                (SnapshotModel { committee_hash, epoch, state_root, bytes }, s),
                            ),
                        }
                    },
                },
            },
        },
    }
}

/// A value that has to take up the whole payload.
pub open spec fn w_exact<T>(p: Parsed<T>) -> Result<T, Seq<char>> {
    match p {
        Err(e) => Err(e),
        Ok((v, rest)) => if rest.len() != 0 {
            Err("trailing bytes in WAL payload; fail closed"@)
        } else {
            Ok(v)
        },
    }
}

fn take<'a>(input: &mut &'a [u8], len: usize) -> (r: Result<&'a [u8], String>)
    ensures
        match w_take(old(input)@, len as int) {
            Ok((b, rest)) => r is Ok && r->Ok_0@ == b && final(input)@ == rest,
            Err(e) => r is Err && r->Err_0@ == e,
        },
{
    proof {
        reveal(w_take);
    }
    let all: &'a [u8] = *input;
    if all.len() < len {
        return Err(text("truncated WAL payload; fail closed"));
    }
    let value: &'a [u8] = &all[0..len];
    let rest: &'a [u8] = &all[len..all.len()];
    *input = rest;
    Ok(value)
}

fn take_u8(input: &mut &[u8]) -> (r: Result<u8, String>)
    ensures
        crate::wire::parsed(r, w_u8(old(input)@), final(input)@),
{
    proof {
        reveal(w_take);
    }
    let b: &[u8] = take(input, 1)?;
    Ok(b[0])
}

fn take_u32(input: &mut &[u8]) -> (r: Result<u32, String>)
    ensures
        crate::wire::parsed(r, w_u32(old(input)@), final(input)@),
{
    proof {
        reveal(w_take);
    }
    let b: &[u8] = take(input, 4)?;
    Ok(get_u32(b))
}

fn take_u64(input: &mut &[u8]) -> (r: Result<u64, String>)
    ensures
        crate::wire::parsed(r, w_u64(old(input)@), final(input)@),
{
    proof {
        reveal(w_take);
    }
    let b: &[u8] = take(input, 8)?;
    Ok(get_u64(b))
}

fn take_digest(input: &mut &[u8]) -> (r: Result<Digest, String>)
    ensures
        crate::wire::parsed(r, w_digest(old(input)@), final(input)@),
{
    proof {
        reveal(w_take);
    }
    let b: &[u8] = take(input, 32)?;
    Ok(array_from::<32>(b))
}

fn decode_snapshot(input: &mut &[u8]) -> (r: Result<Snapshot, String>)
    ensures
        crate::wire::parsed_view(r, w_snapshot(old(input)@), final(input)@),
{
    let committee_hash: Digest = take_digest(input)?;
    let epoch: u64 = take_u64(input)?;
    let state_root: Digest = take_digest(input)?;
    let len: u32 = take_u32(input)?;
    if len as usize > MAX_SNAPSHOT_BYTES {
        return Err(text("snapshot in WAL exceeds safety limit; fail closed"));
    }
    let bytes: Vec<u8> = copy_slice(take(input, len as usize)?);
    Ok(Snapshot { committee_hash, epoch, state_root, bytes })
}

fn finish(input: &[u8]) -> (r: Result<(), String>)
    ensures
        text::shown(r) == w_exact(Ok(((), input@))),
{
    if input.len() != 0 {
        return Err(text("trailing bytes in WAL payload; fail closed"));
    }
    Ok(())
}

fn decode_snapshot_exact(payload: &[u8]) -> (r: Result<Snapshot, String>)
    ensures
        text::shown_view(r) == w_exact(w_snapshot(payload@)),
{
    let mut input: &[u8] = payload;
    let snapshot: Snapshot = decode_snapshot(&mut input)?;
    finish(input)?;
    Ok(snapshot)
}

/// The verdict on a snapshot for a committee and an epoch.
pub open spec fn snapshot_verdict(s: SnapshotModel, committee: Digest, epoch: u64) -> Verdict {
    if s.committee_hash != committee {
        Err("snapshot committee does not match this WAL"@)
    } else if s.epoch != epoch {
        Err("snapshot epoch does not match this WAL"@)
    } else if s.bytes.len() > MAX_SNAPSHOT_BYTES {
        Err("snapshot exceeds safety limit"@)
    } else {
        Ok(())
    }
}

fn validate_snapshot(snapshot: &Snapshot, committee: &Digest, epoch: u64) -> (r: Result<
    (),
    String,
>)
    ensures
        text::shown(r) == snapshot_verdict(snapshot@, *committee, epoch),
{
    if !same_array(&snapshot.committee_hash, committee) {
        return Err(text("snapshot committee does not match this WAL"));
    }
    if snapshot.epoch != epoch {
        return Err(text("snapshot epoch does not match this WAL"));
    }
    if snapshot.bytes.len() > MAX_SNAPSHOT_BYTES {
        return Err(text("snapshot exceeds safety limit"));
    }
    Ok(())
}

/// The verdict on a phase.
pub open spec fn vote_phase_verdict(phase: u8) -> Verdict {
    if phase == PHASE_PREVOTE || phase == PHASE_PRECOMMIT {
        Ok(())
    } else {
        Err("unknown vote phase"@)
    }
}

fn validate_phase(phase: u8) -> (r: Result<(), String>)
    ensures
        text::shown(r) == vote_phase_verdict(phase),
{
    if phase == PHASE_PREVOTE || phase == PHASE_PRECOMMIT {
        Ok(())
    } else {
        Err(text("unknown vote phase"))
    }
}

// ---------------------------------------------------------------------------
// Changes.
// ---------------------------------------------------------------------------

/// What one record after the first brings about.
#[derive(Debug)]
pub enum Change {
    Activate(ActivationRecord),
    Vote(VoteKey, Digest),
    Apply(AppliedRecord),
    Retire(RetirementRecord),
}

/// The mathematical content of a [`Change`].
#[verifier::ext_equal]
pub enum ChangeModel {
    Activate(ActivationModel),
    Vote(VoteKey, Digest),
    Apply(AppliedModel),
    Retire(RetirementModel),
}

impl View for Change {
    type V = ChangeModel;

    open spec fn view(&self) -> ChangeModel {
        match *self {
            Change::Activate(a) => ChangeModel::Activate(a@),
            Change::Vote(key, digest) => ChangeModel::Vote(key, digest),
            Change::Apply(a) => ChangeModel::Apply(a@),
            Change::Retire(a) => ChangeModel::Retire(a@),
        }
    }
}

pub open spec fn optional_change(c: Option<Change>) -> Option<ChangeModel> {
    match c {
        Some(c) => Some(c@),
        None => None,
    }
}

/// The record kind of a change.
pub open spec fn kind_of(c: ChangeModel) -> u8 {
    match c {
        ChangeModel::Activate(_) => KIND_ACTIVATE,
        ChangeModel::Vote(_, _) => KIND_VOTE,
        ChangeModel::Apply(_) => KIND_APPLY,
        ChangeModel::Retire(_) => KIND_RETIRE,
    }
}

/// The record payload of a change.
pub open spec fn payload_of(c: ChangeModel) -> Seq<u8> {
    match c {
        ChangeModel::Activate(a) => a.handoff_hash@ + snapshot_bytes(a.snapshot),
        ChangeModel::Vote(k, digest) => k.conflict_key@ + bytes::le64(k.round) + seq![k.phase] + digest@,
        ChangeModel::Apply(a) => a.tx_digest@ + a.certificate_digest@ + a.prior_state_root@
            + snapshot_bytes(a.next_snapshot),
        ChangeModel::Retire(a) => a.handoff_hash@ + a.next_committee@ + bytes::le64(a.next_epoch)
            + snapshot_bytes(a.snapshot),
    }
}

/// The snapshots in a change are not too large.
pub open spec fn change_fits(c: ChangeModel) -> bool {
    match c {
        ChangeModel::Activate(a) => a.snapshot.bytes.len() <= MAX_SNAPSHOT_BYTES,
        ChangeModel::Vote(_, _) => true,
        ChangeModel::Apply(a) => a.next_snapshot.bytes.len() <= MAX_SNAPSHOT_BYTES,
        ChangeModel::Retire(a) => a.snapshot.bytes.len() <= MAX_SNAPSHOT_BYTES,
    }
}

/// What a change makes of a state.
pub open spec fn made(m: ReplayModel, c: ChangeModel) -> ReplayModel {
    match c {
        ChangeModel::Activate(a) => ReplayModel {
            lifecycle: Lifecycle::Active,
            current_snapshot: a.snapshot,
            activation: Some(a),
            ..m
        },
        ChangeModel::Vote(key, digest) => ReplayModel {
            votes: m.votes.insert(key, digest),
            locks: if key.phase == PHASE_PRECOMMIT {
                m.locks.insert(key.conflict_key, PrecommitLock { round: key.round, digest })
            } else {
                m.locks
            },
            ..m
        },
        ChangeModel::Apply(a) => ReplayModel {
            applied: m.applied.insert(a.tx_digest, a),
            current_snapshot: a.next_snapshot,
            ..m
        },
        ChangeModel::Retire(a) => ReplayModel {
            lifecycle: Lifecycle::Retired,
            retirement: Some(a),
            ..m
        },
    }
}

/// A state with one record more.
pub open spec fn one_more(m: ReplayModel) -> ReplayModel {
    ReplayModel { next_sequence: m.next_sequence + 1, ..m }
}

/// What the record of a change makes of a state.
pub open spec fn changed(m: ReplayModel, c: ChangeModel) -> ReplayModel {
    one_more(made(m, c))
}

impl Change {
    /// The record kind of this change.
    pub fn kind(&self) -> (r: u8)
        ensures
            r == kind_of(self@),
    {
        match self {
            Change::Activate(_) => KIND_ACTIVATE,
            Change::Vote(_, _) => KIND_VOTE,
            Change::Apply(_) => KIND_APPLY,
            Change::Retire(_) => KIND_RETIRE,
        }
    }

    /// The record payload of this change.
    pub fn payload(&self) -> (r: Result<Vec<u8>, String>)
        ensures
            change_fits(self@) ==> r is Ok && r->Ok_0@ == payload_of(self@),
            !change_fits(self@) ==> r is Err && r->Err_0@ == "snapshot exceeds safety limit"@,
    {
        let mut payload: Vec<u8> = Vec::new();
        match self {
            Change::Activate(a) => {
                put_digest(&mut payload, &a.handoff_hash);
                put_bytes(&mut payload, &encode_snapshot(&a.snapshot)?);
            },
            Change::Vote(key, digest) => {
                put_digest(&mut payload, &key.conflict_key);
                put_u64(&mut payload, key.round);
                put_u8(&mut payload, key.phase);
                put_digest(&mut payload, digest);
            },
            Change::Apply(a) => {
                put_digest(&mut payload, &a.tx_digest);
                put_digest(&mut payload, &a.certificate_digest);
                put_digest(&mut payload, &a.prior_state_root);
                put_bytes(&mut payload, &encode_snapshot(&a.next_snapshot)?);
            },
            Change::Retire(a) => {
                put_digest(&mut payload, &a.handoff_hash);
                put_digest(&mut payload, &a.next_committee);
                put_u64(&mut payload, a.next_epoch);
                put_bytes(&mut payload, &encode_snapshot(&a.snapshot)?);
            },
        }
        assert(payload@ =~= payload_of(self@));
        Ok(payload)
    }
}

impl ReplayState {
    /// Makes the record of `change` take effect.
    fn advance(&mut self, change: Change)
        requires
            old(self).next_sequence < u64::MAX,
        ensures
            final(self)@ == changed(old(self)@, change@),
    {
        self.make(change);
        self.next_sequence = self.next_sequence + 1;
    }

    /// Makes `change` take effect, and counts no record.
    fn make(&mut self, change: Change)
        ensures
            final(self)@ == made(old(self)@, change@),
    {
        match change {
            Change::Activate(a) => {
                self.lifecycle = Lifecycle::Active;
                self.current_snapshot = a.snapshot.clone();
                self.activation = Some(a);
            },
            Change::Vote(key, digest) => {
                self.votes.insert(key, digest);
                if key.phase == PHASE_PRECOMMIT {
                    self.locks.insert(
                        key.conflict_key,
                        PrecommitLock { round: key.round, digest },
                    );
                }
            },
            Change::Apply(a) => {
                self.current_snapshot = a.next_snapshot.clone();
                self.applied.insert(a.tx_digest, a);
            },
            Change::Retire(a) => {
                self.lifecycle = Lifecycle::Retired;
                self.retirement = Some(a);
            },
        }
    }
}

// ---------------------------------------------------------------------------
// Replay.
// ---------------------------------------------------------------------------

/// The change that a payload holds.
pub open spec fn w_change(kind: u8, s: Seq<u8>) -> Parsed<ChangeModel> {
    if kind == KIND_ACTIVATE {
        match w_digest(s) {
            Err(e) => Err(e),
            Ok((handoff_hash, s)) => match w_snapshot(s) {
                Err(e) => Err(e),
                Ok((snapshot, s)) => Ok(
                    (ChangeModel::Activate(ActivationModel { handoff_hash, snapshot }), s),
                ),
            },
        }
    } else if kind == KIND_VOTE {
        match w_digest(s) {
            Err(e) => Err(e),
            Ok((conflict_key, s)) => match w_u64(s) {
                Err(e) => Err(e),
                Ok((round, s)) => match w_u8(s) {
                    Err(e) => Err(e),
                    Ok((phase, s)) => match w_digest(s) {
                        Err(e) => Err(e),
                        Ok((digest, s)) => Ok(
                            (
                                ChangeModel::Vote(VoteKey { conflict_key, round, phase }, digest),
                                s,
                            ),
                        ),
                    },
                },
            },
        }
    } else if kind == KIND_APPLY {
        match w_digest(s) {
            Err(e) => Err(e),
            Ok((tx_digest, s)) => match w_digest(s) {
                Err(e) => Err(e),
                Ok((certificate_digest, s)) => match w_digest(s) {
                    Err(e) => Err(e),
                    Ok((prior_state_root, s)) => match w_snapshot(s) {
                        Err(e) => Err(e),
                        Ok((next_snapshot, s)) => Ok(
                            (
                                ChangeModel::Apply(
                                    AppliedModel {
                                        tx_digest,
                                        certificate_digest,
                                        prior_state_root,
                                        next_snapshot,
                                    },
                                ),
                                s,
                            ),
                        ),
                    },
                },
            },
        }
    } else {
        match w_digest(s) {
            Err(e) => Err(e),
            Ok((handoff_hash, s)) => match w_digest(s) {
                Err(e) => Err(e),
                Ok((next_committee, s)) => match w_u64(s) {
                    Err(e) => Err(e),
                    Ok((next_epoch, s)) => match w_snapshot(s) {
                        Err(e) => Err(e),
                        Ok((snapshot, s)) => Ok(
                            (
                                ChangeModel::Retire(
                                    RetirementModel {
                                        handoff_hash,
                                        next_committee,
                                        next_epoch,
                                        snapshot,
                                    },
                                ),
                                s,
                            ),
                        ),
                    },
                },
            },
        }
    }
}

/// Whether a record of a kind may stand at this point of a log.
pub open spec fn place_verdict(m: ReplayModel, kind: u8) -> Verdict {
    if m.lifecycle == Lifecycle::Retired {
        Err("record follows terminal retirement; fail closed"@)
    } else if kind == KIND_ACTIVATE {
        if m.lifecycle != Lifecycle::Initialized || m.activation is Some {
            Err("duplicate or misplaced activation; fail closed"@)
        } else {
            Ok(())
        }
    } else if kind == KIND_VOTE || kind == KIND_APPLY || kind == KIND_RETIRE {
        if m.lifecycle == Lifecycle::Active {
            Ok(())
        } else {
            Err(
                (if kind == KIND_VOTE {
                    "vote record"@
                } else if kind == KIND_APPLY {
                    "apply record"@
                } else {
                    "retirement record"@
                }) + " while committee was not active; fail closed"@,
            )
        }
    } else if kind == KIND_INITIALIZE {
        Err("duplicate initialization record; fail closed"@)
    } else {
        Err("unknown WAL record kind; fail closed"@)
    }
}

/// Whether a log may hold a change at this point.
pub open spec fn change_verdict(
    m: ReplayModel,
    c: ChangeModel,
    committee: Digest,
    epoch: u64,
) -> Verdict {
    match c {
        ChangeModel::Activate(a) => match snapshot_verdict(a.snapshot, committee, epoch) {
            Err(e) => Err(e),
            Ok(()) => if a.snapshot != m.current_snapshot {
                Err("activation changed initialized state; fail closed"@)
            } else {
                Ok(())
            },
        },
        ChangeModel::Vote(key, digest) => match vote_phase_verdict(key.phase) {
            Err(e) => Err(e),
            Ok(()) => if m.votes.contains_key(key) {
                if m.votes[key] != digest {
                    Err("conflicting durable same-round phase vote; fail closed"@)
                } else {
                    Err("duplicate vote WAL record; fail closed"@)
                }
            } else if m.locks.contains_key(key.conflict_key) && key.round
                < m.locks[key.conflict_key].round {
                Err("vote below durable precommit-lock round in WAL; fail closed"@)
            } else if m.locks.contains_key(key.conflict_key) && digest
                != m.locks[key.conflict_key].digest {
                Err("vote conflicts with durable precommit lock in WAL; fail closed"@)
            } else {
                Ok(())
            },
        },
        ChangeModel::Apply(a) => match snapshot_verdict(a.next_snapshot, committee, epoch) {
            Err(e) => Err(e),
            Ok(()) => if a.tx_digest == bytes::zero_digest() || a.certificate_digest == bytes::zero_digest() {
                Err("apply WAL record has zero transaction/certificate digest; fail closed"@)
            } else if m.applied.contains_key(a.tx_digest) {
                Err("duplicate applied transaction WAL record; fail closed"@)
            } else if a.prior_state_root != m.current_snapshot.state_root {
                Err("applied state lineage does not match prior root; fail closed"@)
            } else if a.next_snapshot.state_root == a.prior_state_root {
                Err("applied WAL record did not advance state root; fail closed"@)
            } else {
                Ok(())
            },
        },
        ChangeModel::Retire(a) => if a.handoff_hash == bytes::zero_digest() {
            Err("retirement WAL record has zero handoff digest; fail closed"@)
        } else if a.next_committee == committee {
            Err("retirement WAL retains same committee; fail closed"@)
        } else if epoch == u64::MAX {
            Err("epoch overflow in WAL"@)
        } else if a.next_epoch != epoch + 1 {
            Err("retirement WAL skips the direct next epoch; fail closed"@)
        } else if a.snapshot != m.current_snapshot {
            Err("retirement snapshot does not equal durable state; fail closed"@)
        } else {
            Ok(())
        },
    }
}

/// What a record after the first makes of a state, apart from the count of records.
pub open spec fn record_effect(
    m: ReplayModel,
    kind: u8,
    payload: Seq<u8>,
    committee: Digest,
    epoch: u64,
) -> Result<ReplayModel, Seq<char>> {
    match place_verdict(m, kind) {
        Err(e) => Err(e),
        Ok(()) => match w_exact(w_change(kind, payload)) {
            Err(e) => Err(e),
            Ok(c) => match change_verdict(m, c, committee, epoch) {
                Err(e) => Err(e),
                Ok(()) => Ok(made(m, c)),
            },
        },
    }
}

fn require_active(state: &ReplayState, record: &str) -> (r: Result<(), String>)
    ensures
        state.lifecycle == Lifecycle::Active ==> r is Ok,
        state.lifecycle != Lifecycle::Active ==> r is Err && r->Err_0@ == record@
            + " while committee was not active; fail closed"@,
{
    if state.lifecycle == Lifecycle::Active {
        Ok(())
    } else {
        Err(concat2(record, " while committee was not active; fail closed"))
    }
}

/// Takes up one record after the first. The records are counted by [`replay_wal`].
pub fn replay_record(
    state: &mut ReplayState,
    kind: u8,
    payload: &[u8],
    expected_committee: &Digest,
    expected_epoch: u64,
) -> (r: Result<(), String>)
    ensures
        match record_effect(old(state)@, kind, payload@, *expected_committee, expected_epoch) {
            Ok(m) => r is Ok && final(state)@ == m,
            Err(e) => r is Err && r->Err_0@ == e && *final(state) == *old(state),
        },
{
    if state.lifecycle == Lifecycle::Retired {
        return Err(text("record follows terminal retirement; fail closed"));
    }
    let mut input: &[u8] = payload;
    let change: Change;
    if kind == KIND_ACTIVATE {
        if state.lifecycle != Lifecycle::Initialized || state.activation.is_some() {
            return Err(text("duplicate or misplaced activation; fail closed"));
        }
        let handoff_hash: Digest = take_digest(&mut input)?;
        let snapshot: Snapshot = decode_snapshot(&mut input)?;
        finish(input)?;
        validate_snapshot(&snapshot, expected_committee, expected_epoch)?;
        if !snapshot.same(&state.current_snapshot) {
            return Err(text("activation changed initialized state; fail closed"));
        }
        change = Change::Activate(ActivationRecord { handoff_hash, snapshot });
    } else if kind == KIND_VOTE {
        require_active(state, "vote record")?;
        let conflict_key: Digest = take_digest(&mut input)?;
        let round: u64 = take_u64(&mut input)?;
        let phase: u8 = take_u8(&mut input)?;
        let digest: Digest = take_digest(&mut input)?;
        finish(input)?;
        validate_phase(phase)?;
        let key: VoteKey = VoteKey { conflict_key, round, phase };
        if let Some(old_digest) = state.votes.get(&key) {
            if !same_array(old_digest, &digest) {
                return Err(text("conflicting durable same-round phase vote; fail closed"));
            }
            return Err(text("duplicate vote WAL record; fail closed"));
        }
        if let Some(lock) = state.locks.get(&conflict_key) {
            if round < lock.round {
                return Err(text("vote below durable precommit-lock round in WAL; fail closed"));
            }
            if !same_array(&digest, &lock.digest) {
                return Err(text("vote conflicts with durable precommit lock in WAL; fail closed"));
            }
        }
        change = Change::Vote(key, digest);
    } else if kind == KIND_APPLY {
        require_active(state, "apply record")?;
        let tx_digest: Digest = take_digest(&mut input)?;
        let certificate_digest: Digest = take_digest(&mut input)?;
        let prior_state_root: Digest = take_digest(&mut input)?;
        let next_snapshot: Snapshot = decode_snapshot(&mut input)?;
        finish(input)?;
        validate_snapshot(&next_snapshot, expected_committee, expected_epoch)?;
        if is_zero(&tx_digest) || is_zero(&certificate_digest) {
            return Err(
                text("apply WAL record has zero transaction/certificate digest; fail closed"),
            );
        }
        if state.applied.contains_key(&tx_digest) {
            return Err(text("duplicate applied transaction WAL record; fail closed"));
        }
        if !same_array(&prior_state_root, &state.current_snapshot.state_root) {
            return Err(text("applied state lineage does not match prior root; fail closed"));
        }
        if same_array(&next_snapshot.state_root, &prior_state_root) {
            return Err(text("applied WAL record did not advance state root; fail closed"));
        }
        change = Change::Apply(
            AppliedRecord { tx_digest, certificate_digest, prior_state_root, next_snapshot },
        );
    } else if kind == KIND_RETIRE {
        require_active(state, "retirement record")?;
        let handoff_hash: Digest = take_digest(&mut input)?;
        let next_committee: Digest = take_digest(&mut input)?;
        let next_epoch: u64 = take_u64(&mut input)?;
        let snapshot: Snapshot = decode_snapshot(&mut input)?;
        finish(input)?;
        if is_zero(&handoff_hash) {
            return Err(text("retirement WAL record has zero handoff digest; fail closed"));
        }
        if same_array(&next_committee, expected_committee) {
            return Err(text("retirement WAL retains same committee; fail closed"));
        }
        if expected_epoch == u64::MAX {
            return Err(text("epoch overflow in WAL"));
        }
        if next_epoch != expected_epoch + 1 {
            return Err(text("retirement WAL skips the direct next epoch; fail closed"));
        }
        if !snapshot.same(&state.current_snapshot) {
            return Err(text("retirement snapshot does not equal durable state; fail closed"));
        }
        change = Change::Retire(
            RetirementRecord { handoff_hash, next_committee, next_epoch, snapshot },
        );
    } else if kind == KIND_INITIALIZE {
        return Err(text("duplicate initialization record; fail closed"));
    } else {
        return Err(text("unknown WAL record kind; fail closed"));
    }
    state.make(change);
    Ok(())
}

/// The kind and the payload of the record at the front of `s`, which has to be
/// record number `sequence`, and what follows it.
#[verifier::opaque]
pub open spec fn record_result(s: Seq<u8>, sequence: nat) -> Result<
    (u8, Seq<u8>, Seq<u8>),
    Seq<char>,
> {
    let header = s.subrange(0, 24);
    let len = bytes::from_le32(header.subrange(12, 16)) as int;
    if s.len() < 56 {
        Err("incomplete WAL record; fail closed"@)
    } else if header.subrange(0, 8) != wal_magic() {
        Err("bad WAL magic; fail closed"@)
    } else if bytes::from_le16(header.subrange(8, 10)) != WAL_VERSION {
        Err("unsupported WAL version; fail closed"@)
    } else if header[11] != 0 {
        Err("nonzero WAL reserved byte; fail closed"@)
    } else if len > MAX_PAYLOAD_BYTES {
        Err("WAL payload exceeds safety limit; fail closed"@)
    } else if bytes::from_le64(header.subrange(16, 24)) != sequence {
        Err("non-contiguous WAL sequence; fail closed"@)
    } else if 56 + len > s.len() {
        Err("incomplete WAL record; fail closed"@)
    } else if s.subrange(24 + len, 56 + len) != checksum_of(header, s.subrange(24, 24 + len))@ {
        Err("WAL checksum mismatch; fail closed"@)
    } else {
        Ok((header[10], s.subrange(24, 24 + len), s.subrange(56 + len, s.len() as int)))
    }
}

/// The number of the next record.
pub open spec fn sequence_of(state: Option<ReplayModel>) -> nat {
    match state {
        Some(m) => m.next_sequence,
        None => 0,
    }
}

/// The state of a committee that was provisioned with a snapshot.
pub open spec fn initialized(snapshot: SnapshotModel) -> ReplayModel {
    ReplayModel {
        initial_snapshot: snapshot,
        lifecycle: Lifecycle::Initialized,
        current_snapshot: snapshot,
        activation: None,
        retirement: None,
        votes: Map::empty(),
        locks: Map::empty(),
        applied: Map::empty(),
        next_sequence: 1,
    }
}

/// What a record makes of what the records before it brought about.
#[verifier::opaque]
pub open spec fn next_state(
    state: Option<ReplayModel>,
    kind: u8,
    payload: Seq<u8>,
    committee: Digest,
    epoch: u64,
) -> Result<ReplayModel, Seq<char>> {
    if kind == KIND_INITIALIZE {
        if state is Some {
            Err("duplicate or misplaced initialization record; fail closed"@)
        } else {
            match w_exact(w_snapshot(payload)) {
                Err(e) => Err(e),
                Ok(snapshot) => match snapshot_verdict(snapshot, committee, epoch) {
                    Err(e) => Err(e),
                    Ok(()) => Ok(initialized(snapshot)),
                },
            }
        }
    } else {
        match state {
            None => Err("WAL does not begin with initialization; fail closed"@),
            Some(m) => match record_effect(m, kind, payload, committee, epoch) {
                Err(e) => Err(e),
                Ok(after) => Ok(one_more(after)),
            },
        }
    }
}

/// What the records in `s` make of what the records before them brought about.
pub open spec fn replay_from(
    s: Seq<u8>,
    state: Option<ReplayModel>,
    committee: Digest,
    epoch: u64,
) -> Result<ReplayModel, Seq<char>>
    decreases s.len(),
{
    if s.len() == 0 {
        match state {
            Some(m) => Ok(m),
            None => Err("WAL has no initialization record; fail closed"@),
        }
    } else {
        proof {
            reveal(record_result);
        }
        match record_result(s, sequence_of(state)) {
            Err(e) => Err(e),
            Ok((kind, payload, rest)) => match next_state(state, kind, payload, committee, epoch) {
                Err(e) => Err(e),
                Ok(m) => replay_from(rest, Some(m), committee, epoch),
            },
        }
    }
}

/// What a whole log brings about.
pub open spec fn replayed(log: Seq<u8>, committee: Digest, epoch: u64) -> Result<
    ReplayModel,
    Seq<char>,
> {
    replay_from(log, None, committee, epoch)
}

pub open spec fn optional_state(s: Option<ReplayState>) -> Option<ReplayModel> {
    match s {
        Some(s) => Some(s@),
        None => None,
    }
}

fn initialized_state(snapshot: Snapshot) -> (r: ReplayState)
    ensures
        r@ == initialized(snapshot@),
{
    ReplayState {
        initial_snapshot: snapshot.clone(),
        lifecycle: Lifecycle::Initialized,
        current_snapshot: snapshot,
        activation: None,
        retirement: None,
        votes: OrdMap::new(),
        locks: OrdMap::new(),
        applied: OrdMap::new(),
        next_sequence: 1,
    }
}

fn is_magic(b: &[u8]) -> (r: bool)
    ensures
        r == (b@ == wal_magic()),
{
    let magic: [u8; 8] = [67, 65, 76, 73, 78, 84, 49, 87];
    assert(magic@ =~= wal_magic());
    same_bytes(b, &magic)
}

/// The kind and the payload length of the record at the front of `bytes`.
fn check_record(bytes: &[u8], sequence: u64) -> (r: Result<(u8, usize), String>)
    ensures
        match record_result(bytes@, sequence as nat) {
            Ok((kind, payload, rest)) => r is Ok && r->Ok_0.0 == kind && 56 + r->Ok_0.1
                <= bytes@.len() && payload == bytes@.subrange(24, 24 + r->Ok_0.1) && rest
                == bytes@.subrange(56 + r->Ok_0.1, bytes@.len() as int),
            Err(e) => r is Err && r->Err_0@ == e,
        },
{
    proof {
        reveal(record_result);
    }
    if bytes.len() < HEADER_LEN + CHECKSUM_LEN {
        return Err(text("incomplete WAL record; fail closed"));
    }
    let header: &[u8] = &bytes[0..HEADER_LEN];
    if !is_magic(&header[0..8]) {
        return Err(text("bad WAL magic; fail closed"));
    }
    let version: u16 = get_u16(&header[8..10]);
    if version != WAL_VERSION {
        return Err(text("unsupported WAL version; fail closed"));
    }
    let kind: u8 = header[10];
    if header[11] != 0 {
        return Err(text("nonzero WAL reserved byte; fail closed"));
    }
    let payload_len: u32 = get_u32(&header[12..16]);
    if payload_len as usize > MAX_PAYLOAD_BYTES {
        return Err(text("WAL payload exceeds safety limit; fail closed"));
    }
    let payload_len: usize = payload_len as usize;
    let record_sequence: u64 = get_u64(&header[16..24]);
    if record_sequence != sequence {
        return Err(text("non-contiguous WAL sequence; fail closed"));
    }
    let record_len: usize = HEADER_LEN + payload_len + CHECKSUM_LEN;
    if record_len > bytes.len() {
        return Err(text("incomplete WAL record; fail closed"));
    }
    let payload_end: usize = HEADER_LEN + payload_len;
    let payload: &[u8] = &bytes[HEADER_LEN..payload_end];
    let checksum: &[u8] = &bytes[payload_end..record_len];
    let expected: Digest = wal_checksum(header, payload);
    if !same_bytes(checksum, &expected) {
        return Err(text("WAL checksum mismatch; fail closed"));
    }
    Ok((kind, payload_len))
}

/// Takes up one record.
fn take_record(
    state: Option<ReplayState>,
    kind: u8,
    payload: &[u8],
    expected_committee: &Digest,
    expected_epoch: u64,
) -> (r: Result<ReplayState, String>)
    requires
        sequence_of(optional_state(state)) < u64::MAX,
    ensures
        text::shown_view(r) == next_state(
            optional_state(state),
            kind,
            payload@,
            *expected_committee,
            expected_epoch,
        ),
{
    proof {
        reveal(next_state);
    }
    if kind == KIND_INITIALIZE {
        if state.is_some() {
            return Err(text("duplicate or misplaced initialization record; fail closed"));
        }
        let snapshot: Snapshot = decode_snapshot_exact(payload)?;
        validate_snapshot(&snapshot, expected_committee, expected_epoch)?;
        return Ok(initialized_state(snapshot));
    }
    match state {
        None => Err(text("WAL does not begin with initialization; fail closed")),
        Some(replay) => {
            let mut replay: ReplayState = replay;
            replay_record(&mut replay, kind, payload, expected_committee, expected_epoch)?;
            replay.next_sequence = replay.next_sequence + 1;
            Ok(replay)
        },
    }
}

/// A record adds one to the number of records.
proof fn lemma_next_sequence(
    state: Option<ReplayModel>,
    kind: u8,
    payload: Seq<u8>,
    committee: Digest,
    epoch: u64,
)
    ensures
        next_state(state, kind, payload, committee, epoch) matches Ok(m) ==> m.next_sequence
            == sequence_of(state) + 1,
{
    reveal(next_state);
}

/// Takes up a whole log.
pub fn replay_wal(bytes: &[u8], expected_committee: &Digest, expected_epoch: u64) -> (r: Result<
    ReplayState,
    String,
>)
    ensures
        text::shown_view(r) == replayed(bytes@, *expected_committee, expected_epoch),
        r is Ok ==> r->Ok_0.next_sequence * 56 <= bytes@.len(),
{
    let mut offset: usize = 0;
    let mut state: Option<ReplayState> = None;
    let mut sequence: u64 = 0;
    assert(bytes@.subrange(0, bytes@.len() as int) =~= bytes@);
    while offset < bytes.len()
        invariant
            offset <= bytes@.len(),
            sequence == sequence_of(optional_state(state)),
            sequence * 56 <= offset,
            replayed(bytes@, *expected_committee, expected_epoch) == replay_from(
                bytes@.subrange(offset as int, bytes@.len() as int),
                optional_state(state),
                *expected_committee,
                expected_epoch,
            ),
        decreases bytes@.len() - offset,
    {
        let remaining: &[u8] = &bytes[offset..bytes.len()];
        let ghost s = remaining@;
        let ghost before = optional_state(state);
        let (kind, payload_len): (u8, usize) = check_record(remaining, sequence)?;
        let payload: &[u8] = &remaining[HEADER_LEN..HEADER_LEN + payload_len];
        proof {
            lemma_next_sequence(before, kind, payload@, *expected_committee, expected_epoch);
        }
        let next: ReplayState = take_record(
            state,
            kind,
            payload,
            expected_committee,
            expected_epoch,
        )?;
        sequence = next.next_sequence;
        state = Some(next);
        assert(bytes@.subrange(offset + 56 + payload_len, bytes@.len() as int) =~= s.subrange(
            56 + payload_len,
            s.len() as int,
        ));
        offset = offset + HEADER_LEN + payload_len + CHECKSUM_LEN;
    }
    match state {
        None => Err(text("WAL has no initialization record; fail closed")),
        Some(state) => Ok(state),
    }
}

// ---------------------------------------------------------------------------
// The store.
// ---------------------------------------------------------------------------

/// The write-ahead log of one validator, and what it has brought about.
///
/// A decision takes effect in two steps. A `.._record` method decides, and gives
/// the bytes that have to be past the durability boundary first. Once they are,
/// the method that takes the decision ([`WalStore::activate`],
/// [`WalStore::persist_vote`], [`WalStore::apply_verified`],
/// [`WalStore::retire`]) appends them to the log and moves the state. Where they
/// could not be written, [`WalStore::append_failed`] stops the store.
#[derive(Debug)]
pub struct WalStore {
    committee_hash: Digest,
    epoch: u64,
    state: ReplayState,
    log: Vec<u8>,
    /// What the file was found to hold after a record could not be written: its length,
    /// or why that could not be told.
    failure: Option<Result<u64, String>>,
}

/// The mathematical content of a [`WalStore`].
#[verifier::ext_equal]
pub struct StoreModel {
    pub committee_hash: Digest,
    pub epoch: u64,
    pub state: ReplayModel,
    pub log: Seq<u8>,
    pub failure: Option<Result<u64, Seq<char>>>,
}

impl View for WalStore {
    type V = StoreModel;

    closed spec fn view(&self) -> StoreModel {
        StoreModel {
            committee_hash: self.committee_hash,
            epoch: self.epoch,
            state: self.state@,
            log: self.log@,
            failure: optional_failure(self.failure),
        }
    }
}

pub open spec fn optional_failure(f: Option<Result<u64, String>>) -> Option<
    Result<u64, Seq<char>>,
> {
    match f {
        Some(found) => Some(text::shown(found)),
        None => None,
    }
}

/// The length of the file of a store.
pub open spec fn file_len(m: StoreModel) -> Result<u64, Seq<char>> {
    match m.failure {
        None => Ok(m.log.len() as u64),
        Some(found) => found,
    }
}

/// What every log brings about.
pub open spec fn state_ok(m: ReplayModel, committee: Digest, epoch: u64) -> bool {
    &&& snapshot_verdict(m.initial_snapshot, committee, epoch) is Ok
    &&& snapshot_verdict(m.current_snapshot, committee, epoch) is Ok
    &&& m.lifecycle == Lifecycle::Active ==> m.activation is Some
    &&& m.lifecycle == Lifecycle::Initialized ==> m.activation is None
    &&& m.lifecycle == Lifecycle::Retired <==> m.retirement is Some
}

/// The log brings about the state: to read the log again, after a restart, is to
/// be where the store is now.
pub open spec fn durable(m: StoreModel) -> bool {
    replayed(m.log, m.committee_hash, m.epoch) == Ok::<ReplayModel, Seq<char>>(m.state)
}

/// What holds of every store.
pub open spec fn store_ok(m: StoreModel) -> bool {
    &&& durable(m)
    &&& state_ok(m.state, m.committee_hash, m.epoch)
    &&& m.state.next_sequence * 56 <= m.log.len()
}

pub open spec fn optional_snapshot(s: Option<Snapshot>) -> Option<SnapshotModel> {
    match s {
        Some(s) => Some(s@),
        None => None,
    }
}

/// What comes of opening a log.
pub open spec fn open_result(
    log: Seq<u8>,
    committee: Digest,
    epoch: u64,
    genesis: Option<SnapshotModel>,
) -> Result<StoreModel, Seq<char>> {
    if log.len() == 0 {
        match genesis {
            None => Err(
                "empty WAL requires an explicit initialization snapshot; fail closed"@,
            ),
            Some(snapshot) => match snapshot_verdict(snapshot, committee, epoch) {
                Err(e) => Err(e),
                Ok(()) => Ok(
                    StoreModel {
                        committee_hash: committee,
                        epoch,
                        state: initialized(snapshot),
                        log: record_bytes(0, KIND_INITIALIZE, snapshot_bytes(snapshot)),
                        failure: None,
                    },
                ),
            },
        }
    } else {
        match replayed(log, committee, epoch) {
            Err(e) => Err(e),
            Ok(state) => match genesis {
                None => Ok(
                    StoreModel { committee_hash: committee, epoch, state, log, failure: None },
                ),
                Some(provided) => match snapshot_verdict(provided, committee, epoch) {
                    Err(e) => Err(e),
                    Ok(()) => if provided != state.initial_snapshot {
                        Err(
                            "provided initialization snapshot conflicts with durable WAL; fail closed"@,
                        )
                    } else {
                        Ok(
                            StoreModel {
                                committee_hash: committee,
                                epoch,
                                state,
                                log,
                                failure: None,
                            },
                        )
                    },
                },
            },
        }
    }
}

/// A decision: refuse, nothing to do, or make a change.
pub type Plan = Result<Option<ChangeModel>, Seq<char>>;

pub open spec fn healthy_verdict(m: StoreModel) -> Verdict {
    if m.failure is Some {
        Err("WAL append previously failed; process must restart and rescan fail closed"@)
    } else {
        Ok(())
    }
}

pub open spec fn activate_plan(
    m: StoreModel,
    handoff_hash: Digest,
    snapshot: SnapshotModel,
) -> Plan {
    match healthy_verdict(m) {
        Err(e) => Err(e),
        Ok(()) => match snapshot_verdict(snapshot, m.committee_hash, m.epoch) {
            Err(e) => Err(e),
            Ok(()) => match m.state.lifecycle {
                Lifecycle::Initialized => if snapshot != m.state.current_snapshot {
                    Err("activation snapshot conflicts with initialized snapshot"@)
                } else {
                    Ok(Some(ChangeModel::Activate(ActivationModel { handoff_hash, snapshot })))
                },
                Lifecycle::Active => if m.state.activation == Some(
                    ActivationModel { handoff_hash, snapshot },
                ) {
                    Ok(None)
                } else {
                    Err("conflicting committee activation rejected"@)
                },
                Lifecycle::Retired => Err(
                    "retired committee cannot be activated or resurrected"@,
                ),
            },
        },
    }
}

pub open spec fn active_verdict(m: StoreModel, operation: Seq<char>) -> Verdict {
    match healthy_verdict(m) {
        Err(e) => Err(e),
        Ok(()) => match m.state.lifecycle {
            Lifecycle::Active => Ok(()),
            Lifecycle::Initialized => Err(
                "committee is initialized but not active; "@ + operation + " rejected"@,
            ),
            Lifecycle::Retired => Err("committee is retired; "@ + operation + " rejected"@),
        },
    }
}

pub open spec fn vote_plan(m: StoreModel, key: VoteKey, digest: Digest) -> Plan {
    match active_verdict(m, "vote"@) {
        Err(e) => Err(e),
        Ok(()) => match vote_phase_verdict(key.phase) {
            Err(e) => Err(e),
            Ok(()) => if m.state.votes.contains_key(key) {
                if m.state.votes[key] == digest {
                    Ok(None)
                } else {
                    Err("conflicting same-round phase vote rejected"@)
                }
            } else if m.state.locks.contains_key(key.conflict_key) && key.round
                < m.state.locks[key.conflict_key].round {
                Err("vote below durable precommit-lock round rejected"@)
            } else if m.state.locks.contains_key(key.conflict_key) && digest
                != m.state.locks[key.conflict_key].digest {
                Err("vote conflicting with durable precommit lock rejected"@)
            } else {
                Ok(Some(ChangeModel::Vote(key, digest)))
            },
        },
    }
}

pub open spec fn apply_plan(
    m: StoreModel,
    tx_digest: Digest,
    certificate_digest: Digest,
    next_snapshot: SnapshotModel,
) -> Plan {
    match healthy_verdict(m) {
        Err(e) => Err(e),
        Ok(()) => match snapshot_verdict(next_snapshot, m.committee_hash, m.epoch) {
            Err(e) => Err(e),
            Ok(()) => if tx_digest == bytes::zero_digest() || certificate_digest == bytes::zero_digest() {
                Err("verified apply requires nonzero transaction and certificate digests"@)
            } else if m.state.applied.contains_key(tx_digest) {
                if m.state.applied[tx_digest].certificate_digest == certificate_digest
                    && m.state.applied[tx_digest].next_snapshot == next_snapshot {
                    Ok(None)
                } else {
                    Err("transaction digest was already applied with different certified state"@)
                }
            } else if m.state.lifecycle != Lifecycle::Active {
                Err("new certified state can only be applied by an active committee"@)
            } else if next_snapshot.state_root == m.state.current_snapshot.state_root {
                Err("certified apply did not advance the state root"@)
            } else {
                Ok(
                    Some(
                        ChangeModel::Apply(
                            AppliedModel {
                                tx_digest,
                                certificate_digest,
                                prior_state_root: m.state.current_snapshot.state_root,
                                next_snapshot,
                            },
                        ),
                    ),
                )
            },
        },
    }
}

pub open spec fn retire_plan(
    m: StoreModel,
    handoff_hash: Digest,
    next_committee: Digest,
    next_epoch: u64,
    state_root: Digest,
) -> Plan {
    match healthy_verdict(m) {
        Err(e) => Err(e),
        Ok(()) => if m.state.lifecycle == Lifecycle::Retired {
            let existing = m.state.retirement->Some_0;
            if existing.handoff_hash == handoff_hash && existing.next_committee == next_committee
                && existing.next_epoch == next_epoch && existing.snapshot.state_root
                == state_root {
                Ok(None)
            } else {
                Err("conflicting committee retirement rejected"@)
            }
        } else if m.state.lifecycle != Lifecycle::Active {
            Err("only an active committee can retire"@)
        } else if m.epoch == u64::MAX {
            Err("epoch overflow during retirement"@)
        } else if next_epoch != m.epoch + 1 {
            Err("retirement must hand off to the direct next epoch"@)
        } else if next_committee == m.committee_hash {
            Err("retirement must hand off to a distinct committee"@)
        } else if state_root != m.state.current_snapshot.state_root {
            Err("retirement state root does not match durable current state"@)
        } else if handoff_hash == bytes::zero_digest() {
            Err("retirement requires a nonzero handoff digest"@)
        } else {
            Ok(
                Some(
                    ChangeModel::Retire(
                        RetirementModel {
                            handoff_hash,
                            next_committee,
                            next_epoch,
                            snapshot: m.state.current_snapshot,
                        },
                    ),
                ),
            )
        },
    }
}

/// The record of a change.
pub open spec fn record_of(m: StoreModel, c: ChangeModel) -> Seq<u8> {
    record_bytes(m.state.next_sequence, kind_of(c), payload_of(c))
}

/// The bytes that a decision has to have written.
pub open spec fn planned_record(m: StoreModel, plan: Plan) -> Result<Option<Seq<u8>>, Seq<char>> {
    match plan {
        Err(e) => Err(e),
        Ok(None) => Ok(None),
        Ok(Some(c)) => Ok(Some(record_of(m, c))),
    }
}

/// What is answered to a decision.
pub open spec fn planned_outcome(plan: Plan) -> Result<PersistOutcome, Seq<char>> {
    match plan {
        Err(e) => Err(e),
        Ok(None) => Ok(PersistOutcome::AlreadyPresent),
        Ok(Some(_)) => Ok(PersistOutcome::Persisted),
    }
}

/// What a decision makes of a store.
pub open spec fn planned_store(m: StoreModel, plan: Plan) -> StoreModel {
    match plan {
        Ok(Some(c)) => StoreModel {
            state: changed(m.state, c),
            log: m.log + record_of(m, c),
            ..m
        },
        _ => m,
    }
}

/// A change that a log may take up next.
pub open spec fn admits(m: StoreModel, c: ChangeModel) -> bool {
    &&& change_fits(c)
    &&& place_verdict(m.state, kind_of(c)) is Ok
    &&& change_verdict(m.state, c, m.committee_hash, m.epoch) is Ok
}

pub open spec fn shown_record(r: Result<Option<Vec<u8>>, String>) -> Result<
    Option<Seq<u8>>,
    Seq<char>,
> {
    match r {
        Err(e) => Err(e@),
        Ok(None) => Ok(None),
        Ok(Some(v)) => Ok(Some(v@)),
    }
}

pub open spec fn shown_plan(r: Result<Option<Change>, String>) -> Plan {
    match r {
        Err(e) => Err(e@),
        Ok(c) => Ok(optional_change(c)),
    }
}

impl WalStore {
    /// Opens the log of a validator. An empty log needs `genesis`: the store then
    /// starts with an initialization record, which is the whole of
    /// [`WalStore::log`] and has yet to be written. Initialization does not
    /// authorize voting: the committee has to be activated first.
    pub fn open(
        log: Vec<u8>,
        expected_committee: Digest,
        expected_epoch: u64,
        genesis: Option<Snapshot>,
    ) -> (r: Result<WalStore, String>)
        ensures
            text::shown_view(r) == open_result(
                log@,
                expected_committee,
                expected_epoch,
                optional_snapshot(genesis),
            ),
            r is Ok ==> store_ok(r->Ok_0@),
    {
        if log.len() == 0 {
            match genesis {
                None => {
                    return Err(
                        text(
                            "empty WAL requires an explicit initialization snapshot; fail closed",
                        ),
                    );
                },
                Some(snapshot) => {
                    validate_snapshot(&snapshot, &expected_committee, expected_epoch)?;
                    let payload: Vec<u8> = encode_snapshot(&snapshot)?;
                    proof {
                        store_laws::law_replay_initialized(snapshot@, expected_committee, expected_epoch);
                        bytes::lemma_le64(snapshot.epoch);
                        bytes::lemma_le32(snapshot.bytes@.len() as u32);
                        assert(payload@.len() == 76 + snapshot.bytes@.len());
                    }
                    let log: Vec<u8> = encode_record(0, KIND_INITIALIZE, &payload)?;
                    return Ok(
                        WalStore {
                            committee_hash: expected_committee,
                            epoch: expected_epoch,
                            state: initialized_state(snapshot),
                            log,
                            failure: None,
                        },
                    );
                },
            }
        }
        let state: ReplayState = replay_wal(&log, &expected_committee, expected_epoch)?;
        proof {
            store_laws::lemma_replayed_state(log@, None, expected_committee, expected_epoch);
        }
        if let Some(provided) = genesis {
            validate_snapshot(&provided, &expected_committee, expected_epoch)?;
            if !provided.same(&state.initial_snapshot) {
                return Err(
                    text(
                        "provided initialization snapshot conflicts with durable WAL; fail closed",
                    ),
                );
            }
        }
        Ok(
            WalStore {
                committee_hash: expected_committee,
                epoch: expected_epoch,
                state,
                log,
                failure: None,
            },
        )
    }

    fn ensure_healthy(&self) -> (r: Result<(), String>)
        ensures
            text::shown(r) == healthy_verdict(self@),
    {
        if self.failure.is_some() {
            Err(
                text("WAL append previously failed; process must restart and rescan fail closed"),
            )
        } else {
            Ok(())
        }
    }

    fn ensure_active(&self, operation: &str) -> (r: Result<(), String>)
        ensures
            text::shown(r) == active_verdict(self@, operation@),
    {
        self.ensure_healthy()?;
        match self.state.lifecycle {
            Lifecycle::Active => Ok(()),
            Lifecycle::Initialized => Err(
                concat3("committee is initialized but not active; ", operation, " rejected"),
            ),
            Lifecycle::Retired => Err(concat3("committee is retired; ", operation, " rejected")),
        }
    }

    fn plan_activate(&self, handoff_hash: Digest, snapshot: Snapshot) -> (r: Result<
        Option<Change>,
        String,
    >)
        requires
            store_ok(self@),
        ensures
            shown_plan(r) == activate_plan(self@, handoff_hash, snapshot@),
            r matches Ok(Some(c)) ==> admits(self@, c@),
    {
        self.ensure_healthy()?;
        validate_snapshot(&snapshot, &self.committee_hash, self.epoch)?;
        match self.state.lifecycle {
            Lifecycle::Initialized => {
                // Initialization is only provisioning. Activation may bind a
                // handoff hash, but it may not silently replace provisioned state.
                if !snapshot.same(&self.state.current_snapshot) {
                    return Err(text("activation snapshot conflicts with initialized snapshot"));
                }
                Ok(Some(Change::Activate(ActivationRecord { handoff_hash, snapshot })))
            },
            Lifecycle::Active => {
                match &self.state.activation {
                    None => Err(
                        text("active WAL is missing its activation record; fail closed"),
                    ),
                    Some(existing) => if same_array(&existing.handoff_hash, &handoff_hash)
                        && existing.snapshot.same(&snapshot) {
                        Ok(None)
                    } else {
                        Err(text("conflicting committee activation rejected"))
                    },
                }
            },
            Lifecycle::Retired => Err(
                text("retired committee cannot be activated or resurrected"),
            ),
        }
    }

    fn plan_vote(&self, key: VoteKey, digest: Digest) -> (r: Result<Option<Change>, String>)
        requires
            store_ok(self@),
        ensures
            shown_plan(r) == vote_plan(self@, key, digest),
            r matches Ok(Some(c)) ==> admits(self@, c@),
    {
        self.ensure_active("vote")?;
        validate_phase(key.phase)?;
        if let Some(existing) = self.state.votes.get(&key) {
            return if same_array(existing, &digest) {
                Ok(None)
            } else {
                Err(text("conflicting same-round phase vote rejected"))
            };
        }
        if let Some(lock) = self.state.locks.get(&key.conflict_key) {
            if key.round < lock.round {
                return Err(text("vote below durable precommit-lock round rejected"));
            }
            if !same_array(&digest, &lock.digest) {
                return Err(text("vote conflicting with durable precommit lock rejected"));
            }
        }
        Ok(Some(Change::Vote(key, digest)))
    }

    fn plan_apply(
        &self,
        tx_digest: Digest,
        certificate_digest: Digest,
        next_snapshot: Snapshot,
    ) -> (r: Result<Option<Change>, String>)
        requires
            store_ok(self@),
        ensures
            shown_plan(r) == apply_plan(self@, tx_digest, certificate_digest, next_snapshot@),
            r matches Ok(Some(c)) ==> admits(self@, c@),
    {
        self.ensure_healthy()?;
        validate_snapshot(&next_snapshot, &self.committee_hash, self.epoch)?;
        if is_zero(&tx_digest) || is_zero(&certificate_digest) {
            return Err(
                text("verified apply requires nonzero transaction and certificate digests"),
            );
        }
        if let Some(existing) = self.state.applied.get(&tx_digest) {
            if same_array(&existing.certificate_digest, &certificate_digest)
                && existing.next_snapshot.same(&next_snapshot) {
                return Ok(None);
            }
            return Err(
                text("transaction digest was already applied with different certified state"),
            );
        }
        if self.state.lifecycle != Lifecycle::Active {
            return Err(
                text("new certified state can only be applied by an active committee"),
            );
        }
        let prior_state_root: Digest = self.state.current_snapshot.state_root;
        if same_array(&next_snapshot.state_root, &prior_state_root) {
            return Err(text("certified apply did not advance the state root"));
        }
        Ok(
            Some(
                Change::Apply(
                    AppliedRecord {
                        tx_digest,
                        certificate_digest,
                        prior_state_root,
                        next_snapshot,
                    },
                ),
            ),
        )
    }

    fn plan_retire(
        &self,
        handoff_hash: Digest,
        next_committee: Digest,
        next_epoch: u64,
        state_root: Digest,
    ) -> (r: Result<Option<Change>, String>)
        requires
            store_ok(self@),
        ensures
            shown_plan(r) == retire_plan(
                self@,
                handoff_hash,
                next_committee,
                next_epoch,
                state_root,
            ),
            r matches Ok(Some(c)) ==> admits(self@, c@),
    {
        self.ensure_healthy()?;
        if self.state.lifecycle == Lifecycle::Retired {
            return match &self.state.retirement {
                None => Err(
                    text("retired WAL is missing its retirement record; fail closed"),
                ),
                Some(existing) => if same_array(&existing.handoff_hash, &handoff_hash)
                    && same_array(&existing.next_committee, &next_committee)
                    && existing.next_epoch == next_epoch && same_array(
                    &existing.snapshot.state_root,
                    &state_root,
                ) {
                    Ok(None)
                } else {
                    Err(text("conflicting committee retirement rejected"))
                },
            };
        }
        if self.state.lifecycle != Lifecycle::Active {
            return Err(text("only an active committee can retire"));
        }
        if self.epoch == u64::MAX {
            return Err(text("epoch overflow during retirement"));
        }
        if next_epoch != self.epoch + 1 {
            return Err(text("retirement must hand off to the direct next epoch"));
        }
        if same_array(&next_committee, &self.committee_hash) {
            return Err(text("retirement must hand off to a distinct committee"));
        }
        if !same_array(&state_root, &self.state.current_snapshot.state_root) {
            return Err(text("retirement state root does not match durable current state"));
        }
        if is_zero(&handoff_hash) {
            return Err(text("retirement requires a nonzero handoff digest"));
        }
        let snapshot: Snapshot = self.state.current_snapshot.clone();
        Ok(
            Some(
                Change::Retire(
                    RetirementRecord { handoff_hash, next_committee, next_epoch, snapshot },
                ),
            ),
        )
    }

    fn record(&self, change: &Change) -> (r: Result<Vec<u8>, String>)
        requires
            change_fits(change@),
        ensures
            r is Ok,
            r->Ok_0@ == record_of(self@, change@),
    {
        proof {
            store_laws::law_change_round_trip(change@);
        }
        let payload: Vec<u8> = change.payload()?;
        encode_record(self.state.next_sequence, change.kind(), &payload)
    }

    /// The bytes that a planned change has to have written.
    fn record_bytes_of(&self, plan: Result<Option<Change>, String>) -> (r: Result<
        Option<Vec<u8>>,
        String,
    >)
        requires
            plan matches Ok(Some(c)) ==> change_fits(c@),
        ensures
            shown_record(r) == planned_record(self@, shown_plan(plan)),
    {
        match plan {
            Err(e) => Err(e),
            Ok(None) => Ok(None),
            Ok(Some(change)) => Ok(Some(self.record(&change)?)),
        }
    }

    /// Appends the record of a planned change to the log and makes the change.
    fn carry_out(&mut self, plan: Result<Option<Change>, String>) -> (r: Result<
        PersistOutcome,
        String,
    >)
        requires
            store_ok(old(self)@),
            plan matches Ok(Some(c)) ==> admits(old(self)@, c@),
        ensures
            text::shown(r) == planned_outcome(shown_plan(plan)),
            final(self)@ == planned_store(old(self)@, shown_plan(plan)),
            store_ok(final(self)@),
    {
        match plan {
            Err(e) => Err(e),
            Ok(None) => Ok(PersistOutcome::AlreadyPresent),
            Ok(Some(change)) => {
                let record: Vec<u8> = self.record(&change)?;
                let length: usize = self.log.len();
                proof {
                    let m = self@;
                    let c = change@;
                    store_laws::law_replay_change(m.log, m.state, c, m.committee_hash, m.epoch);
                    store_laws::law_change_round_trip(c);
                    store_laws::law_record_round_trip(
                        m.state.next_sequence,
                        kind_of(c),
                        payload_of(c),
                        Seq::empty(),
                    );
                    store_laws::lemma_change_state(m.state, c, m.committee_hash, m.epoch);
                }
                put_bytes(&mut self.log, &record);
                self.state.advance(change);
                Ok(PersistOutcome::Persisted)
            },
        }
    }

    /// The record that [`WalStore::activate`] appends.
    pub fn activation_record(&self, handoff_hash: Digest, snapshot: Snapshot) -> (r: Result<
        Option<Vec<u8>>,
        String,
    >)
        requires
            store_ok(self@),
        ensures
            shown_record(r) == planned_record(
                self@,
                activate_plan(self@, handoff_hash, snapshot@),
            ),
    {
        self.record_bytes_of(self.plan_activate(handoff_hash, snapshot))
    }

    /// Activates this committee from an exact handoff and snapshot.
    pub fn activate(&mut self, handoff_hash: Digest, snapshot: Snapshot) -> (r: Result<
        PersistOutcome,
        String,
    >)
        requires
            store_ok(old(self)@),
        ensures
            text::shown(r) == planned_outcome(activate_plan(old(self)@, handoff_hash, snapshot@)),
            final(self)@ == planned_store(
                old(self)@,
                activate_plan(old(self)@, handoff_hash, snapshot@),
            ),
            store_ok(final(self)@),
    {
        let plan: Result<Option<Change>, String> = self.plan_activate(handoff_hash, snapshot);
        self.carry_out(plan)
    }

    /// The record that [`WalStore::persist_vote`] appends.
    pub fn vote_record(&self, conflict_key: Digest, round: u64, phase: u8, digest: Digest) -> (r:
        Result<Option<Vec<u8>>, String>)
        requires
            store_ok(self@),
        ensures
            shown_record(r) == planned_record(
                self@,
                vote_plan(self@, (VoteKey { conflict_key, round, phase }), digest),
            ),
    {
        self.record_bytes_of(self.plan_vote(VoteKey { conflict_key, round, phase }, digest))
    }

    /// Records a phase vote. There can be only one digest for a conflict, a round
    /// and a phase. A precommit lock is monotonic: lower rounds and other digests
    /// are rejected, and it never unlocks to another digest.
    pub fn persist_vote(&mut self, conflict_key: Digest, round: u64, phase: u8, digest: Digest)
        -> (r: Result<PersistOutcome, String>)
        requires
            store_ok(old(self)@),
        ensures
            text::shown(r) == planned_outcome(
                vote_plan(old(self)@, (VoteKey { conflict_key, round, phase }), digest),
            ),
            final(self)@ == planned_store(
                old(self)@,
                vote_plan(old(self)@, (VoteKey { conflict_key, round, phase }), digest),
            ),
            store_ok(final(self)@),
    {
        let key: VoteKey = VoteKey { conflict_key, round, phase };
        let plan: Result<Option<Change>, String> = self.plan_vote(key, digest);
        self.carry_out(plan)
    }

    /// The record that [`WalStore::apply_verified`] appends.
    pub fn apply_record(
        &self,
        tx_digest: Digest,
        certificate_digest: Digest,
        next_snapshot: Snapshot,
    ) -> (r: Result<Option<Vec<u8>>, String>)
        requires
            store_ok(self@),
        ensures
            shown_record(r) == planned_record(
                self@,
                apply_plan(self@, tx_digest, certificate_digest, next_snapshot@),
            ),
    {
        self.record_bytes_of(self.plan_apply(tx_digest, certificate_digest, next_snapshot))
    }

    /// Advances the state after a certificate was verified. The certificate
    /// digest is mandatory evidence: there is no bare replacement of the state.
    pub fn apply_verified(
        &mut self,
        tx_digest: Digest,
        certificate_digest: Digest,
        next_snapshot: Snapshot,
    ) -> (r: Result<PersistOutcome, String>)
        requires
            store_ok(old(self)@),
        ensures
            text::shown(r) == planned_outcome(
                apply_plan(old(self)@, tx_digest, certificate_digest, next_snapshot@),
            ),
            final(self)@ == planned_store(
                old(self)@,
                apply_plan(old(self)@, tx_digest, certificate_digest, next_snapshot@),
            ),
            store_ok(final(self)@),
    {
        let plan: Result<Option<Change>, String> = self.plan_apply(
            tx_digest,
            certificate_digest,
            next_snapshot,
        );
        self.carry_out(plan)
    }

    /// The record that [`WalStore::retire`] appends.
    pub fn retirement_record(
        &self,
        handoff_hash: Digest,
        next_committee: Digest,
        next_epoch: u64,
        state_root: Digest,
    ) -> (r: Result<Option<Vec<u8>>, String>)
        requires
            store_ok(self@),
        ensures
            shown_record(r) == planned_record(
                self@,
                retire_plan(self@, handoff_hash, next_committee, next_epoch, state_root),
            ),
    {
        self.record_bytes_of(
            self.plan_retire(handoff_hash, next_committee, next_epoch, state_root),
        )
    }

    /// Makes the committee terminal, at the state that the handoff certified. No
    /// later vote, apply or activation can follow.
    pub fn retire(
        &mut self,
        handoff_hash: Digest,
        next_committee: Digest,
        next_epoch: u64,
        state_root: Digest,
    ) -> (r: Result<PersistOutcome, String>)
        requires
            store_ok(old(self)@),
        ensures
            text::shown(r) == planned_outcome(
                retire_plan(old(self)@, handoff_hash, next_committee, next_epoch, state_root),
            ),
            final(self)@ == planned_store(
                old(self)@,
                retire_plan(old(self)@, handoff_hash, next_committee, next_epoch, state_root),
            ),
            store_ok(final(self)@),
    {
        let plan: Result<Option<Change>, String> = self.plan_retire(
            handoff_hash,
            next_committee,
            next_epoch,
            state_root,
        );
        self.carry_out(plan)
    }

    /// Stops the store: a record could not be written, and how much of it was is
    /// not known. `found` is the length that the file has now, or why it cannot be told.
    pub fn append_failed(&mut self, found: Result<u64, String>)
        requires
            store_ok(old(self)@),
        ensures
            final(self)@ == (StoreModel { failure: Some(text::shown(found)), ..old(self)@ }),
            store_ok(final(self)@),
    {
        self.failure = Some(found);
    }

    pub fn lifecycle(&self) -> (r: Lifecycle)
        ensures
            r == self@.state.lifecycle,
    {
        self.state.lifecycle
    }

    pub fn committee_hash(&self) -> (r: Digest)
        ensures
            r == self@.committee_hash,
    {
        self.committee_hash
    }

    pub fn epoch(&self) -> (r: u64)
        ensures
            r == self@.epoch,
    {
        self.epoch
    }

    pub fn initial_snapshot(&self) -> (r: &Snapshot)
        ensures
            r@ == self@.state.initial_snapshot,
    {
        &self.state.initial_snapshot
    }

    pub fn current_snapshot(&self) -> (r: &Snapshot)
        ensures
            r@ == self@.state.current_snapshot,
    {
        &self.state.current_snapshot
    }

    pub fn activation(&self) -> (r: Option<&ActivationRecord>)
        ensures
            match r {
                Some(a) => self@.state.activation == Some(a@),
                None => self@.state.activation is None,
            },
    {
        match &self.state.activation {
            Some(a) => Some(a),
            None => None,
        }
    }

    pub fn retirement(&self) -> (r: Option<&RetirementRecord>)
        ensures
            match r {
                Some(a) => self@.state.retirement == Some(a@),
                None => self@.state.retirement is None,
            },
    {
        match &self.state.retirement {
            Some(a) => Some(a),
            None => None,
        }
    }

    pub fn vote_digest(&self, conflict_key: Digest, round: u64, phase: u8) -> (r: Option<Digest>)
        ensures
            r == self@.state.votes.get((VoteKey { conflict_key, round, phase })),
    {
        match self.state.votes.get(&VoteKey { conflict_key, round, phase }) {
            Some(d) => Some(*d),
            None => None,
        }
    }

    pub fn precommit_lock(&self, conflict_key: Digest) -> (r: Option<PrecommitLock>)
        ensures
            r == self@.state.locks.get(conflict_key),
    {
        match self.state.locks.get(&conflict_key) {
            Some(l) => Some(*l),
            None => None,
        }
    }

    pub fn applied_record(&self, tx_digest: Digest) -> (r: Option<&AppliedRecord>)
        ensures
            match r {
                Some(a) => self@.state.applied.get(tx_digest) == Some(a@),
                None => self@.state.applied.get(tx_digest) is None,
            },
    {
        self.state.applied.get(&tx_digest)
    }

    pub fn applied_count(&self) -> (r: usize)
        ensures
            r == self@.state.applied.len(),
            self@.state.applied.dom().finite(),
    {
        self.state.applied.len()
    }

    pub fn wal_records(&self) -> (r: u64)
        ensures
            r == self@.state.next_sequence,
    {
        self.state.next_sequence
    }

    /// The length of the file: that of the log, or, after a record could not be
    /// written, what it was found to be then.
    pub fn wal_bytes(&self) -> (r: Result<u64, String>)
        ensures
            text::shown(r) == file_len(self@),
    {
        match &self.failure {
            None => Ok(self.log.len() as u64),
            Some(Ok(len)) => Ok(*len),
            Some(Err(e)) => Err(text(e.as_str())),
        }
    }

    /// The bytes of the log.
    pub fn log(&self) -> (r: &Vec<u8>)
        ensures
            r@ == self@.log,
    {
        &self.log
    }
}

} // verus!
