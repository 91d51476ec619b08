//! Certifiers whose locks survive a restart: a lock is on disk before the share
//! that it is for.
//!
//! A store keeps the bytes of its log beside the locks. Whoever holds the file
//! asks for the records that a request adds, writes and syncs them, and only then
//! makes the request.
use crate::bytes;
use crate::bytes::{array_from, copy_slice, copy_vec, get_u64, put_bytes, put_digest, put_u64, same_array, same_bytes};
use crate::crypto;
use crate::crypto::{hash_domain, SigningKey};
use crate::model::{Digest, PublicKeyBytes};
use crate::ordmap::{OrdKey, OrdMap, Ordered};
use crate::spend;
use crate::spend::{
    commit, share_message_for, sign_spend, verify_authorization, Cell, InputRef, SpendModel,
    SpendTx, UserAuthorization, VerifiedSpend,
};
use crate::text;
use crate::text::{push_dec, text};
use crate::threshold;
use crate::threshold::{raw_claim, CertifierShare, CoreState, Scheme, SchemeModel};
use std::collections::HashMap;
use vstd::prelude::*;

verus! {

pub const CERT_EPOCH: u64 = 3;

pub const N: usize = 7;

pub const Q: usize = 5;

pub const LOCK_RECORD_SIZE: usize = 96;

/// The tags and the epoch of this committee.
pub open spec fn durable_scheme() -> SchemeModel {
    SchemeModel {
        user: "CALIBRE_SEC003_USER_SPEND_V1"@,
        commitment: "CALIBRE_SEC003_AUTHORIZED_TX_COMMITMENT_V1"@,
        share: "CALIBRE_SEC003_THRESHOLD_SHARE_V1"@,
        epoch: CERT_EPOCH,
    }
}

pub fn scheme() -> (r: Scheme)
    ensures
        r@ == durable_scheme(),
{
    Scheme {
        user: "CALIBRE_SEC003_USER_SPEND_V1",
        commitment: "CALIBRE_SEC003_AUTHORIZED_TX_COMMITMENT_V1",
        share: "CALIBRE_SEC003_THRESHOLD_SHARE_V1",
        epoch: CERT_EPOCH,
    }
}

pub open spec fn durable_seed(label: u64) -> Digest {
    crypto::digest("CALIBRE_SEC003_DETERMINISTIC_KEY_V1"@, bytes::le64(label))
}

pub fn deterministic_key(label: u64) -> (key: SigningKey)
    ensures
        key.seed == durable_seed(label),
{
    crate::crypto::deterministic_key("CALIBRE_SEC003_DETERMINISTIC_KEY_V1", label)
}

/// The message that the owner of the inputs signs.
pub fn canonical_user_message(tx: &SpendTx) -> (r: Vec<u8>)
    ensures
        r@ == spend::user_message(durable_scheme().user, tx@),
{
    crate::spend::canonical_user_message("CALIBRE_SEC003_USER_SPEND_V1", tx)
}

pub fn tx_commitment(tx: &SpendTx, signer: &PublicKeyBytes) -> (d: Digest)
    ensures
        d == threshold::scheme_commitment(durable_scheme(), tx@, *signer),
{
    let s: Scheme = scheme();
    commit(s.commitment, s.user, tx, signer)
}

pub fn share_message(tx_digest: &Digest, user_signer: &PublicKeyBytes, epoch: u64) -> (r: Vec<u8>)
    ensures
        r@ == spend::share_message_bytes(durable_scheme().share, *tx_digest, *user_signer, epoch),
{
    share_message_for("CALIBRE_SEC003_THRESHOLD_SHARE_V1", tx_digest, user_signer, epoch)
}

pub fn sign_user_spend(tx: &SpendTx, sk: &SigningKey) -> (r: UserAuthorization)
    ensures
        r == spend::authorization(durable_scheme().user, tx@, sk.seed),
        crypto::has_nonce(r.signature) ==> crypto::signs_well(
            sk.seed,
            spend::user_message(durable_scheme().user, tx@),
        ),
{
    sign_spend("CALIBRE_SEC003_USER_SPEND_V1", tx, sk)
}

pub fn verify_user_authorization(
    tx: &SpendTx,
    auth: &UserAuthorization,
    cells: &HashMap<u64, Cell>,
) -> (r: Result<VerifiedSpend, String>)
    ensures
        text::shown(r) == threshold::scheme_authorization(durable_scheme(), tx@, *auth, cells@),
{
    let s: Scheme = scheme();
    verify_authorization(s.user, s.commitment, false, tx, auth, cells)
}

// ---------------------------------------------------------------------------
// Records.
// ---------------------------------------------------------------------------

/// What a lock is on: an input in an epoch.
#[derive(Clone, Copy, Debug, PartialEq, Eq, Structural)]
pub struct LockKey {
    pub epoch: u64,
    pub input: InputRef,
}

impl Ordered for LockKey {
    open spec fn lt(self, other: Self) -> bool {
        self.epoch < other.epoch || self.epoch == other.epoch && Ordered::lt(
            self.input,
            other.input,
        )
    }

    proof fn lt_irreflexive(a: Self) {
    }

    proof fn lt_transitive(a: Self, b: Self, c: Self) {
    }

    proof fn lt_total(a: Self, b: Self) {
    }
}

impl OrdKey for LockKey {
    type Key = LockKey;

    open spec fn key(&self) -> LockKey {
        *self
    }

    fn twin(&self) -> (r: Self) {
        *self
    }

    fn before(&self, other: &Self) -> (r: bool) {
        let r: bool = self.epoch < other.epoch || self.epoch == other.epoch && (self.input.id
            < other.input.id || self.input.id == other.input.id && self.input.generation
            < other.input.generation);
        assert(r == Ordered::lt(*self, *other));
        r
    }

    fn same(&self, other: &Self) -> (r: bool) {
        *self == *other
    }
}

/// The part of a record that its checksum covers.
pub open spec fn lock_prefix(key: LockKey, tx_digest: Digest) -> Seq<u8> {
    crypto::ascii("CALLK003"@) + bytes::le64(key.epoch) + bytes::le64(key.input.id) + bytes::le64(key.input.generation)
        + tx_digest@
}

pub open spec fn lock_sum(prefix: Seq<u8>) -> Digest {
    crypto::digest("CALIBRE_SEC003_LOCK_RECORD_CHECKSUM_V1"@, prefix)
}

/// The record of a lock.
#[verifier::opaque]
pub open spec fn lock_record(key: LockKey, tx_digest: Digest) -> Seq<u8> {
    lock_prefix(key, tx_digest) + lock_sum(lock_prefix(key, tx_digest))@
}

/// The lock that a record is of, or why the record is refused.
pub open spec fn lock_decoded(b: Seq<u8>) -> Result<(LockKey, Digest), Seq<char>> {
    if b.len() != LOCK_RECORD_SIZE {
        Err("lock record wrong size"@)
    } else if b.subrange(0, 8) != crypto::ascii("CALLK003"@) {
        Err("lock record magic mismatch"@)
    } else if b.subrange(64, 96) != lock_sum(b.subrange(0, 64))@ {
        Err("lock record checksum mismatch"@)
    } else {
        Ok(
            (
                LockKey {
                    epoch: bytes::from_le64(b.subrange(8, 16)),
                    input: InputRef {
                        id: bytes::from_le64(b.subrange(16, 24)),
                        generation: bytes::from_le64(b.subrange(24, 32)),
                    },
                },
                bytes::arr::<32>(b.subrange(32, 64)),
            ),
        )
    }
}

proof fn lemma_lock_magic()
    ensures
        crypto::ascii("CALLK003"@).len() == 8,
{
    reveal_strlit("CALLK003");
    assert(vstd::utf8::is_ascii_chars("CALLK003"@));
    vstd::utf8::is_ascii_chars_encode_utf8("CALLK003"@);
}

pub fn lock_checksum(prefix: &[u8]) -> (d: Digest)
    ensures
        d == lock_sum(prefix@),
{
    hash_domain("CALIBRE_SEC003_LOCK_RECORD_CHECKSUM_V1", prefix)
}

pub fn encode_lock_record(key: LockKey, tx_digest: Digest) -> (r: Vec<u8>)
    ensures
        r@ == lock_record(key, tx_digest),
        r@.len() == LOCK_RECORD_SIZE,
{
    let mut out: Vec<u8> = Vec::new();
    put_bytes(&mut out, "CALLK003".as_bytes());
    put_u64(&mut out, key.epoch);
    put_u64(&mut out, key.input.id);
    put_u64(&mut out, key.input.generation);
    put_digest(&mut out, &tx_digest);
    assert(out@ =~= lock_prefix(key, tx_digest));
    let sum: Digest = lock_checksum(&out);
    put_digest(&mut out, &sum);
    proof {
        reveal(lock_record);
        lemma_lock_magic();
    }
    out
}

pub fn decode_lock_record(buf: &[u8]) -> (r: Result<(LockKey, Digest), String>)
    ensures
        text::shown(r) == lock_decoded(buf@),
{
    if buf.len() != LOCK_RECORD_SIZE {
        return Err(text("lock record wrong size"));
    }
    if !same_bytes(&buf[0..8], "CALLK003".as_bytes()) {
        return Err(text("lock record magic mismatch"));
    }
    let expected: Digest = lock_checksum(&buf[0..64]);
    if !same_bytes(&buf[64..96], &expected) {
        return Err(text("lock record checksum mismatch"));
    }
    Ok(
        (
            LockKey {
                epoch: get_u64(&buf[8..16]),
                input: InputRef { id: get_u64(&buf[16..24]), generation: get_u64(&buf[24..32]) },
            },
            array_from(&buf[32..64]),
        ),
    )
}

// ---------------------------------------------------------------------------
// The store.
// ---------------------------------------------------------------------------

/// The record number `i` of a log.
pub open spec fn lock_slot(log: Seq<u8>, i: int) -> Seq<u8> {
    log.subrange(96 * i, 96 * i + 96)
}

/// The locks after one more record, or why the record is refused.
pub open spec fn lock_taken(locks: Map<LockKey, Digest>, record: Seq<u8>) -> Result<
    Map<LockKey, Digest>,
    Seq<char>,
> {
    match lock_decoded(record) {
        Err(e) => Err(e),
        Ok((key, tx_digest)) => if locks.contains_key(key) && locks[key] != tx_digest {
            Err(
                "durable WAL contains conflicting lock for input "@ + text::dec(key.input.id as nat)
                    + " generation "@ + text::dec(key.input.generation as nat) + " epoch "@ + text::dec(
                    key.epoch as nat,
                ),
            )
        } else {
            Ok(locks.insert(key, tx_digest))
        },
    }
}

/// The locks that the first `n` records of a log hold.
pub open spec fn locks_from(log: Seq<u8>, n: int) -> Result<Map<LockKey, Digest>, Seq<char>>
    decreases n,
{
    if n <= 0 {
        Ok(Map::empty())
    } else {
        match locks_from(log, n - 1) {
            Err(e) => Err(e),
            Ok(locks) => lock_taken(locks, lock_slot(log, n - 1)),
        }
    }
}

/// How many complete records a log holds.
pub open spec fn lock_count(log: Seq<u8>) -> int {
    log.len() as int / 96
}

/// A log without the incomplete record at its end.
pub open spec fn whole_records(log: Seq<u8>) -> Seq<u8> {
    log.subrange(0, 96 * lock_count(log))
}

/// The locks that a log holds.
#[verifier::opaque]
pub open spec fn replayed_locks(log: Seq<u8>) -> Result<Map<LockKey, Digest>, Seq<char>> {
    locks_from(log, lock_count(log))
}

/// The locks of a certifier and the bytes of their log.
#[derive(Debug)]
pub struct DurableLockStore {
    log: Vec<u8>,
    locks: OrdMap<LockKey, Digest>,
}

/// The mathematical content of a [`DurableLockStore`].
#[verifier::ext_equal]
pub struct LockStoreModel {
    pub log: Seq<u8>,
    pub locks: Map<LockKey, Digest>,
}

impl View for DurableLockStore {
    type V = LockStoreModel;

    closed spec fn view(&self) -> LockStoreModel {
        LockStoreModel { log: self.log@, locks: self.locks@ }
    }
}

/// The log of a store holds its locks, and nothing but complete records.
pub open spec fn locks_durable(s: LockStoreModel) -> bool {
    &&& s.log.len() % 96 == 0
    &&& replayed_locks(s.log) == Ok::<Map<LockKey, Digest>, Seq<char>>(s.locks)
}

/// The key under which an input is locked.
pub open spec fn input_key(input: InputRef) -> LockKey {
    LockKey { epoch: CERT_EPOCH, input }
}

/// The records that locking the inputs from number `i` on adds, or why they cannot
/// be locked.
pub open spec fn pending_from(
    locks: Map<LockKey, Digest>,
    inputs: Seq<InputRef>,
    tx_digest: Digest,
    i: int,
) -> Result<Seq<u8>, Seq<char>>
    decreases inputs.len() - i,
{
    if i < 0 || i >= inputs.len() {
        Ok(Seq::empty())
    } else {
        let key = input_key(inputs[i]);
        if locks.contains_key(key) && locks[key] != tx_digest {
            Err(
                "persistent honest conflict lock for input "@ + text::dec(inputs[i].id as nat)
                    + " generation "@ + text::dec(inputs[i].generation as nat) + " epoch "@ + text::dec(
                    CERT_EPOCH as nat,
                ),
            )
        } else {
            match pending_from(locks, inputs, tx_digest, i + 1) {
                Err(e) => Err(e),
                Ok(rest) => Ok(
                    if locks.contains_key(key) {
                        rest
                    } else {
                        lock_record(key, tx_digest) + rest
                    },
                ),
            }
        }
    }
}

/// The locks after the inputs from number `i` on were locked.
pub open spec fn locked_from(
    locks: Map<LockKey, Digest>,
    inputs: Seq<InputRef>,
    tx_digest: Digest,
    i: int,
) -> Map<LockKey, Digest>
    decreases inputs.len() - i,
{
    if i < 0 || i >= inputs.len() {
        locks
    } else {
        locked_from(locks.insert(input_key(inputs[i]), tx_digest), inputs, tx_digest, i + 1)
    }
}

/// The store after it was asked to lock inputs.
pub open spec fn after_locking(s: LockStoreModel, inputs: Seq<InputRef>, tx_digest: Digest)
    -> LockStoreModel {
    match pending_from(s.locks, inputs, tx_digest, 0) {
        Err(_) => s,
        Ok(records) => LockStoreModel {
            log: s.log + records,
            locks: locked_from(s.locks, inputs, tx_digest, 0),
        },
    }
}

// ---------------------------------------------------------------------------
// What a log holds.
// ---------------------------------------------------------------------------

/// Reading back a record gives the lock that it was written for.
pub proof fn law_lock_round_trip(key: LockKey, tx_digest: Digest)
    ensures
        lock_decoded(lock_record(key, tx_digest)) == Ok::<(LockKey, Digest), Seq<char>>(
            (key, tx_digest),
        ),
        lock_record(key, tx_digest).len() == LOCK_RECORD_SIZE,
{
    broadcast use {bytes::lemma_le64, bytes::lemma_arr_of_view};

    reveal(lock_record);
    lemma_lock_magic();
    let b = lock_record(key, tx_digest);
    assert(b.subrange(0, 8) =~= crypto::ascii("CALLK003"@));
    assert(b.subrange(8, 16) =~= bytes::le64(key.epoch));
    assert(b.subrange(16, 24) =~= bytes::le64(key.input.id));
    assert(b.subrange(24, 32) =~= bytes::le64(key.input.generation));
    assert(b.subrange(32, 64) =~= tx_digest@);
    assert(b.subrange(0, 64) =~= lock_prefix(key, tx_digest));
    assert(b.subrange(64, 96) =~= lock_sum(lock_prefix(key, tx_digest))@);
}

/// The first records of a log do not depend on what follows them.
proof fn lemma_locks_prefix(log: Seq<u8>, tail: Seq<u8>, n: int)
    requires
        0 <= n,
        96 * n <= log.len(),
    ensures
        locks_from(log + tail, n) == locks_from(log, n),
    decreases n,
{
    if n > 0 {
        lemma_locks_prefix(log, tail, n - 1);
        assert(lock_slot(log + tail, n - 1) =~= lock_slot(log, n - 1));
    }
}

/// An incomplete record at the end of a log is as if it had never been written:
/// the locks before it stay.
pub proof fn law_torn_lock_log(log: Seq<u8>, torn: Seq<u8>)
    requires
        log.len() % 96 == 0,
        torn.len() < 96,
    ensures
        replayed_locks(log + torn) == replayed_locks(log),
        whole_records(log + torn) == log,
{
    reveal(replayed_locks);
    assert(lock_count(log + torn) == lock_count(log));
    lemma_locks_prefix(log, torn, lock_count(log));
    assert(whole_records(log + torn) =~= log);
}

/// Adding a record to a log adds its lock, unless it contradicts one before.
pub proof fn law_lock_appended(log: Seq<u8>, key: LockKey, tx_digest: Digest)
    requires
        log.len() % 96 == 0,
        replayed_locks(log) is Ok,
        replayed_locks(log)->Ok_0.contains_key(key) ==> replayed_locks(log)->Ok_0[key]
            == tx_digest,
    ensures
        replayed_locks(log + lock_record(key, tx_digest)) == Ok::<Map<LockKey, Digest>, Seq<char>>(
            replayed_locks(log)->Ok_0.insert(key, tx_digest),
        ),
{
    law_lock_round_trip(key, tx_digest);
    let record = lock_record(key, tx_digest);
    let n = lock_count(log);
    reveal(replayed_locks);
    assert(lock_count(log + record) == n + 1);
    lemma_locks_prefix(log, record, n);
    assert(lock_slot(log + record, n) =~= record);
}

/// What replaying the records of a lock request gives.
proof fn lemma_pending(
    log: Seq<u8>,
    start: Map<LockKey, Digest>,
    locks: Map<LockKey, Digest>,
    inputs: Seq<InputRef>,
    tx_digest: Digest,
    i: int,
)
    requires
        0 <= i <= inputs.len(),
        log.len() % 96 == 0,
        replayed_locks(log) == Ok::<Map<LockKey, Digest>, Seq<char>>(locks),
        pending_from(start, inputs, tx_digest, i) is Ok,
        forall|k: LockKey| #[trigger]
            start.contains_key(k) ==> locks.contains_key(k) && locks[k] == start[k],
        forall|k: LockKey| #[trigger]
            locks.contains_key(k) ==> start.contains_key(k) || locks[k] == tx_digest,
    ensures
        (log + pending_from(start, inputs, tx_digest, i)->Ok_0).len() % 96 == 0,
        replayed_locks(log + pending_from(start, inputs, tx_digest, i)->Ok_0) == Ok::<
            Map<LockKey, Digest>,
            Seq<char>,
        >(locked_from(locks, inputs, tx_digest, i)),
    decreases inputs.len() - i,
{
    if i < inputs.len() {
        let key = input_key(inputs[i]);
        let rest = pending_from(start, inputs, tx_digest, i + 1)->Ok_0;
        if start.contains_key(key) {
            assert(locks.insert(key, tx_digest) =~= locks);
            lemma_pending(log, start, locks, inputs, tx_digest, i + 1);
        } else {
            law_lock_round_trip(key, tx_digest);
            let record = lock_record(key, tx_digest);
            law_lock_appended(log, key, tx_digest);
            lemma_pending(
                log + record,
                start,
                locks.insert(key, tx_digest),
                inputs,
                tx_digest,
                i + 1,
            );
            assert(log + (record + rest) =~= log + record + rest);
        }
    } else {
        assert(log + Seq::<u8>::empty() =~= log);
    }
}

/// Locking keeps the log in step with the locks: what was locked is on disk, and
/// replaying the log gives it back.
pub proof fn law_locks_are_durable(s: LockStoreModel, inputs: Seq<InputRef>, tx_digest: Digest)
    requires
        locks_durable(s),
    ensures
        locks_durable(after_locking(s, inputs, tx_digest)),
{
    if pending_from(s.locks, inputs, tx_digest, 0) is Ok {
        lemma_pending(s.log, s.locks, s.locks, inputs, tx_digest, 0);
    }
}

// ---------------------------------------------------------------------------
// Running a store.
// ---------------------------------------------------------------------------

/// The store that a log gives, or why the log is refused.
pub open spec fn opened_locks(log: Seq<u8>) -> Result<LockStoreModel, Seq<char>> {
    match replayed_locks(log) {
        Err(e) => Err(e),
        Ok(locks) => Ok(LockStoreModel { log: whole_records(log), locks }),
    }
}

fn conflicting_lock(head: &str, key: &LockKey) -> (r: String)
    ensures
        r@ == head@ + text::dec(key.input.id as nat) + " generation "@ + text::dec(
            key.input.generation as nat,
        ) + " epoch "@ + text::dec(key.epoch as nat),
{
    let mut refusal: String = text(head);
    push_dec(&mut refusal, key.input.id);
    refusal.append(" generation ");
    push_dec(&mut refusal, key.input.generation);
    refusal.append(" epoch ");
    push_dec(&mut refusal, key.epoch);
    refusal
}

/// Takes one record of a log.
fn take_lock(locks: &mut OrdMap<LockKey, Digest>, record: &[u8]) -> (r: Result<(), String>)
    ensures
        match lock_taken(old(locks)@, record@) {
            Err(e) => r is Err && r->Err_0@ == e,
            Ok(next) => r is Ok && final(locks)@ == next,
        },
{
    let (key, tx_digest): (LockKey, Digest) = decode_lock_record(record)?;
    if let Some(existing) = locks.get(&key) {
        if !same_array(existing, &tx_digest) {
            return Err(
                conflicting_lock("durable WAL contains conflicting lock for input ", &key),
            );
        }
    }
    locks.insert(key, tx_digest);
    Ok(())
}

/// Takes all complete records of a log.
fn take_locks(log: &Vec<u8>) -> (r: Result<OrdMap<LockKey, Digest>, String>)
    ensures
        text::shown_view(r) == replayed_locks(log@),
{
    proof {
        reveal(replayed_locks);
    }
    let size: usize = log.len();
    let records: usize = size / LOCK_RECORD_SIZE;
    let mut locks: OrdMap<LockKey, Digest> = OrdMap::new();
    let mut i: usize = 0;
    while i < records
        invariant
            i <= records,
            records == lock_count(log@),
            96 * records <= size,
            size == log@.len(),
            replayed_locks(log@) == locks_from(log@, records as int),
            locks_from(log@, i as int) == Ok::<Map<LockKey, Digest>, Seq<char>>(locks@),
        decreases records - i,
    {
        let start: usize = i * LOCK_RECORD_SIZE;
        let taken: Result<(), String> = take_lock(
            &mut locks,
            &log.as_slice()[start..start + LOCK_RECORD_SIZE],
        );
        assert(lock_slot(log@, i as int) =~= log@.subrange(start as int, start + 96));
        if let Err(e) = taken {
            proof {
                lemma_locks_fail(log@, i + 1, records as int);
            }
            return Err(e);
        }
        i = i + 1;
    }
    Ok(locks)
}

impl DurableLockStore {
    /// Opens a store from the bytes of its log. An incomplete record at the end,
    /// which can only come from a write that was never synced, is cut off: the
    /// file is to be cut to the length of [`DurableLockStore::log`].
    pub fn open(log: Vec<u8>) -> (r: Result<Self, String>)
        ensures
            text::shown_view(r) == opened_locks(log@),
            r is Ok ==> locks_durable(r->Ok_0@),
    {
        let records: usize = log.len() / LOCK_RECORD_SIZE;
        let locks: OrdMap<LockKey, Digest> = take_locks(&log)?;
        let kept: Vec<u8> = copy_slice(&log.as_slice()[0..records * LOCK_RECORD_SIZE]);
        proof {
            assert(kept@ =~= whole_records(log@));
            assert(log@ =~= kept@ + log@.subrange(96 * records, log@.len() as int));
            law_torn_lock_log(kept@, log@.subrange(96 * records, log@.len() as int));
        }
        Ok(DurableLockStore { log: kept, locks })
    }

    /// The bytes of the log.
    pub fn log(&self) -> (r: Vec<u8>)
        ensures
            r@ == self@.log,
    {
        copy_vec(&self.log)
    }

    /// The digest that an input is locked to.
    pub fn lock_of(&self, input: InputRef) -> (r: Option<Digest>)
        ensures
            r == if self@.locks.contains_key(input_key(input)) {
                Some(self@.locks[input_key(input)])
            } else {
                None
            },
    {
        match self.locks.get(&LockKey { epoch: CERT_EPOCH, input }) {
            None => None,
            Some(tx_digest) => Some(*tx_digest),
        }
    }

    /// The records that locking the inputs adds to the log: they have to be on
    /// disk before the inputs are locked.
    pub fn pending_records(&self, inputs: &Vec<InputRef>, tx_digest: Digest) -> (r: Result<
        Vec<u8>,
        String,
    >)
        ensures
            text::shown_view(r) == pending_from(self@.locks, inputs@, tx_digest, 0),
    {
        let mut records: Vec<u8> = Vec::new();
        let ghost all = pending_from(self@.locks, inputs@, tx_digest, 0);
        let mut i: usize = 0;
        while i < inputs.len()
            invariant
                i <= inputs@.len(),
                all == pending_from(self@.locks, inputs@, tx_digest, 0),
                match pending_from(self@.locks, inputs@, tx_digest, i as int) {
                    Err(e) => all == Err::<Seq<u8>, Seq<char>>(e),
                    Ok(rest) => all == Ok::<Seq<u8>, Seq<char>>(records@ + rest),
                },
            decreases inputs@.len() - i,
        {
            let key: LockKey = LockKey { epoch: CERT_EPOCH, input: inputs[i] };
            match self.locks.get(&key) {
                Some(existing) => {
                    if !same_array(existing, &tx_digest) {
                        return Err(
                            conflicting_lock("persistent honest conflict lock for input ", &key),
                        );
                    }
                },
                None => {
                    let record: Vec<u8> = encode_lock_record(key, tx_digest);
                    proof {
                        if let Ok(rest) = pending_from(self@.locks, inputs@, tx_digest, i + 1) {
                            assert(records@ + (record@ + rest) =~= records@ + record@ + rest);
                        }
                    }
                    put_bytes(&mut records, &record);
                },
            }
            i = i + 1;
        }
        proof {
            assert(records@ + Seq::<u8>::empty() =~= records@);
        }
        Ok(records)
    }

    /// Locks the inputs to a spend, whose records are on disk. Inputs that are
    /// locked to another spend are refused, and nothing changes.
    pub fn lock_inputs_before_signing(&mut self, inputs: &Vec<InputRef>, tx_digest: Digest) -> (r:
        Result<(), String>)
        requires
            locks_durable(old(self)@),
        ensures
            locks_durable(final(self)@),
            final(self)@ == after_locking(old(self)@, inputs@, tx_digest),
            match pending_from(old(self)@.locks, inputs@, tx_digest, 0) {
                Err(e) => r is Err && r->Err_0@ == e,
                Ok(_) => r is Ok,
            },
    {
        proof {
            law_locks_are_durable(self@, inputs@, tx_digest);
        }
        let records: Vec<u8> = self.pending_records(inputs, tx_digest)?;
        let ghost before = self@;
        put_bytes(&mut self.log, &records);
        let mut i: usize = 0;
        while i < inputs.len()
            invariant
                i <= inputs@.len(),
                self.log@ == before.log + records@,
                locked_from(self.locks@, inputs@, tx_digest, i as int) == locked_from(
                    before.locks,
                    inputs@,
                    tx_digest,
                    0,
                ),
            decreases inputs@.len() - i,
        {
            self.locks.insert(LockKey { epoch: CERT_EPOCH, input: inputs[i] }, tx_digest);
            i = i + 1;
        }
        Ok(())
    }
}

/// A log whose first records are refused is refused.
proof fn lemma_locks_fail(log: Seq<u8>, n: int, m: int)
    requires
        0 <= n <= m,
        locks_from(log, n) is Err,
    ensures
        locks_from(log, m) == locks_from(log, n),
    decreases m,
{
    if n < m {
        lemma_locks_fail(log, n, m - 1);
    }
}

// ---------------------------------------------------------------------------
// Certifiers.
// ---------------------------------------------------------------------------

/// A certifier with a durable store.
#[derive(Debug)]
pub struct CertifierNode {
    pub index: usize,
    pub sk: SigningKey,
    pub byzantine: bool,
    pub store: DurableLockStore,
}

/// The mathematical content of a [`CertifierNode`].
#[verifier::ext_equal]
pub struct DurableCertifier {
    pub index: usize,
    pub seed: [u8; 32],
    pub byzantine: bool,
    pub store: LockStoreModel,
}

impl View for CertifierNode {
    type V = DurableCertifier;

    open spec fn view(&self) -> DurableCertifier {
        DurableCertifier {
            index: self.index,
            seed: self.sk.seed,
            byzantine: self.byzantine,
            store: self.store@,
        }
    }
}

/// The records that a request for a share adds to the log of a certifier, or why
/// it is refused. A Byzantine certifier writes nothing.
pub open spec fn share_records(
    node: DurableCertifier,
    tx: SpendModel,
    auth: UserAuthorization,
    cells: Map<u64, Cell>,
) -> Result<Seq<u8>, Seq<char>> {
    match threshold::scheme_authorization(durable_scheme(), tx, auth, cells) {
        Err(e) => Err(e),
        Ok(verified) => if node.byzantine {
            Ok(Seq::empty())
        } else {
            pending_from(node.store.locks, tx.inputs, verified.tx_digest, 0)
        },
    }
}

/// The share that a certifier gives for an authorized spend, or why it gives
/// none.
pub open spec fn durably_certified(
    node: DurableCertifier,
    tx: SpendModel,
    auth: UserAuthorization,
    cells: Map<u64, Cell>,
) -> Result<CertifierShare, Seq<char>> {
    match share_records(node, tx, auth, cells) {
        Err(e) => Err(e),
        Ok(_) => Ok(
            threshold::share_of(
                durable_scheme(),
                node.seed,
                threshold::scheme_authorization(durable_scheme(), tx, auth, cells)->Ok_0,
            ),
        ),
    }
}

/// A certifier whose inputs were locked, if it is honest.
pub open spec fn with_locks(node: DurableCertifier, inputs: Seq<InputRef>, tx_digest: Digest)
    -> DurableCertifier {
    if node.byzantine {
        node
    } else {
        DurableCertifier { store: after_locking(node.store, inputs, tx_digest), ..node }
    }
}

/// The certifier after it was asked for a share.
pub open spec fn after_durable_request(
    node: DurableCertifier,
    tx: SpendModel,
    auth: UserAuthorization,
    cells: Map<u64, Cell>,
) -> DurableCertifier {
    match threshold::scheme_authorization(durable_scheme(), tx, auth, cells) {
        Err(_) => node,
        Ok(verified) => with_locks(node, tx.inputs, verified.tx_digest),
    }
}

/// The certifier that a log gives, or why the log is refused.
pub open spec fn opened_certifier(index: usize, byzantine: bool, log: Seq<u8>) -> Result<
    DurableCertifier,
    Seq<char>,
> {
    match opened_locks(log) {
        Err(e) => Err(e),
        Ok(store) => Ok(
            DurableCertifier {
                index,
                seed: durable_seed((100 + index) as u64),
                byzantine,
                store,
            },
        ),
    }
}

impl CertifierNode {
    /// Opens a certifier from the bytes of its log.
    pub fn open(index: usize, byzantine: bool, log: Vec<u8>) -> (r: Result<Self, String>)
        requires
            index <= u64::MAX - 100,
        ensures
            text::shown_view(r) == opened_certifier(index, byzantine, log@),
            r is Ok ==> locks_durable(r->Ok_0@.store),
    {
        let store: DurableLockStore = DurableLockStore::open(log)?;
        Ok(CertifierNode { index, sk: deterministic_key(100 + index as u64), byzantine, store })
    }

    pub fn public(&self) -> (r: PublicKeyBytes)
        ensures
            r == crypto::public_key(self@.seed),
    {
        self.sk.verifying_key().to_bytes()
    }

    pub fn make_share(&self, verified: VerifiedSpend) -> (r: CertifierShare)
        ensures
            r == threshold::share_of(durable_scheme(), self@.seed, verified),
    {
        crate::threshold::make_share(&scheme(), &self.sk, verified)
    }

    /// The records that have to be on disk before the certifier is asked to sign.
    pub fn records_before_signing(
        &self,
        tx: &SpendTx,
        auth: &UserAuthorization,
        cells: &HashMap<u64, Cell>,
    ) -> (r: Result<Vec<u8>, String>)
        ensures
            text::shown_view(r) == share_records(self@, tx@, *auth, cells@),
    {
        let verified: VerifiedSpend = verify_user_authorization(tx, auth, cells)?;
        if self.byzantine {
            let none: Vec<u8> = Vec::new();
            assert(none@ =~= Seq::empty());
            return Ok(none);
        }
        self.store.pending_records(&tx.inputs, verified.tx_digest)
    }

    /// Locks the inputs of a verified spend, whose records are on disk. A
    /// Byzantine certifier locks nothing.
    pub fn persist_verified_locks(&mut self, tx: &SpendTx, verified: VerifiedSpend) -> (r: Result<
        (),
        String,
    >)
        requires
            locks_durable(old(self)@.store),
        ensures
            locks_durable(final(self)@.store),
            final(self)@ == with_locks(old(self)@, tx@.inputs, verified.tx_digest),
            match pending_from(old(self)@.store.locks, tx@.inputs, verified.tx_digest, 0) {
                Err(e) if !old(self)@.byzantine => r is Err && r->Err_0@ == e,
                _ => r is Ok,
            },
    {
        if self.byzantine {
            return Ok(());
        }
        self.store.lock_inputs_before_signing(&tx.inputs, verified.tx_digest)
    }

    /// Signs for a spend that the owner authorized, once its inputs are locked.
    pub fn authorize_and_sign(
        &mut self,
        tx: &SpendTx,
        auth: &UserAuthorization,
        cells: &HashMap<u64, Cell>,
    ) -> (r: Result<CertifierShare, String>)
        requires
            locks_durable(old(self)@.store),
        ensures
            locks_durable(final(self)@.store),
            text::shown(r) == durably_certified(old(self)@, tx@, *auth, cells@),
            final(self)@ == after_durable_request(old(self)@, tx@, *auth, cells@),
    {
        let verified: VerifiedSpend = verify_user_authorization(tx, auth, cells)?;
        self.persist_verified_locks(tx, verified)?;
        Ok(self.make_share(verified))
    }

    /// Signs a claim without a check of it, which only a Byzantine certifier does.
    pub fn sign_raw_claim(&self, tx: &SpendTx, claimed_user: PublicKeyBytes) -> (r: Result<
        CertifierShare,
        String,
    >)
        ensures
            text::shown(r) == if !self@.byzantine {
                Err::<CertifierShare, Seq<char>>(
                    "honest certifier refuses raw unverified claim"@,
                )
            } else {
                Ok(
                    threshold::share_of(
                        durable_scheme(),
                        self@.seed,
                        (VerifiedSpend {
                            tx_digest: threshold::scheme_commitment(durable_scheme(), tx@, claimed_user),
                            user_signer: claimed_user,
                        }),
                    ),
                )
            },
    {
        if !self.byzantine {
            return Err(text("honest certifier refuses raw unverified claim"));
        }
        Ok(self.make_share(raw_claim(&scheme(), tx, claimed_user)))
    }
}

/// The views of a committee.
pub open spec fn durable_models(nodes: Seq<CertifierNode>) -> Seq<DurableCertifier> {
    nodes.map_values(|n: CertifierNode| n@)
}

/// The stores of a committee are in step with their logs.
pub open spec fn all_durable(nodes: Seq<CertifierNode>) -> bool {
    forall|k: int| 0 <= k < nodes.len() ==> locks_durable((#[trigger] nodes[k])@.store)
}

/// The first `n` members of a committee, opened from their logs; the first `f` are
/// Byzantine. The first log that is refused decides.
pub open spec fn opened_committee(logs: Seq<Seq<u8>>, f: int, n: int) -> Result<
    Seq<DurableCertifier>,
    Seq<char>,
>
    decreases n,
{
    if n <= 0 || n > logs.len() {
        Ok(Seq::empty())
    } else {
        match opened_committee(logs, f, n - 1) {
            Err(e) => Err(e),
            Ok(nodes) => match opened_certifier((n - 1) as usize, n - 1 < f, logs[n - 1]) {
                Err(e) => Err(e),
                Ok(node) => Ok(nodes.push(node)),
            },
        }
    }
}

/// The bytes of some logs.
pub open spec fn log_bytes(logs: Seq<Vec<u8>>) -> Seq<Seq<u8>> {
    logs.map_values(|l: Vec<u8>| l@)
}

proof fn lemma_committee_fails(logs: Seq<Seq<u8>>, f: int, n: int, m: int)
    requires
        0 <= n <= m <= logs.len(),
        opened_committee(logs, f, n) is Err,
    ensures
        opened_committee(logs, f, m) == opened_committee(logs, f, n),
    decreases m,
{
    if n < m {
        lemma_committee_fails(logs, f, n, m - 1);
    }
}

/// Opens the committee from its logs.
pub fn open_committee(logs: &Vec<Vec<u8>>, f_byzantine: usize) -> (r: Result<
    Vec<CertifierNode>,
    String,
>)
    requires
        logs@.len() == N,
        f_byzantine <= N,
    ensures
        match opened_committee(log_bytes(logs@), f_byzantine as int, N as int) {
            Err(e) => r is Err && r->Err_0@ == e,
            Ok(nodes) => r is Ok && durable_models(r->Ok_0@) == nodes && all_durable(r->Ok_0@),
        },
{
    let ghost bytes = log_bytes(logs@);
    let mut nodes: Vec<CertifierNode> = Vec::new();
    let mut i: usize = 0;
    assert(durable_models(nodes@) =~= Seq::empty());
    while i < N
        invariant
            i <= N,
            logs@.len() == N,
            bytes == log_bytes(logs@),
            all_durable(nodes@),
            opened_committee(bytes, f_byzantine as int, i as int) == Ok::<
                Seq<DurableCertifier>,
                Seq<char>,
            >(durable_models(nodes@)),
        decreases N - i,
    {
        assert(bytes[i as int] == logs@[i as int]@);
        let node: Result<CertifierNode, String> = CertifierNode::open(
            i,
            i < f_byzantine,
            copy_vec(&logs[i]),
        );
        match node {
            Err(e) => {
                proof {
                    lemma_committee_fails(bytes, f_byzantine as int, i + 1, N as int);
                }
                return Err(e);
            },
            Ok(node) => {
                let ghost before = durable_models(nodes@);
                nodes.push(node);
                assert(durable_models(nodes@) =~= before.push(node@));
            },
        }
        i = i + 1;
    }
    Ok(nodes)
}

/// The public keys of a committee.
pub open spec fn durable_keys(nodes: Seq<DurableCertifier>) -> Seq<PublicKeyBytes> {
    nodes.map_values(|n: DurableCertifier| crypto::public_key(n.seed))
}

pub fn committee_keys(nodes: &Vec<CertifierNode>) -> (r: Vec<PublicKeyBytes>)
    ensures
        r@ == durable_keys(durable_models(nodes@)),
{
    let mut keys: Vec<PublicKeyBytes> = Vec::new();
    let mut i: usize = 0;
    while i < nodes.len()
        invariant
            i <= nodes@.len(),
            keys@ == durable_keys(durable_models(nodes@)).take(i as int),
        decreases nodes@.len() - i,
    {
        keys.push(nodes[i].public());
        i = i + 1;
        assert(keys@ =~= durable_keys(durable_models(nodes@)).take(i as int));
    }
    keys
}

/// A core that trusts a committee.
pub fn new_core(
    cells: HashMap<u64, Cell>,
    committee: Vec<PublicKeyBytes>,
    threshold: usize,
) -> (r: CoreState)
    ensures
        r.scheme@ == durable_scheme(),
        r.active@ == cells@,
        r.committee@ == committee@,
        r.threshold == threshold,
{
    CoreState::new(scheme(), cells, committee, threshold)
}

/// The committee and the shares after the first `n` of the chosen members were
/// asked in turn.
pub open spec fn durable_collected(
    nodes: Seq<DurableCertifier>,
    indices: Seq<usize>,
    tx: SpendModel,
    auth: UserAuthorization,
    cells: Map<u64, Cell>,
    n: int,
) -> (Seq<DurableCertifier>, Seq<CertifierShare>)
    decreases n,
{
    if n <= 0 || n > indices.len() {
        (nodes, Seq::empty())
    } else {
        let (asked, shares) = durable_collected(nodes, indices, tx, auth, cells, n - 1);
        let i = indices[n - 1] as int;
        (
            asked.update(i, after_durable_request(asked[i], tx, auth, cells)),
            match durably_certified(asked[i], tx, auth, cells) {
                Ok(share) => shares.push(share),
                Err(_) => shares,
            },
        )
    }
}

/// Asks the chosen members of a committee for shares.
pub fn collect_valid_shares(
    nodes: &mut Vec<CertifierNode>,
    indices: &Vec<usize>,
    tx: &SpendTx,
    auth: &UserAuthorization,
    cells: &HashMap<u64, Cell>,
) -> (r: Vec<CertifierShare>)
    requires
        forall|k: int| 0 <= k < indices@.len() ==> #[trigger] indices@[k] < old(nodes)@.len(),
        all_durable(old(nodes)@),
    ensures
        all_durable(final(nodes)@),
        r@ == durable_collected(
            durable_models(old(nodes)@),
            indices@,
            tx@,
            *auth,
            cells@,
            indices@.len() as int,
        ).1,
        durable_models(final(nodes)@) == durable_collected(
            durable_models(old(nodes)@),
            indices@,
            tx@,
            *auth,
            cells@,
            indices@.len() as int,
        ).0,
{
    let ghost before = durable_models(nodes@);
    let mut shares: Vec<CertifierShare> = Vec::new();
    let mut k: usize = 0;
    while k < indices.len()
        invariant
            k <= indices@.len(),
            before.len() == nodes@.len(),
            all_durable(nodes@),
            forall|j: int| 0 <= j < indices@.len() ==> #[trigger] indices@[j] < nodes@.len(),
            shares@ == durable_collected(before, indices@, tx@, *auth, cells@, k as int).1,
            durable_models(nodes@) == durable_collected(
                before,
                indices@,
                tx@,
                *auth,
                cells@,
                k as int,
            ).0,
        decreases indices@.len() - k,
    {
        let i: usize = indices[k];
        let ghost asked = durable_models(nodes@);
        let ghost held = nodes@;
        let mut node: CertifierNode = nodes.remove(i);
        assert(locks_durable(held[i as int]@.store));
        let reply: Result<CertifierShare, String> = node.authorize_and_sign(tx, auth, cells);
        nodes.insert(i, node);
        proof {
            assert(nodes@ =~= held.update(i as int, node));
            assert(asked[i as int] == held[i as int]@);
            assert(durable_models(nodes@) =~= asked.update(
                i as int,
                after_durable_request(asked[i as int], tx@, *auth, cells@),
            ));
        }
        if let Ok(share) = reply {
            shares.push(share);
        }
        k = k + 1;
    }
    shares
}

// ---------------------------------------------------------------------------
// Laws.
// ---------------------------------------------------------------------------

proof fn lemma_locked_from(
    locks: Map<LockKey, Digest>,
    inputs: Seq<InputRef>,
    tx_digest: Digest,
    i: int,
)
    requires
        0 <= i <= inputs.len(),
    ensures
        forall|key: LockKey| #[trigger]
            locks.contains_key(key) ==> locked_from(locks, inputs, tx_digest, i).contains_key(key)
                && (locked_from(locks, inputs, tx_digest, i)[key] == locks[key] || locked_from(
                locks,
                inputs,
                tx_digest,
                i,
            )[key] == tx_digest && exists|k: int|
                i <= k < inputs.len() && input_key(#[trigger] inputs[k]) == key),
        forall|k: int|
            i <= k < inputs.len() ==> locked_from(locks, inputs, tx_digest, i).contains_key(
                input_key(#[trigger] inputs[k]),
            ) && locked_from(locks, inputs, tx_digest, i)[input_key(inputs[k])] == tx_digest,
    decreases inputs.len() - i,
{
    if i < inputs.len() {
        let next = locks.insert(input_key(inputs[i]), tx_digest);
        lemma_locked_from(next, inputs, tx_digest, i + 1);
        let all = locked_from(locks, inputs, tx_digest, i);
        assert(next.contains_key(input_key(inputs[i])));
        assert forall|key: LockKey| #[trigger] locks.contains_key(key) implies all.contains_key(key)
            && (all[key] == locks[key] || all[key] == tx_digest && exists|k: int|
            i <= k < inputs.len() && input_key(#[trigger] inputs[k]) == key) by {
            assert(next.contains_key(key));
            if key == input_key(inputs[i]) {
                assert(input_key(inputs[i]) == key);
            } else if all[key] != next[key] {
                let k = choose|k: int|
                    i + 1 <= k < inputs.len() && input_key(#[trigger] inputs[k]) == key;
                assert(input_key(inputs[k]) == key);
            }
        }
    }
}

proof fn lemma_pending_verdict(
    locks: Map<LockKey, Digest>,
    inputs: Seq<InputRef>,
    tx_digest: Digest,
    i: int,
)
    requires
        0 <= i,
    ensures
        pending_from(locks, inputs, tx_digest, i) is Ok <==> forall|k: int|
            i <= k < inputs.len() ==> (locks.contains_key(input_key(#[trigger] inputs[k]))
                ==> locks[input_key(inputs[k])] == tx_digest),
    decreases inputs.len() - i,
{
    if i < inputs.len() {
        lemma_pending_verdict(locks, inputs, tx_digest, i + 1);
    }
}

/// A lock is never let go: whatever a certifier is asked, an input that is locked
/// to a spend stays locked to it.
pub proof fn law_durable_locks_are_kept(
    node: DurableCertifier,
    tx: SpendModel,
    auth: UserAuthorization,
    cells: Map<u64, Cell>,
    key: LockKey,
)
    requires
        node.store.locks.contains_key(key),
    ensures
        after_durable_request(node, tx, auth, cells).store.locks.contains_key(key),
        after_durable_request(node, tx, auth, cells).store.locks[key] == node.store.locks[key],
{
    if let Ok(verified) = threshold::scheme_authorization(durable_scheme(), tx, auth, cells) {
        lemma_locked_from(node.store.locks, tx.inputs, verified.tx_digest, 0);
        lemma_pending_verdict(node.store.locks, tx.inputs, verified.tx_digest, 0);
    }
}

/// The log of a certifier only grows, so that what was on disk stays there.
pub proof fn law_lock_log_grows(
    node: DurableCertifier,
    tx: SpendModel,
    auth: UserAuthorization,
    cells: Map<u64, Cell>,
)
    ensures
        node.store.log.is_prefix_of(after_durable_request(node, tx, auth, cells).store.log),
{
    if let Ok(verified) = threshold::scheme_authorization(durable_scheme(), tx, auth, cells) {
        if let Ok(records) = pending_from(
            node.store.locks,
            tx.inputs,
            verified.tx_digest,
            0,
        ) {
            assert(node.store.log =~= (node.store.log + records).take(
                node.store.log.len() as int,
            ));
        }
    }
}

/// A share of an honest certifier comes after its locks: every input of what it
/// signed is locked to it, and on disk.
pub proof fn law_share_is_locked_on_disk(
    node: DurableCertifier,
    tx: SpendModel,
    auth: UserAuthorization,
    cells: Map<u64, Cell>,
    k: int,
)
    requires
        locks_durable(node.store),
        !node.byzantine,
        durably_certified(node, tx, auth, cells) is Ok,
        0 <= k < tx.inputs.len(),
    ensures
        ({
            let on_disk = replayed_locks(after_durable_request(node, tx, auth, cells).store.log);
            &&& on_disk is Ok
            &&& on_disk->Ok_0.contains_key(input_key(tx.inputs[k]))
            &&& on_disk->Ok_0[input_key(tx.inputs[k])] == durably_certified(
                node,
                tx,
                auth,
                cells,
            )->Ok_0.tx_digest
        }),
{
    let verified = threshold::scheme_authorization(durable_scheme(), tx, auth, cells)->Ok_0;
    law_locks_are_durable(node.store, tx.inputs, verified.tx_digest);
    lemma_locked_from(node.store.locks, tx.inputs, verified.tx_digest, 0);
    assert(input_key(tx.inputs[k]) == input_key(tx.inputs[k]));
}

/// A restart forgets nothing: opening a certifier from its log, with or without an
/// incomplete record at the end, gives the certifier back.
pub proof fn law_certifier_restart(node: DurableCertifier, torn: Seq<u8>)
    requires
        locks_durable(node.store),
        node.seed == durable_seed((100 + node.index) as u64),
        torn.len() < 96,
    ensures
        opened_certifier(node.index, node.byzantine, node.store.log + torn) == Ok::<
            DurableCertifier,
            Seq<char>,
        >(node),
{
    law_torn_lock_log(node.store.log, torn);
}

/// After an honest certifier signed, no restart lets it sign a conflicting spend:
/// the certifier that its log gives refuses any other spend of the same input.
pub proof fn law_conflict_is_refused_after_restart(
    node: DurableCertifier,
    tx: SpendModel,
    auth: UserAuthorization,
    other: SpendModel,
    other_auth: UserAuthorization,
    cells: Map<u64, Cell>,
    torn: Seq<u8>,
    k: int,
    j: int,
)
    requires
        locks_durable(node.store),
        node.seed == durable_seed((100 + node.index) as u64),
        !node.byzantine,
        durably_certified(node, tx, auth, cells) is Ok,
        torn.len() < 96,
        0 <= k < tx.inputs.len(),
        0 <= j < other.inputs.len(),
        tx.inputs[k] == other.inputs[j],
        threshold::scheme_commitment(durable_scheme(), other, other_auth.signer) != durably_certified(
            node,
            tx,
            auth,
            cells,
        )->Ok_0.tx_digest,
    ensures
        ({
            let log = after_durable_request(node, tx, auth, cells).store.log;
            let restarted = opened_certifier(node.index, node.byzantine, log + torn);
            &&& restarted is Ok
            &&& durably_certified(restarted->Ok_0, other, other_auth, cells) is Err
        }),
{
    let after = after_durable_request(node, tx, auth, cells);
    let verified = threshold::scheme_authorization(durable_scheme(), tx, auth, cells)->Ok_0;
    law_locks_are_durable(node.store, tx.inputs, verified.tx_digest);
    law_certifier_restart(after, torn);
    law_share_is_locked_on_disk(node, tx, auth, cells, k);
    lemma_pending_verdict(
        after.store.locks,
        other.inputs,
        threshold::scheme_commitment(durable_scheme(), other, other_auth.signer),
        0,
    );
    assert(input_key(other.inputs[j]) == input_key(tx.inputs[k]));
}

/// A complete record that is not what it was written as is refused: a log with
/// such a record opens no store.
pub proof fn law_corrupt_lock_log_is_refused(log: Seq<u8>, i: int)
    requires
        0 <= i < lock_count(log),
        lock_decoded(lock_slot(log, i)) is Err,
    ensures
        opened_locks(log) is Err,
{
    reveal(replayed_locks);
    if locks_from(log, i) is Ok {
        assert(locks_from(log, i + 1) is Err);
        lemma_locks_fail(log, i + 1, lock_count(log));
    } else {
        lemma_locks_fail(log, i, lock_count(log));
    }
}

/// Whoever puts an earlier log back puts the earlier locks back: the store cannot
/// tell, and what was locked since is free again.
pub proof fn law_rollback_restores_earlier_locks(node: DurableCertifier, later: Seq<u8>)
    requires
        locks_durable(node.store),
        node.store.log.is_prefix_of(later),
    ensures
        opened_locks(later.take(node.store.log.len() as int)) == Ok::<LockStoreModel, Seq<char>>(
            node.store,
        ),
{
    assert(later.take(node.store.log.len() as int) =~= node.store.log);
    assert(node.store.log + Seq::<u8>::empty() =~= node.store.log);
    law_torn_lock_log(node.store.log, Seq::empty());
}

/// A certifier gives its share exactly if the owner's authorization holds and, unless it is
/// Byzantine, each input is unlocked in this epoch or locked to this very spend. The share is
/// its own signature on the commitment.
pub proof fn law_durable_share_is_given_if(
    node: DurableCertifier,
    tx: SpendModel,
    auth: UserAuthorization,
    cells: Map<u64, Cell>,
)
    ensures
        ({
            let r = durably_certified(node, tx, auth, cells);
            let digest = threshold::scheme_commitment(durable_scheme(), tx, auth.signer);
            &&& r is Ok <==> threshold::scheme_authorization(durable_scheme(), tx, auth, cells)
                is Ok && (node.byzantine || forall|k: int|
                0 <= k < tx.inputs.len() && node.store.locks.contains_key(
                    LockKey { epoch: 3, input: #[trigger] tx.inputs[k] },
                ) ==> node.store.locks[LockKey { epoch: 3, input: tx.inputs[k] }] == digest)
            &&& r matches Ok(share) ==> {
                &&& share.certifier == crypto::public_key(node.seed)
                &&& share.tx_digest == digest
                &&& share.user_signer == auth.signer
                &&& share.epoch == 3
                &&& share.signature == crypto::signature(
                    node.seed,
                    spend::share_message_bytes(durable_scheme().share, digest, auth.signer, 3),
                )
            }
        }),
{
    spend::law_spend_is_authorized_if(
        durable_scheme().user,
        durable_scheme().commitment,
        false,
        tx,
        auth,
        cells,
    );
    let digest = threshold::scheme_commitment(durable_scheme(), tx, auth.signer);
    lemma_pending_verdict(node.store.locks, tx.inputs, digest, 0);
}

proof fn lemma_locked_only(
    locks: Map<LockKey, Digest>,
    inputs: Seq<InputRef>,
    tx_digest: Digest,
    i: int,
    key: LockKey,
)
    requires
        0 <= i <= inputs.len(),
        forall|k: int| i <= k < inputs.len() ==> input_key(#[trigger] inputs[k]) != key,
    ensures
        locked_from(locks, inputs, tx_digest, i).contains_key(key) <==> locks.contains_key(key),
    decreases inputs.len() - i,
{
    if i < inputs.len() {
        assert(input_key(inputs[i]) != key);
        lemma_locked_only(
            locks.insert(input_key(inputs[i]), tx_digest),
            inputs,
            tx_digest,
            i + 1,
            key,
        );
    }
}

/// Locking inputs that are free, or locked to the same spend, locks all of them to it in
/// this epoch, and nothing else.
pub proof fn law_inputs_are_locked(
    s: LockStoreModel,
    inputs: Seq<InputRef>,
    tx_digest: Digest,
    key: LockKey,
)
    requires
        forall|k: int|
            0 <= k < inputs.len() && s.locks.contains_key(
                LockKey { epoch: 3, input: #[trigger] inputs[k] },
            ) ==> s.locks[LockKey { epoch: 3, input: inputs[k] }] == tx_digest,
    ensures
        ({
            let after = after_locking(s, inputs, tx_digest);
            &&& after.locks.contains_key(key) <==> s.locks.contains_key(key) || key.epoch == 3
                && inputs.contains(key.input)
            &&& key.epoch == 3 && inputs.contains(key.input) ==> after.locks[key] == tx_digest
            &&& s.locks.contains_key(key) ==> after.locks[key] == s.locks[key]
        }),
{
    lemma_pending_verdict(s.locks, inputs, tx_digest, 0);
    lemma_locked_from(s.locks, inputs, tx_digest, 0);
    if key.epoch == 3 && inputs.contains(key.input) {
        let k = choose|k: int| 0 <= k < inputs.len() && inputs[k] == key.input;
        assert(input_key(inputs[k]) == key);
    } else {
        assert forall|k: int| 0 <= k < inputs.len() implies input_key(#[trigger] inputs[k])
            != key by {
            assert(inputs.contains(inputs[k]));
        }
        lemma_locked_only(s.locks, inputs, tx_digest, 0, key);
    }
}

proof fn lemma_committee(logs: Seq<Seq<u8>>, f: int, n: int)
    requires
        0 <= n <= logs.len() <= usize::MAX,
    ensures
        opened_committee(logs, f, n) is Ok <==> forall|i: int|
            0 <= i < n ==> replayed_locks(#[trigger] logs[i]) is Ok,
        opened_committee(logs, f, n) matches Ok(nodes) ==> nodes.len() == n && forall|i: int|
            0 <= i < n ==> {
                &&& (#[trigger] nodes[i]).index == i
                &&& nodes[i].byzantine <==> i < f
                &&& nodes[i].seed == durable_seed((100 + i) as u64)
                &&& replayed_locks(logs[i]) == Ok::<Map<LockKey, Digest>, Seq<char>>(
                    nodes[i].store.locks,
                )
            },
    decreases n,
{
    if n > 0 {
        lemma_committee(logs, f, n - 1);
    }
}

/// A committee opens exactly if the log of every certifier can be read. They come in the
/// order of their logs, each with its own key and the locks of its log, and the first ones
/// are Byzantine.
pub proof fn law_committee_opens_if(logs: Seq<Seq<u8>>, f: int)
    requires
        logs.len() == 7,
    ensures
        opened_committee(logs, f, N as int) is Ok <==> forall|i: int|
            0 <= i < 7 ==> replayed_locks(#[trigger] logs[i]) is Ok,
        opened_committee(logs, f, N as int) matches Ok(nodes) ==> nodes.len() == 7 && forall|i: int|
            0 <= i < 7 ==> {
                &&& (#[trigger] nodes[i]).index == i
                &&& nodes[i].byzantine <==> i < f
                &&& nodes[i].seed == durable_seed((100 + i) as u64)
                &&& replayed_locks(logs[i]) == Ok::<Map<LockKey, Digest>, Seq<char>>(
                    nodes[i].store.locks,
                )
            },
{
    lemma_committee(logs, f, 7);
}

proof fn lemma_durably_collected(
    nodes: Seq<DurableCertifier>,
    indices: Seq<usize>,
    tx: SpendModel,
    auth: UserAuthorization,
    cells: Map<u64, Cell>,
    n: int,
)
    requires
        0 <= n <= indices.len(),
        forall|k: int| 0 <= k < indices.len() ==> #[trigger] indices[k] < nodes.len(),
        indices.no_duplicates(),
        forall|k: int|
            0 <= k < indices.len() ==> durably_certified(
                nodes[(#[trigger] indices[k]) as int],
                tx,
                auth,
                cells,
            ) is Ok,
    ensures
        ({
            let (asked, shares) = durable_collected(nodes, indices, tx, auth, cells, n);
            &&& asked.len() == nodes.len()
            &&& shares.len() == n
            &&& forall|k: int|
                0 <= k < n ==> Ok::<CertifierShare, Seq<char>>(#[trigger] shares[k])
                    == durably_certified(nodes[indices[k] as int], tx, auth, cells)
            &&& forall|k: int|
                n <= k < indices.len() ==> asked[(#[trigger] indices[k]) as int]
                    == nodes[indices[k] as int]
        }),
    decreases n,
{
    if n > 0 {
        lemma_durably_collected(nodes, indices, tx, auth, cells, n - 1);
        let (asked, shares) = durable_collected(nodes, indices, tx, auth, cells, n - 1);
        let i = indices[n - 1] as int;
        assert(asked[i] == nodes[i]);
        assert forall|k: int| n <= k < indices.len() implies #[trigger] indices[k]
            != indices[n - 1] by {}
    }
}

/// Where every certifier that is asked gives its share, the shares are all of them, in the
/// order in which they were asked.
pub proof fn law_durable_shares_are_collected(
    nodes: Seq<DurableCertifier>,
    indices: Seq<usize>,
    tx: SpendModel,
    auth: UserAuthorization,
    cells: Map<u64, Cell>,
    k: int,
)
    requires
        forall|j: int| 0 <= j < indices.len() ==> #[trigger] indices[j] < nodes.len(),
        indices.no_duplicates(),
        forall|j: int|
            0 <= j < indices.len() ==> durably_certified(
                nodes[(#[trigger] indices[j]) as int],
                tx,
                auth,
                cells,
            ) is Ok,
        0 <= k < indices.len(),
    ensures
        ({
            let shares = durable_collected(
                nodes,
                indices,
                tx,
                auth,
                cells,
                indices.len() as int,
            ).1;
            &&& shares.len() == indices.len()
            &&& shares[k].certifier == crypto::public_key(nodes[indices[k] as int].seed)
            &&& shares[k].tx_digest == threshold::scheme_commitment(
                durable_scheme(),
                tx,
                auth.signer,
            )
        }),
{
    lemma_durably_collected(nodes, indices, tx, auth, cells, indices.len() as int);
    law_durable_share_is_given_if(nodes[indices[k] as int], tx, auth, cells);
    let shares = durable_collected(nodes, indices, tx, auth, cells, indices.len() as int).1;
    assert(Ok::<CertifierShare, Seq<char>>(shares[k]) == durably_certified(
        nodes[indices[k] as int],
        tx,
        auth,
        cells,
    ));
}

} // verus!
