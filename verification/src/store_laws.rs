//! What holds of every log and of every state that a log brings about.
use crate::bytes;
use crate::model::{Digest, PHASE_PRECOMMIT};
use crate::store;
use crate::store::{
    ChangeModel, Lifecycle, ReplayModel, SnapshotModel, StoreModel, VoteKey, KIND_ACTIVATE, KIND_APPLY,
    KIND_INITIALIZE, KIND_VOTE,
    MAX_PAYLOAD_BYTES, MAX_SNAPSHOT_BYTES, WAL_VERSION,
};
use vstd::prelude::*;

verus! {

// ---------------------------------------------------------------------------
// What is written is read back.
// ---------------------------------------------------------------------------

proof fn lemma_front(a: Seq<u8>, t: Seq<u8>)
    ensures
        store::w_take(a + t, a.len() as int) == Ok::<(Seq<u8>, Seq<u8>), Seq<char>>((a, t)),
{
    reveal(store::w_take);
    assert((a + t).subrange(0, a.len() as int) =~= a);
    assert((a + t).subrange(a.len() as int, (a + t).len() as int) =~= t);
}

proof fn lemma_front_digest(d: Digest, t: Seq<u8>)
    ensures
        store::w_digest(d@ + t) == Ok::<(Digest, Seq<u8>), Seq<char>>((d, t)),
{
    lemma_front(d@, t);
    bytes::lemma_arr_of_view(d);
}

proof fn lemma_front_u64(x: u64, t: Seq<u8>)
    ensures
        store::w_u64(bytes::le64(x) + t) == Ok::<(u64, Seq<u8>), Seq<char>>((x, t)),
{
    bytes::lemma_le64(x);
    lemma_front(bytes::le64(x), t);
}

proof fn lemma_front_u32(x: u32, t: Seq<u8>)
    ensures
        store::w_u32(bytes::le32(x) + t) == Ok::<(u32, Seq<u8>), Seq<char>>((x, t)),
{
    bytes::lemma_le32(x);
    lemma_front(bytes::le32(x), t);
}

proof fn lemma_front_u8(x: u8, t: Seq<u8>)
    ensures
        store::w_u8(seq![x] + t) == Ok::<(u8, Seq<u8>), Seq<char>>((x, t)),
{
    lemma_front(seq![x], t);
}

/// A snapshot that is not too large is read back from its bytes.
pub proof fn law_snapshot_round_trip(s: SnapshotModel)
    requires
        s.bytes.len() <= MAX_SNAPSHOT_BYTES,
    ensures
        store::w_exact(store::w_snapshot(store::snapshot_bytes(s))) == Ok::<SnapshotModel, Seq<char>>(s),
{
    lemma_snapshot_front(s);
}

proof fn lemma_snapshot_front(s: SnapshotModel)
    requires
        s.bytes.len() <= MAX_SNAPSHOT_BYTES,
    ensures
        store::w_snapshot(store::snapshot_bytes(s)) == Ok::<(SnapshotModel, Seq<u8>), Seq<char>>(
            (s, Seq::empty()),
        ),
        store::snapshot_bytes(s).len() == 76 + s.bytes.len(),
{
    let n = s.bytes.len() as u32;
    let t3 = s.bytes;
    let t2 = bytes::le32(n) + t3;
    let t1 = s.state_root@ + t2;
    let t0 = bytes::le64(s.epoch) + t1;
    bytes::lemma_le64(s.epoch);
    bytes::lemma_le32(n);
    assert(store::snapshot_bytes(s) =~= s.committee_hash@ + t0);
    lemma_front_digest(s.committee_hash, t0);
    lemma_front_u64(s.epoch, t1);
    lemma_front_digest(s.state_root, t2);
    lemma_front_u32(n, t3);
    bytes::lemma_concat_empty(s.bytes);
    lemma_front(s.bytes, Seq::empty());
}

/// A change is read back from the payload of its record.
pub proof fn law_change_round_trip(c: ChangeModel)
    requires
        store::change_fits(c),
    ensures
        store::w_exact(store::w_change(store::kind_of(c), store::payload_of(c))) == Ok::<ChangeModel, Seq<char>>(c),
        store::payload_of(c).len() <= MAX_PAYLOAD_BYTES,
{
    match c {
        ChangeModel::Activate(a) => {
            lemma_snapshot_front(a.snapshot);
            lemma_front_digest(a.handoff_hash, store::snapshot_bytes(a.snapshot));
        },
        ChangeModel::Vote(k, digest) => {
            let t2 = digest@;
            let t1 = seq![k.phase] + t2;
            let t0 = bytes::le64(k.round) + t1;
            bytes::lemma_le64(k.round);
            assert(store::payload_of(c) =~= k.conflict_key@ + t0);
            lemma_front_digest(k.conflict_key, t0);
            lemma_front_u64(k.round, t1);
            lemma_front_u8(k.phase, t2);
            bytes::lemma_concat_empty(digest@);
            lemma_front_digest(digest, Seq::empty());
        },
        ChangeModel::Apply(a) => {
            let t2 = store::snapshot_bytes(a.next_snapshot);
            let t1 = a.prior_state_root@ + t2;
            let t0 = a.certificate_digest@ + t1;
            lemma_snapshot_front(a.next_snapshot);
            assert(store::payload_of(c) =~= a.tx_digest@ + t0);
            lemma_front_digest(a.tx_digest, t0);
            lemma_front_digest(a.certificate_digest, t1);
            lemma_front_digest(a.prior_state_root, t2);
        },
        ChangeModel::Retire(a) => {
            let t2 = store::snapshot_bytes(a.snapshot);
            let t1 = bytes::le64(a.next_epoch) + t2;
            let t0 = a.next_committee@ + t1;
            lemma_snapshot_front(a.snapshot);
            bytes::lemma_le64(a.next_epoch);
            assert(store::payload_of(c) =~= a.handoff_hash@ + t0);
            lemma_front_digest(a.handoff_hash, t0);
            lemma_front_digest(a.next_committee, t1);
            lemma_front_u64(a.next_epoch, t2);
        },
    }
}

proof fn lemma_take_more(s: Seq<u8>, n: int, t: Seq<u8>)
    requires
        0 <= n,
    ensures
        store::w_take(s, n) matches Ok((a, rest)) ==> store::w_take(s + t, n) == Ok::<
            (Seq<u8>, Seq<u8>),
            Seq<char>,
        >((a, rest + t)),
{
    reveal(store::w_take);
    if s.len() >= n {
        assert((s + t).subrange(0, n) =~= s.subrange(0, n));
        assert((s + t).subrange(n, (s + t).len() as int) =~= s.subrange(n, s.len() as int) + t);
    }
}

proof fn lemma_snapshot_more(s: Seq<u8>, t: Seq<u8>)
    ensures
        store::w_snapshot(s) matches Ok((v, rest)) ==> store::w_snapshot(s + t) == Ok::<
            (SnapshotModel, Seq<u8>),
            Seq<char>,
        >((v, rest + t)),
{
    if store::w_snapshot(s) is Ok {
        let s1 = store::w_digest(s)->Ok_0.1;
        let s2 = store::w_u64(s1)->Ok_0.1;
        let s3 = store::w_digest(s2)->Ok_0.1;
        let (len, s4) = store::w_u32(s3)->Ok_0;
        lemma_take_more(s, 32, t);
        lemma_take_more(s1, 8, t);
        lemma_take_more(s2, 32, t);
        lemma_take_more(s3, 4, t);
        lemma_take_more(s4, len as int, t);
    }
}

proof fn lemma_change_more(kind: u8, s: Seq<u8>, t: Seq<u8>)
    ensures
        store::w_change(kind, s) matches Ok((v, rest)) ==> store::w_change(kind, s + t) == Ok::<
            (ChangeModel, Seq<u8>),
            Seq<char>,
        >((v, rest + t)),
{
    if store::w_change(kind, s) is Ok {
        let s1 = store::w_digest(s)->Ok_0.1;
        lemma_take_more(s, 32, t);
        if kind == KIND_ACTIVATE {
            lemma_snapshot_more(s1, t);
        } else if kind == KIND_VOTE {
            let s2 = store::w_u64(s1)->Ok_0.1;
            let s3 = store::w_u8(s2)->Ok_0.1;
            lemma_take_more(s1, 8, t);
            lemma_take_more(s2, 1, t);
            lemma_take_more(s3, 32, t);
        } else if kind == KIND_APPLY {
            let s2 = store::w_digest(s1)->Ok_0.1;
            let s3 = store::w_digest(s2)->Ok_0.1;
            lemma_take_more(s1, 32, t);
            lemma_take_more(s2, 32, t);
            lemma_snapshot_more(s3, t);
        } else {
            let s2 = store::w_digest(s1)->Ok_0.1;
            let s3 = store::w_u64(s2)->Ok_0.1;
            lemma_take_more(s1, 32, t);
            lemma_take_more(s2, 8, t);
            lemma_snapshot_more(s3, t);
        }
    }
}

/// A payload says where it ends: of two payloads of one kind of which the one goes on
/// where the other ends, a log holds at most one.
pub proof fn law_payload_is_delimited(
    state: Option<ReplayModel>,
    kind: u8,
    payload: Seq<u8>,
    more: Seq<u8>,
    committee: Digest,
    epoch: u64,
)
    requires
        more.len() > 0,
    ensures
        store::next_state(state, kind, payload, committee, epoch) is Err || store::next_state(
            state,
            kind,
            payload + more,
            committee,
            epoch,
        ) is Err,
{
    reveal(store::next_state);
    lemma_snapshot_more(payload, more);
    lemma_change_more(kind, payload, more);
}

proof fn lemma_header(sequence: nat, kind: u8, len: nat)
    requires
        sequence <= u64::MAX,
        len <= MAX_PAYLOAD_BYTES,
    ensures
        store::header_bytes(sequence, kind, len).len() == 24,
        store::header_bytes(sequence, kind, len).subrange(0, 8) == store::wal_magic(),
        bytes::from_le16(store::header_bytes(sequence, kind, len).subrange(8, 10)) == WAL_VERSION,
        store::header_bytes(sequence, kind, len)[10] == kind,
        store::header_bytes(sequence, kind, len)[11] == 0,
        bytes::from_le32(store::header_bytes(sequence, kind, len).subrange(12, 16)) == len,
        bytes::from_le64(store::header_bytes(sequence, kind, len).subrange(16, 24)) == sequence,
{
    let h = store::header_bytes(sequence, kind, len);
    bytes::lemma_le16(WAL_VERSION);
    bytes::lemma_le32(len as u32);
    bytes::lemma_le64(sequence as u64);
    assert(h.subrange(0, 8) =~= store::wal_magic());
    assert(h.subrange(8, 10) =~= bytes::le16(WAL_VERSION));
    assert(h.subrange(12, 16) =~= bytes::le32(len as u32));
    assert(h.subrange(16, 24) =~= bytes::le64(sequence as u64));
}

/// A record is read back from its bytes, whatever follows it.
pub proof fn law_record_round_trip(sequence: nat, kind: u8, payload: Seq<u8>, t: Seq<u8>)
    requires
        sequence <= u64::MAX,
        payload.len() <= MAX_PAYLOAD_BYTES,
    ensures
        store::record_result(store::record_bytes(sequence, kind, payload) + t, sequence) == Ok::<
            (u8, Seq<u8>, Seq<u8>),
            Seq<char>,
        >((kind, payload, t)),
        store::record_bytes(sequence, kind, payload).len() == 56 + payload.len(),
{
    reveal(store::record_result);
    let h = store::header_bytes(sequence, kind, payload.len());
    let sum = store::checksum_of(h, payload)@;
    let s = store::record_bytes(sequence, kind, payload) + t;
    lemma_header(sequence, kind, payload.len());
    assert(sum.len() == 32);
    assert(s.subrange(0, 24) =~= h);
    assert(s.subrange(24, 24 + payload.len() as int) =~= payload);
    assert(s.subrange(24 + payload.len() as int, 56 + payload.len() as int) =~= sum);
    assert(s.subrange(56 + payload.len() as int, s.len() as int) =~= t);
}

/// A record that was cut off is refused.
pub proof fn law_torn_record(sequence: nat, kind: u8, payload: Seq<u8>, n: int)
    requires
        sequence <= u64::MAX,
        payload.len() <= MAX_PAYLOAD_BYTES,
        0 < n < store::record_bytes(sequence, kind, payload).len(),
    ensures
        store::record_result(store::record_bytes(sequence, kind, payload).subrange(0, n), sequence) == Err::<
            (u8, Seq<u8>, Seq<u8>),
            Seq<char>,
        >("incomplete WAL record; fail closed"@),
{
    reveal(store::record_result);
    let h = store::header_bytes(sequence, kind, payload.len());
    let r = store::record_bytes(sequence, kind, payload);
    let s = r.subrange(0, n);
    lemma_header(sequence, kind, payload.len());
    assert(store::checksum_of(h, payload)@.len() == 32);
    if n >= 56 {
        assert(s.subrange(0, 24) =~= h);
    }
}

// ---------------------------------------------------------------------------
// Logs.
// ---------------------------------------------------------------------------

pub proof fn lemma_record_extends(s: Seq<u8>, t: Seq<u8>, sequence: nat)
    requires
        store::record_result(s, sequence) is Ok,
    ensures
        store::record_result(s + t, sequence) == Ok::<(u8, Seq<u8>, Seq<u8>), Seq<char>>(
            (
                store::record_result(s, sequence)->Ok_0.0,
                store::record_result(s, sequence)->Ok_0.1,
                store::record_result(s, sequence)->Ok_0.2 + t,
            ),
        ),
        store::record_result(s, sequence)->Ok_0.2.len() < s.len(),
{
    reveal(store::record_result);
    let u = s + t;
    let len = bytes::from_le32(s.subrange(0, 24).subrange(12, 16)) as int;
    assert(u.subrange(0, 24) =~= s.subrange(0, 24));
    assert(u.subrange(24, 24 + len) =~= s.subrange(24, 24 + len));
    assert(u.subrange(24 + len, 56 + len) =~= s.subrange(24 + len, 56 + len));
    assert(u.subrange(56 + len, u.len() as int) =~= s.subrange(56 + len, s.len() as int) + t);
}

/// To take up a log and then what was appended to it is to take up the whole.
pub proof fn law_replay_append(
    s: Seq<u8>,
    t: Seq<u8>,
    state: Option<ReplayModel>,
    committee: Digest,
    epoch: u64,
)
    requires
        store::replay_from(s, state, committee, epoch) is Ok,
    ensures
        store::replay_from(s + t, state, committee, epoch) == store::replay_from(
            t,
            Some(store::replay_from(s, state, committee, epoch)->Ok_0),
            committee,
            epoch,
        ),
    decreases s.len(),
{
    if s.len() == 0 {
        assert(s + t =~= t);
    } else {
        let sequence = store::sequence_of(state);
        lemma_record_extends(s, t, sequence);
        let (kind, payload, rest) = store::record_result(s, sequence)->Ok_0;
        let m = store::next_state(state, kind, payload, committee, epoch)->Ok_0;
        law_replay_append(rest, t, Some(m), committee, epoch);
    }
}

/// To append the record of a change that may follow is to make the change.
pub proof fn law_replay_change(
    log: Seq<u8>,
    m: ReplayModel,
    c: ChangeModel,
    committee: Digest,
    epoch: u64,
)
    requires
        store::replayed(log, committee, epoch) == Ok::<ReplayModel, Seq<char>>(m),
        m.next_sequence <= u64::MAX,
        store::change_fits(c),
        store::place_verdict(m, store::kind_of(c)) is Ok,
        store::change_verdict(m, c, committee, epoch) is Ok,
    ensures
        store::replayed(
            log + store::record_bytes(m.next_sequence, store::kind_of(c), store::payload_of(c)),
            committee,
            epoch,
        ) == Ok::<ReplayModel, Seq<char>>(store::changed(m, c)),
{
    let r = store::record_bytes(m.next_sequence, store::kind_of(c), store::payload_of(c));
    law_replay_append(log, r, None, committee, epoch);
    law_change_round_trip(c);
    law_record_round_trip(m.next_sequence, store::kind_of(c), store::payload_of(c), Seq::empty());
    bytes::lemma_concat_empty(r);
    reveal(store::next_state);
    let after = store::changed(m, c);
    assert(store::next_state(Some(m), store::kind_of(c), store::payload_of(c), committee, epoch) == Ok::<
        ReplayModel,
        Seq<char>,
    >(after));
    assert(store::replay_from(Seq::empty(), Some(after), committee, epoch) == Ok::<
        ReplayModel,
        Seq<char>,
    >(after));
    assert(store::replay_from(r, Some(m), committee, epoch) == Ok::<ReplayModel, Seq<char>>(after));
}

/// The log of a committee that was just provisioned.
pub proof fn law_replay_initialized(snapshot: SnapshotModel, committee: Digest, epoch: u64)
    requires
        store::snapshot_verdict(snapshot, committee, epoch) is Ok,
    ensures
        store::replayed(store::record_bytes(0, KIND_INITIALIZE, store::snapshot_bytes(snapshot)), committee, epoch)
            == Ok::<ReplayModel, Seq<char>>(store::initialized(snapshot)),
        store::record_bytes(0, KIND_INITIALIZE, store::snapshot_bytes(snapshot)).len() >= 56,
{
    let payload = store::snapshot_bytes(snapshot);
    let r = store::record_bytes(0, KIND_INITIALIZE, payload);
    law_snapshot_round_trip(snapshot);
    lemma_snapshot_front(snapshot);
    law_record_round_trip(0, KIND_INITIALIZE, payload, Seq::empty());
    bytes::lemma_concat_empty(r);
    reveal(store::next_state);
    let after = store::initialized(snapshot);
    assert(store::next_state(None, KIND_INITIALIZE, payload, committee, epoch) == Ok::<
        ReplayModel,
        Seq<char>,
    >(after));
    assert(store::replay_from(Seq::empty(), Some(after), committee, epoch) == Ok::<
        ReplayModel,
        Seq<char>,
    >(after));
}

/// A log whose last record was cut off is refused.
pub proof fn law_torn_log(
    log: Seq<u8>,
    m: ReplayModel,
    kind: u8,
    payload: Seq<u8>,
    n: int,
    committee: Digest,
    epoch: u64,
)
    requires
        store::replayed(log, committee, epoch) == Ok::<ReplayModel, Seq<char>>(m),
        m.next_sequence <= u64::MAX,
        payload.len() <= MAX_PAYLOAD_BYTES,
        0 < n < store::record_bytes(m.next_sequence, kind, payload).len(),
    ensures
        store::replayed(
            log + store::record_bytes(m.next_sequence, kind, payload).subrange(0, n),
            committee,
            epoch,
        ) == Err::<ReplayModel, Seq<char>>("incomplete WAL record; fail closed"@),
{
    let t = store::record_bytes(m.next_sequence, kind, payload).subrange(0, n);
    law_torn_record(m.next_sequence, kind, payload, n);
    law_replay_append(log, t, None, committee, epoch);
}

/// Retirement is terminal: a log that retired its committee takes no further
/// record.
pub proof fn law_retirement_is_terminal(
    log: Seq<u8>,
    m: ReplayModel,
    t: Seq<u8>,
    committee: Digest,
    epoch: u64,
)
    requires
        store::replayed(log, committee, epoch) == Ok::<ReplayModel, Seq<char>>(m),
        m.lifecycle == Lifecycle::Retired,
        t.len() > 0,
    ensures
        store::replayed(log + t, committee, epoch) is Err,
{
    law_replay_append(log, t, None, committee, epoch);
    reveal(store::next_state);
}

/// No record takes back a vote, moves a precommit lock to another digest or to a
/// lower round, or changes what is known of an applied transaction.
pub open spec fn extends(before: ReplayModel, after: ReplayModel) -> bool {
    &&& forall|k: VoteKey| #[trigger]
        before.votes.contains_key(k) ==> after.votes.contains_key(k) && after.votes[k]
            == before.votes[k]
    &&& forall|k: Digest| #[trigger]
        before.locks.contains_key(k) ==> after.locks.contains_key(k) && after.locks[k].digest
            == before.locks[k].digest && before.locks[k].round <= after.locks[k].round
    &&& forall|k: Digest| #[trigger]
        before.applied.contains_key(k) ==> after.applied.contains_key(k) && after.applied[k]
            == before.applied[k]
    &&& before.initial_snapshot == after.initial_snapshot
    &&& before.activation is Some ==> after.activation == before.activation
    &&& before.next_sequence <= after.next_sequence
}

/// A change that may follow extends the state.
pub proof fn law_change_extends(
    m: ReplayModel,
    c: ChangeModel,
    committee: Digest,
    epoch: u64,
)
    requires
        store::place_verdict(m, store::kind_of(c)) is Ok,
        store::change_verdict(m, c, committee, epoch) is Ok,
    ensures
        extends(m, store::changed(m, c)),
{
}

/// Whatever is appended to a log, as long as it is not refused, extends the
/// state: a vote is never taken back, and a lock never moves back.
pub proof fn law_log_extends(
    s: Seq<u8>,
    state: Option<ReplayModel>,
    committee: Digest,
    epoch: u64,
)
    requires
        store::replay_from(s, state, committee, epoch) is Ok,
    ensures
        state matches Some(m) ==> extends(m, store::replay_from(s, state, committee, epoch)->Ok_0),
    decreases s.len(),
{
    if s.len() > 0 {
        let sequence = store::sequence_of(state);
        lemma_record_extends(s, Seq::empty(), sequence);
        let (kind, payload, rest) = store::record_result(s, sequence)->Ok_0;
        let next = store::next_state(state, kind, payload, committee, epoch)->Ok_0;
        law_log_extends(rest, Some(next), committee, epoch);
        if let Some(m) = state {
            lemma_effect_extends(m, kind, payload, committee, epoch);
            lemma_extends_twice(m, next, store::replay_from(s, state, committee, epoch)->Ok_0);
        }
    }
}

proof fn lemma_effect_extends(
    m: ReplayModel,
    kind: u8,
    payload: Seq<u8>,
    committee: Digest,
    epoch: u64,
)
    requires
        store::next_state(Some(m), kind, payload, committee, epoch) is Ok,
    ensures
        extends(m, store::next_state(Some(m), kind, payload, committee, epoch)->Ok_0),
{
    reveal(store::next_state);
    let c = store::w_exact(store::w_change(kind, payload))->Ok_0;
    assert(store::kind_of(c) == kind);
    law_change_extends(m, c, committee, epoch);
}

pub proof fn lemma_extends_twice(a: ReplayModel, b: ReplayModel, c: ReplayModel)
    requires
        extends(a, b),
        extends(b, c),
    ensures
        extends(a, c),
{
    assert forall|k: VoteKey| #[trigger] a.votes.contains_key(k) implies c.votes.contains_key(k)
        && c.votes[k] == a.votes[k] by {
        assert(b.votes.contains_key(k));
    }
    assert forall|k: Digest| #[trigger] a.locks.contains_key(k) implies c.locks.contains_key(k)
        && c.locks[k].digest == a.locks[k].digest && a.locks[k].round <= c.locks[k].round by {
        assert(b.locks.contains_key(k));
    }
    assert forall|k: Digest| #[trigger] a.applied.contains_key(k) implies c.applied.contains_key(k)
        && c.applied[k] == a.applied[k] by {
        assert(b.applied.contains_key(k));
    }
}

/// A change that may follow keeps what holds of every state.
pub proof fn lemma_change_state(
    m: ReplayModel,
    c: ChangeModel,
    committee: Digest,
    epoch: u64,
)
    requires
        store::state_ok(m, committee, epoch),
        store::place_verdict(m, store::kind_of(c)) is Ok,
        store::change_verdict(m, c, committee, epoch) is Ok,
    ensures
        store::state_ok(store::changed(m, c), committee, epoch),
{
}

/// What holds of every state holds of what a log brings about.
pub proof fn lemma_replayed_state(
    s: Seq<u8>,
    state: Option<ReplayModel>,
    committee: Digest,
    epoch: u64,
)
    requires
        store::replay_from(s, state, committee, epoch) is Ok,
        state matches Some(m) ==> store::state_ok(m, committee, epoch),
    ensures
        store::state_ok(store::replay_from(s, state, committee, epoch)->Ok_0, committee, epoch),
    decreases s.len(),
{
    if s.len() > 0 {
        let sequence = store::sequence_of(state);
        lemma_record_extends(s, Seq::empty(), sequence);
        let (kind, payload, rest) = store::record_result(s, sequence)->Ok_0;
        let next = store::next_state(state, kind, payload, committee, epoch)->Ok_0;
        assert(store::state_ok(next, committee, epoch)) by {
            reveal(store::next_state);
            if let Some(m) = state {
                let c = store::w_exact(store::w_change(kind, payload))->Ok_0;
                assert(store::kind_of(c) == kind);
                lemma_change_state(m, c, committee, epoch);
            }
        }
        lemma_replayed_state(rest, Some(next), committee, epoch);
    }
}

// ---------------------------------------------------------------------------
// Stores.
// ---------------------------------------------------------------------------

/// A restart loses nothing: to open the log of a store is to be where the store
/// was, ready to write again, whether or not the snapshot that it was provisioned with
/// is handed over once more. Any other snapshot is refused.
pub proof fn law_restart(m: StoreModel, provided: SnapshotModel)
    requires
        store::store_ok(m),
    ensures
        store::open_result(m.log, m.committee_hash, m.epoch, None) == Ok::<StoreModel, Seq<char>>(
            StoreModel { failure: None, ..m },
        ),
        store::open_result(m.log, m.committee_hash, m.epoch, Some(provided)) == (if provided
            == m.state.initial_snapshot {
            Ok::<StoreModel, Seq<char>>(StoreModel { failure: None, ..m })
        } else {
            match store::snapshot_verdict(provided, m.committee_hash, m.epoch) {
                Err(e) => Err(e),
                Ok(()) => Err(
                    "provided initialization snapshot conflicts with durable WAL; fail closed"@,
                ),
            }
        }),
{
}

/// A store that failed to write takes no decision.
pub proof fn law_failed_store(
    m: StoreModel,
    handoff_hash: Digest,
    snapshot: SnapshotModel,
    key: VoteKey,
    digest: Digest,
    certificate_digest: Digest,
    next_epoch: u64,
)
    requires
        m.failure is Some,
    ensures
        store::activate_plan(m, handoff_hash, snapshot) is Err,
        store::vote_plan(m, key, digest) is Err,
        store::apply_plan(m, digest, certificate_digest, snapshot) is Err,
        store::retire_plan(m, handoff_hash, digest, next_epoch, snapshot.state_root) is Err,
{
}

/// A retired store changes no more: what repeats the past is acknowledged, and
/// everything else is refused.
pub proof fn law_retired_store(
    m: StoreModel,
    handoff_hash: Digest,
    snapshot: SnapshotModel,
    key: VoteKey,
    digest: Digest,
    certificate_digest: Digest,
    next_epoch: u64,
)
    requires
        store::store_ok(m),
        m.state.lifecycle == Lifecycle::Retired,
    ensures
        store::planned_store(m, store::activate_plan(m, handoff_hash, snapshot)) == m,
        store::planned_store(m, store::vote_plan(m, key, digest)) == m,
        store::planned_store(m, store::apply_plan(m, digest, certificate_digest, snapshot)) == m,
        store::planned_store(
            m,
            store::retire_plan(m, handoff_hash, digest, next_epoch, snapshot.state_root),
        ) == m,
        store::activate_plan(m, handoff_hash, snapshot) is Err,
        store::vote_plan(m, key, digest) is Err,
{
}

/// A committee that is only provisioned does not vote, apply or retire.
pub proof fn law_initialized_store(
    m: StoreModel,
    handoff_hash: Digest,
    snapshot: SnapshotModel,
    key: VoteKey,
    digest: Digest,
    certificate_digest: Digest,
    next_epoch: u64,
)
    requires
        store::store_ok(m),
        m.state.lifecycle == Lifecycle::Initialized,
    ensures
        store::vote_plan(m, key, digest) is Err,
        store::planned_store(m, store::apply_plan(m, digest, certificate_digest, snapshot)) == m,
        store::retire_plan(m, handoff_hash, digest, next_epoch, snapshot.state_root) is Err,
{
}

/// No equivocation: once a digest is voted for, no later state of the store votes
/// for another one on the same conflict, round and phase.
pub proof fn law_no_equivocation(
    before: StoreModel,
    key: VoteKey,
    digest: Digest,
    later: StoreModel,
    other: Digest,
)
    requires
        store::vote_plan(before, key, digest) is Ok,
        extends(store::planned_store(before, store::vote_plan(before, key, digest)).state, later.state),
        other != digest,
    ensures
        store::vote_plan(later, key, other) is Err,
{
    let after = store::planned_store(before, store::vote_plan(before, key, digest)).state;
    assert(after.votes.contains_key(key) && after.votes[key] == digest);
    assert(later.state.votes.contains_key(key));
}

/// A precommit binds: once one is cast, no later state of the store casts a new
/// vote on that conflict for another digest, or in a lower round.
pub proof fn law_precommit_binds(
    before: StoreModel,
    key: VoteKey,
    digest: Digest,
    later: StoreModel,
    next: VoteKey,
    other: Digest,
)
    requires
        store::vote_plan(before, key, digest) matches Ok(Some(_)),
        key.phase == PHASE_PRECOMMIT,
        extends(store::planned_store(before, store::vote_plan(before, key, digest)).state, later.state),
        next.conflict_key == key.conflict_key,
        other != digest || next.round < key.round,
    ensures
        !(store::vote_plan(later, next, other) matches Ok(Some(_))),
{
    let after = store::planned_store(before, store::vote_plan(before, key, digest)).state;
    assert(after.locks.contains_key(key.conflict_key));
    assert(later.state.locks.contains_key(key.conflict_key));
}

/// A decision extends the state of the store.
pub proof fn law_decisions_extend(
    m: StoreModel,
    handoff_hash: Digest,
    snapshot: SnapshotModel,
    key: VoteKey,
    digest: Digest,
    certificate_digest: Digest,
    next_epoch: u64,
)
    requires
        store::store_ok(m),
    ensures
        extends(m.state, store::planned_store(m, store::activate_plan(m, handoff_hash, snapshot)).state),
        extends(m.state, store::planned_store(m, store::vote_plan(m, key, digest)).state),
        extends(
            m.state,
            store::planned_store(m, store::apply_plan(m, digest, certificate_digest, snapshot)).state,
        ),
        extends(
            m.state,
            store::planned_store(
                m,
                store::retire_plan(m, handoff_hash, digest, next_epoch, snapshot.state_root),
            ).state,
        ),
{
}

/// To apply a certified transaction again is acknowledged and changes nothing.
pub proof fn law_apply_twice(
    m: StoreModel,
    tx_digest: Digest,
    certificate_digest: Digest,
    snapshot: SnapshotModel,
)
    requires
        store::apply_plan(m, tx_digest, certificate_digest, snapshot) is Ok,
    ensures
        store::apply_plan(
            store::planned_store(m, store::apply_plan(m, tx_digest, certificate_digest, snapshot)),
            tx_digest,
            certificate_digest,
            snapshot,
        ) == Ok::<Option<ChangeModel>, Seq<char>>(None),
{
}

/// A store takes changes exactly if no append of it failed, and votes and transfers exactly
/// if its committee is active besides.
pub proof fn law_store_is_active_if(m: StoreModel, operation: Seq<char>)
    ensures
        store::healthy_verdict(m) is Ok <==> m.failure is None,
        store::active_verdict(m, operation) is Ok <==> m.failure is None && m.state.lifecycle
            == Lifecycle::Active,
        store::file_len(m) is Ok && m.failure is None ==> store::file_len(m)->Ok_0
            == m.log.len() as u64,
{
}

/// Votes are of two phases.
pub proof fn law_votes_have_two_phases(phase: u8)
    ensures
        store::vote_phase_verdict(phase) is Ok <==> phase == 1 || phase == 2,
{
}

} // verus!
