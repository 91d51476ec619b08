//! Whole lives of a store: what any sequence of decisions, failures and restarts keeps,
//! and what becomes of a log that was cut or altered.
use crate::bytes;
use crate::crypto::Digest;
use crate::store;
use crate::store::{Plan, ReplayModel, SnapshotModel, StoreModel, VoteKey};
use crate::store_laws;
use vstd::prelude::*;

verus! {

// ---------------------------------------------------------------------------
// Runs.
// ---------------------------------------------------------------------------

/// What can happen to a store.
pub enum StoreStep {
    Activate(Digest, SnapshotModel),
    Vote(VoteKey, Digest),
    Apply(Digest, Digest, SnapshotModel),
    Retire(Digest, Digest, u64, Digest),
    /// A record could not be written, and this is what the file was then found to hold.
    Fail(Result<u64, Seq<char>>),
    /// The log is opened again, with what a failed write may have left behind it.
    Restart(Seq<u8>, Option<SnapshotModel>),
}

/// The decision that a step asks for.
pub open spec fn plan_of(m: StoreModel, step: StoreStep) -> Plan {
    match step {
        StoreStep::Activate(handoff, snapshot) => store::activate_plan(m, handoff, snapshot),
        StoreStep::Vote(key, digest) => store::vote_plan(m, key, digest),
        StoreStep::Apply(tx, certificate, next) => store::apply_plan(m, tx, certificate, next),
        StoreStep::Retire(handoff, committee, epoch, root) => store::retire_plan(
            m,
            handoff,
            committee,
            epoch,
            root,
        ),
        _ => Ok(None),
    }
}

/// A store after a step. A restart that is refused leaves no store that decides.
pub open spec fn after_step(m: StoreModel, step: StoreStep) -> StoreModel {
    match step {
        StoreStep::Fail(found) => StoreModel { failure: Some(found), ..m },
        StoreStep::Restart(left, genesis) => match store::open_result(
            m.log + left,
            m.committee_hash,
            m.epoch,
            genesis,
        ) {
            Ok(opened) => opened,
            Err(_) => StoreModel { failure: Some(Ok((m.log + left).len() as u64)), ..m },
        },
        _ => store::planned_store(m, plan_of(m, step)),
    }
}

/// A store after the first `n` steps of a run.
pub open spec fn after_steps(m: StoreModel, steps: Seq<StoreStep>, n: int) -> StoreModel
    decreases n,
{
    if n <= 0 {
        m
    } else {
        after_step(after_steps(m, steps, n - 1), steps[n - 1])
    }
}

proof fn lemma_plan_admits(m: StoreModel, step: StoreStep)
    requires
        store::store_ok(m),
    ensures
        plan_of(m, step) matches Ok(Some(c)) ==> store::admits(m, c),
{
}

/// A record takes at least 56 bytes.
proof fn lemma_sequence_bound(
    s: Seq<u8>,
    state: Option<ReplayModel>,
    committee: Digest,
    epoch: u64,
)
    requires
        store::replay_from(s, state, committee, epoch) is Ok,
    ensures
        store::replay_from(s, state, committee, epoch)->Ok_0.next_sequence * 56
            <= store::sequence_of(state) * 56 + s.len(),
    decreases s.len(),
{
    if s.len() > 0 {
        let sequence = store::sequence_of(state);
        let (kind, payload, rest) = store::record_result(s, sequence)->Ok_0;
        assert(rest.len() + 56 <= s.len()) by {
            reveal(store::record_result);
        }
        let next = store::next_state(state, kind, payload, committee, epoch)->Ok_0;
        assert(next.next_sequence == sequence + 1) by {
            reveal(store::next_state);
        }
        lemma_sequence_bound(rest, Some(next), committee, epoch);
    }
}

/// One step keeps what holds of every store, and extends what it holds.
pub proof fn law_step_extends(m: StoreModel, step: StoreStep)
    requires
        store::store_ok(m),
        m.log.len() <= u64::MAX,
    ensures
        store::store_ok(after_step(m, step)),
        store_laws::extends(m.state, after_step(m, step).state),
        after_step(m, step).committee_hash == m.committee_hash,
        after_step(m, step).epoch == m.epoch,
        m.log.is_prefix_of(after_step(m, step).log),
{
    let after = after_step(m, step);
    match step {
        StoreStep::Fail(_) => {},
        StoreStep::Restart(left, genesis) => {
            let log = m.log + left;
            if store::open_result(log, m.committee_hash, m.epoch, genesis) is Ok {
                assert(m.log.len() > 0);
                store_laws::law_replay_append(m.log, left, None, m.committee_hash, m.epoch);
                store_laws::law_log_extends(left, Some(m.state), m.committee_hash, m.epoch);
                store_laws::lemma_replayed_state(log, None, m.committee_hash, m.epoch);
                lemma_sequence_bound(log, None, m.committee_hash, m.epoch);
            }
        },
        _ => {
            lemma_plan_admits(m, step);
            if let Ok(Some(c)) = plan_of(m, step) {
                store_laws::law_replay_change(m.log, m.state, c, m.committee_hash, m.epoch);
                store_laws::law_change_round_trip(c);
                store_laws::law_record_round_trip(
                    m.state.next_sequence,
                    store::kind_of(c),
                    store::payload_of(c),
                    Seq::empty(),
                );
                store_laws::lemma_change_state(m.state, c, m.committee_hash, m.epoch);
                store_laws::law_change_extends(m.state, c, m.committee_hash, m.epoch);
            }
        },
    }
    assert(m.log.is_prefix_of(after.log));
}

/// Over any sequence of decisions, failures and restarts a store takes nothing back: its
/// votes stay, its locks keep their digests and never move to a lower round, what it
/// applied stays, and its log only grows.
pub proof fn law_run_extends(m: StoreModel, steps: Seq<StoreStep>, i: int, j: int)
    requires
        store::store_ok(m),
        0 <= i <= j <= steps.len(),
        after_steps(m, steps, j).log.len() <= u64::MAX,
    ensures
        store::store_ok(after_steps(m, steps, i)),
        store::store_ok(after_steps(m, steps, j)),
        store_laws::extends(after_steps(m, steps, i).state, after_steps(m, steps, j).state),
        after_steps(m, steps, i).log.is_prefix_of(after_steps(m, steps, j).log),
    decreases j,
{
    if j > 0 {
        let before = after_steps(m, steps, j - 1);
        lemma_logs_grow(m, steps, j);
        if i < j {
            law_run_extends(m, steps, i, j - 1);
            law_step_extends(before, steps[j - 1]);
            store_laws::lemma_extends_twice(
                after_steps(m, steps, i).state,
                before.state,
                after_steps(m, steps, j).state,
            );
        } else {
            law_run_extends(m, steps, j - 1, j - 1);
            law_step_extends(before, steps[j - 1]);
        }
    }
}

/// The log of a store before a step is no longer than behind it.
proof fn lemma_logs_grow(m: StoreModel, steps: Seq<StoreStep>, n: int)
    requires
        0 < n <= steps.len(),
    ensures
        after_steps(m, steps, n - 1).log.len() <= after_steps(m, steps, n).log.len(),
{
}

/// Once a conflict is locked it stays locked to that digest, at no lower round,
/// whatever happens to the store and however often it restarts.
pub proof fn law_lock_is_kept(m: StoreModel, steps: Seq<StoreStep>, i: int, j: int, conflict: Digest)
    requires
        store::store_ok(m),
        0 <= i <= j <= steps.len(),
        after_steps(m, steps, j).log.len() <= u64::MAX,
        after_steps(m, steps, i).state.locks.contains_key(conflict),
    ensures
        ({
            let before = after_steps(m, steps, i).state.locks[conflict];
            let after = after_steps(m, steps, j).state.locks;
            &&& after.contains_key(conflict)
            &&& after[conflict].digest == before.digest
            &&& after[conflict].round >= before.round
        }),
{
    law_run_extends(m, steps, i, j);
}

/// For a conflict, a round and a phase at most one digest is ever accepted, whatever
/// happens to the store in between and however often it restarts.
pub proof fn law_one_digest_is_accepted(
    m: StoreModel,
    steps: Seq<StoreStep>,
    i: int,
    j: int,
    key: VoteKey,
    first: Digest,
    later: Digest,
)
    requires
        store::store_ok(m),
        0 <= i < j < steps.len(),
        after_steps(m, steps, j).log.len() <= u64::MAX,
        steps[i] == StoreStep::Vote(key, first),
        steps[j] == StoreStep::Vote(key, later),
        store::vote_plan(after_steps(m, steps, i), key, first) is Ok,
        store::vote_plan(after_steps(m, steps, j), key, later) is Ok,
    ensures
        first == later,
{
    law_run_extends(m, steps, i + 1, j);
    assert(after_steps(m, steps, i + 1) == after_step(after_steps(m, steps, i), steps[i]));
    if first != later {
        store_laws::law_no_equivocation(
            after_steps(m, steps, i),
            key,
            first,
            after_steps(m, steps, j),
            later,
        );
    }
}

// ---------------------------------------------------------------------------
// Logs that were cut or altered.
// ---------------------------------------------------------------------------

/// The number of records at the front of a byte string, from a sequence number on.
pub open spec fn record_total(s: Seq<u8>, sequence: nat) -> nat
    decreases s.len(),
{
    if s.len() == 0 {
        0
    } else {
        proof {
            reveal(store::record_result);
        }
        match store::record_result(s, sequence) {
            Ok((_, _, rest)) => 1 + record_total(rest, sequence + 1),
            Err(_) => 0,
        }
    }
}

proof fn lemma_record_total(
    s: Seq<u8>,
    state: Option<ReplayModel>,
    committee: Digest,
    epoch: u64,
)
    requires
        store::replay_from(s, state, committee, epoch) is Ok,
    ensures
        store::replay_from(s, state, committee, epoch)->Ok_0.next_sequence == store::sequence_of(
            state,
        ) + record_total(s, store::sequence_of(state)),
    decreases s.len(),
{
    if s.len() > 0 {
        let sequence = store::sequence_of(state);
        let (kind, payload, rest) = store::record_result(s, sequence)->Ok_0;
        assert(rest.len() < s.len()) by {
            reveal(store::record_result);
        }
        let next = store::next_state(state, kind, payload, committee, epoch)->Ok_0;
        assert(next.next_sequence == sequence + 1) by {
            reveal(store::next_state);
        }
        lemma_record_total(rest, Some(next), committee, epoch);
    }
}

/// The number of the next record is the number of records in the log, and a log without
/// records is refused.
pub proof fn law_sequence_counts_records(log: Seq<u8>, committee: Digest, epoch: u64)
    ensures
        store::replayed(log, committee, epoch) matches Ok(m) ==> m.next_sequence == record_total(
            log,
            0,
        ),
        log.len() == 0 ==> store::replayed(log, committee, epoch) is Err,
{
    if store::replayed(log, committee, epoch) is Ok {
        lemma_record_total(log, None, committee, epoch);
    }
}

/// The length of the payload that the header of a record names.
pub open spec fn payload_len(s: Seq<u8>) -> int {
    bytes::from_le32(s.subrange(0, 24).subrange(12, 16)) as int
}

/// A place in a byte string of records at which a record ends, or at which the first one
/// starts.
pub open spec fn between_records(s: Seq<u8>, sequence: nat, k: int) -> bool
    decreases s.len(),
{
    if k == 0 {
        true
    } else if s.len() == 0 {
        false
    } else {
        proof {
            reveal(store::record_result);
        }
        match store::record_result(s, sequence) {
            Ok((_, _, rest)) => between_records(rest, sequence + 1, k - (s.len() - rest.len())),
            Err(_) => false,
        }
    }
}

proof fn lemma_cut(
    s: Seq<u8>,
    state: Option<ReplayModel>,
    k: int,
    committee: Digest,
    epoch: u64,
)
    requires
        store::replay_from(s, state, committee, epoch) is Ok,
        0 < k < s.len(),
        !between_records(s, store::sequence_of(state), k),
    ensures
        store::replay_from(s.subrange(0, k), state, committee, epoch) == Err::<
            ReplayModel,
            Seq<char>,
        >("incomplete WAL record; fail closed"@),
    decreases s.len(),
{
    let sequence = store::sequence_of(state);
    let cut = s.subrange(0, k);
    let (kind, payload, rest) = store::record_result(s, sequence)->Ok_0;
    let n = s.len() - rest.len();
    let len = payload_len(s);
    assert(n == 56 + len && 0 <= len && rest == s.subrange(n, s.len() as int)) by {
        reveal(store::record_result);
    }
    if k < n {
        reveal(store::record_result);
        if k >= 56 {
            assert(cut.subrange(0, 24) =~= s.subrange(0, 24));
        }
    } else {
        let next = store::next_state(state, kind, payload, committee, epoch)->Ok_0;
        assert(next.next_sequence == sequence + 1) by {
            reveal(store::next_state);
        }
        assert(k != n) by {
            if k == n {
                assert(between_records(rest, sequence + 1, 0));
            }
        }
        assert(rest.subrange(0, k - n) =~= cut.subrange(n, k));
        assert(store::record_result(cut, sequence) == Ok::<(u8, Seq<u8>, Seq<u8>), Seq<char>>(
            (kind, payload, rest.subrange(0, k - n)),
        )) by {
            reveal(store::record_result);
            assert(cut.subrange(0, 24) =~= s.subrange(0, 24));
            assert(cut.subrange(24, 24 + len) =~= s.subrange(24, 24 + len));
            assert(cut.subrange(24 + len, 56 + len) =~= s.subrange(24 + len, 56 + len));
        }
        lemma_cut(rest, Some(next), k - n, committee, epoch);
    }
}

/// A log that is cut off within a record is refused, wherever the cut is: what is left of
/// the record is not passed over.
pub proof fn law_cut_log_is_refused(log: Seq<u8>, k: int, committee: Digest, epoch: u64)
    requires
        store::replayed(log, committee, epoch) is Ok,
        0 < k < log.len(),
        !between_records(log, 0, k),
    ensures
        store::replayed(log.subrange(0, k), committee, epoch) == Err::<ReplayModel, Seq<char>>(
            "incomplete WAL record; fail closed"@,
        ),
{
    lemma_cut(log, None, k, committee, epoch);
}

/// Where the record that holds byte `i` starts.
pub open spec fn record_start(s: Seq<u8>, sequence: nat, i: int) -> int
    decreases s.len(),
{
    if s.len() == 0 {
        0
    } else {
        proof {
            reveal(store::record_result);
        }
        match store::record_result(s, sequence) {
            Ok((_, _, rest)) => {
                let n = s.len() - rest.len();
                if i < n {
                    0
                } else {
                    n + record_start(rest, sequence + 1, i - n)
                }
            },
            Err(_) => 0,
        }
    }
}

/// What the checksum of the record at the front covers.
pub open spec fn covered(s: Seq<u8>) -> Seq<u8> {
    s.subrange(0, 24) + s.subrange(24, 24 + payload_len(s))
}

/// The record at the front of `t` has other contents than that of `s`, and yet the bytes
/// behind them are their checksum.
pub open spec fn passes_for_a_record(s: Seq<u8>, t: Seq<u8>) -> bool {
    let len = payload_len(t);
    &&& 56 + len <= t.len()
    &&& covered(t) != covered(s)
    &&& t.subrange(24 + len, 56 + len) == store::checksum_of(
        t.subrange(0, 24),
        t.subrange(24, 24 + len),
    )@
}

/// The record in which byte `i` of a log is replaced by `x` passes for another one.
pub open spec fn alteration_passes(log: Seq<u8>, sequence: nat, i: int, x: u8) -> bool {
    let k = record_start(log, sequence, i);
    let s = log.subrange(k, log.len() as int);
    passes_for_a_record(s, s.update(i - k, x))
}

/// Byte `i` of a log is one of the four that give the length of a payload.
pub open spec fn gives_a_length(log: Seq<u8>, sequence: nat, i: int) -> bool {
    12 <= i - record_start(log, sequence, i) < 16
}

proof fn lemma_altered_length(
    s: Seq<u8>,
    state: Option<ReplayModel>,
    i: int,
    x: u8,
    committee: Digest,
    epoch: u64,
)
    requires
        store::replay_from(s, state, committee, epoch) is Ok,
        12 <= i < 16,
        i < s.len(),
        x != s[i],
    ensures
        store::replay_from(s.update(i, x), state, committee, epoch) is Err,
{
    let sequence = store::sequence_of(state);
    let t = s.update(i, x);
    let (kind, payload, _) = store::record_result(s, sequence)->Ok_0;
    let len = payload_len(s);
    let other = payload_len(t);
    assert(kind == s[10] && 0 <= len && 56 + len <= s.len() && payload == s.subrange(
        24,
        24 + len,
    )) by {
        reveal(store::record_result);
    }
    assert(other != len) by {
        let a = s.subrange(0, 24).subrange(12, 16);
        let b = t.subrange(0, 24).subrange(12, 16);
        bytes::lemma_from_le32(a);
        bytes::lemma_from_le32(b);
        assert(a[i - 12] == s[i]);
        assert(b[i - 12] == x);
    }
    if store::record_result(t, sequence) is Ok {
        let (_, longer, _) = store::record_result(t, sequence)->Ok_0;
        assert(store::record_result(t, sequence)->Ok_0.0 == kind && 0 <= other && 56 + other
            <= t.len() && longer == t.subrange(24, 24 + other)) by {
            reveal(store::record_result);
        }
        if other < len {
            let more = payload.subrange(other, len);
            assert(longer + more =~= payload);
            store_laws::law_payload_is_delimited(state, kind, longer, more, committee, epoch);
        } else {
            let more = longer.subrange(len, other);
            assert(payload + more =~= longer);
            store_laws::law_payload_is_delimited(state, kind, payload, more, committee, epoch);
        }
    }
}

proof fn lemma_altered_record(s: Seq<u8>, sequence: nat, i: int, x: u8)
    requires
        store::record_result(s, sequence) is Ok,
        0 <= i < 56 + payload_len(s),
        i < s.len(),
        x != s[i],
        !passes_for_a_record(s, s.update(i, x)),
    ensures
        store::record_result(s.update(i, x), sequence) is Err,
{
    reveal(store::record_result);
    let t = s.update(i, x);
    let h = s.subrange(0, 24);
    let g = t.subrange(0, 24);
    let len = payload_len(s);
    if store::record_result(t, sequence) is Ok {
        assert(covered(t) == covered(s));
        assert(covered(t).len() == 24 + payload_len(t));
        assert(covered(s).len() == 24 + len);
        assert(payload_len(t) == len);
        if i < 24 + len {
            assert(covered(t)[i] == t[i]);
            assert(covered(s)[i] == s[i]);
        } else {
            assert(g =~= h);
            assert(t.subrange(24, 24 + len) =~= s.subrange(24, 24 + len));
            let a = t.subrange(24 + len, 56 + len);
            let b = s.subrange(24 + len, 56 + len);
            assert(a[i - 24 - len] == x);
            assert(b[i - 24 - len] == s[i]);
        }
    }
}

proof fn lemma_altered(
    s: Seq<u8>,
    state: Option<ReplayModel>,
    i: int,
    x: u8,
    committee: Digest,
    epoch: u64,
)
    requires
        store::replay_from(s, state, committee, epoch) is Ok,
        0 <= i < s.len(),
        x != s[i],
        gives_a_length(s, store::sequence_of(state), i) || !alteration_passes(
            s,
            store::sequence_of(state),
            i,
            x,
        ),
    ensures
        store::replay_from(s.update(i, x), state, committee, epoch) is Err,
    decreases s.len(),
{
    let sequence = store::sequence_of(state);
    let t = s.update(i, x);
    let (kind, payload, rest) = store::record_result(s, sequence)->Ok_0;
    let n = s.len() - rest.len();
    let len = payload_len(s);
    assert(n == 56 + len && 0 <= len && rest == s.subrange(n, s.len() as int)) by {
        reveal(store::record_result);
    }
    if i < n {
        if 12 <= i < 16 {
            lemma_altered_length(s, state, i, x, committee, epoch);
        } else {
            assert(s.subrange(0, s.len() as int) =~= s);
            lemma_altered_record(s, sequence, i, x);
        }
    } else {
        let next = store::next_state(state, kind, payload, committee, epoch)->Ok_0;
        assert(next.next_sequence == sequence + 1) by {
            reveal(store::next_state);
        }
        let changed = rest.update(i - n, x);
        assert(t.subrange(n, t.len() as int) =~= changed);
        assert(store::record_result(t, sequence) == Ok::<(u8, Seq<u8>, Seq<u8>), Seq<char>>(
            (kind, payload, changed),
        )) by {
            reveal(store::record_result);
            assert(t.subrange(0, 24) =~= s.subrange(0, 24));
            assert(t.subrange(24, 24 + len) =~= s.subrange(24, 24 + len));
            assert(t.subrange(24 + len, 56 + len) =~= s.subrange(24 + len, 56 + len));
        }
        let k = record_start(rest, sequence + 1, i - n);
        lemma_start_in_range(rest, sequence + 1, i - n);
        assert(rest.subrange(k, rest.len() as int) =~= s.subrange(n + k, s.len() as int));
        assert(record_start(s, sequence, i) == n + k);
        lemma_altered(rest, Some(next), i - n, x, committee, epoch);
    }
}

proof fn lemma_start_in_range(s: Seq<u8>, sequence: nat, i: int)
    requires
        0 <= i < s.len(),
    ensures
        0 <= record_start(s, sequence, i) <= i,
    decreases s.len(),
{
    if let Ok((_, _, rest)) = store::record_result(s, sequence) {
        assert(rest.len() < s.len()) by {
            reveal(store::record_result);
        }
        let n = s.len() - rest.len();
        if i >= n {
            lemma_start_in_range(rest, sequence + 1, i - n);
        }
    }
}

/// A log in which one byte was changed is refused. If the byte is one of those that give
/// the length of a payload, that holds whatever the checksums are: a payload says where
/// it ends. Otherwise it holds unless the record that holds the byte passes for another
/// one: the bytes behind its new contents are their checksum.
pub proof fn law_altered_log_is_refused(log: Seq<u8>, i: int, x: u8, committee: Digest, epoch: u64)
    requires
        store::replayed(log, committee, epoch) is Ok,
        0 <= i < log.len(),
        x != log[i],
        gives_a_length(log, 0, i) || !alteration_passes(log, 0, i, x),
    ensures
        store::replayed(log.update(i, x), committee, epoch) is Err,
{
    lemma_altered(log, None, i, x, committee, epoch);
}

/// Where the changed byte is not one of the four that give the length of the payload, a
/// record passes for another one only if the two have one checksum: then the hash
/// collides.
pub proof fn law_passing_record_is_a_collision(s: Seq<u8>, sequence: nat, i: int, x: u8)
    requires
        store::record_result(s, sequence) is Ok,
        0 <= i < 56 + payload_len(s),
        !(12 <= i < 16),
        passes_for_a_record(s, s.update(i, x)),
    ensures
        ({
            let t = s.update(i, x);
            let len = payload_len(s);
            &&& covered(t) != covered(s)
            &&& store::checksum_of(t.subrange(0, 24), t.subrange(24, 24 + len))
                == store::checksum_of(s.subrange(0, 24), s.subrange(24, 24 + len))
        }),
{
    reveal(store::record_result);
    let t = s.update(i, x);
    let len = payload_len(s);
    assert(t.subrange(0, 24).subrange(12, 16) =~= s.subrange(0, 24).subrange(12, 16));
    assert(payload_len(t) == len);
    let a = store::checksum_of(t.subrange(0, 24), t.subrange(24, 24 + len));
    let b = store::checksum_of(s.subrange(0, 24), s.subrange(24, 24 + len));
    if i < 24 + len {
        assert(t.subrange(24 + len, 56 + len) =~= s.subrange(24 + len, 56 + len));
        assert(a@ == b@);
        bytes::lemma_array_eq(a, b);
    } else {
        assert(t.subrange(0, 24) =~= s.subrange(0, 24));
        assert(t.subrange(24, 24 + len) =~= s.subrange(24, 24 + len));
    }
}

} // verus!
