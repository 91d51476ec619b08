//! What is owed: which transfers, votes, certificates and proposals are accepted, which
//! requests are granted, and what each of them leaves behind.
use crate::bytes;
use crate::crypto;
use crate::finality;
use crate::model;
use crate::model::{
    Cell, CellRef, Digest, ManifestModel, OutcomeModel, Output, ProposalModel, ReceiptModel,
    StateModel, Statement, TxModel, UserAuth, Vote, PHASE_PRECOMMIT,
    PHASE_PREVOTE,
};
use crate::node;
use crate::node::{NodeModel, REJECT_INPUT_NOT_LIVE, REJECT_INVALID_PROPOSAL};
use crate::ordmap;
use crate::state;
use crate::store;
use crate::store::{
    Lifecycle, PersistOutcome, PrecommitLock, SnapshotModel, StoreModel, VoteKey,
};
use crate::wire;
use crate::wire::{RequestModel, Response};
use crate::wire_laws;
use vstd::prelude::*;

verus! {

// ---------------------------------------------------------------------------
// Transfers, votes, certificates and proposals.
// ---------------------------------------------------------------------------

/// A committee is accepted exactly if it is of this network, has a threshold of five and
/// seven members in the order of their slots, and their keys decode and differ.
pub proof fn law_committee_is_accepted(m: ManifestModel)
    ensures
        model::manifest_verdict(m) is Ok <==> {
            &&& m.network_id == 1
            &&& m.threshold == 5
            &&& m.members.len() == 7
            &&& forall|i: int|
                0 <= i < 7 ==> (#[trigger] m.members[i]).index == i && crypto::ed25519_key_decodes(
                    m.members[i].public_key@,
                )
            &&& forall|i: int, j: int|
                0 <= i < j < 7 ==> (#[trigger] m.members[i]).public_key != (
                #[trigger] m.members[j]).public_key
        },
{
    model::law_manifest_verdict(m);
}

/// A cell is accepted exactly if it is worth something, is of the one asset, and its
/// digest is that of its contents.
pub proof fn law_cell_is_accepted(c: Cell)
    ensures
        model::cell_verdict(c) is Ok <==> {
            &&& c.amount > 0
            &&& c.reference.asset_id == 1
            &&& c.state_digest == model::cell_digest(c.reference, c.amount, c.owner, c.predecessor)
        },
{
}

proof fn lemma_total_is_the_sum(outputs: Seq<Output>, n: int)
    requires
        0 <= n <= outputs.len(),
    ensures
        model::outputs_total(outputs, n) == outputs.take(n).fold_left(
            0int,
            |sum: int, o: Output| sum + o.amount,
        ),
    decreases n,
{
    if n > 0 {
        lemma_total_is_the_sum(outputs, n - 1);
        assert(outputs.take(n).drop_last() =~= outputs.take(n - 1));
        assert(outputs.take(n).last() == outputs[n - 1]);
    }
    reveal_with_fuel(Seq::fold_left, 2);
}

/// A transfer is accepted exactly if the committee and the input are, it names the
/// protocol, the network, the epoch and the committee, pays a fee, and has one to eight
/// outputs, each worth something and of the input's asset, that with the fee add up to
/// the input. Nothing else is asked of it.
pub proof fn law_transfer_is_accepted(tx: TxModel, m: ManifestModel)
    ensures
        model::tx_verdict(tx, m) is Ok <==> {
            &&& model::manifest_verdict(m) is Ok
            &&& model::cell_verdict(tx.input) is Ok
            &&& tx.version == 1
            &&& tx.network_id == m.network_id
            &&& tx.epoch == m.epoch
            &&& tx.committee_hash == model::committee_digest(m)
            &&& tx.fee > 0
            &&& 1 <= tx.outputs.len() <= 8
            &&& forall|k: int|
                0 <= k < tx.outputs.len() ==> (#[trigger] tx.outputs[k]).amount > 0
                    && tx.outputs[k].asset_id == tx.input.reference.asset_id
            &&& tx.fee + tx.outputs.fold_left(0int, |sum: int, o: Output| sum + o.amount)
                == tx.input.amount
        },
{
    model::law_tx_verdict(tx, m);
    model::law_manifest_verdict(m);
    lemma_total_is_the_sum(tx.outputs, tx.outputs.len() as int);
    assert(tx.outputs.take(tx.outputs.len() as int) =~= tx.outputs);
}

/// An authorization is accepted exactly if the transfer is, and its signer owns the input
/// and signed the intent.
pub proof fn law_authorization_is_accepted(tx: TxModel, auth: UserAuth, m: ManifestModel)
    ensures
        model::auth_verdict(tx, auth, m) is Ok <==> {
            &&& model::tx_verdict(tx, m) is Ok
            &&& auth.signer == tx.input.owner
            &&& crypto::ed25519_key_decodes(auth.signer@)
            &&& crypto::ed25519_strictly_verifies(
                auth.signer@,
                model::intent_digest(tx)@,
                auth.signature@,
            )
        },
{
}

/// A vote is accepted exactly if the committee is, it names the network, the epoch and
/// the committee, it is of one of the two phases and justified as that phase asks, and
/// the member that it names signed its statement.
pub proof fn law_vote_is_accepted(v: Vote, m: ManifestModel)
    ensures
        model::vote_verdict(v, m) is Ok <==> {
            &&& model::manifest_verdict(m) is Ok
            &&& v.network_id == m.network_id
            &&& v.epoch == m.epoch
            &&& v.committee_hash == model::committee_digest(m)
            &&& v.phase == PHASE_PREVOTE && v.justify == bytes::zero_digest() || v.phase
                == PHASE_PRECOMMIT && v.justify != bytes::zero_digest()
            &&& v.signer_index < 7
            &&& crypto::ed25519_strictly_verifies(
                m.members[v.signer_index as int].public_key@,
                model::vote_statement(
                    m,
                    v.phase,
                    v.round,
                    v.conflict_key,
                    v.intent,
                    v.justify,
                    v.signer_index,
                )@,
                v.signature@,
            )
        },
{
    law_committee_is_accepted(m);
    if model::manifest_verdict(m) is Ok && v.signer_index < 7 {
        assert(m.members[v.signer_index as int].index == v.signer_index);
    }
}

/// A certificate is accepted exactly if it holds five to seven accepted votes in
/// ascending order of their signers, all in the phase and the round, on the conflict and
/// for the intent of its statement, and justified as that says.
pub proof fn law_certificate_is_accepted(votes: Seq<Vote>, m: ManifestModel, s: Statement)
    ensures
        model::qc_verdict(votes, m, s) is Ok <==> {
            &&& 5 <= votes.len() <= 7
            &&& forall|k: int|
                0 <= k < votes.len() ==> {
                    let v = #[trigger] votes[k];
                    &&& model::vote_verdict(v, m) is Ok
                    &&& v.phase == s.phase
                    &&& v.round == s.round
                    &&& v.conflict_key == s.conflict
                    &&& v.intent == s.intent
                    &&& s.justify matches Some(d) ==> v.justify == d
                    &&& s.justify is None ==> v.justify == bytes::zero_digest()
                }
            &&& forall|i: int, j: int|
                0 <= i < j < votes.len() ==> (#[trigger] votes[i]).signer_index < (
                #[trigger] votes[j]).signer_index
        },
{
    model::law_qc_verdict(votes, m, s);
}

/// A conflict is led by each member in turn: the leader is a member, each round moves on
/// to the next slot, and after seven rounds it is the first one's turn again.
pub proof fn law_leaders_take_turns(conflict: Digest, round: u64)
    ensures
        0 <= model::leader_slot(conflict, round) < 7,
        round < u64::MAX ==> model::leader_slot(conflict, (round + 1) as u64) == (
        model::leader_slot(conflict, round) + 1) % 7,
        round <= u64::MAX - 7 ==> model::leader_slot(conflict, (round + 7) as u64)
            == model::leader_slot(conflict, round),
{
}

/// Who leads the first round rests on the conflict: conflicts whose first eight bytes
/// differ by one have leaders in neighbouring slots, so that every slot leads some.
pub proof fn law_conflicts_spread_over_leaders(a: Digest, b: Digest, round: u64)
    requires
        bytes::from_le64(b@.subrange(0, 8)) == bytes::from_le64(a@.subrange(0, 8)) + 1,
    ensures
        model::leader_slot(b, round) == (model::leader_slot(a, round) + 1) % 7,
{
    lemma_next_slot(
        bytes::from_le64(a@.subrange(0, 8)) as int,
        bytes::from_le64(b@.subrange(0, 8)) as int,
        round as int,
    );
}

proof fn lemma_next_slot(a: int, b: int, round: int)
    requires
        b == a + 1,
    ensures
        (b % 7 + round % 7) % 7 == ((a % 7 + round % 7) % 7 + 1) % 7,
{
}

/// A proposal is accepted exactly if its transfer and authorization are, it names the
/// intent, its proposer leads the conflict in its round and signed it, and what justifies
/// it, if anything does, is a prevote certificate of a lower round for the same intent.
pub proof fn law_proposal_is_accepted_if(p: ProposalModel, m: ManifestModel)
    ensures
        model::proposal_verdict(p, m) is Ok <==> {
            let conflict = model::conflict_digest(p.tx.input.reference);
            &&& model::auth_verdict(p.tx, p.auth, m) is Ok
            &&& p.intent == model::intent_digest(p.tx)
            &&& p.proposer_index == model::leader_slot(conflict, p.round)
            &&& p.justify matches Some(votes) ==> {
                &&& votes.len() > 0
                &&& votes[0].round < p.round
                &&& model::qc_verdict(
                    votes,
                    m,
                    Statement {
                        phase: PHASE_PREVOTE,
                        round: votes[0].round,
                        conflict,
                        intent: p.intent,
                        justify: None,
                    },
                ) is Ok
            }
            &&& crypto::ed25519_strictly_verifies(
                m.members[p.proposer_index as int].public_key@,
                model::proposal_statement(
                    m,
                    p.round,
                    p.proposer_index,
                    p.intent,
                    match p.justify {
                        Some(votes) => model::qc_hash(votes),
                        None => bytes::zero_digest(),
                    },
                )@,
                p.signature@,
            )
        },
{
    let conflict = model::conflict_digest(p.tx.input.reference);
    if model::manifest_verdict(m) is Ok {
        law_committee_is_accepted(m);
        if p.proposer_index == model::leader_slot(conflict, p.round) {
            assert(m.members[p.proposer_index as int].index == p.proposer_index);
        }
    }
    if let Some(votes) = p.justify {
        if votes.len() > 0 {
            let s = Statement {
                phase: PHASE_PREVOTE,
                round: votes[0].round,
                conflict,
                intent: p.intent,
                justify: None,
            };
            if model::qc_verdict(votes, m, s) is Ok {
                finality::lemma_own_statement(votes, m, s);
            }
        }
    }
}

// ---------------------------------------------------------------------------
// Decisions of a store.
// ---------------------------------------------------------------------------

/// A vote is recorded, or was already, exactly if the store can write, its committee is
/// active, the phase is one of the two, and nothing on record stands against it: no other
/// digest for the same conflict, round and phase, and for a new vote no precommit lock on
/// the conflict with another digest or of a higher round. A new vote adds itself, a new
/// precommit also becomes the lock, and nothing else changes.
pub proof fn law_vote_is_recorded(m: StoreModel, key: VoteKey, digest: Digest)
    ensures
        ({
            let plan = store::vote_plan(m, key, digest);
            let after = store::planned_store(m, plan);
            &&& store::planned_outcome(plan) is Ok <==> {
                &&& m.failure is None
                &&& m.state.lifecycle == Lifecycle::Active
                &&& key.phase == PHASE_PREVOTE || key.phase == PHASE_PRECOMMIT
                &&& m.state.votes.contains_key(key) ==> m.state.votes[key] == digest
                &&& !m.state.votes.contains_key(key) && m.state.locks.contains_key(key.conflict_key)
                    ==> m.state.locks[key.conflict_key].digest == digest
                    && m.state.locks[key.conflict_key].round <= key.round
            }
            &&& store::planned_outcome(plan) is Ok ==> store::planned_outcome(plan) == Ok::<
                PersistOutcome,
                Seq<char>,
            >(
                if m.state.votes.contains_key(key) {
                    PersistOutcome::AlreadyPresent
                } else {
                    PersistOutcome::Persisted
                },
            )
            &&& store::planned_outcome(plan) != Ok::<PersistOutcome, Seq<char>>(
                PersistOutcome::Persisted,
            ) ==> after == m
            &&& store::planned_outcome(plan) == Ok::<PersistOutcome, Seq<char>>(
                PersistOutcome::Persisted,
            ) ==> {
                &&& after.state.votes == m.state.votes.insert(key, digest)
                &&& after.state.locks == (if key.phase == PHASE_PRECOMMIT {
                    m.state.locks.insert(
                        key.conflict_key,
                        PrecommitLock { round: key.round, digest },
                    )
                } else {
                    m.state.locks
                })
                &&& after.state.next_sequence == m.state.next_sequence + 1
                &&& after.state.lifecycle == m.state.lifecycle
                &&& after.state.initial_snapshot == m.state.initial_snapshot
                &&& after.state.current_snapshot == m.state.current_snapshot
                &&& after.state.activation == m.state.activation
                &&& after.state.retirement == m.state.retirement
                &&& after.state.applied == m.state.applied
                &&& after.committee_hash == m.committee_hash
                &&& after.epoch == m.epoch
                &&& after.failure is None
                &&& m.log.is_prefix_of(after.log) && m.log.len() < after.log.len()
            }
        }),
{
    let plan = store::vote_plan(m, key, digest);
    if let Ok(Some(c)) = plan {
        assert(store::record_of(m, c).len() > 0);
    }
}

/// A committee is activated, or was already, exactly if the store can write and the
/// snapshot is the one it was provisioned with and it is only provisioned, or this very
/// activation is on record and it is active. A new activation makes it active and changes
/// nothing else.
pub proof fn law_activation_is_recorded(m: StoreModel, handoff_hash: Digest, snapshot: SnapshotModel)
    requires
        store::store_ok(m),
    ensures
        ({
            let plan = store::activate_plan(m, handoff_hash, snapshot);
            let after = store::planned_store(m, plan);
            &&& store::planned_outcome(plan) == Ok::<PersistOutcome, Seq<char>>(
                PersistOutcome::Persisted,
            ) <==> m.failure is None && m.state.lifecycle == Lifecycle::Initialized && snapshot
                == m.state.current_snapshot
            &&& store::planned_outcome(plan) == Ok::<PersistOutcome, Seq<char>>(
                PersistOutcome::AlreadyPresent,
            ) <==> {
                &&& m.failure is None
                &&& m.state.lifecycle == Lifecycle::Active
                &&& m.state.activation matches Some(a) && a.handoff_hash == handoff_hash
                    && a.snapshot == snapshot
                &&& store::snapshot_verdict(snapshot, m.committee_hash, m.epoch) is Ok
            }
            &&& store::planned_outcome(plan) != Ok::<PersistOutcome, Seq<char>>(
                PersistOutcome::Persisted,
            ) ==> after == m
            &&& store::planned_outcome(plan) == Ok::<PersistOutcome, Seq<char>>(
                PersistOutcome::Persisted,
            ) ==> {
                &&& after.state.lifecycle == Lifecycle::Active
                &&& after.state.activation matches Some(a) && a.handoff_hash == handoff_hash
                    && a.snapshot == snapshot
                &&& after.state.next_sequence == m.state.next_sequence + 1
                &&& after.state.initial_snapshot == m.state.initial_snapshot
                &&& after.state.current_snapshot == m.state.current_snapshot
                &&& after.state.retirement == m.state.retirement
                &&& after.state.votes == m.state.votes
                &&& after.state.locks == m.state.locks
                &&& after.state.applied == m.state.applied
                &&& after.failure is None
                &&& m.log.is_prefix_of(after.log) && m.log.len() < after.log.len()
            }
        }),
{
    let plan = store::activate_plan(m, handoff_hash, snapshot);
    if let Ok(Some(c)) = plan {
        assert(store::record_of(m, c).len() > 0);
    }
}

/// A certified state is recorded as new exactly if the store can write, its committee is
/// active, the snapshot is of this committee and epoch and not too large, the two digests
/// are not zero, the transaction is not on record, and the root is a new one. It becomes
/// the current state under its transaction, with the root before it, and nothing else
/// changes. The same record once more is acknowledged, and any other one is refused.
pub proof fn law_certified_state_is_recorded(
    m: StoreModel,
    tx_digest: Digest,
    certificate_digest: Digest,
    next: SnapshotModel,
)
    ensures
        ({
            let plan = store::apply_plan(m, tx_digest, certificate_digest, next);
            let after = store::planned_store(m, plan);
            let fit = m.failure is None && next.committee_hash == m.committee_hash && next.epoch
                == m.epoch && next.bytes.len() <= 8388608 && tx_digest
                != bytes::zero_digest() && certificate_digest != bytes::zero_digest();
            &&& store::planned_outcome(plan) == Ok::<PersistOutcome, Seq<char>>(
                PersistOutcome::Persisted,
            ) <==> fit && !m.state.applied.contains_key(tx_digest) && m.state.lifecycle
                == Lifecycle::Active && next.state_root != m.state.current_snapshot.state_root
            &&& store::planned_outcome(plan) == Ok::<PersistOutcome, Seq<char>>(
                PersistOutcome::AlreadyPresent,
            ) <==> fit && m.state.applied.contains_key(tx_digest)
                && m.state.applied[tx_digest].certificate_digest == certificate_digest
                && m.state.applied[tx_digest].next_snapshot == next
            &&& store::planned_outcome(plan) != Ok::<PersistOutcome, Seq<char>>(
                PersistOutcome::Persisted,
            ) ==> after == m
            &&& store::planned_outcome(plan) == Ok::<PersistOutcome, Seq<char>>(
                PersistOutcome::Persisted,
            ) ==> {
                &&& after.state.current_snapshot == next
                &&& after.state.applied.contains_key(tx_digest)
                &&& after.state.applied[tx_digest].tx_digest == tx_digest
                &&& after.state.applied[tx_digest].certificate_digest == certificate_digest
                &&& after.state.applied[tx_digest].prior_state_root
                    == m.state.current_snapshot.state_root
                &&& after.state.applied[tx_digest].next_snapshot == next
                &&& after.state.applied.remove(tx_digest) == m.state.applied
                &&& after.state.next_sequence == m.state.next_sequence + 1
                &&& after.state.lifecycle == m.state.lifecycle
                &&& after.state.initial_snapshot == m.state.initial_snapshot
                &&& after.state.activation == m.state.activation
                &&& after.state.retirement == m.state.retirement
                &&& after.state.votes == m.state.votes
                &&& after.state.locks == m.state.locks
                &&& after.failure is None
                &&& m.log.is_prefix_of(after.log) && m.log.len() < after.log.len()
            }
        }),
{
    let plan = store::apply_plan(m, tx_digest, certificate_digest, next);
    if let Ok(Some(c)) = plan {
        assert(store::record_of(m, c).len() > 0);
        let after = store::planned_store(m, plan);
        assert(after.state.applied.remove(tx_digest) =~= m.state.applied);
    }
}

/// A committee retires exactly if the store can write, it is active, and the handoff has a
/// digest, goes to another committee in the very next epoch and names the current root.
/// It is then retired with the current snapshot, and nothing else changes. The same
/// retirement once more is acknowledged, and any other one is refused.
pub proof fn law_retirement_is_recorded(
    m: StoreModel,
    handoff_hash: Digest,
    next_committee: Digest,
    next_epoch: u64,
    state_root: Digest,
)
    requires
        store::store_ok(m),
    ensures
        ({
            let plan = store::retire_plan(m, handoff_hash, next_committee, next_epoch, state_root);
            let after = store::planned_store(m, plan);
            &&& store::planned_outcome(plan) == Ok::<PersistOutcome, Seq<char>>(
                PersistOutcome::Persisted,
            ) <==> m.failure is None && m.state.lifecycle == Lifecycle::Active && handoff_hash
                != bytes::zero_digest() && next_committee != m.committee_hash && next_epoch
                == m.epoch + 1 && state_root == m.state.current_snapshot.state_root
            &&& store::planned_outcome(plan) == Ok::<PersistOutcome, Seq<char>>(
                PersistOutcome::AlreadyPresent,
            ) <==> m.failure is None && (m.state.retirement matches Some(a) && a.handoff_hash
                == handoff_hash && a.next_committee == next_committee && a.next_epoch == next_epoch
                && a.snapshot.state_root == state_root)
            &&& store::planned_outcome(plan) != Ok::<PersistOutcome, Seq<char>>(
                PersistOutcome::Persisted,
            ) ==> after == m
            &&& store::planned_outcome(plan) == Ok::<PersistOutcome, Seq<char>>(
                PersistOutcome::Persisted,
            ) ==> {
                &&& after.state.lifecycle == Lifecycle::Retired
                &&& after.state.retirement matches Some(a) && a.handoff_hash == handoff_hash
                    && a.next_committee == next_committee && a.next_epoch == next_epoch
                    && a.snapshot == m.state.current_snapshot
                &&& after.state.next_sequence == m.state.next_sequence + 1
                &&& after.state.initial_snapshot == m.state.initial_snapshot
                &&& after.state.current_snapshot == m.state.current_snapshot
                &&& after.state.activation == m.state.activation
                &&& after.state.votes == m.state.votes
                &&& after.state.locks == m.state.locks
                &&& after.state.applied == m.state.applied
                &&& after.failure is None
                &&& m.log.is_prefix_of(after.log) && m.log.len() < after.log.len()
            }
        }),
{
    let plan = store::retire_plan(m, handoff_hash, next_committee, next_epoch, state_root);
    if let Ok(Some(c)) = plan {
        assert(store::record_of(m, c).len() > 0);
    }
}

/// The votes that may stand in a log are those that a store decides to write: where a
/// store can write, it takes up a new vote exactly if a log that brought about its state
/// may go on with the record of that vote.
pub proof fn law_votes_in_a_log_are_decided(m: StoreModel, key: VoteKey, digest: Digest)
    requires
        m.failure is None,
    ensures
        store::vote_plan(m, key, digest) matches Ok(Some(_)) <==> {
            let c = store::ChangeModel::Vote(key, digest);
            &&& store::place_verdict(m.state, store::kind_of(c)) is Ok
            &&& store::change_verdict(m.state, c, m.committee_hash, m.epoch) is Ok
        },
{
}

// ---------------------------------------------------------------------------
// Transfers that are applied.
// ---------------------------------------------------------------------------

proof fn lemma_fit_verdict(cells: Seq<Cell>, known: Set<Digest>, i: int)
    requires
        0 <= i <= cells.len(),
    ensures
        state::fit_verdict(cells, known, i) is Ok <==> forall|k: int|
            i <= k < cells.len() ==> model::cell_verdict(#[trigger] cells[k]) is Ok
                && !state::repeated_ref(cells, k) && !known.contains(cells[k].reference.id),
    decreases cells.len() - i,
{
    if i < cells.len() {
        lemma_fit_verdict(cells, known, i + 1);
    }
}

/// The two certificates of a transfer are accepted exactly if there are one to eight
/// outputs, the first certificate is one of prevotes for the intent, and the second one of
/// precommits in the same round that is justified by the first.
pub proof fn law_chain_is_accepted(
    tx: TxModel,
    prevote: Seq<Vote>,
    precommit: Seq<Vote>,
    m: ManifestModel,
)
    ensures
        state::chain_verdict(tx, prevote, precommit, m) is Ok <==> {
            &&& 1 <= tx.outputs.len() <= 8
            &&& prevote.len() > 0
            &&& model::qc_verdict(
                prevote,
                m,
                Statement {
                    phase: PHASE_PREVOTE,
                    round: prevote[0].round,
                    conflict: model::conflict_digest(tx.input.reference),
                    intent: model::intent_digest(tx),
                    justify: None,
                },
            ) is Ok
            &&& model::qc_verdict(
                precommit,
                m,
                Statement {
                    phase: PHASE_PRECOMMIT,
                    round: prevote[0].round,
                    conflict: model::conflict_digest(tx.input.reference),
                    intent: model::intent_digest(tx),
                    justify: Some(model::qc_hash(prevote)),
                },
            ) is Ok
        },
{
    let first = Statement {
        phase: PHASE_PREVOTE,
        round: prevote[0].round,
        conflict: model::conflict_digest(tx.input.reference),
        intent: model::intent_digest(tx),
        justify: None,
    };
    let second = Statement {
        phase: PHASE_PRECOMMIT,
        round: prevote[0].round,
        conflict: model::conflict_digest(tx.input.reference),
        intent: model::intent_digest(tx),
        justify: Some(model::qc_hash(prevote)),
    };
    if model::qc_verdict(prevote, m, first) is Ok {
        finality::lemma_own_statement(prevote, m, first);
    }
    if model::qc_verdict(precommit, m, second) is Ok {
        law_certificate_is_accepted(precommit, m, second);
        assert(precommit[0].round == second.round);
    }
}

/// What a transfer creates: one cell for each output, and one for the fee, which goes to
/// the collector. Each holds the amount and the owner of its output, is one generation on,
/// names the input as its predecessor, and has the digest of its contents.
pub proof fn law_created_cells(tx: TxModel)
    requires
        tx.input.reference.generation < u64::MAX,
    ensures
        model::created_cells(tx).len() == tx.outputs.len() + 1,
        forall|k: int|
            0 <= k <= tx.outputs.len() ==> {
                let c = #[trigger] model::created_cells(tx)[k];
                &&& c.amount == if k < tx.outputs.len() {
                    tx.outputs[k].amount
                } else {
                    tx.fee
                }
                &&& c.owner == if k < tx.outputs.len() {
                    tx.outputs[k].owner
                } else {
                    model::fee_owner()
                }
                &&& c.reference.asset_id == tx.input.reference.asset_id
                &&& c.reference.generation == tx.input.reference.generation + 1
                &&& c.predecessor == tx.input.state_digest
                &&& c.state_digest == model::cell_digest(
                    c.reference,
                    c.amount,
                    c.owner,
                    c.predecessor,
                )
            },
{
    assert forall|k: int| 0 <= k <= tx.outputs.len() implies {
        let c = #[trigger] model::created_cells(tx)[k];
        &&& c.amount == if k < tx.outputs.len() {
            tx.outputs[k].amount
        } else {
            tx.fee
        }
        &&& c.owner == if k < tx.outputs.len() {
            tx.outputs[k].owner
        } else {
            model::fee_owner()
        }
    } by {
        assert(model::created_cells(tx)[k] == model::created_cell(tx, k));
    }
}

/// The identifiers of what a transfer creates are those of no other output, of it or of
/// any other transfer, as far as the digest tells what it hashes apart: it is taken over
/// the intent and the number of the output.
pub proof fn law_output_names_its_transfer(a: TxModel, i: int, b: TxModel, j: int)
    requires
        0 <= i <= u32::MAX,
        0 <= j <= u32::MAX,
        crypto::tells_apart(
            "CALIBRE_INTEGRATION001_OUTPUT_REF_V1"@,
            model::intent_digest(a)@ + bytes::le32(i as u32),
            model::intent_digest(b)@ + bytes::le32(j as u32),
        ),
        model::output_reference(a, i).id == model::output_reference(b, j).id,
    ensures
        model::intent_digest(a) == model::intent_digest(b),
        i == j,
{
    let (x, y) = (model::intent_digest(a), model::intent_digest(b));
    let (u, v) = (bytes::le32(i as u32), bytes::le32(j as u32));
    bytes::lemma_le32(i as u32);
    bytes::lemma_le32(j as u32);
    assert(x@ =~= (x@ + u).subrange(0, 32));
    assert(y@ =~= (y@ + v).subrange(0, 32));
    assert(u =~= (x@ + u).subrange(32, 36));
    assert(v =~= (y@ + v).subrange(32, 36));
    bytes::lemma_array_eq(x, y);
}

/// A transfer is applied now exactly if its certificates and its owner's authorization are
/// accepted, it was not applied before, its exact input is live and has a next generation,
/// and the identifiers of what it creates are new and differ. It was applied before
/// exactly if the certificates and the authorization are accepted and its receipt is
/// there, and then that receipt is given back.
pub proof fn law_transfer_is_applied_if(
    s: StateModel,
    tx: TxModel,
    auth: UserAuth,
    prevote: Seq<Vote>,
    precommit: Seq<Vote>,
    m: ManifestModel,
)
    ensures
        ({
            let r = state::apply_result(s, tx, auth, prevote, precommit, m);
            let authorized = state::chain_verdict(tx, prevote, precommit, m) is Ok
                && model::auth_verdict(tx, auth, m) is Ok;
            let intent = model::intent_digest(tx);
            let cells = model::created_cells(tx);
            &&& (r matches Ok(OutcomeModel::AlreadyApplied(_))) <==> (authorized
                && s.applied.contains_key(intent))
            &&& r matches Ok(OutcomeModel::AlreadyApplied(receipt)) ==> receipt == s.applied[intent]
            &&& (r matches Ok(OutcomeModel::Applied(_))) <==> {
                &&& authorized
                &&& !s.applied.contains_key(intent)
                &&& s.live.contains_key(tx.input.reference)
                &&& s.live[tx.input.reference] == tx.input
                &&& tx.input.reference.generation < u64::MAX
                &&& forall|k: int|
                    0 <= k < cells.len() ==> !s.known_ids.contains(
                        (#[trigger] cells[k]).reference.id,
                    )
                &&& forall|i: int, j: int|
                    0 <= i < j < cells.len() ==> (#[trigger] cells[i]).reference.id != (
                    #[trigger] cells[j]).reference.id
            }
            &&& r matches Ok(OutcomeModel::Applied(receipt)) ==> {
                &&& receipt.intent == intent
                &&& receipt.certificate_digest == model::qc_hash(precommit)
                &&& receipt.output_refs.len() == cells.len()
                &&& forall|k: int|
                    0 <= k < cells.len() ==> #[trigger] receipt.output_refs[k]
                        == cells[k].reference
            }
        }),
{
    let cells = model::created_cells(tx);
    law_chain_is_accepted(tx, prevote, precommit, m);
    law_authorization_is_accepted(tx, auth, m);
    law_transfer_is_accepted(tx, m);
    lemma_fit_verdict(cells, s.known_ids, 0);
    if state::chain_verdict(tx, prevote, precommit, m) is Ok {
        finality::lemma_own_statement(precommit, m, state::precommit_statement(tx, prevote));
    }
    if tx.input.reference.generation < u64::MAX && model::auth_verdict(tx, auth, m) is Ok {
        law_created_cells(tx);
        law_cell_is_accepted(tx.input);
        assert forall|k: int| 0 <= k < cells.len() implies model::cell_verdict(
            #[trigger] cells[k],
        ) is Ok by {
            law_cell_is_accepted(cells[k]);
            if k < tx.outputs.len() {
                assert(tx.outputs[k].amount > 0);
            }
        }
        if state::fit_verdict(cells, s.known_ids, 0) is Ok {
            assert forall|i: int, j: int| 0 <= i < j < cells.len() implies (
            #[trigger] cells[i]).reference.id != (#[trigger] cells[j]).reference.id by {
                assert(!state::repeated_ref(cells, j));
                if cells[i].reference.id == cells[j].reference.id {
                    assert(cells[i].reference == cells[j].reference);
                }
            }
        }
    }
}

/// What an applied transfer leaves behind: its input is spent by it and no longer live,
/// the cells that it creates are live, every other cell is what it was, the identifiers of
/// the new cells are known, and its receipt is kept.
pub proof fn law_applied_transfer_moves_cells(
    s: StateModel,
    tx: TxModel,
    auth: UserAuth,
    prevote: Seq<Vote>,
    precommit: Seq<Vote>,
    m: ManifestModel,
)
    requires
        state::state_finite(s),
        state::state_valid(s),
        state::apply_result(s, tx, auth, prevote, precommit, m) matches Ok(
            OutcomeModel::Applied(_),
        ),
    ensures
        ({
            let r = state::apply_result(s, tx, auth, prevote, precommit, m);
            let t = state::state_then(s, tx, r);
            let cells = model::created_cells(tx);
            let input = tx.input.reference;
            let intent = model::intent_digest(tx);
            &&& forall|c: CellRef| #[trigger]
                t.live.contains_key(c) <==> s.live.contains_key(c) && c != input || exists|k: int|
                    0 <= k < cells.len() && (#[trigger] cells[k]).reference == c
            &&& forall|c: CellRef| #[trigger]
                s.live.contains_key(c) && c != input ==> t.live[c] == s.live[c]
            &&& forall|k: int|
                0 <= k < cells.len() ==> t.live[(#[trigger] cells[k]).reference] == cells[k]
            &&& forall|c: CellRef| #[trigger]
                t.spent_by.contains_key(c) <==> s.spent_by.contains_key(c) || c == input
            &&& t.spent_by[input] == intent
            &&& forall|c: CellRef| #[trigger]
                s.spent_by.contains_key(c) ==> t.spent_by[c] == s.spent_by[c]
            &&& forall|d: Digest| #[trigger]
                t.known_ids.contains(d) <==> s.known_ids.contains(d) || exists|k: int|
                    0 <= k < cells.len() && (#[trigger] cells[k]).reference.id == d
            &&& forall|d: Digest| #[trigger]
                t.applied.contains_key(d) <==> s.applied.contains_key(d) || d == intent
            &&& t.applied[intent] == r->Ok_0->Applied_0
            &&& forall|d: Digest| #[trigger]
                s.applied.contains_key(d) ==> t.applied[d] == s.applied[d]
        }),
{
    let cells = model::created_cells(tx);
    let rest = s.live.remove(tx.input.reference);
    state::lemma_applied(s, tx, auth, prevote, precommit, m);
    state::lemma_cells_added(rest, cells, cells.len() as int);
    state::lemma_ids_added(s.known_ids, cells, cells.len() as int);
    let t = state::state_then(
        s,
        tx,
        state::apply_result(s, tx, auth, prevote, precommit, m),
    );
    assert forall|c: CellRef| #[trigger] s.live.contains_key(c) && c
        != tx.input.reference implies t.live[c] == s.live[c] by {
        assert(rest.contains_key(c));
    }
    assert forall|c: CellRef| #[trigger] t.live.contains_key(c) <==> s.live.contains_key(c) && c
        != tx.input.reference || exists|k: int|
        0 <= k < cells.len() && (#[trigger] cells[k]).reference == c by {
        assert(rest.contains_key(c) <==> s.live.contains_key(c) && c != tx.input.reference);
    }
    assert forall|c: CellRef| #[trigger] s.spent_by.contains_key(c) implies t.spent_by[c]
        == s.spent_by[c] by {
        assert(!s.live.contains_key(c)) by {
            if s.live.contains_key(c) {
                assert(!s.spent_by.contains_key(c));
            }
        }
    }
}

/// A transfer that is applied to a state of the right shape leaves one of the right shape,
/// where its certificate has a digest other than zero.
pub proof fn law_apply_keeps_shape(
    s: StateModel,
    tx: TxModel,
    auth: UserAuth,
    prevote: Seq<Vote>,
    precommit: Seq<Vote>,
    m: ManifestModel,
)
    requires
        state::state_finite(s),
        node::shape_verdict(s) is Ok,
        state::apply_result(s, tx, auth, prevote, precommit, m) matches Ok(
            OutcomeModel::Applied(_),
        ),
        model::qc_hash(precommit) != bytes::zero_digest(),
    ensures
        node::shape_verdict(
            state::state_then(s, tx, state::apply_result(s, tx, auth, prevote, precommit, m)),
        ) is Ok,
{
    let r = state::apply_result(s, tx, auth, prevote, precommit, m);
    let t = state::state_then(s, tx, r);
    let cells = model::created_cells(tx);
    let intent = model::intent_digest(tx);
    node::law_shape_verdict(s);
    law_transfer_is_applied_if(s, tx, auth, prevote, precommit, m);
    law_applied_transfer_moves_cells(s, tx, auth, prevote, precommit, m);
    state::law_apply_keeps_consistency(s, tx, auth, prevote, precommit, m);
    node::law_shape_verdict(t);
    let receipt = r->Ok_0->Applied_0;
    assert forall|c: CellRef| #[trigger] node::referenced(t, c) <==> node::referenced(s, c)
        || exists|k: int| 0 <= k < cells.len() && (#[trigger] cells[k]).reference == c by {
        assert(s.live.contains_key(tx.input.reference));
    }
    assert forall|k: int, c: CellRef|
        0 <= k < cells.len() && #[trigger] node::referenced(s, c) implies (
    #[trigger] cells[k]).reference.id != c.id by {
        assert(s.known_ids.contains(c.id));
        assert(!s.known_ids.contains(cells[k].reference.id));
    }
    assert forall|a: CellRef, b: CellRef| #[trigger]
        node::referenced(t, a) && #[trigger] node::referenced(t, b) && a.id == b.id implies a
        == b by {
        if node::referenced(s, a) && node::referenced(s, b) {
        } else if node::referenced(s, a) {
            let k = choose|k: int| 0 <= k < cells.len() && (#[trigger] cells[k]).reference == b;
            assert(cells[k].reference.id != a.id);
        } else if node::referenced(s, b) {
            let k = choose|k: int| 0 <= k < cells.len() && (#[trigger] cells[k]).reference == a;
            assert(cells[k].reference.id != b.id);
        } else {
            let i = choose|k: int| 0 <= k < cells.len() && (#[trigger] cells[k]).reference == a;
            let j = choose|k: int| 0 <= k < cells.len() && (#[trigger] cells[k]).reference == b;
            if i < j {
                assert(cells[i].reference.id != cells[j].reference.id);
            } else if j < i {
                assert(cells[j].reference.id != cells[i].reference.id);
            }
        }
    }
    assert forall|d: Digest| #[trigger] t.known_ids.contains(d) <==> exists|c: CellRef| #[trigger]
        node::referenced(t, c) && c.id == d by {
        if t.known_ids.contains(d) {
            if s.known_ids.contains(d) {
                let c = choose|c: CellRef| #[trigger] node::referenced(s, c) && c.id == d;
                assert(node::referenced(t, c));
            } else {
                let k = choose|k: int|
                    0 <= k < cells.len() && (#[trigger] cells[k]).reference.id == d;
                assert(node::referenced(t, cells[k].reference));
            }
        }
        if exists|c: CellRef| #[trigger] node::referenced(t, c) && c.id == d {
            let c = choose|c: CellRef| #[trigger] node::referenced(t, c) && c.id == d;
            if node::referenced(s, c) {
                assert(s.known_ids.contains(d));
            } else {
                let k = choose|k: int| 0 <= k < cells.len() && (#[trigger] cells[k]).reference == c;
                assert(cells[k].reference.id == d);
            }
        }
    }
    assert forall|c: CellRef| #[trigger] t.spent_by.contains_key(c) implies t.applied.contains_key(
        t.spent_by[c],
    ) by {
        if c != tx.input.reference {
            assert(s.spent_by.contains_key(c));
            assert(s.applied.contains_key(s.spent_by[c]));
        }
    }
    assert forall|d: Digest| #[trigger] t.applied.contains_key(
        d,
    ) implies t.applied[d].certificate_digest != bytes::zero_digest() by {
        if d != intent {
            assert(s.applied.contains_key(d));
        }
    }
    assert forall|d: Digest, j: int| #[trigger] node::has_output(t, d, j) implies node::referenced(
        t,
        t.applied[d].output_refs[j],
    ) by {
        if d == intent {
            assert(receipt.output_refs[j] == cells[j].reference);
        } else {
            assert(node::has_output(s, d, j));
        }
    }
    assert forall|d: Digest, j: int, e: Digest, k: int| #[trigger]
        node::has_output(t, d, j) && #[trigger] node::has_output(t, e, k)
            && t.applied[d].output_refs[j].id == t.applied[e].output_refs[k].id implies d == e && j
        == k by {
        if d == intent && e == intent {
            assert(receipt.output_refs[j] == cells[j].reference);
            assert(receipt.output_refs[k] == cells[k].reference);
            if j < k {
                assert(cells[j].reference.id != cells[k].reference.id);
            } else if k < j {
                assert(cells[k].reference.id != cells[j].reference.id);
            }
        } else if d == intent {
            assert(receipt.output_refs[j] == cells[j].reference);
            assert(node::has_output(s, e, k));
            assert(node::referenced(s, s.applied[e].output_refs[k]));
            assert(cells[j].reference.id != s.applied[e].output_refs[k].id);
        } else if e == intent {
            assert(receipt.output_refs[k] == cells[k].reference);
            assert(node::has_output(s, d, j));
            assert(node::referenced(s, s.applied[d].output_refs[j]));
            assert(cells[k].reference.id != s.applied[d].output_refs[j].id);
        } else {
            assert(node::has_output(s, d, j) && node::has_output(s, e, k));
        }
    }
    assert(node::shape_valid(t));
}

proof fn lemma_live_fits(entries: Seq<(CellRef, Cell)>, i: int)
    requires
        0 <= i <= entries.len(),
    ensures
        wire::live_fits(entries, i) is Ok <==> forall|k: int|
            i <= k < entries.len() ==> (#[trigger] entries[k]).0 == entries[k].1.reference,
    decreases entries.len() - i,
{
    if i < entries.len() {
        lemma_live_fits(entries, i + 1);
    }
}

proof fn lemma_applied_fits(entries: Seq<(Digest, ReceiptModel)>, i: int)
    requires
        0 <= i <= entries.len(),
    ensures
        wire::applied_fits(entries, i) is Ok <==> forall|k: int|
            i <= k < entries.len() ==> (#[trigger] entries[k]).0 == entries[k].1.intent
                && entries[k].1.output_refs.len() <= 9,
    decreases entries.len() - i,
{
    if i < entries.len() {
        lemma_applied_fits(entries, i + 1);
    }
}

/// A state can be written exactly if it has at most 2048 live cells, spent cells,
/// identifiers and receipts each, every cell and receipt stands under its own key, and no
/// receipt names more than nine outputs.
pub proof fn law_state_can_be_written(s: StateModel)
    requires
        state::state_finite(s),
    ensures
        wire::state_fits(s) is Ok <==> {
            &&& s.live.len() <= 2048
            &&& s.spent_by.len() <= 2048
            &&& s.known_ids.len() <= 2048
            &&& s.applied.len() <= 2048
            &&& forall|c: CellRef| #[trigger] s.live.contains_key(c) ==> s.live[c].reference == c
            &&& forall|d: Digest| #[trigger]
                s.applied.contains_key(d) ==> s.applied[d].intent == d
                    && s.applied[d].output_refs.len() <= 9
        },
{
    let live = ordmap::listed(s.live);
    let applied = ordmap::listed(s.applied);
    ordmap::lemma_listed_finite(s.live);
    ordmap::lemma_listed_finite(s.spent_by);
    ordmap::lemma_listed_finite(s.applied);
    ordmap::lemma_map_of_size(live);
    ordmap::lemma_map_of_size(applied);
    ordmap::lemma_map_of_size(ordmap::listed(s.spent_by));
    wire_laws::lemma_members_finite(s.known_ids);
    ordmap::members(s.known_ids).unique_seq_to_set();
    state::lemma_entries(s.live);
    state::lemma_entries(s.applied);
    lemma_live_fits(live, 0);
    lemma_applied_fits(applied, 0);
    if forall|c: CellRef| #[trigger] s.live.contains_key(c) ==> s.live[c].reference == c {
        assert forall|k: int| 0 <= k < live.len() implies (#[trigger] live[k]).0
            == live[k].1.reference by {
            assert(s.live.contains_key(live[k].0));
        }
    }
    if wire::live_fits(live, 0) is Ok {
        assert forall|c: CellRef| #[trigger] s.live.contains_key(c) implies s.live[c].reference
            == c by {
            let k = choose|k: int| 0 <= k < live.len() && #[trigger] live[k] == (c, s.live[c]);
            assert(live[k].0 == live[k].1.reference);
        }
    }
    if forall|d: Digest| #[trigger]
        s.applied.contains_key(d) ==> s.applied[d].intent == d && s.applied[d].output_refs.len()
            <= 9 {
        assert forall|k: int| 0 <= k < applied.len() implies (#[trigger] applied[k]).0
            == applied[k].1.intent && applied[k].1.output_refs.len() <= 9 by {
            assert(s.applied.contains_key(applied[k].0));
        }
    }
    if wire::applied_fits(applied, 0) is Ok {
        assert forall|d: Digest| #[trigger] s.applied.contains_key(d) implies s.applied[d].intent
            == d && s.applied[d].output_refs.len() <= 9 by {
            let k = choose|k: int|
                0 <= k < applied.len() && #[trigger] applied[k] == (d, s.applied[d]);
            assert(applied[k].0 == applied[k].1.intent);
        }
    }
}

// ---------------------------------------------------------------------------
// Requests to a validator.
// ---------------------------------------------------------------------------

/// An honest validator has no quarrel with a proposal exactly if the proposal is accepted
/// and the very cell that it spends is live, of whatever generation, amount and owner.
pub proof fn law_live_proposal(n: NodeModel, p: ProposalModel)
    ensures
        node::live_proposal_verdict(n, p) is Ok <==> {
            &&& model::proposal_verdict(p, n.manifest) is Ok
            &&& n.state.live.contains_key(p.tx.input.reference)
            &&& n.state.live[p.tx.input.reference] == p.tx.input
        },
        model::proposal_verdict(p, n.manifest) is Err ==> node::live_proposal_verdict(n, p)
            == Err::<(), u16>(REJECT_INVALID_PROPOSAL),
        model::proposal_verdict(p, n.manifest) is Ok && node::live_proposal_verdict(n, p) is Err
            ==> node::live_proposal_verdict(n, p) == Err::<(), u16>(REJECT_INPUT_NOT_LIVE),
{
    reveal(node::live_proposal_verdict);
}

/// An honest validator grants a prevote exactly if the proposal is accepted, the very cell
/// that it spends is live, and the store may take up the vote: it can write, the committee
/// is active, and no vote in this round and no lock on the conflict stands against it.
/// The answer is then its vote for the intent in this round, the vote is on record before
/// it is given, and the state is unchanged. A prevote that is refused changes nothing.
pub proof fn law_prevote_is_granted(n: NodeModel, p: ProposalModel)
    requires
        !n.byzantine,
        n.index < 7,
        n.manifest.members[n.index as int].public_key == crypto::public_key(n.seed),
    ensures
        ({
            let h = node::handled(n, RequestModel::Prevote(p));
            let w = n.store.state;
            let conflict = model::conflict_digest(p.tx.input.reference);
            let key = VoteKey { conflict_key: conflict, round: p.round, phase: PHASE_PREVOTE };
            &&& h.answer is Ok <==> {
                &&& model::proposal_verdict(p, n.manifest) is Ok
                &&& n.state.live.contains_key(p.tx.input.reference)
                &&& n.state.live[p.tx.input.reference] == p.tx.input
                &&& n.store.failure is None
                &&& w.lifecycle == Lifecycle::Active
                &&& w.votes.contains_key(key) ==> w.votes[key] == p.intent
                &&& !w.votes.contains_key(key) && w.locks.contains_key(conflict)
                    ==> w.locks[conflict].digest == p.intent && w.locks[conflict].round <= p.round
            }
            &&& h.answer matches Ok(answer) ==> {
                &&& answer matches Response::Vote(v) && {
                    &&& v.network_id == n.manifest.network_id
                    &&& v.epoch == n.manifest.epoch
                    &&& v.committee_hash == model::committee_digest(n.manifest)
                    &&& v.phase == PHASE_PREVOTE
                    &&& v.round == p.round
                    &&& v.conflict_key == conflict
                    &&& v.intent == p.intent
                    &&& v.justify == bytes::zero_digest()
                    &&& v.signer_index == n.index
                    &&& v.signature == crypto::signature(
                        n.seed,
                        model::vote_statement(
                            n.manifest,
                            PHASE_PREVOTE,
                            p.round,
                            conflict,
                            p.intent,
                            bytes::zero_digest(),
                            n.index,
                        )@,
                    )
                }
                &&& h.after.store.state.votes == w.votes.insert(key, p.intent)
                &&& h.after.store.state.locks == w.locks
                &&& h.after.store.state.applied == w.applied
                &&& h.after.store.state.current_snapshot == w.current_snapshot
                &&& h.after.store.state.lifecycle == w.lifecycle
                &&& h.after.state == n.state
            }
            &&& h.answer is Err ==> h.after == n
            &&& h.answer == Err::<Response, u16>(REJECT_INVALID_PROPOSAL) <==> model::proposal_verdict(
                p,
                n.manifest,
            ) is Err
        }),
{
    reveal(node::prevoted);
    reveal(node::node_vote);
    let conflict = model::conflict_digest(p.tx.input.reference);
    let key = VoteKey { conflict_key: conflict, round: p.round, phase: PHASE_PREVOTE };
    law_live_proposal(n, p);
    law_vote_is_recorded(n.store, key, p.intent);
    if model::proposal_verdict(p, n.manifest) is Ok {
        law_proposal_is_accepted_if(p, n.manifest);
        law_committee_is_accepted(n.manifest);
        assert(n.manifest.members[n.index as int].index == n.index);
        if n.store.state.votes.contains_key(key) && n.store.state.votes[key] == p.intent {
            assert(n.store.state.votes.insert(key, p.intent) =~= n.store.state.votes);
        }
    }
}

/// An honest validator grants a precommit exactly if the proposal is accepted, the very
/// cell that it spends is live, the certificate is one of prevotes for the intent in this
/// round, its own prevote for the intent is on record, and the store may take up the vote.
/// The answer is then its vote, bound to the certificate. It is on record before it is
/// given, and where it is a new one it is the lock on the conflict. A precommit that is
/// refused changes nothing.
pub proof fn law_precommit_is_granted(n: NodeModel, p: ProposalModel, prevote: Seq<Vote>)
    requires
        !n.byzantine,
        n.index < 7,
        n.manifest.members[n.index as int].public_key == crypto::public_key(n.seed),
        model::qc_hash(prevote) != bytes::zero_digest(),
    ensures
        ({
            let h = node::handled(n, RequestModel::Precommit(p, prevote));
            let w = n.store.state;
            let conflict = model::conflict_digest(p.tx.input.reference);
            let own = VoteKey { conflict_key: conflict, round: p.round, phase: PHASE_PREVOTE };
            let key = VoteKey { conflict_key: conflict, round: p.round, phase: PHASE_PRECOMMIT };
            &&& h.answer is Ok <==> {
                &&& model::proposal_verdict(p, n.manifest) is Ok
                &&& n.state.live.contains_key(p.tx.input.reference)
                &&& n.state.live[p.tx.input.reference] == p.tx.input
                &&& model::qc_verdict(
                    prevote,
                    n.manifest,
                    Statement {
                        phase: PHASE_PREVOTE,
                        round: p.round,
                        conflict,
                        intent: p.intent,
                        justify: None,
                    },
                ) is Ok
                &&& w.votes.contains_key(own) && w.votes[own] == p.intent
                &&& n.store.failure is None
                &&& w.lifecycle == Lifecycle::Active
                &&& w.votes.contains_key(key) ==> w.votes[key] == p.intent
                &&& !w.votes.contains_key(key) && w.locks.contains_key(conflict)
                    ==> w.locks[conflict].digest == p.intent && w.locks[conflict].round <= p.round
            }
            &&& h.answer matches Ok(answer) ==> {
                &&& answer matches Response::Vote(v) && {
                    &&& v.network_id == n.manifest.network_id
                    &&& v.epoch == n.manifest.epoch
                    &&& v.committee_hash == model::committee_digest(n.manifest)
                    &&& v.phase == PHASE_PRECOMMIT
                    &&& v.round == p.round
                    &&& v.conflict_key == conflict
                    &&& v.intent == p.intent
                    &&& v.justify == model::qc_hash(prevote)
                    &&& v.signer_index == n.index
                    &&& v.signature == crypto::signature(
                        n.seed,
                        model::vote_statement(
                            n.manifest,
                            PHASE_PRECOMMIT,
                            p.round,
                            conflict,
                            p.intent,
                            model::qc_hash(prevote),
                            n.index,
                        )@,
                    )
                }
                &&& h.after.store.state.votes == w.votes.insert(key, p.intent)
                &&& !w.votes.contains_key(key) ==> h.after.store.state.locks == w.locks.insert(
                    conflict,
                    PrecommitLock { round: p.round, digest: p.intent },
                )
                &&& h.after.store.state.applied == w.applied
                &&& h.after.store.state.current_snapshot == w.current_snapshot
                &&& h.after.store.state.lifecycle == w.lifecycle
                &&& h.after.state == n.state
            }
            &&& h.answer is Err ==> h.after == n
        }),
{
    reveal(node::precommitted);
    reveal(node::honest_digest);
    reveal(node::node_vote);
    let conflict = model::conflict_digest(p.tx.input.reference);
    let key = VoteKey { conflict_key: conflict, round: p.round, phase: PHASE_PRECOMMIT };
    let s = Statement {
        phase: PHASE_PREVOTE,
        round: p.round,
        conflict,
        intent: p.intent,
        justify: None,
    };
    law_live_proposal(n, p);
    law_vote_is_recorded(n.store, key, p.intent);
    if model::qc_verdict(prevote, n.manifest, s) is Ok {
        finality::lemma_own_statement(prevote, n.manifest, s);
    }
    if model::proposal_verdict(p, n.manifest) is Ok {
        law_proposal_is_accepted_if(p, n.manifest);
        law_committee_is_accepted(n.manifest);
        assert(n.manifest.members[n.index as int].index == n.index);
        if n.store.state.votes.contains_key(key) && n.store.state.votes[key] == p.intent {
            assert(n.store.state.votes.insert(key, p.intent) =~= n.store.state.votes);
        }
    }
}

/// A validator, honest or not, applies a finalized transfer. A transfer that was applied
/// before is acknowledged with the root as it is. A transfer that the state takes now is
/// applied exactly if the store can write, the committee is active, the digests are not
/// zero, the next state can be written and its root is a new one. The answer is then the
/// root of the next state, the validator holds that state, and the log has it under the
/// transfer. Whatever is refused changes nothing.
pub proof fn law_apply_is_granted(
    n: NodeModel,
    tx: TxModel,
    auth: UserAuth,
    prevote: Seq<Vote>,
    finality: Seq<Vote>,
)
    requires
        node::node_ok(n),
    ensures
        ({
            let h = node::handled(n, RequestModel::Apply(tx, auth, prevote, finality));
            let r = state::apply_result(n.state, tx, auth, prevote, finality, n.manifest);
            let next = state::state_then(n.state, tx, r);
            let intent = model::intent_digest(tx);
            let certificate = model::qc_hash(finality);
            &&& (r matches Ok(OutcomeModel::AlreadyApplied(_))) ==> h.answer == Ok::<Response, u16>(
                Response::Applied { state_root: state::root_digest(n.state), idempotent: true },
            )
            &&& (r matches Ok(OutcomeModel::Applied(_))) ==> {
                &&& h.answer is Ok <==> {
                    &&& n.store.failure is None
                    &&& n.store.state.lifecycle == Lifecycle::Active
                    &&& intent != bytes::zero_digest()
                    &&& certificate != bytes::zero_digest()
                    &&& next.live.len() <= 2048
                    &&& next.spent_by.len() <= 2048
                    &&& next.known_ids.len() <= 2048
                    &&& next.applied.len() <= 2048
                    &&& wire::state_wire(next).len() <= 1048576
                    &&& state::root_digest(next) != state::root_digest(n.state)
                }
                &&& h.answer matches Ok(answer) ==> {
                    &&& answer == Response::Applied {
                        state_root: state::root_digest(next),
                        idempotent: false,
                    }
                    &&& h.after.state == next
                    &&& h.after.store.state.current_snapshot.state_root == state::root_digest(next)
                    &&& h.after.store.state.current_snapshot.bytes == wire::state_wire(next)
                    &&& h.after.store.state.applied.contains_key(intent)
                    &&& h.after.store.state.applied[intent].certificate_digest == certificate
                    &&& h.after.store.state.applied[intent].prior_state_root == state::root_digest(
                        n.state,
                    )
                    &&& n.store.log.is_prefix_of(h.after.store.log)
                    &&& n.store.log.len() < h.after.store.log.len()
                }
            }
            &&& r is Err ==> h.answer is Err
            &&& h.answer is Err || (r matches Ok(OutcomeModel::AlreadyApplied(_))) ==> h.after == n
        }),
{
    reveal(node::node_applied);
    reveal(node::recorded);
    let r = state::apply_result(n.state, tx, auth, prevote, finality, n.manifest);
    if let Ok(OutcomeModel::Applied(receipt)) = r {
        let next = state::state_after(n.state, tx, receipt);
        node::law_shape_verdict(n.state);
        law_transfer_is_applied_if(n.state, tx, auth, prevote, finality, n.manifest);
        state::law_apply_keeps_consistency(n.state, tx, auth, prevote, finality, n.manifest);
        node::law_shape_verdict(next);
        law_state_can_be_written(n.state);
        law_state_can_be_written(next);
        node::lemma_same_receipts(n.state, n.store, receipt.intent);
        law_certified_state_is_recorded(
            n.store,
            receipt.intent,
            receipt.certificate_digest,
            node::snapshot_of(n, next),
        );
        if receipt.certificate_digest != bytes::zero_digest() {
            law_apply_keeps_shape(n.state, tx, auth, prevote, finality, n.manifest);
        }
        law_created_cells(tx);
        law_chain_is_accepted(tx, prevote, finality, n.manifest);
        node::lemma_recorded_fits(n.state, n.store);
        assert forall|d: Digest| #[trigger] next.applied.contains_key(d) implies next.applied[d].intent
            == d && next.applied[d].output_refs.len() <= 9 by {
            if d != receipt.intent {
                assert(n.state.applied.contains_key(d));
            }
        }
    }
}

/// A validator that is asked for its state tells the root of the state that it holds, the
/// size of the snapshot and of the file of its log, and how its committee stands.
pub proof fn law_query_tells_the_state(n: NodeModel)
    ensures
        ({
            let h = node::handled(n, RequestModel::QueryState);
            &&& h.after == n
            &&& n.store.failure is None ==> h.answer == Ok::<Response, u16>(
                Response::State {
                    state_root: state::root_digest(n.state),
                    snapshot_bytes: n.store.state.current_snapshot.bytes.len() as u64,
                    wal_bytes: n.store.log.len() as u64,
                    lifecycle: n.store.state.lifecycle,
                },
            )
        }),
        node::handled(n, RequestModel::Ping).after == n,
        node::handled(n, RequestModel::Ping).answer == Ok::<Response, u16>(
            Response::Pong {
                index: n.index,
                epoch: n.manifest.epoch,
                committee_hash: n.committee_hash,
            },
        ),
{
}

} // verus!
