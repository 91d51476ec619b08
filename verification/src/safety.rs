//! Safety of finality: with at most two Byzantine validators of seven, no conflict is
//! ever finalized in two ways, in one round or in several, whatever crashes between.
use crate::crypto::Digest;
use crate::model;
use crate::model::{
    ManifestModel, ProposalModel, Statement, TxModel, Vote, N, PHASE_PRECOMMIT, Q,
};
use crate::node;
use crate::node::NodeModel;
use crate::state;
use crate::store;
use crate::store::{ChangeModel, ReplayModel, StoreModel, VoteKey};
use crate::store_laws;
use vstd::prelude::*;

verus! {

/// Every precommit is covered by the lock on its conflict, which holds its digest.
pub open spec fn precommits_locked(m: ReplayModel) -> bool {
    forall|k: VoteKey| #[trigger]
        m.votes.contains_key(k) && k.phase == PHASE_PRECOMMIT ==> m.locks.contains_key(
            k.conflict_key,
        ) && m.locks[k.conflict_key].digest == m.votes[k] && k.round
            <= m.locks[k.conflict_key].round
}

proof fn lemma_change_keeps_locks(m: ReplayModel, c: ChangeModel, committee: Digest, epoch: u64)
    requires
        precommits_locked(m),
        store::change_verdict(m, c, committee, epoch) is Ok,
    ensures
        precommits_locked(store::changed(m, c)),
{
    let after = store::changed(m, c);
    assert forall|k: VoteKey| #[trigger]
        after.votes.contains_key(k) && k.phase == PHASE_PRECOMMIT implies after.locks.contains_key(
        k.conflict_key,
    ) && after.locks[k.conflict_key].digest == after.votes[k] && k.round
        <= after.locks[k.conflict_key].round by {
        if let ChangeModel::Vote(key, digest) = c {
            if k != key {
                assert(m.votes.contains_key(k));
            }
        } else {
            assert(m.votes.contains_key(k));
        }
    }
}

proof fn lemma_log_keeps_locks(
    s: Seq<u8>,
    state: Option<ReplayModel>,
    committee: Digest,
    epoch: u64,
)
    requires
        store::replay_from(s, state, committee, epoch) is Ok,
        state matches Some(m) ==> precommits_locked(m),
    ensures
        precommits_locked(store::replay_from(s, state, committee, epoch)->Ok_0),
    decreases s.len(),
{
    if s.len() > 0 {
        reveal(store::record_result);
        let (kind, payload, rest) = store::record_result(s, store::sequence_of(state))->Ok_0;
        let next = store::next_state(state, kind, payload, committee, epoch)->Ok_0;
        assert(precommits_locked(next)) by {
            reveal(store::next_state);
            if let Some(m) = state {
                let c = store::w_exact(store::w_change(kind, payload))->Ok_0;
                lemma_change_keeps_locks(m, c, committee, epoch);
            }
        }
        lemma_log_keeps_locks(rest, Some(next), committee, epoch);
    }
}

/// Whatever a log holds, its precommits are covered by its locks.
pub proof fn law_precommits_are_locked(m: StoreModel)
    requires
        store::store_ok(m),
    ensures
        precommits_locked(m.state),
{
    lemma_log_keeps_locks(m.log, None, m.committee_hash, m.epoch);
}

/// A validator never precommits two digests on one conflict, in one round or in
/// several.
pub proof fn law_precommits_agree(m: StoreModel, a: VoteKey, b: VoteKey)
    requires
        store::store_ok(m),
        a.phase == PHASE_PRECOMMIT,
        b.phase == PHASE_PRECOMMIT,
        a.conflict_key == b.conflict_key,
        m.state.votes.contains_key(a),
        m.state.votes.contains_key(b),
    ensures
        m.state.votes[a] == m.state.votes[b],
{
    law_precommits_are_locked(m);
}

/// An honest precommit is on record: when the vote is answered, the store of the
/// validator holds it, and it says what was proposed.
pub proof fn law_honest_precommit_is_recorded(
    n: NodeModel,
    p: ProposalModel,
    prevote: Seq<Vote>,
)
    requires
        !n.byzantine,
        node::precommitted(n, p, prevote).answer is Ok,
    ensures
        ({
            let vote = node::precommitted(n, p, prevote).answer->Ok_0;
            &&& vote.phase == PHASE_PRECOMMIT
            &&& vote.round == p.round
            &&& vote.conflict_key == model::conflict_digest(p.tx.input.reference)
            &&& vote.intent == p.intent
            &&& vote.signer_index == n.index
            &&& holds_vote(node::precommitted(n, p, prevote).after.store, vote)
        }),
{
    reveal(node::precommitted);
    reveal(node::node_vote);
    let key = node::vote_key(p, PHASE_PRECOMMIT);
    let plan = store::vote_plan(n.store, key, p.intent);
    let after = store::planned_store(n.store, plan).state;
    assert(after.votes.contains_key(key) && after.votes[key] == p.intent);
}

/// A store holds a vote.
pub open spec fn holds_vote(m: StoreModel, v: Vote) -> bool {
    let key = VoteKey { conflict_key: v.conflict_key, round: v.round, phase: v.phase };
    m.state.votes.contains_key(key) && m.state.votes[key] == v.intent
}

/// The votes of the honest validators in a certificate are on their records.
pub open spec fn honestly_cast(
    votes: Seq<Vote>,
    stores: Seq<StoreModel>,
    byzantine: Set<int>,
) -> bool {
    forall|i: int|
        0 <= i < votes.len() && !byzantine.contains(votes[i].signer_index as int) ==> holds_vote(
            stores[votes[i].signer_index as int],
            #[trigger] votes[i],
        )
}

/// No conflict is finalized twice: where at most two validators are Byzantine and the
/// others hold what they signed, two accepted finality certificates on one conflict
/// finalize the same transfer, whatever their rounds.
pub proof fn law_no_conflict_is_finalized_twice(
    a: Seq<Vote>,
    b: Seq<Vote>,
    m: ManifestModel,
    s: Statement,
    t: Statement,
    stores: Seq<StoreModel>,
    byzantine: Set<int>,
)
    requires
        model::qc_verdict(a, m, s) is Ok,
        model::qc_verdict(b, m, t) is Ok,
        s.phase == PHASE_PRECOMMIT,
        t.phase == PHASE_PRECOMMIT,
        s.conflict == t.conflict,
        byzantine.finite(),
        byzantine.len() <= 2,
        stores.len() == N,
        forall|i: int| 0 <= i < N && !byzantine.contains(i) ==> store::store_ok(#[trigger] stores[i]),
        honestly_cast(a, stores, byzantine),
        honestly_cast(b, stores, byzantine),
    ensures
        s.intent == t.intent,
{
    model::law_qc_has_a_quorum(a, m, s);
    model::law_qc_has_a_quorum(b, m, t);
    model::law_quorums_intersect(a, b, m, s, t);
    let shared = model::signers(a).intersect(model::signers(b));
    assert(exists|k: int| #[trigger] shared.contains(k) && !byzantine.contains(k)) by {
        if forall|k: int| #[trigger] shared.contains(k) ==> byzantine.contains(k) {
            assert(shared.subset_of(byzantine));
            vstd::set_lib::lemma_len_subset(shared, byzantine);
        }
    }
    let k = choose|k: int| #[trigger] shared.contains(k) && !byzantine.contains(k);
    assert(model::signers(a).contains(k) && model::signers(b).contains(k));
    let i = choose|i: int| 0 <= i < a.len() && (#[trigger] a[i]).signer_index == k;
    let j = choose|j: int| 0 <= j < b.len() && (#[trigger] b[j]).signer_index == k;
    assert(vstd::set_lib::set_int_range(0, N as int).contains(k));
    assert(holds_vote(stores[k], a[i]) && holds_vote(stores[k], b[j]));
    assert(model::vote_on(a[i], s) && model::vote_on(b[j], t));
    let (x, y) = (
        VoteKey { conflict_key: s.conflict, round: s.round, phase: PHASE_PRECOMMIT },
        VoteKey { conflict_key: t.conflict, round: t.round, phase: PHASE_PRECOMMIT },
    );
    law_precommits_agree(stores[k], x, y);
}

/// A vote on record stays there: every later state of the store holds it, and so does
/// the store that is opened again from its log.
pub proof fn law_recorded_vote_stays(m: StoreModel, later: StoreModel, v: Vote)
    requires
        store::store_ok(later),
        holds_vote(m, v),
        store_laws::extends(m.state, later.state),
    ensures
        holds_vote(later, v),
        store::open_result(later.log, later.committee_hash, later.epoch, None) matches Ok(again)
            && holds_vote(again, v),
{
    store_laws::law_restart(later, later.state.initial_snapshot);
}

/// No cell is spent by two finalized transfers: where at most two validators are
/// Byzantine and the others hold what they signed, two transfers of one cell whose
/// certificates are accepted have the same intent.
pub proof fn law_no_cell_is_finalized_twice(
    a: TxModel,
    b: TxModel,
    m: ManifestModel,
    first: (Seq<Vote>, Seq<Vote>),
    second: (Seq<Vote>, Seq<Vote>),
    stores: Seq<StoreModel>,
    byzantine: Set<int>,
)
    requires
        a.input.reference == b.input.reference,
        state::chain_verdict(a, first.0, first.1, m) is Ok,
        state::chain_verdict(b, second.0, second.1, m) is Ok,
        byzantine.finite(),
        byzantine.len() <= 2,
        stores.len() == N,
        forall|i: int| 0 <= i < N && !byzantine.contains(i) ==> store::store_ok(#[trigger] stores[i]),
        honestly_cast(first.1, stores, byzantine),
        honestly_cast(second.1, stores, byzantine),
    ensures
        model::intent_digest(a) == model::intent_digest(b),
{
    law_no_conflict_is_finalized_twice(
        first.1,
        second.1,
        m,
        state::precommit_statement(a, first.0),
        state::precommit_statement(b, second.0),
        stores,
        byzantine,
    );
}

/// Two Byzantine validators certify nothing: an accepted certificate holds the votes
/// of at least three others.
pub proof fn law_certificate_has_honest_signers(
    votes: Seq<Vote>,
    m: ManifestModel,
    s: Statement,
    byzantine: Set<int>,
)
    requires
        model::qc_verdict(votes, m, s) is Ok,
        byzantine.finite(),
        byzantine.len() <= 2,
    ensures
        model::signers(votes).difference(byzantine).len() >= Q - 2,
{
    model::law_qc_has_a_quorum(votes, m, s);
    let (all, honest) = (model::signers(votes), model::signers(votes).difference(byzantine));
    let shared = all.intersect(byzantine);
    vstd::set_lib::lemma_set_disjoint_lens(honest, shared);
    assert(honest.union(shared) =~= all);
    assert(shared.subset_of(byzantine));
    vstd::set_lib::lemma_len_subset(shared, byzantine);
}

/// The exact input of a proposal is live.
pub open spec fn live_input(n: NodeModel, p: ProposalModel) -> bool {
    let r = p.tx.input.reference;
    n.state.live.contains_key(r) && n.state.live[r] == p.tx.input
}

/// An honest validator votes for a transfer only if its proposal is accepted, its
/// owner authorized it, and its exact input is live; and it precommits only after a
/// certificate of prevotes.
pub proof fn law_honest_votes_are_checked(n: NodeModel, p: ProposalModel, prevote: Seq<Vote>)
    requires
        !n.byzantine,
    ensures
        node::prevoted(n, p).answer is Ok || node::precommitted(n, p, prevote).answer is Ok ==> {
            &&& model::proposal_verdict(p, n.manifest) is Ok
            &&& model::auth_verdict(p.tx, p.auth, n.manifest) is Ok
            &&& live_input(n, p)
        },
        node::precommitted(n, p, prevote).answer is Ok ==> model::qc_verdict(
            prevote,
            n.manifest,
            node::prevote_wanted(p),
        ) is Ok,
{
    if node::prevoted(n, p).answer is Ok {
        lemma_prevote_is_live(n, p);
        lemma_live_is_authorized(n, p);
    }
    if node::precommitted(n, p, prevote).answer is Ok {
        lemma_precommit_is_live(n, p, prevote);
        lemma_live_is_authorized(n, p);
    }
}

proof fn lemma_live_is_authorized(n: NodeModel, p: ProposalModel)
    requires
        node::live_proposal_verdict(n, p) is Ok,
    ensures
        model::proposal_verdict(p, n.manifest) is Ok,
        model::auth_verdict(p.tx, p.auth, n.manifest) is Ok,
        live_input(n, p),
{
    reveal(node::live_proposal_verdict);
    lemma_authorized(p, n.manifest);
}

proof fn lemma_authorized(p: ProposalModel, m: ManifestModel)
    requires
        model::proposal_verdict(p, m) is Ok,
    ensures
        model::auth_verdict(p.tx, p.auth, m) is Ok,
{
}

proof fn lemma_prevote_is_live(n: NodeModel, p: ProposalModel)
    requires
        !n.byzantine,
        node::prevoted(n, p).answer is Ok,
    ensures
        node::live_proposal_verdict(n, p) is Ok,
{
    reveal(node::prevoted);
}

proof fn lemma_precommit_is_live(n: NodeModel, p: ProposalModel, prevote: Seq<Vote>)
    requires
        !n.byzantine,
        node::precommitted(n, p, prevote).answer is Ok,
    ensures
        node::live_proposal_verdict(n, p) is Ok,
        model::qc_verdict(prevote, n.manifest, node::prevote_wanted(p)) is Ok,
{
    reveal(node::precommitted);
    reveal(node::honest_digest);
}

} // verus!
