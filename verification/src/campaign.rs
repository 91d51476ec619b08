//! The plan of the bounded local run: who is asked for what, in which round, and what
//! the answers turn the plan into.
use crate::bytes::copy_vec;
use crate::config::MAX_BENCH_COUNT;
use crate::controller;
use crate::controller::{
    finality_certificate, prevote_certificate, FinalizedModel, FinalizedTransfer, LabFixture,
};
use crate::finality;
use crate::model;
use crate::model::{
    make_proposal, CommitteeManifest, ManifestModel, Proposal, ProposalModel, PublicKeyBytes, Qc,
    State, StateModel, Statement,
    Tx, TxModel, UserAuth, Vote, N, PHASE_PRECOMMIT, PHASE_PREVOTE, Q,
};
use crate::node;
use crate::phase_a;
use crate::phase_a::{
    count_owned, passed_gate_count, phase_a_gate_names, vote_reply, FaultModel, FinalityCounts, PhaseARunOutcome,
    ReplyFault, SizeMaxima, Tally, TallyModel,
};
use crate::state;
use crate::text;
use crate::text::{push_dec, text, with_number, with_numbers};
use crate::wire::{Request, RequestModel, Response};
use vstd::prelude::*;

verus! {

// ---------------------------------------------------------------------------
// Who is asked, and in which round.
// ---------------------------------------------------------------------------

/// The first validators are Byzantine fixtures; the others are honest.
pub const BYZANTINE_COUNT: usize = 2;

/// The honest validators.
pub const HONEST_COUNT: usize = 5;

/// The honest validator that is killed and started again.
pub const RESTARTED_VALIDATOR: usize = 2;

/// The round in which the two sides of the double spend are delivered at once.
pub const SPLIT_ROUND: u64 = 1;

/// The round in which the first side is finalized.
pub const FINAL_ROUND: u64 = 2;

/// The round in which the second side is proposed again.
pub const LATE_ROUND: u64 = 3;

/// The round of the first independent transfer.
pub const BENCH_ROUND: u64 = 100;

/// The honest validators that see the first side of the double spend first.
pub fn first_side() -> (r: Vec<usize>)
    ensures
        r@ == seq![2usize, 3, 4],
{
    let r: Vec<usize> = vec![2, 3, 4];
    assert(r@ =~= seq![2usize, 3, 4]);
    r
}

/// The honest validators that see the second side first, and that are asked for the
/// opposing precommit later.
pub fn second_side() -> (r: Vec<usize>)
    ensures
        r@ == seq![5usize, 6],
{
    let r: Vec<usize> = vec![5, 6];
    assert(r@ =~= seq![5usize, 6]);
    r
}

/// The signers of the second certificate for the first side.
pub fn alternate_signers() -> (r: Vec<usize>)
    ensures
        r@ == seq![0usize, 1, 2, 3, 4],
{
    let r: Vec<usize> = vec![0, 1, 2, 3, 4];
    assert(r@ =~= seq![0usize, 1, 2, 3, 4]);
    r
}

/// The two sides of the double spend share the honest validators: each is asked for
/// one side only, and neither side has a quorum, not even with the Byzantine ones.
pub proof fn law_split_leaves_no_quorum(first: Seq<usize>, second: Seq<usize>)
    requires
        first == seq![2usize, 3, 4],
        second == seq![5usize, 6],
    ensures
        forall|i: usize|
            BYZANTINE_COUNT <= i < N <==> #[trigger] first.contains(i) || second.contains(i),
        forall|i: usize| #[trigger] first.contains(i) ==> !second.contains(i),
        first.len() + second.len() == HONEST_COUNT,
        first.len() < Q,
        second.len() + BYZANTINE_COUNT < Q,
{
    assert forall|i: usize| BYZANTINE_COUNT <= i < N implies #[trigger] first.contains(i)
        || second.contains(i) by {
        assert(first[0] == 2 && first[1] == 3 && first[2] == 4);
        assert(second[0] == 5 && second[1] == 6);
    }
}

/// The round of an independent transfer.
pub fn bench_round(index: usize) -> (r: u64)
    requires
        index + BENCH_ROUND <= u64::MAX,
    ensures
        r == BENCH_ROUND + index,
{
    BENCH_ROUND + index as u64
}

/// A request for a prevote on a transfer in a round.
pub open spec fn prevote_asked(
    m: ManifestModel,
    round: u64,
    tx: TxModel,
    auth: UserAuth,
) -> Result<RequestModel, Seq<char>> {
    match model::proposed(m, round, tx, auth, None) {
        Ok(p) => Ok(RequestModel::Prevote(p)),
        Err(e) => Err(e),
    }
}

pub fn prevote_request(manifest: &CommitteeManifest, round: u64, tx: &Tx, auth: UserAuth) -> (r:
    Result<Request, String>)
    ensures
        text::shown_view(r) == prevote_asked(manifest@, round, tx@, auth),
{
    let proposal: Proposal = make_proposal(manifest, round, tx.clone(), auth, None)?;
    Ok(Request::Prevote(proposal))
}

/// The request that delivers a finalized transfer.
pub fn apply_request(finalized: &FinalizedTransfer) -> (r: Request)
    ensures
        r@ == RequestModel::Apply(
            finalized@.tx,
            finalized@.auth,
            finalized@.prevote_qc,
            finalized@.qc,
        ),
{
    Request::Apply {
        tx: finalized.tx.clone(),
        auth: finalized.auth,
        prevote_qc: finalized.prevote_qc.clone(),
        finality_qc: finalized.qc.clone(),
    }
}

// ---------------------------------------------------------------------------
// The finalization of a transfer.
// ---------------------------------------------------------------------------

/// A transfer that is being finalized. The honest validators are asked one after the
/// other, first for prevotes and then, with the certificate of those, for precommits.
pub struct Finalizing {
    pub proposal: Proposal,
    pub prevote_qc: Option<Qc>,
    pub votes: Vec<Vote>,
    pub asked: usize,
}

/// The mathematical content of a [`Finalizing`].
#[verifier::ext_equal]
pub struct FinalizingModel {
    pub proposal: ProposalModel,
    pub prevote_qc: Option<Seq<Vote>>,
    pub votes: Seq<Vote>,
    pub asked: nat,
}

impl View for Finalizing {
    type V = FinalizingModel;

    open spec fn view(&self) -> FinalizingModel {
        FinalizingModel {
            proposal: self.proposal@,
            prevote_qc: model::optional_votes(self.prevote_qc),
            votes: self.votes@,
            asked: self.asked as nat,
        }
    }
}

/// What an answer leads to.
#[verifier::ext_equal]
pub enum Advance {
    Waiting(FinalizingModel),
    Finalized(FinalizedModel),
}

/// The start for a proposal: nobody was asked.
pub open spec fn unasked(p: ProposalModel) -> FinalizingModel {
    FinalizingModel { proposal: p, prevote_qc: None, votes: Seq::empty(), asked: 0 }
}

/// There is a validator left to ask.
pub open spec fn can_ask(f: FinalizingModel) -> bool {
    f.asked < HONEST_COUNT
}

/// The votes with the answer of the validator that was asked last.
pub open spec fn with_answer(votes: Seq<Vote>, vote: Option<Vote>) -> Seq<Vote> {
    match vote {
        Some(vote) => votes.push(vote),
        None => votes,
    }
}

/// The statement of the prevotes for a proposal.
pub open spec fn prevote_on(p: ProposalModel) -> Statement {
    Statement {
        phase: PHASE_PREVOTE,
        round: p.round,
        conflict: model::conflict_digest(p.tx.input.reference),
        intent: p.intent,
        justify: None,
    }
}

/// Where the answers of all honest validators lead.
pub open spec fn round_closed(f: FinalizingModel, m: ManifestModel, votes: Seq<Vote>) -> Result<
    Advance,
    FaultModel,
> {
    match f.prevote_qc {
        None => match model::assembled(votes, m, prevote_on(f.proposal)) {
            Err(e) => Err(FaultModel::Refused(e)),
            Ok(qc) => Ok(
                Advance::Waiting(
                    FinalizingModel {
                        prevote_qc: Some(qc),
                        votes: Seq::empty(),
                        asked: 0,
                        ..f
                    },
                ),
            ),
        },
        Some(qc) => match controller::finality_result(m, f.proposal, qc, votes) {
            Err(e) => Err(FaultModel::Refused(e)),
            Ok(t) => Ok(Advance::Finalized(t)),
        },
    }
}

/// Where the answer of the validator that was asked leads.
pub open spec fn answered(f: FinalizingModel, m: ManifestModel, response: Response) -> Result<
    Advance,
    FaultModel,
> {
    match phase_a::vote_answer(BYZANTINE_COUNT as nat + f.asked, response) {
        Err(e) => Err(e),
        Ok(vote) => {
            let votes = with_answer(f.votes, vote);
            if f.asked + 1 < HONEST_COUNT {
                Ok(Advance::Waiting(FinalizingModel { votes, asked: f.asked + 1, ..f }))
            } else {
                round_closed(f, m, votes)
            }
        },
    }
}

impl Finalizing {
    /// Starts on a transfer in a round.
    pub fn start(manifest: &CommitteeManifest, round: u64, tx: Tx, auth: UserAuth) -> (r: Result<
        Self,
        String,
    >)
        ensures
            text::shown_view(r) == match model::proposed(manifest@, round, tx@, auth, None) {
                Ok(p) => Ok::<FinalizingModel, Seq<char>>(unasked(p)),
                Err(e) => Err(e),
            },
    {
        let proposal: Proposal = make_proposal(manifest, round, tx, auth, None)?;
        Ok(Finalizing { proposal, prevote_qc: None, votes: Vec::new(), asked: 0 })
    }

    /// The validator to ask, and the request for it.
    pub fn next(&self) -> (r: (usize, Request))
        requires
            can_ask(self@),
        ensures
            r.0 == BYZANTINE_COUNT + self@.asked,
            r.1@ == match self@.prevote_qc {
                None => RequestModel::Prevote(self@.proposal),
                Some(qc) => RequestModel::Precommit(self@.proposal, qc),
            },
    {
        let index: usize = BYZANTINE_COUNT + self.asked;
        let proposal: Proposal = self.proposal.clone();
        match &self.prevote_qc {
            None => (index, Request::Prevote(proposal)),
            Some(qc) => (index, Request::Precommit { proposal, prevote_qc: qc.clone() }),
        }
    }

    /// Takes the answer of the validator that was asked. Once all were asked twice,
    /// the transfer is finalized.
    pub fn take(&mut self, manifest: &CommitteeManifest, response: Response) -> (r: Result<
        Option<FinalizedTransfer>,
        ReplyFault,
    >)
        requires
            can_ask(old(self)@),
        ensures
            match answered(old(self)@, manifest@, response) {
                Ok(Advance::Waiting(f)) => r == Ok::<Option<FinalizedTransfer>, ReplyFault>(None)
                    && final(self)@ == f,
                Ok(Advance::Finalized(t)) => r is Ok && r->Ok_0 is Some && r->Ok_0->0@ == t
                    && final(self)@ == old(self)@,
                Err(e) => r is Err && r->Err_0@ == e && final(self)@ == old(self)@,
            },
            can_ask(final(self)@),
    {
        let vote: Option<Vote> = vote_reply(BYZANTINE_COUNT + self.asked, response)?;
        let mut votes: Vec<Vote> = copy_vec(&self.votes);
        if let Some(vote) = vote {
            votes.push(vote);
        }
        assert(votes@ == with_answer(old(self)@.votes, vote));
        if self.asked + 1 < HONEST_COUNT {
            self.votes = votes;
            self.asked = self.asked + 1;
            return Ok(None);
        }
        match &self.prevote_qc {
            None => match prevote_certificate(manifest, &self.proposal, votes) {
                Err(e) => Err(ReplyFault::Refused(e)),
                Ok(qc) => {
                    self.prevote_qc = Some(qc);
                    self.votes = Vec::new();
                    self.asked = 0;
                    Ok(None)
                },
            },
            Some(qc) => match finality_certificate(manifest, &self.proposal, qc.clone(), votes) {
                Err(e) => Err(ReplyFault::Refused(e)),
                Ok(finalized) => Ok(Some(finalized)),
            },
        }
    }
}

/// The answers that a finalization has taken.
pub open spec fn answers_taken(f: FinalizingModel) -> nat {
    if f.prevote_qc is Some {
        HONEST_COUNT as nat + f.asked
    } else {
        f.asked
    }
}

/// A finalization ends: each answer that is accepted counts one more, and the tenth
/// one finalizes the transfer.
pub proof fn law_answers_advance(f: FinalizingModel, m: ManifestModel, response: Response)
    requires
        can_ask(f),
        answered(f, m, response) is Ok,
    ensures
        match answered(f, m, response)->Ok_0 {
            Advance::Waiting(n) => can_ask(n) && answers_taken(n) == answers_taken(f) + 1
                && answers_taken(n) < 2 * HONEST_COUNT,
            Advance::Finalized(_) => answers_taken(f) + 1 == 2 * HONEST_COUNT,
        },
{
}

/// The prevote certificate that a finalization holds is one for its proposal, and the
/// proposal names the intent of its own transfer.
pub open spec fn on_course(f: FinalizingModel, m: ManifestModel) -> bool {
    &&& model::tx_verdict(f.proposal.tx, m) is Ok
    &&& f.proposal.intent == model::intent_digest(f.proposal.tx)
    &&& f.prevote_qc matches Some(qc) ==> model::qc_verdict(qc, m, prevote_on(f.proposal)) is Ok
}

/// A finalization that starts on an authorized transfer stays on its course, whatever
/// the validators answer.
pub proof fn law_finalization_stays_on_course(
    f: FinalizingModel,
    m: ManifestModel,
    response: Response,
)
    requires
        on_course(f, m),
        answered(f, m, response) is Ok,
        answered(f, m, response)->Ok_0 is Waiting,
    ensures
        on_course(answered(f, m, response)->Ok_0->Waiting_0, m),
        answered(f, m, response)->Ok_0->Waiting_0.proposal == f.proposal,
{
}

/// An accepted start is on course.
pub proof fn law_start_is_on_course(m: ManifestModel, round: u64, tx: TxModel, auth: UserAuth)
    requires
        model::proposed(m, round, tx, auth, None) is Ok,
    ensures
        on_course(unasked(model::proposed(m, round, tx, auth, None)->Ok_0), m),
{
}

/// A finalized transfer is the one that was proposed, with two certificates that every
/// validator accepts, whatever the validators answered on the way.
pub proof fn law_finalization_is_certified(
    f: FinalizingModel,
    m: ManifestModel,
    response: Response,
)
    requires
        on_course(f, m),
        answered(f, m, response) is Ok,
        answered(f, m, response)->Ok_0 is Finalized,
    ensures
        ({
            let t = answered(f, m, response)->Ok_0->Finalized_0;
            &&& t.tx == f.proposal.tx
            &&& t.auth == f.proposal.auth
            &&& Some(t.prevote_qc) == f.prevote_qc
            &&& state::chain_verdict(t.tx, t.prevote_qc, t.qc, m) is Ok
        }),
{
    let t = answered(f, m, response)->Ok_0->Finalized_0;
    let p = f.proposal;
    let second = Statement {
        phase: PHASE_PRECOMMIT,
        round: p.round,
        conflict: model::conflict_digest(p.tx.input.reference),
        intent: p.intent,
        justify: Some(model::qc_hash(t.prevote_qc)),
    };
    finality::lemma_own_statement(t.prevote_qc, m, prevote_on(p));
    finality::lemma_own_statement(t.qc, m, second);
    assert(t.prevote_qc[0].round == model::own_statement(t.prevote_qc).round);
    assert(t.qc[0].round == model::own_statement(t.qc).round);
    assert(state::prevote_statement(t.tx, t.prevote_qc) == prevote_on(p));
    assert(state::precommit_statement(t.tx, t.prevote_qc) == second);
    model::law_valid_tx_conserves_value(t.tx, m);
}

// ---------------------------------------------------------------------------
// What has to hold on the way.
// ---------------------------------------------------------------------------

/// The verdict on the validators that run: seven, of which two are Byzantine fixtures.
pub fn check_live_topology(nodes: usize, byzantine: usize) -> (r: Result<(), String>)
    ensures
        text::shown(r) == if nodes == N && byzantine == BYZANTINE_COUNT {
            Ok::<(), Seq<char>>(())
        } else {
            Err("live topology did not create exactly seven nodes with two Byzantine fixtures"@)
        },
{
    if nodes != N || byzantine != BYZANTINE_COUNT {
        return Err(
            text("live topology did not create exactly seven nodes with two Byzantine fixtures"),
        );
    }
    Ok(())
}

/// The verdict on the finality certificate of the first side: it has exactly a quorum
/// of votes.
pub fn check_finality_votes(finalized: &FinalizedTransfer) -> (r: Result<(), String>)
    ensures
        text::shown(r) == if finalized@.qc.len() == Q {
            Ok::<(), Seq<char>>(())
        } else {
            Err("Bob finality certificate is not exactly 5-of-7"@)
        },
{
    if finalized.qc.votes.len() != Q {
        return Err(text("Bob finality certificate is not exactly 5-of-7"));
    }
    Ok(())
}

/// The verdict on what a validator says of the first side when it is delivered: all
/// have to take it for new the first time, and for known the second time.
pub fn check_main_apply(known: bool, duplicate: bool) -> (r: Result<(), String>)
    ensures
        text::shown(r) == if duplicate == known {
            Ok::<(), Seq<char>>(())
        } else if known {
            Err("duplicate live Bob apply advanced state twice"@)
        } else {
            Err("first live Bob apply was marked duplicate"@)
        },
{
    if duplicate == known {
        Ok(())
    } else if known {
        Err(text("duplicate live Bob apply advanced state twice"))
    } else {
        Err(text("first live Bob apply was marked duplicate"))
    }
}

/// The verdict on what a validator says of an independent transfer: it is new to it.
pub fn check_bench_apply(index: usize, transfer_index: usize, duplicate: bool) -> (r: Result<
    (),
    String,
>)
    ensures
        text::shown(r) == if duplicate {
            Err::<(), Seq<char>>(
                "validator "@ + text::dec(index as nat) + " treated first benchmark apply "@
                    + text::dec(transfer_index as nat) + " as duplicate"@,
            )
        } else {
            Ok(())
        },
{
    if duplicate {
        let mut refusal: String = with_numbers(
            "validator ",
            index as u64,
            " treated first benchmark apply ",
            transfer_index as u64,
        );
        refusal.append(" as duplicate");
        return Err(refusal);
    }
    Ok(())
}

/// The verdict on the number of independent transfers that were finalized.
pub fn check_bench_completed(completed: usize, bench_count: usize) -> (r: Result<(), String>)
    ensures
        text::shown(r) == if completed == bench_count {
            Ok::<(), Seq<char>>(())
        } else {
            Err("not all independent transfers finalized"@)
        },
{
    if completed != bench_count {
        return Err(text("not all independent transfers finalized"));
    }
    Ok(())
}

// ---------------------------------------------------------------------------
// What a run comes to.
// ---------------------------------------------------------------------------

/// What the checks of a run counted.
#[derive(Clone, Copy, Debug, PartialEq, Eq, Structural)]
pub struct RunCounts {
    pub invalid_owner_votes: u64,
    pub invalid_owner_rejections: u64,
    pub mutation_count: usize,
    pub qc_negative_count: usize,
    pub model_cases: u64,
    pub split_bob_votes: usize,
    pub split_charlie_votes: usize,
    pub finality_votes: usize,
    pub conflicting_precommit_rejections: usize,
    pub bench_completed: usize,
}

/// The outcome of a run: its counts, and what its first and its last state hold.
pub open spec fn outcome_of(
    genesis: StateModel,
    settled: StateModel,
    loser: PublicKeyBytes,
    counts: RunCounts,
    after_lock: TallyModel,
    maxima: SizeMaxima,
    o: PhaseARunOutcome,
) -> bool {
    &&& o.final_root == state::root_digest(settled)
    &&& o.genesis_root == state::root_digest(genesis)
    &&& o.genesis_total == state::live_total(genesis.live)
    &&& o.final_total == state::live_total(settled.live)
    &&& o.loser_live_outputs == phase_a::owned(settled, loser)
    &&& o.post_restart_conflict_votes == after_lock.votes.len()
    &&& o.post_restart_lock_rejections == after_lock.rejections
    &&& o.max_snapshot_bytes == maxima.snapshot_bytes
    &&& o.max_wal_bytes == maxima.wal_bytes
    &&& counts == RunCounts {
        invalid_owner_votes: o.invalid_owner_votes,
        invalid_owner_rejections: o.invalid_owner_rejections,
        mutation_count: o.mutation_count,
        qc_negative_count: o.qc_negative_count,
        model_cases: o.model_cases,
        split_bob_votes: o.split_bob_votes,
        split_charlie_votes: o.split_charlie_votes,
        finality_votes: o.finality_votes,
        conflicting_precommit_rejections: o.conflicting_precommit_rejections,
        bench_completed: o.bench_completed,
    }
}

/// The outcome of a run that ended in a state.
pub fn run_outcome(
    fixture: &LabFixture,
    settled: &State,
    counts: RunCounts,
    after_lock: &Tally,
    maxima: &SizeMaxima,
) -> (r: Result<PhaseARunOutcome, String>)
    ensures
        state::live_total(fixture.genesis@.live) <= u64::MAX && state::live_total(settled@.live)
            <= u64::MAX ==> r is Ok && outcome_of(
            fixture.genesis@,
            settled@,
            fixture.charlie,
            counts,
            after_lock@,
            *maxima,
            r->Ok_0,
        ),
        state::live_total(fixture.genesis@.live) > u64::MAX || state::live_total(settled@.live)
            > u64::MAX ==> r is Err && r->Err_0@ == "state value overflow"@,
{
    let genesis_total: u64 = fixture.genesis.total_value()?;
    let final_total: u64 = settled.total_value()?;
    Ok(
        PhaseARunOutcome {
            final_root: settled.root(),
            genesis_root: fixture.genesis.root(),
            genesis_total,
            final_total,
            bench_completed: counts.bench_completed,
            invalid_owner_votes: counts.invalid_owner_votes,
            invalid_owner_rejections: counts.invalid_owner_rejections,
            mutation_count: counts.mutation_count,
            qc_negative_count: counts.qc_negative_count,
            max_snapshot_bytes: maxima.snapshot_bytes,
            max_wal_bytes: maxima.wal_bytes,
            model_cases: counts.model_cases,
            split_bob_votes: counts.split_bob_votes,
            split_charlie_votes: counts.split_charlie_votes,
            finality_votes: counts.finality_votes,
            post_restart_conflict_votes: after_lock.votes.len(),
            post_restart_lock_rejections: after_lock.rejections,
            conflicting_precommit_rejections: counts.conflicting_precommit_rejections,
            loser_live_outputs: count_owned(settled, &fixture.charlie),
        },
    )
}

// ---------------------------------------------------------------------------
// The report on two runs.
// ---------------------------------------------------------------------------

/// Named numbers by the characters of their names.
pub open spec fn numbers_view(v: Seq<(String, u64)>) -> Seq<(Seq<char>, u64)> {
    Seq::new(v.len(), |i: int| (v[i].0@, v[i].1))
}

fn push_number(out: &mut Vec<(String, u64)>, name: &str, value: u64)
    ensures
        numbers_view(final(out)@) == numbers_view(old(out)@).push((name@, value)),
{
    let ghost before = out@;
    out.push((text(name), value));
    assert(numbers_view(out@) =~= numbers_view(before).push((name@, value)));
}

/// The numbers of finality chains, transfers and gates.
pub open spec fn chain_numbers(
    second: PhaseARunOutcome,
    counts: FinalityCounts,
    bench_count: usize,
    latency_samples: u64,
) -> Seq<(Seq<char>, u64)> {
    seq![
        ("live_transaction_finality_proof_chains_per_run"@, counts.chains_per_run),
        ("live_transaction_finality_proof_chains_total"@, counts.chains_total),
        ("live_transaction_precommit_qcs_per_run"@, counts.chains_per_run),
        ("live_transaction_precommit_qcs_total"@, counts.chains_total),
        ("live_transaction_prevote_qcs_per_run"@, counts.chains_per_run),
        ("live_transaction_prevote_qcs_total"@, counts.chains_total),
        ("live_transaction_qc_shares_per_phase_per_run"@, counts.shares_per_run),
        ("unique_certified_intents_per_run"@, counts.chains_per_run),
        ("diagnostic_same_intent_alternate_finality_chains_per_run"@, 1u64),
        ("white_box_opposing_prevote_qc_injections_per_run"@, 1u64),
        ("accepted_transactions_per_run"@, (1 + second.bench_completed) as u64),
        ("abstract_conflict_cases_per_run"@, second.model_cases),
        ("bench_completed_per_run"@, second.bench_completed as u64),
        ("byzantine_validators"@, BYZANTINE_COUNT as u64),
        ("client_submit_to_qc_samples"@, latency_samples),
        ("clean_repeatability_runs"@, 2u64),
        ("phase_a_gate_count"@, phase_a::phase_a_gates().len() as u64),
        ("phase_a_passed_gate_count"@, if phase_a::at_audit_count(bench_count) {
                16u64
            } else {
                15u64
            }),
    ]
}

/// The numbers of value, and of what was refused.
pub open spec fn safety_numbers(
    second: PhaseARunOutcome,
) -> Seq<(Seq<char>, u64)> {
    seq![
        ("conservation_final_total"@, second.final_total),
        ("conservation_genesis_total"@, second.genesis_total),
        ("main_input_value"@, 100u64),
        ("main_recipient_value"@, 60u64),
        ("main_change_value"@, 39u64),
        ("main_fee_value"@, 1u64),
        ("invalid_owner_cases_per_run"@, 3u64),
        ("invalid_owner_rejections_per_run"@, second.invalid_owner_rejections),
        ("invalid_owner_votes_per_run"@, second.invalid_owner_votes),
        ("signed_field_mutation_rejections_per_run"@, second.mutation_count as u64),
        ("conservation_negative_rejections_per_run"@, 4u64),
        ("quorum_negative_rejections_per_run"@, second.qc_negative_count as u64),
        ("duplicate_controller_apply_checks_per_run"@, 1u64),
        ("duplicate_live_validator_apply_checks_per_run"@, N as u64),
        ("unauthorized_finality_proof_chains"@, 0u64),
        ("dual_conflicting_finality_proof_chains"@, 0u64),
        ("different_valid_qc_subset_state_root_matches"@, 1u64),
    ]
}

/// The numbers that the second run observed, and the largest sizes of both.
pub open spec fn observed_numbers(
    first: PhaseARunOutcome,
    second: PhaseARunOutcome,
) -> Seq<(Seq<char>, u64)> {
    seq![
        ("loser_live_outputs"@, second.loser_live_outputs as u64),
        ("live_conflict_bob_round1_prevotes"@, second.split_bob_votes as u64),
        ("live_conflict_charlie_round1_prevotes"@, second.split_charlie_votes as u64),
        ("opposing_precommit_durable_lock_rejections"@, second.conflicting_precommit_rejections as u64),
        ("post_restart_charlie_prevotes"@, second.post_restart_conflict_votes as u64),
        ("post_restart_durable_lock_rejections"@, second.post_restart_lock_rejections as u64),
        ("max_snapshot_bytes"@, phase_a::larger(first.max_snapshot_bytes, second.max_snapshot_bytes)),
        ("max_wal_bytes"@, phase_a::larger(first.max_wal_bytes, second.max_wal_bytes)),
        ("quorum_negative_cases_per_run"@, second.qc_negative_count as u64),
        ("signed_field_mutations_per_run"@, second.mutation_count as u64),
        ("validator_processes_per_run"@, N as u64),
    ]
}

fn larger_of(a: u64, b: u64) -> (r: u64)
    ensures
        r == phase_a::larger(a, b),
{
    if a < b {
        b
    } else {
        a
    }
}

fn phase_a_gate_count() -> (r: u64)
    ensures
        r == phase_a::phase_a_gates().len(),
{
    let names: Vec<String> = phase_a_gate_names();
    assert(names@.len() == node::texts(names@).len());
    names.len() as u64
}

fn push_chain_numbers(
    out: &mut Vec<(String, u64)>,
    second: &PhaseARunOutcome,
    counts: &FinalityCounts,
    bench_count: usize,
    latency_samples: u64,
)
    requires
        second.bench_completed < u64::MAX,
    ensures
        numbers_view(final(out)@) == numbers_view(old(out)@) + chain_numbers(*second, *counts, bench_count, latency_samples),
{
    let ghost before = numbers_view(out@);
    push_number(out, "live_transaction_finality_proof_chains_per_run", counts.chains_per_run);
    push_number(out, "live_transaction_finality_proof_chains_total", counts.chains_total);
    push_number(out, "live_transaction_precommit_qcs_per_run", counts.chains_per_run);
    push_number(out, "live_transaction_precommit_qcs_total", counts.chains_total);
    push_number(out, "live_transaction_prevote_qcs_per_run", counts.chains_per_run);
    push_number(out, "live_transaction_prevote_qcs_total", counts.chains_total);
    push_number(out, "live_transaction_qc_shares_per_phase_per_run", counts.shares_per_run);
    push_number(out, "unique_certified_intents_per_run", counts.chains_per_run);
    push_number(out, "diagnostic_same_intent_alternate_finality_chains_per_run", 1);
    push_number(out, "white_box_opposing_prevote_qc_injections_per_run", 1);
    push_number(out, "accepted_transactions_per_run", 1 + second.bench_completed as u64);
    push_number(out, "abstract_conflict_cases_per_run", second.model_cases);
    push_number(out, "bench_completed_per_run", second.bench_completed as u64);
    push_number(out, "byzantine_validators", BYZANTINE_COUNT as u64);
    push_number(out, "client_submit_to_qc_samples", latency_samples);
    push_number(out, "clean_repeatability_runs", 2);
    push_number(out, "phase_a_gate_count", phase_a_gate_count());
    push_number(out, "phase_a_passed_gate_count", passed_gate_count(bench_count) as u64);
    assert(numbers_view(out@) =~= before + chain_numbers(*second, *counts, bench_count, latency_samples));
}

fn push_safety_numbers(
    out: &mut Vec<(String, u64)>,
    second: &PhaseARunOutcome,
)
    ensures
        numbers_view(final(out)@) == numbers_view(old(out)@) + safety_numbers(*second),
{
    let ghost before = numbers_view(out@);
    push_number(out, "conservation_final_total", second.final_total);
    push_number(out, "conservation_genesis_total", second.genesis_total);
    push_number(out, "main_input_value", 100);
    push_number(out, "main_recipient_value", 60);
    push_number(out, "main_change_value", 39);
    push_number(out, "main_fee_value", 1);
    push_number(out, "invalid_owner_cases_per_run", 3);
    push_number(out, "invalid_owner_rejections_per_run", second.invalid_owner_rejections);
    push_number(out, "invalid_owner_votes_per_run", second.invalid_owner_votes);
    push_number(out, "signed_field_mutation_rejections_per_run", second.mutation_count as u64);
    push_number(out, "conservation_negative_rejections_per_run", 4);
    push_number(out, "quorum_negative_rejections_per_run", second.qc_negative_count as u64);
    push_number(out, "duplicate_controller_apply_checks_per_run", 1);
    push_number(out, "duplicate_live_validator_apply_checks_per_run", N as u64);
    push_number(out, "unauthorized_finality_proof_chains", 0);
    push_number(out, "dual_conflicting_finality_proof_chains", 0);
    push_number(out, "different_valid_qc_subset_state_root_matches", 1);
    assert(numbers_view(out@) =~= before + safety_numbers(*second));
}

fn push_observed_numbers(
    out: &mut Vec<(String, u64)>,
    first: &PhaseARunOutcome,
    second: &PhaseARunOutcome,
)
    ensures
        numbers_view(final(out)@) == numbers_view(old(out)@) + observed_numbers(*first, *second),
{
    let ghost before = numbers_view(out@);
    push_number(out, "loser_live_outputs", second.loser_live_outputs as u64);
    push_number(out, "live_conflict_bob_round1_prevotes", second.split_bob_votes as u64);
    push_number(out, "live_conflict_charlie_round1_prevotes", second.split_charlie_votes as u64);
    push_number(out, "opposing_precommit_durable_lock_rejections", second.conflicting_precommit_rejections as u64);
    push_number(out, "post_restart_charlie_prevotes", second.post_restart_conflict_votes as u64);
    push_number(out, "post_restart_durable_lock_rejections", second.post_restart_lock_rejections as u64);
    push_number(out, "max_snapshot_bytes", larger_of(first.max_snapshot_bytes, second.max_snapshot_bytes));
    push_number(out, "max_wal_bytes", larger_of(first.max_wal_bytes, second.max_wal_bytes));
    push_number(out, "quorum_negative_cases_per_run", second.qc_negative_count as u64);
    push_number(out, "signed_field_mutations_per_run", second.mutation_count as u64);
    push_number(out, "validator_processes_per_run", N as u64);
    assert(numbers_view(out@) =~= before + observed_numbers(*first, *second));
}

/// The numbers of the report on two runs that are whole, by name. The runs that are
/// reported on passed [`phase_a::check_evidence`], which gives the counts.
pub fn report_numbers(
    first: &PhaseARunOutcome,
    second: &PhaseARunOutcome,
    counts: &FinalityCounts,
    bench_count: usize,
    latency_samples: u64,
) -> (r: Vec<(String, u64)>)
    requires
        second.bench_completed < u64::MAX,
    ensures
        numbers_view(r@) == chain_numbers(
            *second,
            *counts,
            bench_count,
            latency_samples,
        ) + safety_numbers(*second) + observed_numbers(*first, *second),
{
    let mut r: Vec<(String, u64)> = Vec::new();
    assert(numbers_view(r@) =~= Seq::empty());
    push_chain_numbers(&mut r, second, counts, bench_count, latency_samples);
    push_safety_numbers(&mut r, second);
    push_observed_numbers(&mut r, first, second);
    assert(Seq::<(Seq<char>, u64)>::empty() + chain_numbers(
        *second,
        *counts,
        bench_count,
        latency_samples,
    ) =~= chain_numbers(*second, *counts, bench_count, latency_samples));
    r
}

/// How the gates are printed.
pub open spec fn gate_line(i: int, bench_count: usize) -> Seq<char> {
    if i == 7 {
        phase_a::phase_a_gates()[i]
            + "=PASS \u{2014} SAFETY PASS / EQUIVOCATION LIVENESS NOT GUARANTEED"@
    } else if i == 10 {
        phase_a::phase_a_gates()[i] + "="@ + phase_a::gate_status(i, bench_count)
            + " \u{2014} REQUESTED_PER_RUN="@ + text::dec(bench_count as nat)
    } else {
        phase_a::phase_a_gates()[i] + "=PASS"@
    }
}

/// The status of B11, which passes at the audit count only.
pub fn audit_count_status(bench_count: usize) -> (r: String)
    ensures
        r@ == phase_a::gate_status(10, bench_count),
{
    if bench_count == MAX_BENCH_COUNT {
        text("PASS")
    } else {
        text("NOT_RUN_AT_AUDIT_COUNT")
    }
}

/// The lines that a report prints for the gates.
pub fn gate_lines(bench_count: usize) -> (r: Vec<String>)
    ensures
        r@.len() == phase_a::phase_a_gates().len(),
        forall|i: int| 0 <= i < r@.len() ==> (#[trigger] r@[i])@ == gate_line(i, bench_count),
{
    let names: Vec<String> = phase_a_gate_names();
    assert(names@.len() == node::texts(names@).len());
    let mut lines: Vec<String> = Vec::new();
    let mut i: usize = 0;
    while i < names.len()
        invariant
            i <= names@.len(),
            names@.len() == phase_a::phase_a_gates().len(),
            node::texts(names@) == phase_a::phase_a_gates(),
            lines@.len() == i,
            forall|k: int| 0 <= k < i ==> (#[trigger] lines@[k])@ == gate_line(k, bench_count),
        decreases names@.len() - i,
    {
        assert(node::texts(names@)[i as int] == names@[i as int]@);
        let mut line: String = text(names[i].as_str());
        if i == 7 {
            line.append("=PASS \u{2014} SAFETY PASS / EQUIVOCATION LIVENESS NOT GUARANTEED");
        } else if i == 10 {
            line.append("=");
            line.append(audit_count_status(bench_count).as_str());
            line.append(" \u{2014} REQUESTED_PER_RUN=");
            push_dec(&mut line, bench_count as u64);
        } else {
            line.append("=PASS");
        }
        lines.push(line);
        i = i + 1;
    }
    lines
}

/// The last word of a report on the bounded run.
pub fn verdict_line(bench_count: usize) -> (r: String)
    ensures
        r@ == if phase_a::at_audit_count(bench_count) {
            "CALIBRE INTEGRATION-001 PHASE A: PASS"@
        } else {
            "CALIBRE INTEGRATION-001 PHASE A: INCONCLUSIVE \u{2014} B11 AUDIT COUNT "@ + text::dec(
                MAX_BENCH_COUNT as nat,
            ) + " NOT RUN"@
        },
{
    if bench_count == MAX_BENCH_COUNT {
        text("CALIBRE INTEGRATION-001 PHASE A: PASS")
    } else {
        with_number(
            "CALIBRE INTEGRATION-001 PHASE A: INCONCLUSIVE \u{2014} B11 AUDIT COUNT ",
            MAX_BENCH_COUNT as u64,
            " NOT RUN",
        )
    }
}

} // verus!
