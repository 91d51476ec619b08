//! The bounded local run: seven validators, two of them Byzantine fixtures. What
//! is asked of them, what their answers come to, and the decision at the end.
use crate::bytes;
use crate::bytes::{no_digest, same_array};
use crate::config::MAX_BENCH_COUNT;
use crate::controller;
use crate::controller::{
    apply_in_order, deterministic_permutation, flip, forward_order, hex_prefix,
    make_single_recipient_transfer, reverse_order, sign_fixture_votes, verify_observed_votes,
    FinalizedModel, FinalizedTransfer, LabFixture, LAB_SEED, VALIDATOR_COUNT,
};
use crate::crypto;
use crate::metrics;
use crate::model;
use crate::model::{
    assemble_qc, conflict_key, fee_collector, intent_hash, make_proposal, qc_digest, sign_user,
    ApplyOutcome, ApplyReceipt, Cell, CellRef, CommitteeManifest, CommitteeMember, Digest,
    ManifestModel, OutcomeModel, Proposal, ProposalModel, PublicKeyBytes, Qc, ReceiptModel, State,
    StateModel, Statement, Tx, TxModel, UserAuth, Verdict, Vote, N, PHASE_PREVOTE, Q,
};
use crate::node;
use crate::node::{REJECT_DURABLE_LOCK, REJECT_INVALID_PROPOSAL};
use crate::ordmap;
use crate::state;
use crate::store::Lifecycle;
use crate::text;
use crate::text::{push_dec, text, with_number};
use crate::wire::{Request, RequestModel, Response};
use vstd::prelude::*;

verus! {

// ---------------------------------------------------------------------------
// Answers.
// ---------------------------------------------------------------------------

/// Why an answer is not accepted: a message, or an answer of a kind that was not
/// asked for, which the caller shows.
#[derive(Debug)]
pub enum ReplyFault {
    Refused(String),
    Unexpected(Response),
}

/// The mathematical content of a [`ReplyFault`].
#[verifier::ext_equal]
pub enum FaultModel {
    Refused(Seq<char>),
    Unexpected(Response),
}

impl View for ReplyFault {
    type V = FaultModel;

    open spec fn view(&self) -> FaultModel {
        match *self {
            ReplyFault::Refused(message) => FaultModel::Refused(message@),
            ReplyFault::Unexpected(response) => FaultModel::Unexpected(response),
        }
    }
}

pub open spec fn faulted<T>(r: Result<T, ReplyFault>) -> Result<T, FaultModel> {
    match r {
        Ok(v) => Ok(v),
        Err(e) => Err(e@),
    }
}

/// Three texts with two numbers between them.
fn message(a: &str, m: u64, b: &str, n: u64, c: &str) -> (r: String)
    ensures
        r@ == a@ + text::dec(m as nat) + b@ + text::dec(n as nat) + c@,
{
    let mut r: String = text(a);
    push_dec(&mut r, m);
    r.append(b);
    push_dec(&mut r, n);
    r.append(c);
    r
}

/// What the answer of validator `index` to a request for a vote comes to: a vote,
/// or none if it refused.
pub open spec fn vote_answer(index: nat, response: Response) -> Result<Option<Vote>, FaultModel> {
    match response {
        Response::Vote(vote) => if vote.signer_index == index {
            Ok(Some(vote))
        } else {
            Err(
                FaultModel::Refused(
                    "validator "@ + text::dec(index) + " returned vote for signer "@ + text::dec(
                        vote.signer_index as nat,
                    ) + ""@,
                ),
            )
        },
        Response::Rejected { .. } => Ok(None),
        other => Err(FaultModel::Unexpected(other)),
    }
}

pub fn vote_reply(index: usize, response: Response) -> (r: Result<Option<Vote>, ReplyFault>)
    ensures
        faulted(r) == vote_answer(index as nat, response),
{
    match response {
        Response::Vote(vote) => if vote.signer_index as usize == index {
            Ok(Some(vote))
        } else {
            Err(
                ReplyFault::Refused(
                    message(
                        "validator ",
                        index as u64,
                        " returned vote for signer ",
                        vote.signer_index as u64,
                        "",
                    ),
                ),
            )
        },
        Response::Rejected { .. } => Ok(None),
        other => Err(ReplyFault::Unexpected(other)),
    }
}

/// Whether an answer to a ping names the validator, the epoch and the committee
/// that are expected; if not, the answer is handed back.
pub fn require_expected_pong(
    response: Response,
    index: usize,
    epoch: u64,
    committee_hash: Digest,
) -> (r: Result<(), Response>)
    ensures
        r is Ok <==> exists|i: u8|
            i == index && response == (Response::Pong { index: i, epoch, committee_hash }),
        r is Err ==> r->Err_0 == response,
{
    match response {
        Response::Pong {
            index: actual_index,
            epoch: actual_epoch,
            committee_hash: actual_committee,
        } => {
            if actual_index as usize == index && actual_epoch == epoch && same_array(
                &actual_committee,
                &committee_hash,
            ) {
                assert(response == Response::Pong { index: actual_index, epoch, committee_hash });
                Ok(())
            } else {
                Err(response)
            }
        },
        other => Err(other),
    }
}

/// What the answer to the delivery of a finalized transfer comes to.
pub open spec fn apply_answer(response: Response) -> Result<(Digest, bool), FaultModel> {
    match response {
        Response::Applied { state_root, idempotent } => Ok((state_root, idempotent)),
        Response::Rejected { code } => Err(
            FaultModel::Refused(
                "validator rejected valid apply with code "@ + text::dec(code as nat) + ""@,
            ),
        ),
        other => Err(FaultModel::Unexpected(other)),
    }
}

pub fn apply_reply(response: Response) -> (r: Result<(Digest, bool), ReplyFault>)
    ensures
        faulted(r) == apply_answer(response),
{
    match response {
        Response::Applied { state_root, idempotent } => Ok((state_root, idempotent)),
        Response::Rejected { code } => Err(
            ReplyFault::Refused(
                with_number("validator rejected valid apply with code ", code as u64, ""),
            ),
        ),
        other => Err(ReplyFault::Unexpected(other)),
    }
}

#[derive(Clone, Copy, Debug, PartialEq, Eq)]
pub struct QuerySummary {
    pub state_root: Digest,
    pub snapshot_bytes: u64,
    pub wal_bytes: u64,
}

/// What the answer of an active validator to a query comes to.
pub open spec fn query_answer(response: Response) -> Result<QuerySummary, FaultModel> {
    match response {
        Response::State { state_root, snapshot_bytes, wal_bytes, lifecycle } => if lifecycle
            == Lifecycle::Active {
            Ok(QuerySummary { state_root, snapshot_bytes, wal_bytes })
        } else {
            Err(
                FaultModel::Refused(
                    "validator is not active while queried: "@ + lifecycle_name(lifecycle),
                ),
            )
        },
        other => Err(FaultModel::Unexpected(other)),
    }
}

pub open spec fn lifecycle_name(l: Lifecycle) -> Seq<char> {
    match l {
        Lifecycle::Initialized => "Initialized"@,
        Lifecycle::Active => "Active"@,
        Lifecycle::Retired => "Retired"@,
    }
}

pub fn query_reply(response: Response) -> (r: Result<QuerySummary, ReplyFault>)
    ensures
        faulted(r) == query_answer(response),
{
    match response {
        Response::State { state_root, snapshot_bytes, wal_bytes, lifecycle } => {
            let mut refusal: String = text("validator is not active while queried: ");
            match lifecycle {
                Lifecycle::Active => {
                    return Ok(QuerySummary { state_root, snapshot_bytes, wal_bytes });
                },
                Lifecycle::Initialized => {
                    refusal.append("Initialized");
                },
                Lifecycle::Retired => {
                    refusal.append("Retired");
                },
            }
            Err(ReplyFault::Refused(refusal))
        },
        other => Err(ReplyFault::Unexpected(other)),
    }
}

/// Whether an answer refuses a precommit at the durable lock; if not, it is
/// handed back.
pub fn lock_reply(response: Response) -> (r: Result<(), Response>)
    ensures
        r is Ok <==> response == (Response::Rejected { code: REJECT_DURABLE_LOCK }),
        r is Err ==> r->Err_0 == response,
{
    match response {
        Response::Rejected { code } => if code == REJECT_DURABLE_LOCK {
            Ok(())
        } else {
            Err(response)
        },
        other => Err(other),
    }
}

// ---------------------------------------------------------------------------
// Tallies.
// ---------------------------------------------------------------------------

/// The votes and the expected refusals of a round of questions.
#[derive(Debug)]
pub struct Tally {
    pub votes: Vec<Vote>,
    pub rejections: usize,
}

/// The mathematical content of a [`Tally`].
#[verifier::ext_equal]
pub struct TallyModel {
    pub votes: Seq<Vote>,
    pub rejections: nat,
}

impl View for Tally {
    type V = TallyModel;

    open spec fn view(&self) -> TallyModel {
        TallyModel { votes: self.votes@, rejections: self.rejections as nat }
    }
}

pub open spec fn no_answers() -> TallyModel {
    TallyModel { votes: Seq::empty(), rejections: 0 }
}

/// A tally with a vote more.
pub open spec fn voted(t: TallyModel, vote: Vote) -> TallyModel {
    TallyModel { votes: t.votes.push(vote), ..t }
}

/// A tally with a refusal more.
pub open spec fn rejected(t: TallyModel) -> TallyModel {
    TallyModel { rejections: t.rejections + 1, ..t }
}

/// What the answer of validator `index` makes of the tally of a proposal whose
/// owner did not authorize it: only the two Byzantine fixtures sign, and the
/// honest validators refuse the proposal.
pub open spec fn owner_answer(t: TallyModel, index: nat, case_index: nat, response: Response)
    -> Result<TallyModel, FaultModel> {
    match response {
        Response::Vote(vote) => if vote.signer_index == index && index < 2 {
            Ok(voted(t, vote))
        } else {
            Err(
                FaultModel::Refused(
                    "validator "@ + text::dec(index) + " unexpectedly signed invalid owner case "@ + text::dec(
                        case_index,
                    ) + " as signer "@ + text::dec(vote.signer_index as nat),
                ),
            )
        },
        Response::Rejected { code } => if index >= 2 && code == REJECT_INVALID_PROPOSAL {
            Ok(rejected(t))
        } else {
            Err(
                FaultModel::Refused(
                    "validator "@ + text::dec(index)
                        + " returned ambiguous owner-negative rejection code "@ + text::dec(code as nat)
                        + " in case "@ + text::dec(case_index),
                ),
            )
        },
        other => Err(FaultModel::Unexpected(other)),
    }
}

/// What the answer of validator `index` makes of the tally of a proposal that
/// conflicts with a durable lock: the honest validators refuse it at the lock.
pub open spec fn locked_answer(t: TallyModel, index: nat, response: Response) -> Result<
    TallyModel,
    FaultModel,
> {
    match response {
        Response::Vote(vote) => if vote.signer_index == index {
            Ok(voted(t, vote))
        } else {
            Err(
                FaultModel::Refused(
                    "validator "@ + text::dec(index) + " returned post-restart vote for signer "@ + text::dec(
                        vote.signer_index as nat,
                    ) + ""@,
                ),
            )
        },
        Response::Rejected { code } => if index >= 2 && code == REJECT_DURABLE_LOCK {
            Ok(rejected(t))
        } else {
            Err(
                FaultModel::Refused(
                    "validator "@ + text::dec(index)
                        + " returned ambiguous post-restart conflict rejection code "@ + text::dec(
                        code as nat,
                    ) + ""@,
                ),
            )
        },
        other => Err(FaultModel::Unexpected(other)),
    }
}

impl Tally {
    pub fn new() -> (r: Self)
        ensures
            r@ == no_answers(),
    {
        let r: Tally = Tally { votes: Vec::new(), rejections: 0 };
        assert(r@.votes =~= Seq::empty());
        r
    }

    /// Takes the answer of validator `index` in the case number `case_index` of a
    /// proposal whose owner did not authorize it.
    pub fn take_owner_reply(&mut self, index: usize, case_index: usize, response: Response) -> (r:
        Result<(), ReplyFault>)
        requires
            old(self).rejections < usize::MAX,
        ensures
            match owner_answer(old(self)@, index as nat, case_index as nat, response) {
                Ok(t) => r is Ok && final(self)@ == t,
                Err(e) => r is Err && r->Err_0@ == e && final(self)@ == old(self)@,
            },
    {
        match response {
            Response::Vote(vote) => {
                if vote.signer_index as usize == index && index < 2 {
                    self.votes.push(vote);
                    return Ok(());
                }
                let mut refusal: String = message(
                    "validator ",
                    index as u64,
                    " unexpectedly signed invalid owner case ",
                    case_index as u64,
                    " as signer ",
                );
                push_dec(&mut refusal, vote.signer_index as u64);
                Err(ReplyFault::Refused(refusal))
            },
            Response::Rejected { code } => {
                if index >= 2 && code == REJECT_INVALID_PROPOSAL {
                    self.rejections = self.rejections + 1;
                    return Ok(());
                }
                let mut refusal: String = message(
                    "validator ",
                    index as u64,
                    " returned ambiguous owner-negative rejection code ",
                    code as u64,
                    " in case ",
                );
                push_dec(&mut refusal, case_index as u64);
                Err(ReplyFault::Refused(refusal))
            },
            other => Err(ReplyFault::Unexpected(other)),
        }
    }

    /// Takes the answer of validator `index` to a proposal that conflicts with a
    /// durable lock.
    pub fn take_locked_reply(&mut self, index: usize, response: Response) -> (r: Result<
        (),
        ReplyFault,
    >)
        requires
            old(self).rejections < usize::MAX,
        ensures
            match locked_answer(old(self)@, index as nat, response) {
                Ok(t) => r is Ok && final(self)@ == t,
                Err(e) => r is Err && r->Err_0@ == e && final(self)@ == old(self)@,
            },
    {
        match response {
            Response::Vote(vote) => {
                if vote.signer_index as usize == index {
                    self.votes.push(vote);
                    return Ok(());
                }
                Err(
                    ReplyFault::Refused(
                        message(
                            "validator ",
                            index as u64,
                            " returned post-restart vote for signer ",
                            vote.signer_index as u64,
                            "",
                        ),
                    ),
                )
            },
            Response::Rejected { code } => {
                if index >= 2 && code == REJECT_DURABLE_LOCK {
                    self.rejections = self.rejections + 1;
                    return Ok(());
                }
                Err(
                    ReplyFault::Refused(
                        message(
                            "validator ",
                            index as u64,
                            " returned ambiguous post-restart conflict rejection code ",
                            code as u64,
                            "",
                        ),
                    ),
                )
            },
            other => Err(ReplyFault::Unexpected(other)),
        }
    }
}

// ---------------------------------------------------------------------------
// Owner authorization.
// ---------------------------------------------------------------------------

/// The proposal of a case whose authorization is missing, of another owner, or
/// malformed.
pub open spec fn owner_case(
    m: ManifestModel,
    input: Cell,
    bob: PublicKeyBytes,
    alice_seed: [u8; 32],
    mallory_seed: [u8; 32],
    case_index: int,
) -> Result<ProposalModel, Seq<char>> {
    match controller::single_transfer(m, input, bob, 99, 1, (10000 + case_index) as u64) {
        Err(e) => Err(e),
        Ok(tx) => match model::user_signed(tx, alice_seed) {
            Err(e) => Err(e),
            Ok(auth) => match model::proposed(m, (40 + case_index) as u64, tx, auth, None) {
                Err(e) => Err(e),
                Ok(p) => if case_index == 0 {
                    Ok(
                        ProposalModel {
                            auth: UserAuth { signature: bytes::arr::<64>(bytes::zeros(64)), ..p.auth },
                            ..p
                        },
                    )
                } else if case_index == 1 {
                    match model::user_signed(tx, mallory_seed) {
                        Err(e) => Err(e),
                        Ok(other) => Ok(ProposalModel { auth: other, ..p }),
                    }
                } else if case_index == 2 {
                    Ok(
                        ProposalModel {
                            auth: UserAuth { signature: controller::flipped(p.auth.signature), ..p.auth },
                            ..p
                        },
                    )
                } else {
                    Err("unexpected owner-negative case index"@)
                },
            },
        },
    }
}

/// The proposal of an owner-authorization case.
pub fn owner_negative_proposal(fixture: &LabFixture, case_index: usize) -> (r: Result<
    Proposal,
    String,
>)
    requires
        case_index < fixture.negative_inputs@.len(),
        10000 + case_index <= u64::MAX,
    ensures
        text::shown_view(r) == owner_case(
            fixture.manifest@,
            fixture.negative_inputs@[case_index as int],
            fixture.bob,
            fixture.alice.seed,
            fixture.mallory.seed,
            case_index as int,
        ),
{
    let tx: Tx = make_single_recipient_transfer(
        &fixture.manifest,
        fixture.negative_inputs[case_index],
        fixture.bob,
        99,
        1,
        10000 + case_index as u64,
    )?;
    let valid_auth: UserAuth = sign_user(&tx, &fixture.alice)?;
    let mut proposal: Proposal = make_proposal(
        &fixture.manifest,
        40 + case_index as u64,
        tx.clone(),
        valid_auth,
        None,
    )?;
    if case_index == 0 {
        let none: [u8; 64] = [0u8; 64];
        proof {
            bytes::lemma_arr_of_view(none);
            assert(none@ =~= bytes::zeros(64));
        }
        proposal.auth = UserAuth { signature: none, ..proposal.auth };
    } else if case_index == 1 {
        proposal.auth = sign_user(&tx, &fixture.mallory)?;
    } else if case_index == 2 {
        proposal.auth = UserAuth {
            signature: flip(&proposal.auth.signature),
            ..proposal.auth
        };
    } else {
        return Err(text("unexpected owner-negative case index"));
    }
    Ok(proposal)
}

/// The first vote from number `i` on that an honest validator signed.
pub open spec fn honest_signature(votes: Seq<Vote>, case_index: nat, i: int) -> Verdict
    decreases votes.len() - i,
{
    if i < 0 || i >= votes.len() {
        Ok(())
    } else if votes[i].signer_index >= 2 {
        Err(
            "honest validator "@ + text::dec(votes[i].signer_index as nat)
                + " signed invalid owner authorization case "@ + text::dec(case_index) + ""@,
        )
    } else {
        honest_signature(votes, case_index, i + 1)
    }
}

/// The statement of a prevote for a proposal.
pub open spec fn prevote_on(p: ProposalModel) -> Statement {
    controller::on_transfer(p.tx, PHASE_PREVOTE, p.round, None)
}

/// What an owner-authorization case comes to: the number of shares that the
/// proposal obtained, and that of the honest refusals.
pub open spec fn owner_case_result(
    t: TallyModel,
    m: ManifestModel,
    p: ProposalModel,
    case_index: nat,
) -> Result<(nat, nat), Seq<char>> {
    if t.rejections != 5 {
        Err(
            "owner-negative case "@ + text::dec(case_index) + " produced "@ + text::dec(t.rejections)
                + "/5 exact honest rejections"@,
        )
    } else {
        match model::intent_result(p.tx) {
            Err(e) => Err(e),
            Ok(_) => match controller::observed_verdict(t.votes, m, prevote_on(p), 0) {
                Err(e) => Err(e),
                Ok(_) => match honest_signature(t.votes, case_index, 0) {
                    Err(e) => Err(e),
                    Ok(_) => if model::assembled(t.votes, m, prevote_on(p)) is Ok {
                        Err(
                            "invalid owner authorization case "@ + text::dec(case_index)
                                + " formed a quorum"@,
                        )
                    } else {
                        Ok((t.votes.len(), t.rejections))
                    },
                },
            },
        }
    }
}

fn check_signers(votes: &Vec<Vote>, case_index: usize) -> (r: Result<(), String>)
    ensures
        text::shown(r) == honest_signature(votes@, case_index as nat, 0),
{
    let mut i: usize = 0;
    while i < votes.len()
        invariant
            i <= votes@.len(),
            honest_signature(votes@, case_index as nat, 0) == honest_signature(
                votes@,
                case_index as nat,
                i as int,
            ),
        decreases votes@.len() - i,
    {
        if votes[i].signer_index >= 2 {
            return Err(
                message(
                    "honest validator ",
                    votes[i].signer_index as u64,
                    " signed invalid owner authorization case ",
                    case_index as u64,
                    "",
                ),
            );
        }
        i = i + 1;
    }
    Ok(())
}

/// Closes an owner-authorization case.
pub fn finish_owner_case(
    tally: &Tally,
    manifest: &CommitteeManifest,
    proposal: &Proposal,
    case_index: usize,
) -> (r: Result<(u64, u64), String>)
    ensures
        match owner_case_result(tally@, manifest@, proposal@, case_index as nat) {
            Ok((votes, rejections)) => r is Ok && r->Ok_0.0 == votes && r->Ok_0.1 == rejections,
            Err(e) => r is Err && r->Err_0@ == e,
        },
{
    if tally.rejections != 5 {
        return Err(
            message(
                "owner-negative case ",
                case_index as u64,
                " produced ",
                tally.rejections as u64,
                "/5 exact honest rejections",
            ),
        );
    }
    let conflict: Digest = conflict_key(proposal.tx.input.reference);
    let intent: Digest = intent_hash(&proposal.tx)?;
    verify_observed_votes(
        &tally.votes,
        manifest,
        PHASE_PREVOTE,
        proposal.round,
        conflict,
        intent,
    )?;
    check_signers(&tally.votes, case_index)?;
    if assemble_qc(
        crate::bytes::copy_vec(&tally.votes),
        manifest,
        PHASE_PREVOTE,
        proposal.round,
        conflict,
        intent,
        None,
    ).is_ok() {
        return Err(
            with_number(
                "invalid owner authorization case ",
                case_index as u64,
                " formed a quorum",
            ),
        );
    }
    Ok((tally.votes.len() as u64, tally.rejections as u64))
}

/// An unauthorized proposal that passes its case got at most the two shares of
/// the Byzantine validators.
pub proof fn law_unauthorized_shares(
    t: TallyModel,
    m: ManifestModel,
    p: ProposalModel,
    case_index: nat,
)
    requires
        owner_case_result(t, m, p, case_index) is Ok,
    ensures
        t.votes.len() <= 2,
{
    lemma_observed(t.votes, m, prevote_on(p), 0);
    lemma_honest_signature(t.votes, case_index, 0);
    if t.votes.len() > 2 {
        assert(t.votes[0].signer_index < 2 && t.votes[1].signer_index < 2
            && t.votes[2].signer_index < 2);
        assert(!controller::signed_before(t.votes, 1));
        assert(!controller::signed_before(t.votes, 2));
        assert(t.votes[0].signer_index != t.votes[1].signer_index);
        assert(t.votes[0].signer_index != t.votes[2].signer_index);
        assert(t.votes[1].signer_index != t.votes[2].signer_index);
    }
}

proof fn lemma_observed(votes: Seq<Vote>, m: ManifestModel, s: Statement, i: int)
    requires
        0 <= i,
        controller::observed_verdict(votes, m, s, i) is Ok,
    ensures
        forall|k: int| i <= k < votes.len() ==> !#[trigger] controller::signed_before(votes, k),
    decreases votes.len() - i,
{
    if i < votes.len() {
        lemma_observed(votes, m, s, i + 1);
    }
}

proof fn lemma_honest_signature(votes: Seq<Vote>, case_index: nat, i: int)
    requires
        0 <= i,
        honest_signature(votes, case_index, i) is Ok,
    ensures
        forall|k: int| i <= k < votes.len() ==> (#[trigger] votes[k]).signer_index < 2,
    decreases votes.len() - i,
{
    if i < votes.len() {
        lemma_honest_signature(votes, case_index, i + 1);
    }
}

// ---------------------------------------------------------------------------
// The conflict.
// ---------------------------------------------------------------------------

/// The verdict on the topology of a run.
pub open spec fn topology_verdict(m: ManifestModel) -> Verdict {
    if m.members.len() != 7 {
        Err("topology preflight is not N=7/Q=5"@)
    } else {
        Ok(())
    }
}

pub fn check_topology(manifest: &CommitteeManifest) -> (r: Result<(), String>)
    ensures
        text::shown(r) == topology_verdict(manifest@),
{
    if N != VALIDATOR_COUNT || Q != 5 || manifest.members.len() != 7 {
        return Err(text("topology preflight is not N=7/Q=5"));
    }
    Ok(())
}

/// The verdict on the votes of a first round in which the honest validators are
/// split between two conflicting transfers.
pub open spec fn split_verdict(
    m: ManifestModel,
    bob_votes: Seq<Vote>,
    charlie_votes: Seq<Vote>,
    bob: TxModel,
    charlie: TxModel,
) -> Verdict {
    match model::intent_result(bob) {
        Err(e) => Err(e),
        Ok(_) => match model::intent_result(charlie) {
            Err(e) => Err(e),
            Ok(_) => match controller::observed_verdict(
                bob_votes,
                m,
                controller::on_transfer(bob, PHASE_PREVOTE, 1, None),
                0,
            ) {
                Err(e) => Err(e),
                Ok(_) => match controller::observed_verdict(
                    charlie_votes,
                    m,
                    controller::on_transfer(charlie, PHASE_PREVOTE, 1, None),
                    0,
                ) {
                    Err(e) => Err(e),
                    Ok(_) => if bob_votes.len() != 3 || charlie_votes.len() != 2 {
                        Err(
                            "tentative honest split was "@ + text::dec(bob_votes.len()) + "/"@ + text::dec(
                                charlie_votes.len(),
                            ) + " instead of 3/2"@,
                        )
                    } else {
                        Ok(())
                    },
                },
            },
        },
    }
}

pub fn check_split(
    manifest: &CommitteeManifest,
    bob_votes: &Vec<Vote>,
    charlie_votes: &Vec<Vote>,
    bob: &Tx,
    charlie: &Tx,
) -> (r: Result<(), String>)
    ensures
        text::shown(r) == split_verdict(manifest@, bob_votes@, charlie_votes@, bob@, charlie@),
{
    let bob_intent: Digest = intent_hash(bob)?;
    let charlie_intent: Digest = intent_hash(charlie)?;
    verify_observed_votes(
        bob_votes,
        manifest,
        PHASE_PREVOTE,
        1,
        conflict_key(bob.input.reference),
        bob_intent,
    )?;
    verify_observed_votes(
        charlie_votes,
        manifest,
        PHASE_PREVOTE,
        1,
        conflict_key(charlie.input.reference),
        charlie_intent,
    )?;
    if bob_votes.len() != 3 || charlie_votes.len() != 2 {
        return Err(
            message(
                "tentative honest split was ",
                bob_votes.len() as u64,
                "/",
                charlie_votes.len() as u64,
                " instead of 3/2",
            ),
        );
    }
    Ok(())
}

/// The precommit request for the losing transfer, with a prevote certificate that
/// fixture keys made.
pub open spec fn opposing_result(m: ManifestModel, tx: TxModel, auth: UserAuth) -> Result<
    RequestModel,
    Seq<char>,
> {
    let s = controller::on_transfer(tx, PHASE_PREVOTE, 1, None);
    match model::proposed(m, 1, tx, auth, None) {
        Err(e) => Err(e),
        Ok(p) => match model::intent_result(tx) {
            Err(e) => Err(e),
            Ok(_) => match controller::fixture_votes(
                m,
                s,
                bytes::zero_digest(),
                controller::ascending_order(Q as nat),
                0,
                Seq::empty(),
            ) {
                Err(e) => Err(e),
                Ok(votes) => match model::assembled(votes, m, s) {
                    Err(e) => Err(e),
                    Ok(qc) => Ok(RequestModel::Precommit(p, qc)),
                },
            },
        },
    }
}

pub fn opposing_precommit(manifest: &CommitteeManifest, tx: &Tx, auth: UserAuth) -> (r: Result<
    Request,
    String,
>)
    ensures
        text::shown_view(r) == opposing_result(manifest@, tx@, auth),
{
    let proposal: Proposal = make_proposal(manifest, 1, tx.clone(), auth, None)?;
    let conflict: Digest = conflict_key(tx.input.reference);
    let intent: Digest = intent_hash(tx)?;
    let signers: Vec<usize> = forward_order(Q);
    let votes: Vec<Vote> = sign_fixture_votes(
        manifest,
        PHASE_PREVOTE,
        1,
        conflict,
        intent,
        no_digest(),
        &signers,
    )?;
    let prevote_qc: Qc = assemble_qc(votes, manifest, PHASE_PREVOTE, 1, conflict, intent, None)?;
    Ok(Request::Precommit { proposal, prevote_qc })
}

/// A list of signers.
pub open spec fn signers_text(votes: Seq<Vote>, n: int) -> Seq<char>
    decreases n,
{
    if n <= 0 || n > votes.len() {
        Seq::empty()
    } else if n == 1 {
        text::dec(votes[0].signer_index as nat)
    } else {
        signers_text(votes, n - 1) + ", "@ + text::dec(votes[n - 1].signer_index as nat)
    }
}

pub open spec fn has_honest_signer(votes: Seq<Vote>) -> bool {
    exists|i: int| 0 <= i < votes.len() && (#[trigger] votes[i]).signer_index >= 2
}

/// The verdict on the answers to a proposal that conflicts with the lock of every
/// honest validator, one of which was restarted.
pub open spec fn after_lock_verdict(t: TallyModel, m: ManifestModel, tx: TxModel) -> Verdict {
    match model::intent_result(tx) {
        Err(e) => Err(e),
        Ok(_) => match controller::observed_verdict(t.votes, m, controller::on_transfer(tx, PHASE_PREVOTE, 3, None), 0) {
            Err(e) => Err(e),
            Ok(_) => if t.votes.len() != 2 || has_honest_signer(t.votes) || t.rejections != 5 {
                Err(
                    "post-lock Charlie conflict obtained unexpected shares/rejections: shares=["@
                        + signers_text(t.votes, t.votes.len() as int)
                        + "] durable_lock_rejections="@ + text::dec(t.rejections),
                )
            } else {
                Ok(())
            },
        },
    }
}

fn any_honest_signer(votes: &Vec<Vote>) -> (r: bool)
    ensures
        r == has_honest_signer(votes@),
{
    let mut i: usize = 0;
    while i < votes.len()
        invariant
            i <= votes@.len(),
            forall|k: int| 0 <= k < i ==> (#[trigger] votes@[k]).signer_index < 2,
        decreases votes@.len() - i,
    {
        if votes[i].signer_index >= 2 {
            return true;
        }
        i = i + 1;
    }
    false
}

fn push_signers(out: &mut String, votes: &Vec<Vote>)
    ensures
        final(out)@ == old(out)@ + signers_text(votes@, votes@.len() as int),
{
    let ghost before = out@;
    let mut i: usize = 0;
    assert(out@ =~= before + signers_text(votes@, 0));
    while i < votes.len()
        invariant
            i <= votes@.len(),
            out@ == before + signers_text(votes@, i as int),
        decreases votes@.len() - i,
    {
        if i > 0 {
            out.append(", ");
        }
        push_dec(out, votes[i].signer_index as u64);
        i = i + 1;
        assert(out@ =~= before + signers_text(votes@, i as int));
    }
}

pub fn check_after_lock(tally: &Tally, manifest: &CommitteeManifest, tx: &Tx) -> (r: Result<
    (),
    String,
>)
    ensures
        text::shown(r) == after_lock_verdict(tally@, manifest@, tx@),
{
    let intent: Digest = intent_hash(tx)?;
    verify_observed_votes(
        &tally.votes,
        manifest,
        PHASE_PREVOTE,
        3,
        conflict_key(tx.input.reference),
        intent,
    )?;
    if tally.votes.len() != 2 || any_honest_signer(&tally.votes) || tally.rejections != 5 {
        let mut refusal: String = text(
            "post-lock Charlie conflict obtained unexpected shares/rejections: shares=[",
        );
        push_signers(&mut refusal, &tally.votes);
        refusal.append("] durable_lock_rejections=");
        push_dec(&mut refusal, tally.rejections as u64);
        return Err(refusal);
    }
    Ok(())
}

// ---------------------------------------------------------------------------
// The main transfer.
// ---------------------------------------------------------------------------

/// What applying a finalized transfer comes to, and the state after it.
pub open spec fn applied_to(s: StateModel, f: FinalizedModel, m: ManifestModel) -> Result<
    (OutcomeModel, StateModel),
    Seq<char>,
> {
    match state::apply_result(s, f.tx, f.auth, f.prevote_qc, f.qc, m) {
        Err(e) => Err(e),
        Ok(outcome) => Ok((outcome, state::state_then(s, f.tx, Ok(outcome)))),
    }
}

/// The verdict on two finalizations of one transfer by different signers: their
/// certificates differ, and the states that they lead to do not.
pub open spec fn alternates_verdict(
    genesis: StateModel,
    m: ManifestModel,
    f: FinalizedModel,
    alternate: FinalizedModel,
) -> Verdict {
    match model::qc_digest_result(alternate.qc, m) {
        Err(e) => Err(e),
        Ok(a) => match model::qc_digest_result(f.qc, m) {
            Err(e) => Err(e),
            Ok(b) => if a == b {
                Err("different signer subsets unexpectedly produced one QC digest"@)
            } else {
                match applied_to(genesis, f, m) {
                    Err(e) => Err(e),
                    Ok((_, first)) => match applied_to(genesis, alternate, m) {
                        Err(e) => Err(e),
                        Ok((_, second)) => if state::root_digest(first) != state::root_digest(second)
                            || first.live != second.live || first.spent_by != second.spent_by {
                            Err(
                                "same intent with different valid QC subsets diverged semantic state"@,
                            )
                        } else {
                            Ok(())
                        },
                    },
                }
            },
        },
    }
}

/// Checks two finalizations of one transfer by different signers.
pub fn check_alternates(
    genesis: &State,
    manifest: &CommitteeManifest,
    finalized: &FinalizedTransfer,
    alternate: &FinalizedTransfer,
) -> (r: Result<(), String>)
    requires
        finalized.tx@ == alternate.tx@,
    ensures
        text::shown(r) == alternates_verdict(genesis@, manifest@, finalized@, alternate@),
{
    let alternate_digest: Digest = qc_digest(&alternate.qc, manifest)?;
    let digest: Digest = qc_digest(&finalized.qc, manifest)?;
    if same_array(&alternate_digest, &digest) {
        return Err(text("different signer subsets unexpectedly produced one QC digest"));
    }
    let mut first: State = genesis.clone();
    let mut second: State = genesis.clone();
    let first_outcome: ApplyOutcome = first.apply_finalized(
        &finalized.tx,
        &finalized.auth,
        &finalized.prevote_qc,
        &finalized.qc,
        manifest,
    )?;
    let second_outcome: ApplyOutcome = second.apply_finalized(
        &alternate.tx,
        &alternate.auth,
        &alternate.prevote_qc,
        &alternate.qc,
        manifest,
    )?;
    // Which certificate finalized the transfer has no part in its cells.
    assert(first@.live == second@.live && first@.spent_by == second@.spent_by);
    let first_root: Digest = first.root();
    let second_root: Digest = second.root();
    if !same_array(&first_root, &second_root) {
        return Err(text("same intent with different valid QC subsets diverged semantic state"));
    }
    Ok(())
}

pub open spec fn owned_entries(entries: Seq<(CellRef, Cell)>, owner: PublicKeyBytes, n: int) -> nat
    decreases n,
{
    if n <= 0 || n > entries.len() {
        0
    } else {
        owned_entries(entries, owner, n - 1) + if entries[n - 1].1.owner == owner {
            1nat
        } else {
            0
        }
    }
}

/// The number of live cells of an owner.
pub open spec fn owned(s: StateModel, owner: PublicKeyBytes) -> nat {
    owned_entries(ordmap::listed(s.live), owner, ordmap::listed(s.live).len() as int)
}

pub fn count_owned(state: &State, owner: &PublicKeyBytes) -> (r: usize)
    ensures
        r == owned(state@, *owner),
{
    let count: usize = state.live.len();
    let mut found: usize = 0;
    let mut i: usize = 0;
    while i < count
        invariant
            i <= count,
            count == ordmap::listed(state@.live).len(),
            found <= i,
            found == owned_entries(ordmap::listed(state@.live), *owner, i as int),
        decreases count - i,
    {
        if same_array(&state.live.value_at(i).owner, owner) {
            found = found + 1;
        }
        i = i + 1;
    }
    found
}

/// The live cell at an output reference of a receipt.
pub open spec fn output_cell(s: StateModel, receipt: ReceiptModel, i: int) -> Option<Cell> {
    s.live.get(receipt.output_refs[i])
}

/// The verdict on the state after the main transfer.
pub open spec fn main_verdict(
    s: StateModel,
    receipt: ReceiptModel,
    bob: PublicKeyBytes,
    alice: PublicKeyBytes,
    charlie: PublicKeyBytes,
    genesis_total: u64,
) -> Verdict {
    if receipt.output_refs.len() != 3 {
        Err("Bob transfer did not create recipient/change/fee cells"@)
    } else {
        match output_cell(s, receipt, 0) {
            None => Err("Bob output absent"@),
            Some(paid) => match output_cell(s, receipt, 1) {
                None => Err("Alice change absent"@),
                Some(change) => match output_cell(s, receipt, 2) {
                    None => Err("fee output absent"@),
                    Some(fee) => if paid.amount != 60 || paid.owner != bob || change.amount != 39
                        || change.owner != alice || fee.amount != 1 || fee.owner != model::fee_owner() {
                        Err(
                            "Bob/Alice/fee outputs, conservation, or loser absence invariant failed"@,
                        )
                    } else if state::live_total(s.live) > u64::MAX {
                        Err("state value overflow"@)
                    } else if state::live_total(s.live) != genesis_total || owned(s, charlie) > 0 {
                        Err(
                            "Bob/Alice/fee outputs, conservation, or loser absence invariant failed"@,
                        )
                    } else {
                        Ok(())
                    },
                },
            },
        }
    }
}

/// Checks the state after the main transfer.
pub fn check_main_outputs(
    state: &State,
    receipt: &ApplyReceipt,
    bob: &PublicKeyBytes,
    alice: &PublicKeyBytes,
    charlie: &PublicKeyBytes,
    genesis_total: u64,
) -> (r: Result<(), String>)
    ensures
        text::shown(r) == main_verdict(state@, receipt@, *bob, *alice, *charlie, genesis_total),
{
    if receipt.output_refs.len() != 3 {
        return Err(text("Bob transfer did not create recipient/change/fee cells"));
    }
    let paid: Cell = match state.live_cell(receipt.output_refs[0]) {
        Some(cell) => *cell,
        None => {
            return Err(text("Bob output absent"));
        },
    };
    let change: Cell = match state.live_cell(receipt.output_refs[1]) {
        Some(cell) => *cell,
        None => {
            return Err(text("Alice change absent"));
        },
    };
    let fee: Cell = match state.live_cell(receipt.output_refs[2]) {
        Some(cell) => *cell,
        None => {
            return Err(text("fee output absent"));
        },
    };
    let collector: PublicKeyBytes = fee_collector();
    if paid.amount != 60 || !same_array(&paid.owner, bob) || change.amount != 39 || !same_array(
        &change.owner,
        alice,
    ) || fee.amount != 1 || !same_array(&fee.owner, &collector) {
        return Err(
            text("Bob/Alice/fee outputs, conservation, or loser absence invariant failed"),
        );
    }
    let total: u64 = state.total_value()?;
    if total != genesis_total || count_owned(state, charlie) > 0 {
        return Err(
            text("Bob/Alice/fee outputs, conservation, or loser absence invariant failed"),
        );
    }
    Ok(())
}

/// What the first delivery of the main transfer to the controller's own state
/// comes to: its receipt, and the state after it.
pub open spec fn main_result(
    s: StateModel,
    f: FinalizedModel,
    m: ManifestModel,
    bob: PublicKeyBytes,
    alice: PublicKeyBytes,
    charlie: PublicKeyBytes,
    genesis_total: u64,
) -> Result<(ReceiptModel, StateModel), Seq<char>> {
    match applied_to(s, f, m) {
        Err(e) => Err(e),
        Ok((OutcomeModel::AlreadyApplied(_), _)) => Err("first controller Bob apply was duplicate"@),
        Ok((OutcomeModel::Applied(receipt), after)) => match main_verdict(
            after,
            receipt,
            bob,
            alice,
            charlie,
            genesis_total,
        ) {
            Err(e) => Err(e),
            Ok(_) => Ok((receipt, after)),
        },
    }
}

/// Applies the main transfer to the controller's own state.
pub fn settle_main(
    state: &mut State,
    fixture: &LabFixture,
    finalized: &FinalizedTransfer,
    genesis_total: u64,
) -> (r: Result<ApplyReceipt, String>)
    ensures
        match main_result(
            old(state)@,
            finalized@,
            fixture.manifest@,
            fixture.bob,
            crypto::public_key(fixture.alice.seed),
            fixture.charlie,
            genesis_total,
        ) {
            Ok((receipt, after)) => r is Ok && r->Ok_0@ == receipt && final(state)@ == after,
            Err(e) => r is Err && r->Err_0@ == e,
        },
        final(state)@ == state::state_then(
            old(state)@,
            finalized.tx@,
            state::apply_result(
                old(state)@,
                finalized.tx@,
                finalized.auth,
                finalized.prevote_qc@,
                finalized.qc@,
                fixture.manifest@,
            ),
        ),
{
    let outcome: ApplyOutcome = state.apply_finalized(
        &finalized.tx,
        &finalized.auth,
        &finalized.prevote_qc,
        &finalized.qc,
        &fixture.manifest,
    )?;
    match outcome {
        ApplyOutcome::AlreadyApplied(_) => Err(text("first controller Bob apply was duplicate")),
        ApplyOutcome::Applied(receipt) => {
            let alice: PublicKeyBytes = fixture.alice.verifying_key().to_bytes();
            check_main_outputs(
                state,
                &receipt,
                &fixture.bob,
                &alice,
                &fixture.charlie,
                genesis_total,
            )?;
            Ok(receipt)
        },
    }
}

/// The verdict on a second delivery of the main transfer.
pub open spec fn duplicate_verdict(
    s: StateModel,
    f: FinalizedModel,
    m: ManifestModel,
    receipt: ReceiptModel,
) -> Verdict {
    match applied_to(s, f, m) {
        Err(e) => Err(e),
        Ok((OutcomeModel::Applied(_), _)) => Err("duplicate controller apply advanced state twice"@),
        Ok((OutcomeModel::AlreadyApplied(again), _)) => if again != receipt {
            Err("duplicate controller apply changed receipt"@)
        } else {
            Ok(())
        },
    }
}

fn same_receipt(a: &ApplyReceipt, b: &ApplyReceipt) -> (r: bool)
    ensures
        r == (a@ == b@),
{
    if !same_array(&a.intent, &b.intent) || !same_array(
        &a.certificate_digest,
        &b.certificate_digest,
    ) || a.output_refs.len() != b.output_refs.len() {
        return false;
    }
    let mut i: usize = 0;
    while i < a.output_refs.len()
        invariant
            i <= a.output_refs@.len(),
            a.output_refs@.len() == b.output_refs@.len(),
            forall|k: int| 0 <= k < i ==> #[trigger] a.output_refs@[k] == b.output_refs@[k],
        decreases a.output_refs@.len() - i,
    {
        let p: CellRef = a.output_refs[i];
        let q: CellRef = b.output_refs[i];
        if p.asset_id != q.asset_id || !same_array(&p.id, &q.id) || p.generation != q.generation {
            return false;
        }
        i = i + 1;
    }
    assert(a.output_refs@ =~= b.output_refs@);
    true
}

/// Checks that the main transfer is not applied twice.
pub fn check_duplicate(
    state: &State,
    manifest: &CommitteeManifest,
    finalized: &FinalizedTransfer,
    receipt: &ApplyReceipt,
) -> (r: Result<(), String>)
    ensures
        text::shown(r) == duplicate_verdict(state@, finalized@, manifest@, receipt@),
{
    let mut copy: State = state.clone();
    let outcome: ApplyOutcome = copy.apply_finalized(
        &finalized.tx,
        &finalized.auth,
        &finalized.prevote_qc,
        &finalized.qc,
        manifest,
    )?;
    match outcome {
        ApplyOutcome::Applied(_) => Err(text("duplicate controller apply advanced state twice")),
        ApplyOutcome::AlreadyApplied(again) => if same_receipt(&again, receipt) {
            Ok(())
        } else {
            Err(text("duplicate controller apply changed receipt"))
        },
    }
}

/// A second delivery of the main transfer is always recognized.
pub proof fn law_duplicate_is_recognized(
    s: StateModel,
    f: FinalizedModel,
    m: ManifestModel,
    bob: PublicKeyBytes,
    alice: PublicKeyBytes,
    charlie: PublicKeyBytes,
    genesis_total: u64,
)
    requires
        main_result(s, f, m, bob, alice, charlie, genesis_total) is Ok,
    ensures
        ({
            let (receipt, after) = main_result(s, f, m, bob, alice, charlie, genesis_total)->Ok_0;
            duplicate_verdict(after, f, m, receipt) is Ok
        }),
{
}

// ---------------------------------------------------------------------------
// Independent transfers.
// ---------------------------------------------------------------------------

/// What delivering independent transfers forward, backward and shuffled comes
/// to: one state, which holds the value of the genesis.
pub open spec fn schedules_result(
    before: StateModel,
    list: Seq<FinalizedModel>,
    m: ManifestModel,
    count: nat,
    genesis_total: u64,
) -> Result<StateModel, Seq<char>> {
    if list.len() != count {
        Err("not all independent transfers finalized"@)
    } else {
        match controller::applied_from(before, list, controller::ascending_order(count), m, 0) {
            Err(e) => Err(e),
            Ok(forward) => match controller::applied_from(before, list, controller::descending_order(count), m, 0) {
                Err(e) => Err(e),
                Ok(reverse) => match controller::applied_from(
                    before,
                    list,
                    controller::permutation(count, LAB_SEED),
                    m,
                    0,
                ) {
                    Err(e) => Err(e),
                    Ok(mixed) => if state::root_digest(forward) != state::root_digest(reverse) || state::root_digest(
                        forward,
                    ) != state::root_digest(mixed) {
                        Err("independent transfer schedules did not converge"@)
                    } else if state::live_total(forward.live) > u64::MAX {
                        Err("state value overflow"@)
                    } else if state::live_total(forward.live) != genesis_total {
                        Err("independent transfer schedules did not converge"@)
                    } else {
                        Ok(forward)
                    },
                },
            },
        }
    }
}

/// Delivers independent transfers forward, backward and shuffled.
pub fn check_schedules(
    before: &State,
    finalized: &Vec<FinalizedTransfer>,
    manifest: &CommitteeManifest,
    count: usize,
    genesis_total: u64,
) -> (r: Result<State, String>)
    ensures
        text::shown_view(r) == schedules_result(
            before@,
            controller::finalized_list(finalized@),
            manifest@,
            count as nat,
            genesis_total,
        ),
{
    if finalized.len() != count {
        return Err(text("not all independent transfers finalized"));
    }
    let forward: Vec<usize> = forward_order(count);
    let reverse: Vec<usize> = reverse_order(count);
    let shuffled_order: Vec<usize> = deterministic_permutation(count, LAB_SEED);
    let forward_state: State = apply_in_order(before, finalized, &forward, manifest)?;
    let reverse_state: State = apply_in_order(before, finalized, &reverse, manifest)?;
    let shuffled_state: State = apply_in_order(before, finalized, &shuffled_order, manifest)?;
    let root: Digest = forward_state.root();
    let reverse_root: Digest = reverse_state.root();
    let shuffled_root: Digest = shuffled_state.root();
    if !same_array(&root, &reverse_root) || !same_array(&root, &shuffled_root) {
        return Err(text("independent transfer schedules did not converge"));
    }
    let total: u64 = forward_state.total_value()?;
    if total != genesis_total {
        return Err(text("independent transfer schedules did not converge"));
    }
    Ok(forward_state)
}

/// The schedule of validator `index`: forward, backward or shuffled in turn.
pub fn live_schedule(index: usize, count: usize) -> (r: Vec<usize>)
    ensures
        r@ == if index % 3 == 0 {
            controller::ascending_order(count as nat)
        } else if index % 3 == 1 {
            controller::descending_order(count as nat)
        } else {
            controller::permutation(count as nat, LAB_SEED)
        },
{
    if index % 3 == 0 {
        forward_order(count)
    } else if index % 3 == 1 {
        reverse_order(count)
    } else {
        deterministic_permutation(count, LAB_SEED)
    }
}

/// The largest sizes that were reported.
#[derive(Clone, Copy, Debug, PartialEq, Eq, Structural)]
pub struct SizeMaxima {
    pub snapshot_bytes: u64,
    pub wal_bytes: u64,
}

pub open spec fn larger(a: u64, b: u64) -> u64 {
    if a < b {
        b
    } else {
        a
    }
}

impl SizeMaxima {
    pub fn new() -> (r: Self)
        ensures
            r == (SizeMaxima { snapshot_bytes: 0, wal_bytes: 0 }),
    {
        SizeMaxima { snapshot_bytes: 0, wal_bytes: 0 }
    }

    /// Takes the answer of a validator to a query, which has to be at the root
    /// that is expected.
    pub fn take(&mut self, query: &QuerySummary, expected_root: &Digest) -> (r: Result<(), String>)
        ensures
            query.state_root == *expected_root ==> r is Ok && *final(self) == (SizeMaxima {
                snapshot_bytes: larger(old(self).snapshot_bytes, query.snapshot_bytes),
                wal_bytes: larger(old(self).wal_bytes, query.wal_bytes),
            }),
            query.state_root != *expected_root ==> r is Err && r->Err_0@
                == "live validator roots failed to converge across local schedules"@
                && *final(self) == *old(self),
    {
        if !same_array(&query.state_root, expected_root) {
            return Err(text("live validator roots failed to converge across local schedules"));
        }
        if self.snapshot_bytes < query.snapshot_bytes {
            self.snapshot_bytes = query.snapshot_bytes;
        }
        if self.wal_bytes < query.wal_bytes {
            self.wal_bytes = query.wal_bytes;
        }
        Ok(())
    }
}

// ---------------------------------------------------------------------------
// The outcome of a run, and the decision.
// ---------------------------------------------------------------------------

/// What a run observed.
#[derive(Clone, Copy, Debug)]
pub struct PhaseARunOutcome {
    pub final_root: Digest,
    pub genesis_root: Digest,
    pub genesis_total: u64,
    pub final_total: u64,
    pub bench_completed: usize,
    pub invalid_owner_votes: u64,
    pub invalid_owner_rejections: u64,
    pub mutation_count: usize,
    pub qc_negative_count: usize,
    pub max_snapshot_bytes: u64,
    pub max_wal_bytes: u64,
    pub model_cases: u64,
    pub split_bob_votes: usize,
    pub split_charlie_votes: usize,
    pub finality_votes: usize,
    pub post_restart_conflict_votes: usize,
    pub post_restart_lock_rejections: usize,
    pub conflicting_precommit_rejections: usize,
    pub loser_live_outputs: usize,
}

/// The safety decisions of a run, in a fixed order.
pub open spec fn decisions(o: PhaseARunOutcome) -> Seq<u64> {
    seq![
        o.invalid_owner_votes,
        o.invalid_owner_rejections,
        o.split_bob_votes as u64,
        o.split_charlie_votes as u64,
        o.finality_votes as u64,
        o.conflicting_precommit_rejections as u64,
        o.post_restart_conflict_votes as u64,
        o.post_restart_lock_rejections as u64,
        o.mutation_count as u64,
        o.qc_negative_count as u64,
        o.bench_completed as u64,
        o.model_cases,
        o.genesis_total,
        o.final_total,
    ]
}

impl PhaseARunOutcome {
    pub fn decision_vector(&self) -> (r: Vec<u64>)
        ensures
            r@ == decisions(*self),
    {
        let mut v: Vec<u64> = Vec::new();
        v.push(self.invalid_owner_votes);
        v.push(self.invalid_owner_rejections);
        v.push(self.split_bob_votes as u64);
        v.push(self.split_charlie_votes as u64);
        v.push(self.finality_votes as u64);
        v.push(self.conflicting_precommit_rejections as u64);
        v.push(self.post_restart_conflict_votes as u64);
        v.push(self.post_restart_lock_rejections as u64);
        v.push(self.mutation_count as u64);
        v.push(self.qc_negative_count as u64);
        v.push(self.bench_completed as u64);
        v.push(self.model_cases);
        v.push(self.genesis_total);
        v.push(self.final_total);
        assert(v@ =~= decisions(*self));
        v
    }
}

fn same_numbers(a: &Vec<u64>, b: &Vec<u64>) -> (r: bool)
    ensures
        r == (a@ == b@),
{
    if a.len() != b.len() {
        return false;
    }
    let mut i: usize = 0;
    while i < a.len()
        invariant
            i <= a@.len(),
            a@.len() == b@.len(),
            forall|k: int| 0 <= k < i ==> #[trigger] a@[k] == b@[k],
        decreases a@.len() - i,
    {
        if a[i] != b[i] {
            return false;
        }
        i = i + 1;
    }
    assert(a@ =~= b@);
    true
}

/// The verdict on two clean runs: they agree in both roots and in every safety
/// decision.
pub open spec fn repeatability_verdict(a: PhaseARunOutcome, b: PhaseARunOutcome) -> Verdict {
    if a.final_root != b.final_root || a.genesis_root != b.genesis_root || decisions(a)
        != decisions(b) {
        Err("clean repeatability runs produced different root or safety decisions"@)
    } else {
        Ok(())
    }
}

pub fn check_repeatability(first: &PhaseARunOutcome, second: &PhaseARunOutcome) -> (r: Result<
    (),
    String,
>)
    ensures
        text::shown(r) == repeatability_verdict(*first, *second),
{
    let a: Vec<u64> = first.decision_vector();
    let b: Vec<u64> = second.decision_vector();
    if !same_array(&first.final_root, &second.final_root) || !same_array(
        &first.genesis_root,
        &second.genesis_root,
    ) || !same_numbers(&a, &b) {
        return Err(text("clean repeatability runs produced different root or safety decisions"));
    }
    Ok(())
}

/// The counts that the report of two runs derives.
#[derive(Clone, Copy, Debug, PartialEq, Eq, Structural)]
pub struct FinalityCounts {
    pub chains_per_run: u64,
    pub chains_total: u64,
    pub shares_per_run: u64,
}

/// The counts of finality chains: one for the main transfer, and one for each
/// independent one.
pub open spec fn finality_counts(second: PhaseARunOutcome) -> FinalityCounts {
    let per_run = metrics::saturated((1 + second.bench_completed) as nat);
    FinalityCounts {
        chains_per_run: per_run,
        chains_total: metrics::saturated((per_run * 2) as nat),
        shares_per_run: metrics::saturated((per_run * Q) as nat),
    }
}

fn times(a: u64, b: u64) -> (r: u64)
    ensures
        r == metrics::saturated((a * b) as nat),
{
    proof {
        assert(0 <= a * b) by (nonlinear_arith);
    }
    match a.checked_mul(b) {
        Some(product) => product,
        None => u64::MAX,
    }
}

/// A run did what it has to do.
pub open spec fn run_is_consistent(o: PhaseARunOutcome, bench_count: usize) -> bool {
    &&& o.bench_completed == bench_count
    &&& o.genesis_total == o.final_total
    &&& o.loser_live_outputs == 0
    &&& o.conflicting_precommit_rejections == 2
    &&& o.post_restart_lock_rejections == 5
}

/// The verdict on the evidence of two runs.
pub open spec fn evidence_verdict(
    first: PhaseARunOutcome,
    second: PhaseARunOutcome,
    bench_count: usize,
    latency_samples: u64,
) -> Result<FinalityCounts, Seq<char>> {
    let counts = finality_counts(second);
    if latency_samples != counts.chains_total {
        Err(
            "B30-A latency sample count mismatch: observed "@ + text::dec(latency_samples as nat)
                + ", expected "@ + text::dec(counts.chains_total as nat) + ""@,
        )
    } else if !run_is_consistent(first, bench_count) || !run_is_consistent(second, bench_count) {
        Err("B30-A run-count, conservation, or loser-output evidence is inconsistent"@)
    } else {
        Ok(counts)
    }
}

fn consistent(o: &PhaseARunOutcome, bench_count: usize) -> (r: bool)
    ensures
        r == run_is_consistent(*o, bench_count),
{
    o.bench_completed == bench_count && o.genesis_total == o.final_total && o.loser_live_outputs
        == 0 && o.conflicting_precommit_rejections == 2 && o.post_restart_lock_rejections == 5
}

/// Checks the evidence of two runs.
pub fn check_evidence(
    first: &PhaseARunOutcome,
    second: &PhaseARunOutcome,
    bench_count: usize,
    latency_samples: u64,
) -> (r: Result<FinalityCounts, String>)
    ensures
        text::shown(r) == evidence_verdict(*first, *second, bench_count, latency_samples),
{
    let completed: u64 = second.bench_completed as u64;
    let chains_per_run: u64 = match completed.checked_add(1) {
        Some(sum) => sum,
        None => u64::MAX,
    };
    let counts: FinalityCounts = FinalityCounts {
        chains_per_run,
        chains_total: times(chains_per_run, 2),
        shares_per_run: times(chains_per_run, Q as u64),
    };
    if latency_samples != counts.chains_total {
        return Err(
            message(
                "B30-A latency sample count mismatch: observed ",
                latency_samples,
                ", expected ",
                counts.chains_total,
                "",
            ),
        );
    }
    if !consistent(first, bench_count) || !consistent(second, bench_count) {
        return Err(
            text("B30-A run-count, conservation, or loser-output evidence is inconsistent"),
        );
    }
    Ok(counts)
}

// ---------------------------------------------------------------------------
// Gates.
// ---------------------------------------------------------------------------

/// The gates that a run decides.
pub open spec fn phase_a_gates() -> Seq<Seq<char>> {
    seq![
        "B01"@,
        "B02"@,
        "B03"@,
        "B04"@,
        "B05"@,
        "B06"@,
        "B07"@,
        "B08"@,
        "B09"@,
        "B10"@,
        "B11"@,
        "B12"@,
        "B13"@,
        "B29"@,
        "B30-A"@,
        "B31-A"@,
    ]
}

/// The gates that no run decides yet.
pub open spec fn phase_b_gates() -> Seq<Seq<char>> {
    seq![
        "B14"@,
        "B15"@,
        "B16"@,
        "B17"@,
        "B18"@,
        "B19"@,
        "B20"@,
        "B21"@,
        "B22"@,
        "B23"@,
        "B24"@,
        "B25"@,
        "B26"@,
        "B27"@,
        "B28"@,
        "B30-B"@,
        "B31-B"@,
    ]
}

/// Whether the number of independent transfers is the one that is audited.
pub open spec fn at_audit_count(bench_count: usize) -> bool {
    bench_count == MAX_BENCH_COUNT
}

/// The gates and whether they passed: the eleventh one passes at the audit count
/// only.
pub open spec fn gate_results(bench_count: usize) -> Seq<(Seq<char>, bool)> {
    Seq::new(
        phase_a_gates().len(),
        |i: int| (phase_a_gates()[i], i != 10 || at_audit_count(bench_count)),
    )
}

fn push_name(out: &mut Vec<String>, name: &str)
    ensures
        node::texts(final(out)@) == node::texts(old(out)@).push(name@),
{
    let ghost before = out@;
    out.push(text(name));
    assert(node::texts(out@) =~= node::texts(before).push(name@));
}

pub fn phase_a_gate_names() -> (r: Vec<String>)
    ensures
        node::texts(r@) == phase_a_gates(),
{
    let mut v: Vec<String> = Vec::new();
    assert(node::texts(v@) =~= Seq::empty());
    push_name(&mut v, "B01");
    push_name(&mut v, "B02");
    push_name(&mut v, "B03");
    push_name(&mut v, "B04");
    push_name(&mut v, "B05");
    push_name(&mut v, "B06");
    push_name(&mut v, "B07");
    push_name(&mut v, "B08");
    push_name(&mut v, "B09");
    push_name(&mut v, "B10");
    push_name(&mut v, "B11");
    push_name(&mut v, "B12");
    push_name(&mut v, "B13");
    push_name(&mut v, "B29");
    push_name(&mut v, "B30-A");
    push_name(&mut v, "B31-A");
    assert(node::texts(v@) =~= phase_a_gates());
    v
}

pub fn phase_b_gate_names() -> (r: Vec<String>)
    ensures
        node::texts(r@) == phase_b_gates(),
{
    let mut v: Vec<String> = Vec::new();
    assert(node::texts(v@) =~= Seq::empty());
    push_name(&mut v, "B14");
    push_name(&mut v, "B15");
    push_name(&mut v, "B16");
    push_name(&mut v, "B17");
    push_name(&mut v, "B18");
    push_name(&mut v, "B19");
    push_name(&mut v, "B20");
    push_name(&mut v, "B21");
    push_name(&mut v, "B22");
    push_name(&mut v, "B23");
    push_name(&mut v, "B24");
    push_name(&mut v, "B25");
    push_name(&mut v, "B26");
    push_name(&mut v, "B27");
    push_name(&mut v, "B28");
    push_name(&mut v, "B30-B");
    push_name(&mut v, "B31-B");
    assert(node::texts(v@) =~= phase_b_gates());
    v
}

pub fn gates(bench_count: usize) -> (r: Vec<(String, bool)>)
    ensures
        metrics::named(r@) == gate_results(bench_count),
{
    let names: Vec<String> = phase_a_gate_names();
    assert(names@.len() == node::texts(names@).len());
    let mut v: Vec<(String, bool)> = Vec::new();
    let mut i: usize = 0;
    assert(metrics::named(v@) =~= gate_results(bench_count).subrange(0, 0));
    while i < names.len()
        invariant
            i <= names@.len(),
            names@.len() == phase_a_gates().len(),
            node::texts(names@) == phase_a_gates(),
            metrics::named(v@) == gate_results(bench_count).subrange(0, i as int),
        decreases names@.len() - i,
    {
        let ghost before = v@;
        assert(node::texts(names@)[i as int] == names@[i as int]@);
        let passed: bool = i != 10 || bench_count == MAX_BENCH_COUNT;
        v.push((text(names[i].as_str()), passed));
        i = i + 1;
        proof {
            assert(metrics::named(v@) =~= metrics::named(before).push((names@[i - 1]@, passed)));
            assert(metrics::named(v@) =~= gate_results(bench_count).subrange(0, i as int));
        }
    }
    assert(gate_results(bench_count).subrange(0, i as int) =~= gate_results(bench_count));
    v
}

/// The status of a gate in the report.
pub open spec fn gate_status(i: int, bench_count: usize) -> Seq<char> {
    if i == 7 {
        "SAFETY_PASS_EQUIVOCATION_LIVENESS_NOT_GUARANTEED"@
    } else if i == 10 && !at_audit_count(bench_count) {
        "NOT_RUN_AT_AUDIT_COUNT"@
    } else {
        "PASS"@
    }
}

pub open spec fn status_parts(bench_count: usize) -> Seq<Seq<char>> {
    Seq::new(
        phase_a_gates().len(),
        |i: int| phase_a_gates()[i] + seq![':'] + gate_status(i, bench_count),
    )
}

/// The statuses of the gates that a run decides, separated by commas.
pub fn gate_statuses(bench_count: usize) -> (r: String)
    ensures
        r@ == metrics::joined(status_parts(bench_count)),
{
    let names: Vec<String> = phase_a_gate_names();
    assert(names@.len() == node::texts(names@).len());
    let mut out: String = text("");
    let mut i: usize = 0;
    proof {
        reveal_strlit("");
        assert(out@ =~= metrics::joined(status_parts(bench_count).subrange(0, 0)));
    }
    while i < names.len()
        invariant
            i <= names@.len(),
            names@.len() == phase_a_gates().len(),
            node::texts(names@) == phase_a_gates(),
            out@ == metrics::joined(status_parts(bench_count).subrange(0, i as int)),
        decreases names@.len() - i,
    {
        let ghost before = out@;
        assert(node::texts(names@)[i as int] == names@[i as int]@);
        if i > 0 {
            out.push(',');
        }
        out.append(names[i].as_str());
        out.push(':');
        if i == 7 {
            out.append("SAFETY_PASS_EQUIVOCATION_LIVENESS_NOT_GUARANTEED");
        } else if i == 10 && bench_count != MAX_BENCH_COUNT {
            out.append("NOT_RUN_AT_AUDIT_COUNT");
        } else {
            out.append("PASS");
        }
        proof {
            metrics::lemma_joined(status_parts(bench_count), i as int);
            assert(out@ =~= metrics::joined(status_parts(bench_count).subrange(0, i + 1)));
        }
        i = i + 1;
    }
    assert(status_parts(bench_count).subrange(0, i as int) =~= status_parts(bench_count));
    out
}

/// The names of gates, each with a tail, separated by commas.
pub fn join_names(names: &Vec<String>, tail: &str) -> (r: String)
    ensures
        r@ == metrics::joined(Seq::new(names@.len(), |i: int| names@[i]@ + tail@)),
{
    let ghost parts = Seq::new(names@.len(), |i: int| names@[i]@ + tail@);
    let mut out: String = text("");
    let mut i: usize = 0;
    proof {
        reveal_strlit("");
        assert(out@ =~= metrics::joined(parts.subrange(0, 0)));
    }
    while i < names.len()
        invariant
            i <= names@.len(),
            parts == Seq::new(names@.len(), |i: int| names@[i]@ + tail@),
            out@ == metrics::joined(parts.subrange(0, i as int)),
        decreases names@.len() - i,
    {
        if i > 0 {
            out.push(',');
        }
        out.append(names[i].as_str());
        out.append(tail);
        proof {
            metrics::lemma_joined(parts, i as int);
            assert(out@ =~= metrics::joined(parts.subrange(0, i + 1)));
        }
        i = i + 1;
    }
    assert(parts.subrange(0, i as int) =~= parts);
    out
}

/// The number of gates that passed.
pub fn passed_gate_count(bench_count: usize) -> (r: usize)
    ensures
        r == if at_audit_count(bench_count) {
            16
        } else {
            15int
        },
{
    if bench_count == MAX_BENCH_COUNT {
        16
    } else {
        15
    }
}

/// The status of the whole run.
pub fn phase_a_status(bench_count: usize) -> (r: String)
    ensures
        r@ == if at_audit_count(bench_count) {
            "PASS"@
        } else {
            "INCONCLUSIVE"@
        },
{
    if bench_count == MAX_BENCH_COUNT {
        text("PASS")
    } else {
        text("INCONCLUSIVE")
    }
}

/// How a validator is named in the report.
pub open spec fn fingerprints(members: Seq<CommitteeMember>) -> Seq<Seq<char>> {
    Seq::new(
        members.len(),
        |i: int|
            text::dec(members[i].index as nat) + seq![':'] + text::hex_bytes(
                members[i].public_key@.subrange(0, 8),
            ),
    )
}

/// The validators of a committee, separated by commas.
pub fn validator_fingerprints(manifest: &CommitteeManifest) -> (r: String)
    ensures
        r@ == metrics::joined(fingerprints(manifest@.members)),
{
    let ghost parts = fingerprints(manifest@.members);
    let mut out: String = text("");
    let mut i: usize = 0;
    proof {
        reveal_strlit("");
        assert(out@ =~= metrics::joined(parts.subrange(0, 0)));
    }
    while i < manifest.members.len()
        invariant
            i <= manifest.members@.len(),
            parts == fingerprints(manifest@.members),
            out@ == metrics::joined(parts.subrange(0, i as int)),
        decreases manifest.members@.len() - i,
    {
        let member: CommitteeMember = manifest.members[i];
        if i > 0 {
            out.push(',');
        }
        push_dec(&mut out, member.index as u64);
        out.push(':');
        out.append(hex_prefix(&member.public_key, 8).as_str());
        proof {
            metrics::lemma_joined(parts, i as int);
            assert(out@ =~= metrics::joined(parts.subrange(0, i + 1)));
        }
        i = i + 1;
    }
    assert(parts.subrange(0, i as int) =~= parts);
    out
}

} // verus!
