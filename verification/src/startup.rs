//! How a validator starts and how it takes what it is sent: its arguments, its first state,
//! its log, and the frames of its peers.
use crate::answers;
use crate::bytes;
use crate::crypto;
use crate::finality;
use crate::model;
use crate::model::{
    CellRef, Digest, ManifestModel, OutcomeModel, ProposalModel, ReceiptModel, StateModel,
    Statement, TxModel, UserAuth, Vote, PHASE_PRECOMMIT, PHASE_PREVOTE,
};
use crate::node;
use crate::node::{ConfigModel, NodeModel};
use crate::ordmap;
use crate::state;
use crate::store::{Lifecycle, PrecommitLock, SnapshotModel, StoreModel, VoteKey};
use crate::text;
use crate::wire;
use crate::wire::{RequestModel, Response};
use crate::wire_laws;
use vstd::prelude::*;

verus! {

/// The arguments of a validator are read exactly if there are six of them: an epoch that is
/// a number above zero, a slot below seven, a port above zero, two names that are not empty
/// and not of one file, and a mark that is 0 or 1.
pub proof fn law_arguments_are_read_if(args: Seq<Seq<char>>, same_path: bool)
    ensures
        ({
            let r = node::config_result(args, same_path);
            let epoch = text::parsed_uint(args[0], u64::MAX as nat);
            let index = text::parsed_uint(args[1], u8::MAX as nat);
            let port = text::parsed_uint(args[2], u16::MAX as nat);
            &&& r is Ok <==> {
                &&& args.len() == 6
                &&& epoch is Some && epoch->Some_0 > 0
                &&& index is Some && index->Some_0 < 7
                &&& port is Some && port->Some_0 > 0
                &&& args[3].len() > 0 && args[4].len() > 0
                &&& !same_path
                &&& args[5] == "0"@ || args[5] == "1"@
            }
            &&& r matches Ok(c) ==> {
                &&& Some(c.epoch as nat) == epoch
                &&& Some(c.index as nat) == index
                &&& Some(c.port as nat) == port
                &&& c.wal_path == args[3]
                &&& c.snapshot_path == args[4]
                &&& c.byzantine <==> args[5] == "1"@
            }
        }),
{
}

/// Arguments that are written out are read back.
pub proof fn law_written_arguments_are_read_back(c: ConfigModel)
    requires
        c.epoch > 0,
        c.index < 7,
        c.port > 0,
        c.wal_path.len() > 0,
        c.snapshot_path.len() > 0,
    ensures
        node::config_result(
            seq![
                text::dec(c.epoch as nat),
                text::dec(c.index as nat),
                text::dec(c.port as nat),
                c.wal_path,
                c.snapshot_path,
                if c.byzantine {
                    "1"@
                } else {
                    "0"@
                },
            ],
            false,
        ) == Ok::<ConfigModel, Seq<char>>(c),
{
    text::law_written_number_is_read_back(c.epoch as nat, u64::MAX as nat);
    text::law_written_number_is_read_back(c.index as nat, u8::MAX as nat);
    text::law_written_number_is_read_back(c.port as nat, u16::MAX as nat);
    reveal_strlit("0");
    reveal_strlit("1");
    assert("0"@[0] != "1"@[0]);
}

/// A first state is taken exactly if it can be read, is a proper state, nothing in it is
/// spent or applied, and it knows of no cells but the live ones.
pub proof fn law_first_state_is_taken_if(b: Seq<u8>)
    ensures
        ({
            let r = node::initial_result(b);
            let read = wire::whole(wire::p_state(b), b);
            &&& r is Ok <==> {
                &&& read is Ok
                &&& node::shape_verdict(read->Ok_0) is Ok
                &&& read->Ok_0.spent_by == Map::<CellRef, Digest>::empty()
                &&& read->Ok_0.applied == Map::<Digest, ReceiptModel>::empty()
                &&& read->Ok_0.known_ids.len() == read->Ok_0.live.len()
            }
            &&& r is Ok ==> r == read
        }),
{
}

proof fn lemma_receipts_recorded(s: StateModel, w: StoreModel, i: int)
    requires
        0 <= i <= ordmap::listed(s.applied).len(),
    ensures
        node::receipts_recorded(s, w, i) is Ok <==> forall|k: int|
            i <= k < ordmap::listed(s.applied).len() ==> w.state.applied.contains_key(
                (#[trigger] ordmap::listed(s.applied)[k]).0,
            ) && w.state.applied[ordmap::listed(s.applied)[k].0].certificate_digest
                == ordmap::listed(s.applied)[k].1.certificate_digest,
    decreases ordmap::listed(s.applied).len() - i,
{
    if i < ordmap::listed(s.applied).len() {
        lemma_receipts_recorded(s, w, i + 1);
    }
}

/// A state and a log agree exactly if they hold as many applied transfers, and every receipt
/// of the state is in the log, with its certificate.
pub proof fn law_state_and_log_agree_if(s: StateModel, w: StoreModel)
    ensures
        node::reconcile_verdict(s, w) is Ok <==> {
            let list = ordmap::listed(s.applied);
            &&& s.applied.len() == w.state.applied.len()
            &&& forall|k: int|
                0 <= k < list.len() ==> w.state.applied.contains_key((#[trigger] list[k]).0)
                    && w.state.applied[list[k].0].certificate_digest
                    == list[k].1.certificate_digest
        },
{
    lemma_receipts_recorded(s, w, 0);
}

/// A new validator starts: with a first state that is a proper one, in a committee that is
/// accepted, and with an empty log, it comes up active, with that state and the key of its
/// slot, and has not voted, locked or applied anything.
pub proof fn law_new_validator_starts(config: ConfigModel, s: StateModel)
    requires
        config.index < 7,
        model::manifest_verdict(model::lab_manifest(config.epoch)) is Ok,
        state::state_finite(s),
        node::shape_verdict(s) is Ok,
        s.spent_by == Map::<CellRef, Digest>::empty(),
        s.applied == Map::<Digest, ReceiptModel>::empty(),
        s.known_ids.len() == s.live.len(),
        wire::framed(wire::state_fits(s), wire::state_wire(s)) is Ok,
    ensures
        ({
            let first = wire::state_wire(s);
            let r = node::opened(config, first, Seq::empty());
            &&& r matches Ok(n) && {
                &&& n.state == s
                &&& n.index == config.index
                &&& n.byzantine == config.byzantine
                &&& n.manifest == model::lab_manifest(config.epoch)
                &&& n.committee_hash == model::committee_digest(n.manifest)
                &&& n.seed == model::validator_seed(config.epoch, config.index as int)
                &&& n.store.failure is None
                &&& n.store.state.lifecycle == Lifecycle::Active
                &&& n.store.state.votes == Map::<VoteKey, Digest>::empty()
                &&& n.store.state.locks == Map::<Digest, PrecommitLock>::empty()
                &&& n.store.state.current_snapshot.bytes == first
                &&& n.store.state.current_snapshot.state_root == state::root_digest(s)
                &&& n.store.state.applied.len() == 0
            }
        }),
{
    let first = wire::state_wire(s);
    wire_laws::law_decode_encode_state(s);
    assert(wire::framed(wire::state_fits(s), wire::state_wire(s))->Ok_0 == first);
    law_first_state_is_taken_if(first);
    let committee = model::committee_digest(model::lab_manifest(config.epoch));
    let snapshot = SnapshotModel {
        committee_hash: committee,
        epoch: config.epoch,
        state_root: state::root_digest(s),
        bytes: first,
    };
    let opened = node::opened_store(Seq::empty(), committee, config.epoch, snapshot);
    assert(opened is Ok);
    let st = opened->Ok_0;
    assert(st.state.applied.dom() =~= Set::empty());
    assert(ordmap::listed(s.applied).len() == 0) by {
        ordmap::lemma_listed_finite(s.applied);
    }
    law_state_and_log_agree_if(s, st);
}

/// What a validator answers to a frame: to what is no frame and to what is no request, a
/// refusal that says so and leaves the validator as it is; to a request that was written out,
/// what it answers to that request.
pub proof fn law_frames_are_answered(n: NodeModel, r: RequestModel, b: Seq<u8>)
    requires
        wire::framed(wire::request_fits(r), wire::request_wire(r)) is Ok,
    ensures
        node::answer_of(n, None).1 == n,
        node::answer_of(n, None).0 == (Response::Rejected { code: 1 }),
        wire::whole(wire::p_request(b), b) is Err ==> {
            &&& node::answer_of(n, Some(b)).1 == n
            &&& node::answer_of(n, Some(b)).0 == (Response::Rejected { code: 2 })
        },
        node::answer_of(n, Some(wire::request_wire(r))).1 == node::handled(n, r).after,
        node::answer_of(n, Some(wire::request_wire(r))).0 == match node::handled(n, r).answer {
            Ok(answer) => answer,
            Err(code) => Response::Rejected { code },
        },
{
    wire_laws::law_decode_encode_request(r);
}

/// A Byzantine validator prevotes for whatever it is sent, and nothing of that is recorded.
pub proof fn law_byzantine_validator_prevotes(n: NodeModel, p: ProposalModel)
    requires
        n.byzantine,
        n.index < 7,
        model::manifest_verdict(n.manifest) is Ok,
        n.manifest.members.len() == 7,
        n.manifest.members[n.index as int].index == n.index,
        n.manifest.members[n.index as int].public_key == crypto::public_key(n.seed),
    ensures
        ({
            let h = node::handled(n, RequestModel::Prevote(p));
            &&& h.after == n
            &&& h.answer matches Ok(Response::Vote(v)) && {
                &&& v.phase == PHASE_PREVOTE
                &&& v.round == p.round
                &&& v.conflict_key == model::conflict_digest(p.tx.input.reference)
                &&& v.intent == p.intent
                &&& v.signer_index == n.index
            }
        }),
{
    reveal(node::prevoted);
    reveal(node::node_vote);
}

/// A Byzantine validator precommits on whatever it is sent, and nothing of that is recorded.
pub proof fn law_byzantine_validator_precommits(n: NodeModel, p: ProposalModel, prevote: Seq<Vote>)
    requires
        n.byzantine,
        n.index < 7,
        model::manifest_verdict(n.manifest) is Ok,
        n.manifest.members.len() == 7,
        n.manifest.members[n.index as int].index == n.index,
        n.manifest.members[n.index as int].public_key == crypto::public_key(n.seed),
        wire::framed(wire::qc_fits(prevote), wire::qc_wire(prevote)) is Ok,
        model::qc_digest_result(prevote, n.manifest) matches Ok(d) ==> d != bytes::zero_digest(),
    ensures
        ({
            let h = node::handled(n, RequestModel::Precommit(p, prevote));
            &&& h.after == n
            &&& h.answer matches Ok(Response::Vote(v)) && {
                &&& v.phase == PHASE_PRECOMMIT
                &&& v.round == p.round
                &&& v.conflict_key == model::conflict_digest(p.tx.input.reference)
                &&& v.intent == p.intent
                &&& v.signer_index == n.index
                &&& v.justify != bytes::zero_digest()
            }
        }),
{
    reveal(node::precommitted);
    reveal(node::byzantine_digest);
    reveal(node::node_vote);
    let one = bytes::zeros(32).update(0, 1);
    assert(one.len() == 32);
    bytes::lemma_arr_view::<32>(one);
    assert(one[0] == 1);
    assert(bytes::arr::<32>(one)@[0] == 1);
    bytes::lemma_arr_view::<32>(bytes::zeros(32));
    assert(bytes::zero_digest()@[0] == 0);
}

/// A vote is signed exactly if the committee is accepted, the key is that of the slot, and
/// the vote is a prevote without or a precommit with a certificate to go by.
pub proof fn law_vote_is_signed_if(
    m: ManifestModel,
    phase: u8,
    round: u64,
    conflict: Digest,
    intent: Digest,
    justify: Digest,
    signer_index: u8,
    seed: [u8; 32],
)
    ensures
        ({
            let r = model::vote_signed(
                m,
                phase,
                round,
                conflict,
                intent,
                justify,
                signer_index,
                seed,
            );
            &&& r is Ok <==> {
                &&& model::manifest_verdict(m) is Ok
                &&& signer_index < m.members.len()
                &&& m.members[signer_index as int].index == signer_index
                &&& m.members[signer_index as int].public_key == crypto::public_key(seed)
                &&& phase == PHASE_PREVOTE && justify == bytes::zero_digest() || phase
                    == PHASE_PRECOMMIT && justify != bytes::zero_digest()
            }
            &&& r matches Ok(v) ==> {
                &&& v.network_id == m.network_id
                &&& v.epoch == m.epoch
                &&& v.committee_hash == model::committee_digest(m)
                &&& v.phase == phase
                &&& v.round == round
                &&& v.conflict_key == conflict
                &&& v.intent == intent
                &&& v.justify == justify
                &&& v.signer_index == signer_index
                &&& v.signature == crypto::signature(
                    seed,
                    model::vote_statement(
                        m,
                        phase,
                        round,
                        conflict,
                        intent,
                        justify,
                        signer_index,
                    )@,
                )
            }
        }),
{
}

/// A proposal may go by no certificate, which is as good as a digest of zeros, or by one of
/// an earlier round on the same transfer, which stands for its digest.
pub proof fn law_justification_is_taken_if(
    justify: Option<Seq<Vote>>,
    m: ManifestModel,
    round: u64,
    conflict: Digest,
    intent: Digest,
    late: Seq<char>,
)
    ensures
        model::justify_result(None, m, round, conflict, intent, late) == Ok::<Digest, Seq<char>>(
            bytes::zero_digest(),
        ),
        justify matches Some(votes) ==> {
            let r = model::justify_result(justify, m, round, conflict, intent, late);
            &&& r is Ok <==> {
                &&& votes.len() > 0
                &&& model::qc_verdict(
                    votes,
                    m,
                    Statement {
                        phase: PHASE_PREVOTE,
                        round: votes[0].round,
                        conflict,
                        intent,
                        justify: None,
                    },
                ) is Ok
                &&& votes[0].round < round
                &&& model::qc_digest_result(votes, m) is Ok
            }
            &&& r is Ok ==> r == model::qc_digest_result(votes, m)
        },
{
}

/// The cells of the genesis: each has a name of its own in generation 0, comes from no
/// other cell, and is accepted exactly if it is worth something.
pub proof fn law_genesis_cell(label: u64, amount: u64, owner: [u8; 32])
    ensures
        ({
            let c = model::genesis_cell(label, amount, owner);
            &&& model::cell_verdict(c) is Ok <==> amount > 0
            &&& c.amount == amount
            &&& c.owner == owner
            &&& c.reference.generation == 0
            &&& c.reference.asset_id == model::ASSET_CALIBRE
            &&& c.predecessor == bytes::zero_digest()
            &&& c.reference.id == crypto::digest(
                "CALIBRE_INTEGRATION001_GENESIS_ID_V1"@,
                bytes::le64(label),
            )
        }),
{
}

/// The name of an output is given exactly if the generation of the input has a next one, the
/// transfer has one to eight outputs, and the number of the output fits its form.
pub proof fn law_output_is_named_if(tx: TxModel, index: int)
    ensures
        model::output_ref_result(tx, index) is Ok <==> {
            &&& tx.input.reference.generation < u64::MAX
            &&& 1 <= tx.outputs.len() <= 8
            &&& index <= u32::MAX
        },
        model::output_ref_result(tx, index) matches Ok(r) ==> r == model::output_reference(
            tx,
            index,
        ),
{
}

/// Why an honest validator does not prevote: the proposal is not accepted, its input is not
/// live as it stands there, or the log speaks against the vote. Each has a code of its own.
pub proof fn law_refused_prevote(n: NodeModel, p: ProposalModel)
    requires
        !n.byzantine,
        n.index < 7,
        n.manifest.members[n.index as int].public_key == crypto::public_key(n.seed),
    ensures
        ({
            let answer = node::handled(n, RequestModel::Prevote(p)).answer;
            let live = n.state.live.contains_key(p.tx.input.reference)
                && n.state.live[p.tx.input.reference] == p.tx.input;
            &&& answer == Err::<Response, u16>(10) <==> model::proposal_verdict(p, n.manifest)
                is Err
            &&& answer == Err::<Response, u16>(11) <==> model::proposal_verdict(p, n.manifest)
                is Ok && !live
            &&& answer == Err::<Response, u16>(14) <==> model::proposal_verdict(p, n.manifest)
                is Ok && live && answer is Err
        }),
{
    answers::law_prevote_is_granted(n, p);
    reveal(node::prevoted);
    reveal(node::live_proposal_verdict);
    reveal(node::node_vote);
}

/// Why an honest validator does not precommit: as for a prevote, and besides, the certificate
/// of prevotes is not accepted, or the validator did not prevote for the proposal itself.
pub proof fn law_refused_precommit(n: NodeModel, p: ProposalModel, prevote: Seq<Vote>)
    requires
        !n.byzantine,
        n.index < 7,
        n.manifest.members[n.index as int].public_key == crypto::public_key(n.seed),
        model::qc_hash(prevote) != bytes::zero_digest(),
    ensures
        ({
            let answer = node::handled(n, RequestModel::Precommit(p, prevote)).answer;
            let conflict = model::conflict_digest(p.tx.input.reference);
            let live = n.state.live.contains_key(p.tx.input.reference)
                && n.state.live[p.tx.input.reference] == p.tx.input;
            let certified = model::qc_verdict(
                prevote,
                n.manifest,
                Statement {
                    phase: PHASE_PREVOTE,
                    round: p.round,
                    conflict,
                    intent: p.intent,
                    justify: None,
                },
            ) is Ok;
            let own = VoteKey { conflict_key: conflict, round: p.round, phase: PHASE_PREVOTE };
            let prevoted = n.store.state.votes.contains_key(own) && n.store.state.votes[own]
                == p.intent;
            let accepted = model::proposal_verdict(p, n.manifest) is Ok;
            &&& answer == Err::<Response, u16>(10) <==> !accepted
            &&& answer == Err::<Response, u16>(11) <==> accepted && !live
            &&& answer == Err::<Response, u16>(12) <==> accepted && live && !certified
            &&& answer == Err::<Response, u16>(13) <==> accepted && live && certified && !prevoted
            &&& answer == Err::<Response, u16>(14) <==> accepted && live && certified && prevoted
                && answer is Err
        }),
{
    answers::law_precommit_is_granted(n, p, prevote);
    reveal(node::precommitted);
    reveal(node::honest_digest);
    reveal(node::live_proposal_verdict);
    reveal(node::node_vote);
    let s = Statement {
        phase: PHASE_PREVOTE,
        round: p.round,
        conflict: model::conflict_digest(p.tx.input.reference),
        intent: p.intent,
        justify: None,
    };
    if model::qc_verdict(prevote, n.manifest, s) is Ok {
        finality::lemma_own_statement(prevote, n.manifest, s);
    }
}

/// Why a validator does not apply a transfer: it is not finalized for its state, the state
/// that it leads to is too large to be kept, or the log speaks against it. Each has a code of
/// its own.
pub proof fn law_refused_apply(
    n: NodeModel,
    tx: TxModel,
    auth: UserAuth,
    prevote: Seq<Vote>,
    finality: Seq<Vote>,
)
    ensures
        ({
            let answer = node::handled(
                n,
                RequestModel::Apply(tx, auth, prevote, finality),
            ).answer;
            let r = state::apply_result(n.state, tx, auth, prevote, finality, n.manifest);
            let next = state::state_then(n.state, tx, r);
            let kept = node::shape_verdict(next) is Ok && wire::state_fits(next) is Ok
                && wire::state_wire(next).len() <= 1048576;
            &&& answer == Err::<Response, u16>(20) <==> r is Err
            &&& answer == Err::<Response, u16>(21) <==> (r matches Ok(OutcomeModel::Applied(_)))
                && !kept
            &&& answer == Err::<Response, u16>(22) <==> (r matches Ok(OutcomeModel::Applied(_)))
                && kept && answer is Err
        }),
{
    reveal(node::node_applied);
}

/// What is too long is neither written nor read: a payload has at most a mebibyte.
pub proof fn law_payloads_are_limited(b: Seq<u8>, fits: Result<(), Seq<char>>)
    ensures
        wire::framed(fits, b) is Ok <==> fits is Ok && b.len() <= 1048576,
        wire::framed(fits, b) is Ok ==> wire::framed(fits, b)->Ok_0 == b,
        wire::whole(wire::p_request(b), b) is Ok <==> {
            &&& b.len() <= 1048576
            &&& wire::p_request(b) is Ok
            &&& wire::p_request(b)->Ok_0.1.len() == 0
        },
        b.len() > 1048576 ==> node::initial_result(b) is Err,
{
}

} // verus!
