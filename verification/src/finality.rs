//! What honest parties can bring about: signatures that are accepted, votes that
//! form a certificate, and certificates that carry a transfer into the state.
use crate::binding;
use crate::bytes;
use crate::crypto;
use crate::crypto::Digest;
use crate::model;
use crate::model::{
    ManifestModel, OutcomeModel, Statement, StateModel, TxModel, UserAuth, Vote, PHASE_PRECOMMIT,
    PHASE_PREVOTE, N, Q,
};
use crate::ordmap;
use crate::ordmap::Ordered;
use crate::state;
use vstd::prelude::*;

verus! {

/// The owner can authorize: what the owner of the input signs for a valid transfer
/// is accepted as its authorization.
pub proof fn law_owner_is_accepted(tx: TxModel, m: ManifestModel, seed: [u8; 32])
    requires
        model::tx_verdict(tx, m) is Ok,
        tx.input.owner == crypto::public_key(seed),
        crypto::signs_well(seed, model::intent_digest(tx)@),
    ensures
        model::user_signed(tx, seed) is Ok,
        model::auth_verdict(tx, model::user_signed(tx, seed)->Ok_0, m) is Ok,
{
    model::law_valid_tx_conserves_value(tx, m);
}

/// A member can vote: a vote that a validator signs is accepted by all.
pub proof fn law_cast_vote_is_accepted(
    m: ManifestModel,
    phase: u8,
    round: u64,
    conflict: Digest,
    intent: Digest,
    justify: Digest,
    signer_index: u8,
    seed: [u8; 32],
)
    requires
        model::vote_signed(m, phase, round, conflict, intent, justify, signer_index, seed) is Ok,
        crypto::signs_well(
            seed,
            model::vote_statement(m, phase, round, conflict, intent, justify, signer_index)@,
        ),
    ensures
        model::vote_verdict(
            model::vote_signed(m, phase, round, conflict, intent, justify, signer_index, seed)->Ok_0,
            m,
        ) is Ok,
{
}

/// The leader can propose: the proposal that the leader of a round makes is
/// accepted, where the committee holds the leader's key.
pub proof fn law_proposal_is_accepted(
    m: ManifestModel,
    round: u64,
    tx: TxModel,
    auth: UserAuth,
    justify: Option<Seq<Vote>>,
)
    requires
        model::proposed(m, round, tx, auth, justify) is Ok,
        ({
            let conflict = model::conflict_digest(tx.input.reference);
            let slot = model::leader_slot(conflict, round);
            let seed = model::validator_seed(m.epoch, slot);
            let digest = match justify {
                Some(qc) => model::qc_hash(qc),
                None => bytes::zero_digest(),
            };
            &&& m.members[slot].public_key == crypto::public_key(seed)
            &&& crypto::signs_well(
                seed,
                model::proposal_statement(m, round, slot as u8, model::intent_digest(tx), digest)@,
            )
        }),
    ensures
        model::proposal_verdict(model::proposed(m, round, tx, auth, justify)->Ok_0, m) is Ok,
{
    let conflict = model::conflict_digest(tx.input.reference);
    let slot = model::leader_slot(conflict, round);
    let p = model::proposed(m, round, tx, auth, justify)->Ok_0;
    model::law_valid_tx_conserves_value(tx, m);
    model::law_manifest_verdict(m);
}

/// What a leader proposes is what was asked for: the round, the transaction, the
/// authorization and the certificate are the given ones, the intent and the proposer
/// are those of the transaction, and a certificate is a valid one of prevotes for this
/// conflict and intent in a lower round.
pub proof fn law_proposal_is_as_asked(
    m: ManifestModel,
    round: u64,
    tx: TxModel,
    auth: UserAuth,
    justify: Option<Seq<Vote>>,
)
    requires
        model::proposed(m, round, tx, auth, justify) is Ok,
    ensures
        ({
            let p = model::proposed(m, round, tx, auth, justify)->Ok_0;
            let conflict = model::conflict_digest(tx.input.reference);
            &&& p.round == round
            &&& p.tx == tx
            &&& p.auth == auth
            &&& p.justify == justify
            &&& model::intent_result(tx) == Ok::<Digest, Seq<char>>(p.intent)
            &&& p.proposer_index == model::leader_slot(conflict, round)
            &&& model::auth_verdict(tx, auth, m) is Ok
            &&& justify matches Some(qc) ==> {
                &&& qc.len() > 0
                &&& qc[0].round < round
                &&& model::qc_verdict(
                    qc,
                    m,
                    (Statement {
                        phase: PHASE_PREVOTE,
                        round: qc[0].round,
                        conflict,
                        intent: p.intent,
                        justify: None,
                    }),
                ) is Ok
            }
        }),
{
    model::law_valid_tx_conserves_value(tx, m);
}

/// The leader of the laboratory committee can propose: what it proposes is accepted,
/// where its signature is.
pub proof fn law_leaders_proposal_is_accepted(
    m: ManifestModel,
    round: u64,
    tx: TxModel,
    auth: UserAuth,
    justify: Option<Seq<Vote>>,
)
    requires
        m == model::lab_manifest(m.epoch),
        model::proposed(m, round, tx, auth, justify) is Ok,
        ({
            let slot = model::leader_slot(model::conflict_digest(tx.input.reference), round);
            let digest = match justify {
                Some(qc) => model::qc_hash(qc),
                None => bytes::zero_digest(),
            };
            crypto::signs_well(
                model::validator_seed(m.epoch, slot),
                model::proposal_statement(m, round, slot as u8, model::intent_digest(tx), digest)@,
            )
        }),
    ensures
        model::proposal_verdict(model::proposed(m, round, tx, auth, justify)->Ok_0, m) is Ok,
{
    law_proposal_is_accepted(m, round, tx, auth, justify);
}

/// An authorization is for its own transfer: where a signature is accepted for the
/// signed message alone and the digest tells the two transfers apart, the owner's
/// authorization of a transfer is refused for every other one, though it swaps two
/// outputs only or moves one unit between them.
pub proof fn law_authorization_is_for_its_transfer(
    tx: TxModel,
    other: TxModel,
    m: ManifestModel,
    seed: [u8; 32],
)
    requires
        model::tx_verdict(tx, m) is Ok,
        other != tx,
        crypto::signs_only(seed, model::intent_digest(tx)@),
        crypto::tells_apart(
            "CALIBRE_INTEGRATION001_TX_INTENT_V1"@,
            model::intent_bytes(tx),
            model::intent_bytes(other),
        ),
    ensures
        model::user_signed(tx, seed) is Ok,
        model::auth_verdict(other, model::user_signed(tx, seed)->Ok_0, m) is Err,
{
    model::law_valid_tx_conserves_value(tx, m);
    let auth = model::user_signed(tx, seed)->Ok_0;
    if model::auth_verdict(other, auth, m) is Ok {
        model::law_valid_tx_conserves_value(other, m);
        assert(model::intent_digest(other)@ == model::intent_digest(tx)@);
        bytes::lemma_array_eq(model::intent_digest(other), model::intent_digest(tx));
        binding::law_intent_binds_the_transfer(tx, other);
    }
}

/// Nobody but the owner can authorize: what another key signs is refused.
pub proof fn law_other_signer_is_refused(tx: TxModel, m: ManifestModel, seed: [u8; 32])
    requires
        tx.input.owner != crypto::public_key(seed),
        model::user_signed(tx, seed) is Ok,
    ensures
        model::auth_verdict(tx, model::user_signed(tx, seed)->Ok_0, m) is Err,
{
}

/// A vote counts toward a certificate for a statement.
pub open spec fn counts_for(v: Vote, m: ManifestModel, s: Statement) -> bool {
    &&& model::vote_verdict(v, m) is Ok
    &&& model::vote_on(v, s)
    &&& s.justify is Some ==> v.justify == s.justify->Some_0
    &&& s.justify is None ==> v.justify == bytes::zero_digest()
}

/// All votes count toward a certificate, and no signer votes twice.
pub open spec fn votes_agree(votes: Seq<Vote>, m: ManifestModel, s: Statement) -> bool {
    &&& forall|i: int| 0 <= i < votes.len() ==> counts_for(#[trigger] votes[i], m, s)
    &&& forall|i: int, j: int|
        0 <= i < j < votes.len() ==> (#[trigger] votes[i]).signer_index != (
        #[trigger] votes[j]).signer_index
}

/// The votes by signer.
spec fn by_signer(votes: Seq<Vote>) -> Map<u8, Vote> {
    Map::new(
        |k: u8| exists|i: int| 0 <= i < votes.len() && (#[trigger] votes[i]).signer_index == k,
        |k: u8|
            votes[choose|i: int| 0 <= i < votes.len() && (#[trigger] votes[i]).signer_index == k],
    )
}

proof fn lemma_by_signer(votes: Seq<Vote>, m: ManifestModel, s: Statement, i: int)
    requires
        votes_agree(votes, m, s),
        0 <= i < votes.len(),
    ensures
        by_signer(votes).contains_key(votes[i].signer_index),
        by_signer(votes)[votes[i].signer_index] == votes[i],
{
    let k = votes[i].signer_index;
    let j = choose|j: int| 0 <= j < votes.len() && (#[trigger] votes[j]).signer_index == k;
    assert(votes[i].signer_index == k);
    assert(0 <= j < votes.len() && votes[j].signer_index == k);
}

proof fn lemma_gathered(
    votes: Seq<Vote>,
    m: ManifestModel,
    s: Statement,
    i: int,
)
    requires
        votes_agree(votes, m, s),
        0 <= i <= votes.len(),
    ensures
        model::gathered(votes, m, s, i, by_signer(votes.take(i))) == Ok::<Map<u8, Vote>, Seq<char>>(
            by_signer(votes),
        ),
        by_signer(votes.take(i)).dom().finite(),
        by_signer(votes.take(i)).len() == i,
    decreases votes.len() - i,
{
    lemma_signer_count(votes.take(i), m, s);
    if i == votes.len() {
        assert(votes.take(i) =~= votes);
    } else {
        let (a, b) = (votes.take(i), votes.take(i + 1));
        let v = votes[i];
        assert(counts_for(votes[i], m, s));
        assert(!by_signer(a).contains_key(v.signer_index)) by {
            if by_signer(a).contains_key(v.signer_index) {
                let j = choose|j: int|
                    0 <= j < a.len() && (#[trigger] a[j]).signer_index == v.signer_index;
                assert(votes[j] == a[j]);
            }
        }
        lemma_one_more(votes, m, s, i);
        lemma_gathered(votes, m, s, i + 1);
    }
}

proof fn lemma_one_more(votes: Seq<Vote>, m: ManifestModel, s: Statement, i: int)
    requires
        votes_agree(votes, m, s),
        0 <= i < votes.len(),
    ensures
        by_signer(votes.take(i + 1)) == by_signer(votes.take(i)).insert(
            votes[i].signer_index,
            votes[i],
        ),
{
    let (a, b) = (votes.take(i), votes.take(i + 1));
    lemma_part_agrees(votes, m, s, i);
    lemma_part_agrees(votes, m, s, i + 1);
    assert(b[i] == votes[i]);
    assert forall|k: u8| #[trigger] by_signer(b).contains_key(k) <==> by_signer(a).insert(
        votes[i].signer_index,
        votes[i],
    ).contains_key(k) by {
        if by_signer(b).contains_key(k) && k != votes[i].signer_index {
            let j = choose|j: int| 0 <= j < b.len() && (#[trigger] b[j]).signer_index == k;
            assert(a[j] == b[j]);
        }
        if by_signer(a).contains_key(k) {
            let j = choose|j: int| 0 <= j < a.len() && (#[trigger] a[j]).signer_index == k;
            assert(b[j] == a[j]);
        }
    }
    assert forall|k: u8| #[trigger] by_signer(b).contains_key(k) implies by_signer(b)[k]
        == by_signer(a).insert(votes[i].signer_index, votes[i])[k] by {
        let j = choose|j: int| 0 <= j < b.len() && (#[trigger] b[j]).signer_index == k;
        lemma_by_signer(b, m, s, j);
        if j < i {
            assert(a[j] == b[j]);
            lemma_by_signer(a, m, s, j);
            assert(votes[j].signer_index != votes[i].signer_index);
        }
    }
    assert(by_signer(b) =~= by_signer(a).insert(votes[i].signer_index, votes[i]));
}

proof fn lemma_part_agrees(votes: Seq<Vote>, m: ManifestModel, s: Statement, i: int)
    requires
        votes_agree(votes, m, s),
        0 <= i <= votes.len(),
    ensures
        votes_agree(votes.take(i), m, s),
{
    let a = votes.take(i);
    assert forall|j: int| 0 <= j < a.len() implies counts_for(#[trigger] a[j], m, s) by {
        assert(a[j] == votes[j]);
    }
    assert forall|j: int, k: int| 0 <= j < k < a.len() implies (#[trigger] a[j]).signer_index != (
    #[trigger] a[k]).signer_index by {
        assert(a[j] == votes[j] && a[k] == votes[k]);
    }
}

proof fn lemma_signer_count(votes: Seq<Vote>, m: ManifestModel, s: Statement)
    requires
        votes_agree(votes, m, s),
    ensures
        by_signer(votes).dom().finite(),
        by_signer(votes).len() == votes.len(),
    decreases votes.len(),
{
    if votes.len() == 0 {
        assert(by_signer(votes) =~= Map::<u8, Vote>::empty());
    } else {
        let i = votes.len() - 1;
        lemma_part_agrees(votes, m, s, i);
        lemma_signer_count(votes.take(i), m, s);
        lemma_one_more(votes, m, s, i);
        assert(votes.take(i + 1) =~= votes);
        assert(!by_signer(votes.take(i)).contains_key(votes[i].signer_index)) by {
            if by_signer(votes.take(i)).contains_key(votes[i].signer_index) {
                let a = votes.take(i);
                let j = choose|j: int|
                    0 <= j < a.len() && (#[trigger] a[j]).signer_index == votes[i].signer_index;
                assert(votes[j] == a[j]);
            }
        }
    }
}

proof fn lemma_good_votes(votes: Seq<Vote>, m: ManifestModel, s: Statement, i: int)
    requires
        forall|k: int| 0 <= k < votes.len() ==> counts_for(#[trigger] votes[k], m, s),
        forall|j: int, k: int|
            0 <= j < k < votes.len() ==> (#[trigger] votes[j]).signer_index < (
            #[trigger] votes[k]).signer_index,
        0 <= i <= votes.len(),
    ensures
        model::votes_verdict(votes, m, s, i) is Ok,
    decreases votes.len() - i,
{
    if i < votes.len() {
        assert(counts_for(votes[i], m, s));
        if i > 0 {
            assert(votes[i - 1].signer_index < votes[i].signer_index);
        }
        lemma_good_votes(votes, m, s, i + 1);
    }
}

/// The sorted votes of a map by signer.
proof fn lemma_sorted(votes: Seq<Vote>, m: ManifestModel, s: Statement)
    requires
        votes_agree(votes, m, s),
    ensures
        ({
            let sorted = model::votes_listed(by_signer(votes));
            &&& sorted.len() == votes.len()
            &&& forall|i: int|
                0 <= i < sorted.len() ==> counts_for(#[trigger] sorted[i], m, s) && votes.contains(
                    sorted[i],
                )
            &&& forall|i: int, j: int|
                0 <= i < j < sorted.len() ==> (#[trigger] sorted[i]).signer_index < (
                #[trigger] sorted[j]).signer_index
            &&& forall|i: int|
                0 <= i < votes.len() ==> sorted.contains(#[trigger] votes[i])
        }),
{
    let map = by_signer(votes);
    let entries = ordmap::listed(map);
    let sorted = model::votes_listed(map);
    lemma_signer_count(votes, m, s);
    ordmap::lemma_listed_finite(map);
    assert forall|i: int| 0 <= i < sorted.len() implies counts_for(#[trigger] sorted[i], m, s)
        && votes.contains(sorted[i]) && sorted[i].signer_index == entries[i].0 by {
        ordmap::lemma_ascending_index(entries, i);
        let k = entries[i].0;
        let j = choose|j: int| 0 <= j < votes.len() && (#[trigger] votes[j]).signer_index == k;
        assert(0 <= j < votes.len() && votes[j].signer_index == k);
        lemma_by_signer(votes, m, s, j);
        assert(sorted[i] == votes[j]);
        assert(counts_for(votes[j], m, s));
    }
    assert forall|i: int, j: int| 0 <= i < j < sorted.len() implies (
    #[trigger] sorted[i]).signer_index < (#[trigger] sorted[j]).signer_index by {
        assert(Ordered::lt(entries[i].0, entries[j].0));
        assert(sorted[i].signer_index == entries[i].0);
        assert(sorted[j].signer_index == entries[j].0);
    }
    assert forall|i: int| 0 <= i < votes.len() implies sorted.contains(#[trigger] votes[i]) by {
        lemma_by_signer(votes, m, s, i);
        let k = votes[i].signer_index;
        assert(ordmap::map_of(entries).contains_key(k));
        let j = ordmap::entry_index(entries, k);
        assert(ordmap::has_entry(entries, k));
        assert(0 <= j < entries.len() && entries[j].0 == k);
        ordmap::lemma_ascending_index(entries, j);
        assert(sorted[j] == votes[i]);
    }
}

/// A quorum forms a certificate: five to seven accepted votes of distinct members on
/// one statement make a certificate that is accepted, and it holds just these votes.
pub proof fn law_quorum_forms_a_certificate(votes: Seq<Vote>, m: ManifestModel, s: Statement)
    requires
        votes_agree(votes, m, s),
        Q <= votes.len() <= N,
    ensures
        model::assembled(votes, m, s) is Ok,
        model::qc_verdict(model::assembled(votes, m, s)->Ok_0, m, s) is Ok,
        model::assembled(votes, m, s)->Ok_0.len() == votes.len(),
        forall|v: Vote| #[trigger]
            model::assembled(votes, m, s)->Ok_0.contains(v) <==> votes.contains(v),
{
    lemma_gathered(votes, m, s, 0);
    assert(by_signer(votes.take(0)) =~= Map::<u8, Vote>::empty());
    lemma_sorted(votes, m, s);
    let sorted = model::votes_listed(by_signer(votes));
    lemma_good_votes(sorted, m, s, 0);
    assert forall|v: Vote| #[trigger] sorted.contains(v) <==> votes.contains(v) by {
        if sorted.contains(v) {
            let i = choose|i: int| 0 <= i < sorted.len() && sorted[i] == v;
            assert(votes.contains(sorted[i]));
        }
        if votes.contains(v) {
            let i = choose|i: int| 0 <= i < votes.len() && votes[i] == v;
            assert(sorted.contains(votes[i]));
        }
    }
}

/// Fewer than five votes form no certificate, nor do more than seven.
pub proof fn law_no_certificate_without_a_quorum(votes: Seq<Vote>, m: ManifestModel, s: Statement)
    requires
        votes_agree(votes, m, s),
        votes.len() < 5 || votes.len() > 7,
    ensures
        model::assembled(votes, m, s) is Err,
{
    lemma_gathered(votes, m, s, 0);
    assert(by_signer(votes.take(0)) =~= Map::<u8, Vote>::empty());
    lemma_sorted(votes, m, s);
}

/// The order in which votes come in does not matter: the same votes form the same
/// certificate.
pub proof fn law_certificate_has_one_form(
    a: Seq<Vote>,
    b: Seq<Vote>,
    m: ManifestModel,
    s: Statement,
)
    requires
        votes_agree(a, m, s),
        votes_agree(b, m, s),
        forall|v: Vote| #[trigger] a.contains(v) <==> b.contains(v),
    ensures
        model::assembled(a, m, s) == model::assembled(b, m, s),
{
    lemma_gathered(a, m, s, 0);
    lemma_gathered(b, m, s, 0);
    assert(by_signer(a.take(0)) =~= Map::<u8, Vote>::empty());
    assert(by_signer(b.take(0)) =~= Map::<u8, Vote>::empty());
    lemma_same_signers(a, b, m, s);
    lemma_same_signers(b, a, m, s);
    assert(by_signer(a) =~= by_signer(b));
}

proof fn lemma_same_signers(a: Seq<Vote>, b: Seq<Vote>, m: ManifestModel, s: Statement)
    requires
        votes_agree(a, m, s),
        votes_agree(b, m, s),
        forall|v: Vote| #[trigger] a.contains(v) <==> b.contains(v),
    ensures
        forall|k: u8| #[trigger]
            by_signer(a).contains_key(k) ==> by_signer(b).contains_key(k) && by_signer(b)[k]
                == by_signer(a)[k],
{
    assert forall|k: u8| #[trigger] by_signer(a).contains_key(k) implies by_signer(b).contains_key(
        k,
    ) && by_signer(b)[k] == by_signer(a)[k] by {
        let i = choose|i: int| 0 <= i < a.len() && (#[trigger] a[i]).signer_index == k;
        lemma_by_signer(a, m, s, i);
        assert(a.contains(a[i]));
        assert(b.contains(a[i]));
        let j = choose|j: int| 0 <= j < b.len() && b[j] == a[i];
        lemma_by_signer(b, m, s, j);
    }
}

pub proof fn lemma_own_statement(votes: Seq<Vote>, m: ManifestModel, s: Statement)
    requires
        model::qc_verdict(votes, m, s) is Ok,
        s.phase == PHASE_PREVOTE ==> s.justify is None,
        s.phase == PHASE_PRECOMMIT ==> s.justify is Some,
    ensures
        model::qc_digest_result(votes, m) == Ok::<Digest, Seq<char>>(model::qc_hash(votes)),
        model::own_statement(votes) == s,
{
    assert(model::votes_verdict(votes, m, s, 0) is Ok);
    assert(model::vote_verdict(votes[0], m) is Ok && model::vote_on(votes[0], s));
    assert(model::own_statement(votes) == s);
}

/// Two quorums finalize a transfer: a prevote certificate for it, and a precommit
/// certificate of the same round that follows the first, are accepted together.
pub proof fn law_two_quorums_finalize(
    tx: TxModel,
    m: ManifestModel,
    prevotes: Seq<Vote>,
    precommits: Seq<Vote>,
    round: u64,
)
    requires
        model::tx_verdict(tx, m) is Ok,
        Q <= prevotes.len() <= N,
        votes_agree(
            prevotes,
            m,
            (Statement {
                phase: PHASE_PREVOTE,
                round,
                conflict: model::conflict_digest(tx.input.reference),
                intent: model::intent_digest(tx),
                justify: None,
            }),
        ),
        Q <= precommits.len() <= N,
        votes_agree(
            precommits,
            m,
            (Statement {
                phase: PHASE_PRECOMMIT,
                round,
                conflict: model::conflict_digest(tx.input.reference),
                intent: model::intent_digest(tx),
                justify: Some(
                    model::qc_hash(
                        model::assembled(
                            prevotes,
                            m,
                            (Statement {
                                phase: PHASE_PREVOTE,
                                round,
                                conflict: model::conflict_digest(tx.input.reference),
                                intent: model::intent_digest(tx),
                                justify: None,
                            }),
                        )->Ok_0,
                    ),
                ),
            }),
        ),
    ensures
        ({
            let first = Statement {
                phase: PHASE_PREVOTE,
                round,
                conflict: model::conflict_digest(tx.input.reference),
                intent: model::intent_digest(tx),
                justify: None,
            };
            let prevote = model::assembled(prevotes, m, first)->Ok_0;
            let second = Statement {
                phase: PHASE_PRECOMMIT,
                justify: Some(model::qc_hash(prevote)),
                ..first
            };
            &&& model::assembled(prevotes, m, first) is Ok
            &&& model::assembled(precommits, m, second) is Ok
            &&& state::chain_verdict(tx, prevote, model::assembled(precommits, m, second)->Ok_0, m) is Ok
        }),
{
    let first = Statement {
        phase: PHASE_PREVOTE,
        round,
        conflict: model::conflict_digest(tx.input.reference),
        intent: model::intent_digest(tx),
        justify: None,
    };
    law_quorum_forms_a_certificate(prevotes, m, first);
    let prevote = model::assembled(prevotes, m, first)->Ok_0;
    let second = Statement {
        phase: PHASE_PRECOMMIT,
        round,
        conflict: model::conflict_digest(tx.input.reference),
        intent: model::intent_digest(tx),
        justify: Some(model::qc_hash(prevote)),
    };
    law_quorum_forms_a_certificate(precommits, m, second);
    let precommit = model::assembled(precommits, m, second)->Ok_0;
    model::law_valid_tx_conserves_value(tx, m);
    lemma_own_statement(prevote, m, first);
    lemma_own_statement(precommit, m, second);
    assert(prevote[0].round == model::own_statement(prevote).round);
    assert(precommit[0].round == model::own_statement(precommit).round);
    assert(state::prevote_statement(tx, prevote) == first);
    assert(state::precommit_statement(tx, prevote) == second);
}

/// A finalized transfer is applied: where its certificates and its owner's
/// authorization are accepted, its exact input is live, it was not applied before and
/// its new cells fit, it is applied.
pub proof fn law_finalized_transfer_is_applied(
    s: StateModel,
    tx: TxModel,
    auth: UserAuth,
    prevote: Seq<Vote>,
    precommit: Seq<Vote>,
    m: ManifestModel,
)
    requires
        state::chain_verdict(tx, prevote, precommit, m) is Ok,
        model::auth_verdict(tx, auth, m) is Ok,
        !s.applied.contains_key(model::intent_digest(tx)),
        s.live.contains_key(tx.input.reference),
        s.live[tx.input.reference] == tx.input,
        tx.input.reference.generation < u64::MAX,
        state::fit_verdict(model::created_cells(tx), s.known_ids, 0) is Ok,
    ensures
        state::apply_result(s, tx, auth, prevote, precommit, m) == Ok::<OutcomeModel, Seq<char>>(
            OutcomeModel::Applied(state::receipt_of(tx, precommit)),
        ),
{
    lemma_own_statement(precommit, m, state::precommit_statement(tx, prevote));
}

/// What a transfer does rests on no certificate: applied with one pair of accepted
/// certificates or another, it leaves the same live cells, spent cells and
/// identifiers.
pub proof fn law_effects_are_the_transfers(
    s: StateModel,
    tx: TxModel,
    auth: UserAuth,
    m: ManifestModel,
    a: (Seq<Vote>, Seq<Vote>),
    b: (Seq<Vote>, Seq<Vote>),
)
    requires
        state::apply_result(s, tx, auth, a.0, a.1, m) matches Ok(OutcomeModel::Applied(_)),
        state::apply_result(s, tx, auth, b.0, b.1, m) matches Ok(OutcomeModel::Applied(_)),
    ensures
        ({
            let first = state::state_then(s, tx, state::apply_result(s, tx, auth, a.0, a.1, m));
            let second = state::state_then(s, tx, state::apply_result(s, tx, auth, b.0, b.1, m));
            &&& first.live == second.live
            &&& first.spent_by == second.spent_by
            &&& first.known_ids == second.known_ids
        }),
{
}

} // verus!
