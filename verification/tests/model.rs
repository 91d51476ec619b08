use calibre::crypto::SigningKey;
use calibre::model::{
    assemble_qc, committee_hash, compute_cell_digest, conflict_key, fee_collector, intent_hash,
    lab_committee, lab_user_key, lab_validator_key, leader, make_genesis_cell, make_proposal,
    make_transfer, output_ref, qc_digest, sign_user, sign_vote, validate_cell, validate_manifest,
    validate_tx, verify_proposal, verify_qc, verify_user_auth, verify_vote, ApplyOutcome, Cell,
    CommitteeManifest, Output, Qc, State, Tx, UserAuth, Vote, ASSET_CALIBRE, N, OLD_EPOCH,
    PHASE_PRECOMMIT, PHASE_PREVOTE, Q,
};

fn fixture() -> (CommitteeManifest, SigningKey, Cell, Tx, UserAuth) {
    let manifest = lab_committee(OLD_EPOCH);
    let alice = lab_user_key(1);
    let bob = lab_user_key(2).verifying_key().to_bytes();
    let input = make_genesis_cell(1, 100, alice.verifying_key().to_bytes());
    let tx = make_transfer(
        &manifest,
        input.clone(),
        vec![
            Output { asset_id: ASSET_CALIBRE, amount: 60, owner: bob },
            Output { asset_id: ASSET_CALIBRE, amount: 39, owner: alice.verifying_key().to_bytes() },
        ],
        1,
        [7; 32],
    )
    .unwrap();
    let auth = sign_user(&tx, &alice).unwrap();
    (manifest, alice, input, tx, auth)
}

fn votes(
    manifest: &CommitteeManifest,
    tx: &Tx,
    phase: u8,
    round: u64,
    justify: [u8; 32],
    count: usize,
) -> Vec<Vote> {
    (0..count)
        .map(|index| {
            sign_vote(
                manifest,
                phase,
                round,
                conflict_key(tx.input.reference),
                intent_hash(tx).unwrap(),
                justify,
                index as u8,
                &lab_validator_key(manifest.epoch, index),
            )
            .unwrap()
        })
        .collect()
}

fn chain(manifest: &CommitteeManifest, tx: &Tx, round: u64) -> (Qc, Qc) {
    let intent = intent_hash(tx).unwrap();
    let conflict = conflict_key(tx.input.reference);
    let prevote_qc = assemble_qc(
        votes(manifest, tx, PHASE_PREVOTE, round, [0; 32], Q),
        manifest,
        PHASE_PREVOTE,
        round,
        conflict,
        intent,
        None,
    )
    .unwrap();
    let justify = qc_digest(&prevote_qc, manifest).unwrap();
    let qc = assemble_qc(
        votes(manifest, tx, PHASE_PRECOMMIT, round, justify, Q),
        manifest,
        PHASE_PRECOMMIT,
        round,
        conflict,
        intent,
        Some(justify),
    )
    .unwrap();
    (prevote_qc, qc)
}

#[test]
fn manifest_and_quorum_boundary_are_exact() {
    let manifest = lab_committee(OLD_EPOCH);
    validate_manifest(&manifest).unwrap();
    assert_eq!(2 * Q - N, 3);
    assert!(2 * Q - N > 2);
}

#[test]
fn authorization_binds_owner_and_every_effect() {
    let (manifest, _alice, _input, tx, auth) = fixture();
    verify_user_auth(&tx, &auth, &manifest).unwrap();

    let mut mutations = Vec::new();
    let mut changed = tx.clone(); changed.network_id += 1; mutations.push(changed);
    let mut changed = tx.clone(); changed.epoch += 1; mutations.push(changed);
    let mut changed = tx.clone(); changed.input.reference.generation += 1; mutations.push(changed);
    let mut changed = tx.clone(); changed.input.amount += 1; mutations.push(changed);
    let mut changed = tx.clone(); changed.outputs[0].owner = lab_user_key(3).verifying_key().to_bytes(); mutations.push(changed);
    let mut changed = tx.clone(); changed.outputs[0].amount -= 1; changed.outputs[1].amount += 1; mutations.push(changed);
    let mut changed = tx.clone(); changed.outputs.swap(0, 1); mutations.push(changed);
    let mut changed = tx.clone(); changed.fee += 1; mutations.push(changed);
    let mut changed = tx.clone(); changed.salt[0] ^= 1; mutations.push(changed);
    for changed in mutations { assert!(verify_user_auth(&changed, &auth, &manifest).is_err()); }

    let mallory = lab_user_key(3);
    assert!(verify_user_auth(&tx, &sign_user(&tx, &mallory).unwrap(), &manifest).is_err());
}

#[test]
fn conservation_and_overflow_fail_closed() {
    let (manifest, _alice, input, _tx, _auth) = fixture();
    assert!(make_transfer(
        &manifest,
        input.clone(),
        vec![Output { asset_id: ASSET_CALIBRE, amount: 100, owner: input.owner }],
        1,
        [1; 32],
    ).is_err());
    let mut huge = input;
    huge.amount = u64::MAX;
    huge.state_digest = compute_cell_digest(huge.reference, huge.amount, huge.owner, huge.predecessor);
    assert!(make_transfer(
        &manifest,
        huge,
        vec![
            Output { asset_id: ASSET_CALIBRE, amount: u64::MAX, owner: lab_user_key(1).verifying_key().to_bytes() },
            Output { asset_id: ASSET_CALIBRE, amount: 1, owner: lab_user_key(2).verifying_key().to_bytes() },
        ],
        1,
        [2; 32],
    ).is_err());
}

#[test]
fn quorum_rejects_four_duplicates_and_wrong_statement() {
    let (manifest, _alice, _input, tx, _auth) = fixture();
    let intent = intent_hash(&tx).unwrap();
    let conflict = conflict_key(tx.input.reference);
    let votes: Vec<_> = (0..4)
        .map(|index| sign_vote(&manifest, PHASE_PREVOTE, 1, conflict, intent, [0; 32], index, &lab_validator_key(OLD_EPOCH, index as usize)).unwrap())
        .collect();
    assert!(assemble_qc(votes.clone(), &manifest, PHASE_PREVOTE, 1, conflict, intent, None).is_err());
    let mut duplicates = vec![votes[0]; 5];
    assert!(assemble_qc(duplicates.clone(), &manifest, PHASE_PREVOTE, 1, conflict, intent, None).is_err());
    duplicates[4].intent[0] ^= 1;
    assert!(assemble_qc(duplicates, &manifest, PHASE_PREVOTE, 1, conflict, intent, None).is_err());
}

#[test]
fn finalized_apply_is_value_conserving_and_idempotent() {
    let (manifest, _alice, input, tx, auth) = fixture();
    let (prevote_qc, qc) = chain(&manifest, &tx, 3);
    let mut state = State::from_cells(vec![input]).unwrap();
    let before = state.total_value().unwrap();
    assert!(matches!(state.apply_finalized(&tx, &auth, &prevote_qc, &qc, &manifest).unwrap(), ApplyOutcome::Applied(_)));
    assert_eq!(state.total_value().unwrap(), before);
    let fees = (0..state.live.len())
        .map(|i| state.live.value_at(i))
        .filter(|cell| cell.owner == fee_collector() && cell.amount == 1)
        .count();
    assert_eq!(fees, 1);
    assert!(matches!(state.apply_finalized(&tx, &auth, &prevote_qc, &qc, &manifest).unwrap(), ApplyOutcome::AlreadyApplied(_)));
    assert_eq!(state.total_value().unwrap(), before);
}

#[test]
fn state_root_is_insertion_order_independent() {
    let a = make_genesis_cell(10, 10, lab_user_key(10).verifying_key().to_bytes());
    let b = make_genesis_cell(11, 11, lab_user_key(11).verifying_key().to_bytes());
    assert_eq!(State::from_cells(vec![a.clone(), b.clone()]).unwrap().root(), State::from_cells(vec![b, a]).unwrap().root());
}

#[test]
fn exhaustive_f2_static_allocations_never_make_two_quorums() {
    let mut cases = 0usize;
    for honest_mask in 0u8..32 {
        for byz0 in 0u8..4 {
            for byz1 in 0u8..4 {
                let honest_a = honest_mask.count_ones() as usize;
                let honest_b = 5 - honest_a;
                let byz_a = (byz0 == 1 || byz0 == 3) as usize + (byz1 == 1 || byz1 == 3) as usize;
                let byz_b = (byz0 == 2 || byz0 == 3) as usize + (byz1 == 2 || byz1 == 3) as usize;
                assert!(!(honest_a + byz_a >= Q && honest_b + byz_b >= Q));
                cases += 1;
            }
        }
    }
    assert_eq!(cases, 512);
}

#[test]
fn f3_boundary_can_make_two_quorums() {
    assert_eq!(3 + 2, Q);
    assert_eq!(3 + 2, Q);
}

#[test]
fn manifests_of_another_shape_are_refused() {
    let good = lab_committee(OLD_EPOCH);
    let mut small = good.clone();
    small.members.pop();
    let mut low = good.clone();
    low.threshold = 4;
    let mut twice = good.clone();
    twice.members[1].public_key = twice.members[0].public_key;
    let mut shuffled = good.clone();
    shuffled.members.swap(0, 1);
    let mut foreign = good.clone();
    foreign.network_id += 1;
    for bad in [small, low, twice, shuffled, foreign] {
        assert!(validate_manifest(&bad).is_err());
        assert!(committee_hash(&bad).is_err());
    }
}

#[test]
fn a_manifest_is_told_by_its_hash() {
    let old = committee_hash(&lab_committee(OLD_EPOCH)).unwrap();
    let new = committee_hash(&lab_committee(OLD_EPOCH + 1)).unwrap();
    assert_ne!(old, new);
    assert_eq!(old, committee_hash(&lab_committee(OLD_EPOCH)).unwrap());
}

#[test]
fn a_changed_cell_no_longer_fits_its_digest() {
    let cell = make_genesis_cell(1, 100, [3; 32]);
    validate_cell(&cell).unwrap();
    let mut changed = cell;
    changed.amount += 1;
    assert!(validate_cell(&changed).is_err());
    let mut moved = cell;
    moved.owner = [4; 32];
    assert!(validate_cell(&moved).is_err());
}

#[test]
fn leaders_rotate_over_the_rounds() {
    let key = conflict_key(make_genesis_cell(1, 100, [3; 32]).reference);
    let slots: Vec<usize> = (0..N as u64).map(|round| leader(key, round)).collect();
    let mut sorted = slots.clone();
    sorted.sort_unstable();
    assert_eq!(sorted, (0..N).collect::<Vec<_>>());
    assert_eq!(leader(key, N as u64), slots[0]);
}

#[test]
fn a_vote_is_bound_to_its_signer() {
    let (manifest, _alice, _input, tx, _auth) = fixture();
    let vote = votes(&manifest, &tx, PHASE_PREVOTE, 1, [0; 32], 1)[0];
    verify_vote(&vote, &manifest).unwrap();
    let mut other = vote;
    other.signer_index = 1;
    assert!(verify_vote(&other, &manifest).is_err());
    let mut outside = vote;
    outside.signer_index = N as u8;
    assert!(verify_vote(&outside, &manifest).is_err());
    assert!(sign_vote(&manifest, 3, 1, vote.conflict_key, vote.intent, [0; 32], 0, &lab_validator_key(OLD_EPOCH, 0)).is_err());
}

#[test]
fn certificates_are_told_apart_from_their_statement() {
    let (manifest, _alice, _input, tx, _auth) = fixture();
    let (prevote_qc, qc) = chain(&manifest, &tx, 3);
    let intent = intent_hash(&tx).unwrap();
    let conflict = conflict_key(tx.input.reference);
    verify_qc(&prevote_qc, &manifest, PHASE_PREVOTE, 3, conflict, intent, None).unwrap();
    assert!(verify_qc(&prevote_qc, &manifest, PHASE_PREVOTE, 4, conflict, intent, None).is_err());
    assert!(verify_qc(&prevote_qc, &manifest, PHASE_PRECOMMIT, 3, conflict, intent, None).is_err());
    assert!(verify_qc(&qc, &manifest, PHASE_PRECOMMIT, 3, conflict, intent, Some([0; 32])).is_err());
    assert_ne!(qc_digest(&prevote_qc, &manifest).unwrap(), qc_digest(&qc, &manifest).unwrap());
}

#[test]
fn proposals_are_signed_by_the_leader() {
    let (manifest, _alice, _input, tx, auth) = fixture();
    let proposal = make_proposal(&manifest, 0, tx.clone(), auth, None).unwrap();
    verify_proposal(&proposal, &manifest).unwrap();
    assert_eq!(proposal.proposer_index as usize, leader(conflict_key(tx.input.reference), 0));
    let mut other = proposal.clone();
    other.round += 1;
    assert!(verify_proposal(&other, &manifest).is_err());
    let mut renamed = proposal.clone();
    renamed.intent[0] ^= 1;
    assert!(verify_proposal(&renamed, &manifest).is_err());
}

#[test]
fn outputs_are_counted_from_zero_with_the_fee_last() {
    let (manifest, _alice, _input, tx, _auth) = fixture();
    validate_tx(&tx, &manifest).unwrap();
    let refs: Vec<_> = (0..=tx.outputs.len()).map(|i| output_ref(&tx, i).unwrap()).collect();
    assert_ne!(refs[0].id, refs[1].id);
    assert_ne!(refs[1].id, refs[2].id);
    for reference in &refs {
        assert_eq!(reference.generation, tx.input.reference.generation + 1);
    }
}

#[test]
fn a_spent_cell_cannot_be_spent_otherwise() {
    let (manifest, alice, input, tx, auth) = fixture();
    let (prevote_qc, qc) = chain(&manifest, &tx, 3);
    let mut state = State::from_cells(vec![input]).unwrap();
    state.apply_finalized(&tx, &auth, &prevote_qc, &qc, &manifest).unwrap();
    let root = state.root();

    let other = make_transfer(
        &manifest,
        input,
        vec![Output { asset_id: ASSET_CALIBRE, amount: 99, owner: lab_user_key(3).verifying_key().to_bytes() }],
        1,
        [8; 32],
    )
    .unwrap();
    let other_auth = sign_user(&other, &alice).unwrap();
    let (other_prevote, other_qc) = chain(&manifest, &other, 4);
    assert!(state.apply_finalized(&other, &other_auth, &other_prevote, &other_qc, &manifest).is_err());
    assert_eq!(state.root(), root);
    state.validate().unwrap();
}

#[test]
fn cells_cannot_be_listed_twice() {
    let cell = make_genesis_cell(10, 10, [1; 32]);
    assert!(State::from_cells(vec![cell, cell]).is_err());
    let state = State::from_cells(vec![cell]).unwrap();
    assert_eq!(state.total_value().unwrap(), 10);
    assert!(state.live_cell(cell.reference).is_some());
}

#[test]
fn votes_in_any_order_form_one_certificate() {
    let (manifest, _, _, tx, _) = fixture();
    let intent = intent_hash(&tx).unwrap();
    let conflict = conflict_key(tx.input.reference);
    let form = |cast: Vec<Vote>| {
        assemble_qc(cast, &manifest, PHASE_PREVOTE, 3, conflict, intent, None).unwrap()
    };
    let cast = votes(&manifest, &tx, PHASE_PREVOTE, 3, [0; 32], N);
    let mut turned = cast.clone();
    turned.reverse();
    let (first, second) = (form(cast), form(turned));
    assert_eq!(first.votes.len(), N);
    assert!(first.votes.windows(2).all(|pair| pair[0].signer_index < pair[1].signer_index));
    assert!(first
        .votes
        .iter()
        .zip(&second.votes)
        .all(|(a, b)| a.signer_index == b.signer_index && a.signature == b.signature));
    assert_eq!(qc_digest(&first, &manifest).unwrap(), qc_digest(&second, &manifest).unwrap());
}

#[test]
fn a_made_proposal_is_as_asked_and_accepted() {
    let (manifest, _alice, _input, tx, auth) = fixture();
    for round in [1u64, 2, 9] {
        let proposal = make_proposal(&manifest, round, tx.clone(), auth, None).unwrap();
        assert_eq!(proposal.round, round);
        assert!(proposal.tx == tx && proposal.auth == auth && proposal.justify.is_none());
        assert_eq!(proposal.intent, intent_hash(&tx).unwrap());
        let slot = leader(conflict_key(tx.input.reference), round);
        assert_eq!(proposal.proposer_index as usize, slot as usize);
        assert_eq!(verify_proposal(&proposal, &manifest), Ok(()));
    }
}
