use calibre::controller::{
    apply_in_order, build_fixture, conservation_negatives_rejected, deterministic_permutation,
    executable_fingerprint, exhaustive_conflict_safety_cases, fixture_finality_chain, forward_order, hex_prefix,
    labelled_digest, make_bench_transfers, make_main_transfer, quorum_negative_matrix,
    reverse_order, signed_field_mutations_rejected, FinalizedTransfer, LabFixture, LAB_SEED,
};
use calibre::model::{ApplyOutcome, Q};
use calibre::phase_a::{
    check_duplicate, check_main_outputs, check_schedules, check_topology, gate_statuses, gates,
    live_schedule, opposing_precommit, owner_negative_proposal, passed_gate_count, phase_a_status,
    settle_main, validator_fingerprints, vote_reply, SizeMaxima, QuerySummary,
};
use calibre::wire::{Request, Response};

fn finalize(fixture: &LabFixture, label: u64) -> FinalizedTransfer {
    let (tx, auth) = make_main_transfer(fixture, fixture.bob, label).unwrap();
    let (prevote_qc, qc) =
        fixture_finality_chain(&fixture.manifest, &tx, 0, &vec![0, 1, 2, 3, 4]).unwrap();
    FinalizedTransfer { tx, auth, prevote_qc, qc }
}

#[test]
fn exhaustive_f_two_model_has_no_dual_quorum() {
    assert_eq!(exhaustive_conflict_safety_cases().unwrap(), 512);
}

#[test]
fn an_executable_is_known_by_the_hash_of_its_bytes() {
    assert_eq!(
        executable_fingerprint(b""),
        "af1349b9f5f9a1a6a0404dea36dcc9499bcb25c9adc112b7cc9a93cae41f3262"
    );
    assert_eq!(
        executable_fingerprint(b"abc"),
        "6437b3ac38465133ffb63b75273a8db548c558465d79db03fd359c6cd5bd9d85"
    );
}

#[test]
fn deterministic_schedule_is_a_permutation() {
    let first = deterministic_permutation(128, 0xc411_b2e5_2026_0001);
    let second = deterministic_permutation(128, 0xc411_b2e5_2026_0001);
    assert_eq!(first, second);
    let mut sorted = first;
    sorted.sort_unstable();
    assert_eq!(sorted, (0..128).collect::<Vec<_>>());
}

#[test]
fn schedules_run_forward_backward_and_mixed() {
    assert_eq!(forward_order(3), [0, 1, 2]);
    assert_eq!(reverse_order(3), [2, 1, 0]);
    assert_eq!(deterministic_permutation(0, LAB_SEED), Vec::<usize>::new());
    assert_ne!(deterministic_permutation(64, LAB_SEED), forward_order(64));
    for index in 0..7 {
        let mut order = live_schedule(index, 9);
        order.sort_unstable();
        assert_eq!(order, forward_order(9));
    }
}

#[test]
fn bytes_are_shown_in_hexadecimal() {
    assert_eq!(hex_prefix(&[0x0a, 0xff, 0x10], 2), "0aff");
    assert_eq!(hex_prefix(&[0x0a], 5), "0a");
    assert_ne!(labelled_digest("a", 1), labelled_digest("a", 2));
    assert_ne!(labelled_digest("a", 1), labelled_digest("b", 1));
}

#[test]
fn the_fixture_holds_its_value() {
    let fixture = build_fixture(4).unwrap();
    fixture.genesis.validate().unwrap();
    assert_eq!(fixture.bench_inputs.len(), 4);
    assert_eq!(
        fixture.genesis.live.len(),
        1 + fixture.negative_inputs.len() + fixture.bench_inputs.len()
    );
    check_topology(&fixture.manifest).unwrap();
    assert!(validator_fingerprints(&fixture.manifest).contains(','));
}

#[test]
fn every_signed_field_is_bound() {
    let fixture = build_fixture(1).unwrap();
    let (tx, auth) = make_main_transfer(&fixture, fixture.bob, 1).unwrap();
    assert!(signed_field_mutations_rejected(&tx, &auth, &fixture.manifest).unwrap() > 0);
    conservation_negatives_rejected(&fixture.manifest, &tx).unwrap();
}

#[test]
fn broken_certificates_are_all_refused() {
    let fixture = build_fixture(1).unwrap();
    let finalized = finalize(&fixture, 1);
    assert!(quorum_negative_matrix(&finalized, &fixture.manifest).unwrap() > 0);
    assert_eq!(finalized.qc.votes.len(), Q);
}

#[test]
fn too_few_signers_finalize_nothing() {
    let fixture = build_fixture(1).unwrap();
    let (tx, _) = make_main_transfer(&fixture, fixture.bob, 1).unwrap();
    assert!(fixture_finality_chain(&fixture.manifest, &tx, 0, &vec![0, 1, 2, 3]).is_err());
    assert!(fixture_finality_chain(&fixture.manifest, &tx, 0, &vec![0, 1, 2, 3, 3]).is_err());
}

#[test]
fn the_main_transfer_settles_once() {
    let fixture = build_fixture(1).unwrap();
    let total = fixture.genesis.total_value().unwrap();
    let finalized = finalize(&fixture, 1);
    let mut state = fixture.genesis.clone();
    let receipt = settle_main(&mut state, &fixture, &finalized, total).unwrap();
    check_duplicate(&state, &fixture.manifest, &finalized, &receipt).unwrap();
    let alice = fixture.alice.verifying_key().to_bytes();
    check_main_outputs(&state, &receipt, &fixture.bob, &alice, &fixture.charlie, total).unwrap();
    assert!(check_main_outputs(&state, &receipt, &fixture.bob, &alice, &fixture.charlie, total + 1)
        .is_err());
    let again = state
        .apply_finalized(
            &finalized.tx,
            &finalized.auth,
            &finalized.prevote_qc,
            &finalized.qc,
            &fixture.manifest,
        )
        .unwrap();
    assert!(matches!(again, ApplyOutcome::AlreadyApplied(_)));
}

#[test]
fn schedules_converge_on_one_state() {
    let fixture = build_fixture(3).unwrap();
    let finalized: Vec<FinalizedTransfer> = make_bench_transfers(&fixture)
        .unwrap()
        .into_iter()
        .map(|(tx, auth)| {
            let (prevote_qc, qc) =
                fixture_finality_chain(&fixture.manifest, &tx, 0, &vec![0, 1, 2, 3, 4]).unwrap();
            FinalizedTransfer { tx, auth, prevote_qc, qc }
        })
        .collect();
    let total = fixture.genesis.total_value().unwrap();
    let state =
        check_schedules(&fixture.genesis, &finalized, &fixture.manifest, 3, total).unwrap();
    for order in [vec![0, 1, 2], vec![2, 0, 1], vec![1, 2, 0]] {
        let other = apply_in_order(&fixture.genesis, &finalized, &order, &fixture.manifest);
        assert_eq!(other.unwrap().root(), state.root());
    }
    assert_eq!(state.total_value().unwrap(), total);
}

#[test]
fn stolen_and_forged_proposals_are_built_to_be_refused() {
    let fixture = build_fixture(1).unwrap();
    for case in 0..fixture.negative_inputs.len() {
        let proposal = owner_negative_proposal(&fixture, case).unwrap();
        assert!(calibre::model::verify_proposal(&proposal, &fixture.manifest).is_err());
    }
    let (tx, auth) = make_main_transfer(&fixture, fixture.charlie, 2).unwrap();
    assert!(matches!(
        opposing_precommit(&fixture.manifest, &tx, auth).unwrap(),
        Request::Precommit { .. }
    ));
}

#[test]
fn replies_are_read_as_votes_or_refusals() {
    assert!(vote_reply(3, Response::Rejected { code: 9 }).is_ok());
    assert!(vote_reply(3, Response::Applied { state_root: [0; 32], idempotent: true }).is_err());
}

#[test]
fn the_largest_sizes_are_kept() {
    let mut sizes = SizeMaxima::new();
    let root = [5; 32];
    for (snapshot_bytes, wal_bytes) in [(10, 7), (4, 9)] {
        sizes.take(&QuerySummary { state_root: root, snapshot_bytes, wal_bytes }, &root).unwrap();
    }
    assert_eq!((sizes.snapshot_bytes, sizes.wal_bytes), (10, 9));
    let other = QuerySummary { state_root: [6; 32], snapshot_bytes: 1, wal_bytes: 1 };
    assert!(sizes.take(&other, &root).is_err());
}

#[test]
fn gates_are_counted_and_named() {
    let all = gates(128);
    let passed = all.iter().filter(|gate| gate.1).count();
    assert_eq!(passed, passed_gate_count(128));
    assert!(gate_statuses(128).len() > all.len());
    assert!(passed_gate_count(1) <= passed_gate_count(128));
    assert!(!phase_a_status(128).is_empty());
}

#[test]
fn effects_do_not_rest_on_the_certificates() {
    let fixture = build_fixture(1).unwrap();
    let (tx, auth) = make_main_transfer(&fixture, fixture.bob, 1).unwrap();
    let settle = |signers: Vec<usize>| {
        let (prevote, precommit) =
            fixture_finality_chain(&fixture.manifest, &tx, 2, &signers).unwrap();
        let mut state = fixture.genesis.clone();
        state.apply_finalized(&tx, &auth, &prevote, &precommit, &fixture.manifest).unwrap();
        state
    };
    let (first, second) = (settle(vec![0, 1, 2, 3, 4]), settle(vec![2, 3, 4, 5, 6]));
    assert!(first.live == second.live);
    assert!(first.spent_by == second.spent_by);
    assert!(first.known_ids == second.known_ids);
    assert_ne!(first.root(), second.root());
}
