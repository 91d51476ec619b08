use calibre::campaign::{
    alternate_signers, apply_request, audit_count_status, bench_round, check_bench_apply,
    check_bench_completed, check_finality_votes, check_live_topology, check_main_apply, first_side,
    gate_lines, prevote_request, report_numbers, run_outcome, second_side, verdict_line,
    Finalizing, RunCounts, FINAL_ROUND, LATE_ROUND, SPLIT_ROUND,
};
use calibre::config::MAX_BENCH_COUNT;
use calibre::controller::{
    build_fixture, fixture_finality_chain, make_main_transfer, sign_fixture_votes, LabFixture,
};
use calibre::model::{
    conflict_key, intent_hash, qc_digest, ApplyOutcome, Proposal, Qc, Vote, PHASE_PRECOMMIT,
    PHASE_PREVOTE,
};
use calibre::phase_a::{check_evidence, PhaseARunOutcome, ReplyFault, SizeMaxima, Tally};
use calibre::wire::{Request, Response};

/// The vote of an honest validator on what it is asked.
fn vote_of(fixture: &LabFixture, index: usize, request: &Request) -> Vote {
    let sign = |proposal: &Proposal, phase: u8, justify: [u8; 32]| {
        sign_fixture_votes(
            &fixture.manifest,
            phase,
            proposal.round,
            conflict_key(proposal.tx.input.reference),
            intent_hash(&proposal.tx).unwrap(),
            justify,
            &vec![index],
        )
        .unwrap()[0]
    };
    match request {
        Request::Prevote(proposal) => sign(proposal, PHASE_PREVOTE, [0; 32]),
        Request::Precommit { proposal, prevote_qc } => {
            sign(proposal, PHASE_PRECOMMIT, qc_digest(prevote_qc, &fixture.manifest).unwrap())
        }
        _ => panic!("no vote was asked for"),
    }
}

fn signers(qc: &Qc) -> Vec<u8> {
    qc.votes.iter().map(|vote| vote.signer_index).collect()
}

#[test]
fn ten_answers_finalize_a_transfer_that_is_then_applied() {
    let fixture = build_fixture(1).unwrap();
    let (tx, auth) = make_main_transfer(&fixture, fixture.bob, 1).unwrap();
    let mut finalizing =
        Finalizing::start(&fixture.manifest, FINAL_ROUND, tx.clone(), auth).unwrap();
    let mut asked = Vec::new();
    let finalized = loop {
        let (index, request) = finalizing.next();
        asked.push((index, matches!(request, Request::Precommit { .. })));
        let reply = Response::Vote(vote_of(&fixture, index, &request));
        if let Some(finalized) = finalizing.take(&fixture.manifest, reply).unwrap() {
            break finalized;
        }
    };
    let expected: Vec<(usize, bool)> =
        [false, true].iter().flat_map(|&late| (2..7).map(move |index| (index, late))).collect();
    assert_eq!(asked, expected);
    assert_eq!(signers(&finalized.prevote_qc), [2, 3, 4, 5, 6]);
    assert_eq!(signers(&finalized.qc), [2, 3, 4, 5, 6]);
    assert_eq!(check_finality_votes(&finalized), Ok(()));
    let (prevote_qc, qc) =
        fixture_finality_chain(&fixture.manifest, &tx, FINAL_ROUND, &vec![2, 3, 4, 5, 6]).unwrap();
    assert!(finalized.prevote_qc == prevote_qc && finalized.qc == qc);
    let mut state = fixture.genesis.clone();
    match apply_request(&finalized) {
        Request::Apply { tx, auth, prevote_qc, finality_qc } => {
            let outcome = state
                .apply_finalized(&tx, &auth, &prevote_qc, &finality_qc, &fixture.manifest)
                .unwrap();
            assert!(matches!(outcome, ApplyOutcome::Applied(_)));
        }
        _ => panic!("no transfer is delivered"),
    }
}

#[test]
fn a_missing_prevote_leaves_no_quorum() {
    let fixture = build_fixture(1).unwrap();
    let (tx, auth) = make_main_transfer(&fixture, fixture.bob, 1).unwrap();
    let mut finalizing = Finalizing::start(&fixture.manifest, FINAL_ROUND, tx, auth).unwrap();
    assert!(finalizing.take(&fixture.manifest, Response::Rejected { code: 1 }).unwrap().is_none());
    for _ in 0..3 {
        let (index, request) = finalizing.next();
        let reply = Response::Vote(vote_of(&fixture, index, &request));
        assert!(finalizing.take(&fixture.manifest, reply).unwrap().is_none());
    }
    let (index, request) = finalizing.next();
    assert_eq!(index, 6);
    let reply = Response::Vote(vote_of(&fixture, index, &request));
    match finalizing.take(&fixture.manifest, reply) {
        Err(ReplyFault::Refused(reason)) => assert_eq!(reason, "QC does not contain 5..=7 votes"),
        _ => panic!("four votes were certified"),
    }
}

#[test]
fn a_vote_of_another_signer_is_not_taken() {
    let fixture = build_fixture(1).unwrap();
    let (tx, auth) = make_main_transfer(&fixture, fixture.bob, 1).unwrap();
    let mut finalizing = Finalizing::start(&fixture.manifest, FINAL_ROUND, tx, auth).unwrap();
    let (index, request) = finalizing.next();
    assert_eq!(index, 2);
    let reply = Response::Vote(vote_of(&fixture, 4, &request));
    match finalizing.take(&fixture.manifest, reply) {
        Err(ReplyFault::Refused(reason)) => {
            assert_eq!(reason, "validator 2 returned vote for signer 4")
        }
        _ => panic!("a foreign vote was taken"),
    }
    assert_eq!(finalizing.next().0, 2);
    assert!(finalizing.votes.is_empty());
}

#[test]
fn the_plan_asks_each_honest_validator_for_one_side() {
    assert_eq!(first_side(), [2, 3, 4]);
    assert_eq!(second_side(), [5, 6]);
    assert_eq!(alternate_signers(), [0, 1, 2, 3, 4]);
    assert_eq!((SPLIT_ROUND, FINAL_ROUND, LATE_ROUND), (1, 2, 3));
    assert_eq!(bench_round(7), 107);
    let fixture = build_fixture(1).unwrap();
    let (tx, auth) = make_main_transfer(&fixture, fixture.bob, 1).unwrap();
    match prevote_request(&fixture.manifest, LATE_ROUND, &tx, auth).unwrap() {
        Request::Prevote(proposal) => {
            assert_eq!(proposal.round, 3);
            assert!(proposal.tx == tx);
        }
        _ => panic!("no prevote is asked for"),
    }
}

#[test]
fn checks_of_the_plan_name_what_is_wrong() {
    assert_eq!(check_live_topology(7, 2), Ok(()));
    let topology = "live topology did not create exactly seven nodes with two Byzantine fixtures";
    assert_eq!(check_live_topology(6, 2).unwrap_err(), topology);
    assert_eq!(check_live_topology(7, 1).unwrap_err(), topology);
    assert_eq!(check_main_apply(false, false), Ok(()));
    assert_eq!(check_main_apply(true, true), Ok(()));
    assert_eq!(
        check_main_apply(true, false).unwrap_err(),
        "duplicate live Bob apply advanced state twice"
    );
    assert_eq!(
        check_main_apply(false, true).unwrap_err(),
        "first live Bob apply was marked duplicate"
    );
    assert_eq!(check_bench_apply(3, 41, false), Ok(()));
    assert_eq!(
        check_bench_apply(3, 41, true).unwrap_err(),
        "validator 3 treated first benchmark apply 41 as duplicate"
    );
    assert_eq!(check_bench_completed(4, 4), Ok(()));
    assert_eq!(
        check_bench_completed(3, 4).unwrap_err(),
        "not all independent transfers finalized"
    );
}

fn outcome(fixture: &LabFixture, bench_completed: usize) -> PhaseARunOutcome {
    let counts = RunCounts {
        invalid_owner_votes: 6,
        invalid_owner_rejections: 15,
        mutation_count: 12,
        qc_negative_count: 9,
        model_cases: 512,
        split_bob_votes: 3,
        split_charlie_votes: 2,
        finality_votes: 5,
        conflicting_precommit_rejections: 2,
        bench_completed,
    };
    let mut after_lock = Tally::new();
    after_lock.rejections = 5;
    let maxima = SizeMaxima { snapshot_bytes: 70, wal_bytes: 90 };
    run_outcome(fixture, &fixture.genesis, counts, &after_lock, &maxima).unwrap()
}

#[test]
fn an_outcome_reports_its_states() {
    let fixture = build_fixture(4).unwrap();
    let observed = outcome(&fixture, 4);
    assert_eq!(observed.final_root, fixture.genesis.root());
    assert_eq!(observed.genesis_root, fixture.genesis.root());
    assert_eq!(observed.genesis_total, fixture.genesis.total_value().unwrap());
    assert_eq!(observed.final_total, observed.genesis_total);
    assert_eq!(observed.loser_live_outputs, 0);
    assert_eq!((observed.model_cases, observed.finality_votes), (512, 5));
    assert_eq!((observed.max_snapshot_bytes, observed.max_wal_bytes), (70, 90));
    assert_eq!(observed.post_restart_lock_rejections, 5);
}

#[test]
fn a_report_names_its_whole_numbers() {
    let fixture = build_fixture(4).unwrap();
    let mut first = outcome(&fixture, 4);
    first.max_wal_bytes = 120;
    let second = outcome(&fixture, 4);
    let counts = check_evidence(&first, &second, 4, 10).unwrap();
    let numbers = report_numbers(&first, &second, &counts, 4, 10);
    assert_eq!(numbers.len(), 46);
    let value = |name: &str| numbers.iter().find(|(known, _)| known == name).unwrap().1;
    assert_eq!(value("live_transaction_finality_proof_chains_per_run"), 5);
    assert_eq!(value("live_transaction_finality_proof_chains_total"), 10);
    assert_eq!(value("live_transaction_qc_shares_per_phase_per_run"), 25);
    assert_eq!(value("phase_a_gate_count"), 16);
    assert_eq!(value("phase_a_passed_gate_count"), 15);
    assert_eq!(value("max_snapshot_bytes"), 70);
    assert_eq!(value("max_wal_bytes"), 120);
    assert_eq!(value("validator_processes_per_run"), 7);
}

#[test]
fn gates_are_printed_in_order() {
    let lines = gate_lines(4);
    assert_eq!(lines.len(), 16);
    assert_eq!(lines[0], "B01=PASS");
    assert_eq!(lines[7], "B08=PASS — SAFETY PASS / EQUIVOCATION LIVENESS NOT GUARANTEED");
    assert_eq!(lines[10], "B11=NOT_RUN_AT_AUDIT_COUNT — REQUESTED_PER_RUN=4");
    assert_eq!(audit_count_status(MAX_BENCH_COUNT), "PASS");
    assert_eq!(verdict_line(MAX_BENCH_COUNT), "CALIBRE INTEGRATION-001 PHASE A: PASS");
    assert_eq!(
        verdict_line(4),
        format!("CALIBRE INTEGRATION-001 PHASE A: INCONCLUSIVE — B11 AUDIT COUNT {MAX_BENCH_COUNT} NOT RUN")
    );
}
