use calibre::controller::{
    build_fixture, fixture_finality_chain, make_main_transfer, sign_fixture_votes,
};
use calibre::model::{
    committee_hash, conflict_key, intent_hash, lab_user_key, make_genesis_cell, make_proposal,
    Qc, State, OLD_EPOCH, PHASE_PREVOTE,
};
use calibre::node::{
    adversarial_qc_digest, genesis_activation_digest, validate_pure_genesis, validate_state_shape,
    NodeConfig, NodeServer, REJECT_BAD_FRAME, REJECT_BAD_REQUEST, REJECT_DURABLE_LOCK,
    REJECT_INVALID_PREVOTE_QC, REJECT_LOCAL_PREVOTE_MISSING, REJECT_QUERY,
};
use calibre::wire::{encode_request, encode_state, Request, Response};

fn strings(values: &[&str]) -> Vec<String> {
    values.iter().map(|value| (*value).to_owned()).collect()
}

#[test]
fn child_arguments_are_exact_and_bounded() {
    let config = NodeConfig::parse(&strings(&[
        "100",
        "6",
        "4242",
        "node.wal",
        "initial.state",
        "1",
    ]))
    .unwrap();
    assert_eq!(config.epoch, 100);
    assert_eq!(config.index, 6);
    assert_eq!(config.port, 4242);
    assert!(config.byzantine);

    for bad in [
        strings(&[]),
        strings(&["0", "0", "1", "w", "s", "0"]),
        strings(&["1", "7", "1", "w", "s", "0"]),
        strings(&["1", "0", "0", "w", "s", "0"]),
        strings(&["1", "0", "1", "w", "w", "0"]),
        strings(&["1", "0", "1", "w", "s", "true"]),
        strings(&["1", "0", "1", "w", "s", "0", "extra"]),
    ] {
        assert!(NodeConfig::parse(&bad).is_err(), "accepted {bad:?}");
    }
}

#[test]
fn paths_are_compared_by_their_components() {
    let parse = |wal: &str, state: &str| {
        NodeConfig::parse(&strings(&["1", "0", "1", wal, state, "0"]))
    };
    let config = parse("run/7/node.wal", "run/7/initial.state").unwrap();
    assert_eq!(config.wal_path, "run/7/node.wal");
    assert_eq!(config.snapshot_path, "run/7/initial.state");
    assert!(!config.byzantine);
    assert!(parse("run/a", "other/b").is_ok());
    assert!(parse("node.wal", "Node.wal").is_ok());
    assert!(parse("/x/a/f", "/x/b/f").is_ok());
    assert!(parse("a/f", "/a/f").is_ok());
    assert!(parse("./f", "f").is_ok());
    assert!(parse("a/../f", "f").is_ok());
    let distinct = "WAL and initial-state paths must be distinct";
    assert_eq!(parse("node.wal", "node.wal").unwrap_err(), distinct);
    assert_eq!(parse("run/node.wal", "run//node.wal").unwrap_err(), distinct);
    assert_eq!(parse("run/node.wal", "run/./node.wal").unwrap_err(), distinct);
    assert_eq!(parse("/x/a/f", "/x/./a//f/").unwrap_err(), distinct);
    assert_eq!(parse("run/7", "run/7/.").unwrap_err(), distinct);
    assert_eq!(
        parse("", "initial.state").unwrap_err(),
        "WAL and initial-state paths must be nonempty"
    );
}

#[test]
fn malformed_state_shape_is_rejected() {
    let owner = lab_user_key(1).verifying_key().to_bytes();
    let cell = make_genesis_cell(1, 100, owner);
    let mut state = State::from_cells(vec![cell.clone()]).unwrap();
    state.known_ids.clear();
    assert!(validate_state_shape(&state).is_err());

    let mut state = State::from_cells(vec![cell]).unwrap();
    let key = state.live.key_at(0);
    let mut changed = *state.live.get(&key).unwrap();
    changed.amount += 1;
    state.live.insert(key, changed);
    assert!(validate_state_shape(&state).is_err());
}

#[test]
fn the_shape_of_a_state_binds_its_parts() {
    let owner = lab_user_key(1).verifying_key().to_bytes();
    let whole = State::from_cells(vec![make_genesis_cell(1, 100, owner)]).unwrap();
    assert!(validate_state_shape(&whole).is_ok());

    let mut more = State::from_cells(vec![make_genesis_cell(1, 100, owner)]).unwrap();
    more.known_ids.insert([9; 32]);
    assert_eq!(
        validate_state_shape(&more).unwrap_err(),
        "known-id set does not exactly match live and spent state"
    );

    let mut spent = State::from_cells(vec![make_genesis_cell(1, 100, owner)]).unwrap();
    let gone = make_genesis_cell(2, 100, owner).reference;
    spent.known_ids.insert(gone.id);
    spent.spent_by.insert(gone, [7; 32]);
    assert_eq!(
        validate_state_shape(&spent).unwrap_err(),
        "spent-by intent has no applied receipt"
    );
}

#[test]
fn activation_digest_binds_epoch_committee_and_state() {
    let base = genesis_activation_digest([1; 32], 7, [2; 32]);
    assert_ne!(base, genesis_activation_digest([3; 32], 7, [2; 32]));
    assert_ne!(base, genesis_activation_digest([1; 32], 8, [2; 32]));
    assert_ne!(base, genesis_activation_digest([1; 32], 7, [4; 32]));
}

#[test]
fn paths_are_told_apart_by_their_components() {
    let spelled = strings(&["1", "0", "1", "a/./b", "a/b", "0"]);
    assert!(NodeConfig::parse(&spelled).is_err());
    assert!(NodeConfig::parse_with(&spelled, false).is_ok());
    assert!(NodeConfig::parse(&strings(&["1", "0", "1", "a/c", "a/b", "0"])).is_ok());
}

fn open_node(index: u8, byzantine: bool) -> (NodeServer, calibre::controller::LabFixture) {
    let fixture = build_fixture(1).unwrap();
    let config = NodeConfig {
        epoch: OLD_EPOCH,
        index,
        port: 1,
        wal_path: "node.wal".to_owned(),
        snapshot_path: "initial.state".to_owned(),
        byzantine,
    };
    let bytes = encode_state(&fixture.genesis).unwrap();
    (NodeServer::open(&config, bytes, Vec::new()).unwrap(), fixture)
}

#[test]
fn a_node_answers_a_ping_with_its_place() {
    let (mut node, fixture) = open_node(3, false);
    let hash = committee_hash(&fixture.manifest).unwrap();
    assert_eq!(
        node.handle(&Request::Ping).unwrap(),
        Response::Pong { index: 3, epoch: OLD_EPOCH, committee_hash: hash }
    );
    validate_pure_genesis(&fixture.genesis).unwrap();
}

#[test]
fn a_node_votes_once_in_a_round() {
    let (mut node, fixture) = open_node(0, false);
    let (bob, bob_auth) = make_main_transfer(&fixture, fixture.bob, 1).unwrap();
    let (charlie, charlie_auth) = make_main_transfer(&fixture, fixture.charlie, 2).unwrap();
    let for_bob = make_proposal(&fixture.manifest, 0, bob, bob_auth, None).unwrap();
    let for_charlie = make_proposal(&fixture.manifest, 0, charlie, charlie_auth, None).unwrap();

    let request = Request::Prevote(for_bob.clone());
    let record = node.record_for(&request).unwrap();
    let before = node.log().clone();
    let first = node.handle(&request).unwrap();
    let mut expected = before;
    expected.extend_from_slice(&record);
    assert_eq!(node.log(), &expected);
    match first {
        Response::Vote(vote) => assert_eq!(vote.intent, for_bob.intent),
        other => panic!("unexpected {other:?}"),
    }
    assert_eq!(node.handle(&request).unwrap(), first);
    assert!(node.record_for(&request).is_none());
    assert_eq!(
        node.handle(&Request::Prevote(for_charlie)).unwrap_err().code,
        REJECT_DURABLE_LOCK
    );
}

#[test]
fn a_byzantine_node_votes_for_both() {
    let (mut node, fixture) = open_node(6, true);
    for (recipient, label) in [(fixture.bob, 1), (fixture.charlie, 2)] {
        let (tx, auth) = make_main_transfer(&fixture, recipient, label).unwrap();
        let proposal = make_proposal(&fixture.manifest, 0, tx, auth, None).unwrap();
        assert!(matches!(
            node.handle(&Request::Prevote(proposal)).unwrap(),
            Response::Vote(_)
        ));
    }
}

#[test]
fn a_precommit_needs_a_prevote_and_a_certificate() {
    let (mut node, fixture) = open_node(0, false);
    let (tx, auth) = make_main_transfer(&fixture, fixture.bob, 1).unwrap();
    let proposal = make_proposal(&fixture.manifest, 0, tx.clone(), auth, None).unwrap();
    let (prevote_qc, _) =
        fixture_finality_chain(&fixture.manifest, &tx, 0, &vec![0, 1, 2, 3, 4]).unwrap();

    let early = Request::Precommit { proposal: proposal.clone(), prevote_qc: prevote_qc.clone() };
    assert_eq!(node.handle(&early).unwrap_err().code, REJECT_LOCAL_PREVOTE_MISSING);
    let empty = Request::Precommit { proposal: proposal.clone(), prevote_qc: Qc { votes: vec![] } };
    assert_eq!(node.handle(&empty).unwrap_err().code, REJECT_INVALID_PREVOTE_QC);
    node.handle(&Request::Prevote(proposal)).unwrap();
    assert!(matches!(node.handle(&early).unwrap(), Response::Vote(_)));
}

#[test]
fn a_node_applies_once_and_restarts_where_it_was() {
    let (mut node, fixture) = open_node(2, false);
    let (tx, auth) = make_main_transfer(&fixture, fixture.bob, 1).unwrap();
    let (prevote_qc, finality_qc) =
        fixture_finality_chain(&fixture.manifest, &tx, 0, &vec![0, 1, 2, 3, 4]).unwrap();
    let request = Request::Apply { tx, auth, prevote_qc, finality_qc };
    let first = node.handle(&request).unwrap();
    let root = match first {
        Response::Applied { state_root, idempotent } => {
            assert!(!idempotent);
            state_root
        }
        other => panic!("unexpected {other:?}"),
    };
    assert_eq!(
        node.handle(&request).unwrap(),
        Response::Applied { state_root: root, idempotent: true }
    );

    let config = NodeConfig {
        epoch: OLD_EPOCH,
        index: 2,
        port: 1,
        wal_path: "node.wal".to_owned(),
        snapshot_path: "initial.state".to_owned(),
        byzantine: false,
    };
    let bytes = encode_state(&fixture.genesis).unwrap();
    let mut reopened = NodeServer::open(&config, bytes, node.log().clone()).unwrap();
    match reopened.handle(&Request::QueryState).unwrap() {
        Response::State { state_root, wal_bytes, .. } => {
            assert_eq!(state_root, root);
            assert_eq!(wal_bytes, node.log().len() as u64);
        }
        other => panic!("unexpected {other:?}"),
    }
}

#[test]
fn a_node_that_could_not_write_reports_the_length_of_its_file() {
    let (mut node, fixture) = open_node(2, false);
    let held = node.log().len() as u64;
    node.append_failed(Ok(held + 5));
    match node.handle(&Request::QueryState).unwrap() {
        Response::State { wal_bytes, .. } => assert_eq!(wal_bytes, held + 5),
        other => panic!("unexpected {other:?}"),
    }
    let (tx, auth) = make_main_transfer(&fixture, fixture.bob, 1).unwrap();
    let proposal = make_proposal(&fixture.manifest, 0, tx, auth, None).unwrap();
    let vote = Request::Prevote(proposal);
    assert!(node.record_for(&vote).is_none());
    assert_eq!(node.handle(&vote).unwrap_err().code, REJECT_DURABLE_LOCK);

    node.append_failed(Err("read WAL metadata: gone".to_owned()));
    assert_eq!(node.handle(&Request::QueryState).unwrap_err().code, REJECT_QUERY);
}

#[test]
fn what_cannot_be_read_is_answered_with_a_rejection() {
    let (mut node, _fixture) = open_node(1, false);
    assert_eq!(node.answer(None), Response::Rejected { code: REJECT_BAD_FRAME });
    assert_eq!(
        node.answer(Some(&vec![0xff])),
        Response::Rejected { code: REJECT_BAD_REQUEST }
    );
    let ping = encode_request(&Request::Ping).unwrap();
    assert!(matches!(node.answer(Some(&ping)), Response::Pong { index: 1, .. }));
}

#[test]
fn a_made_up_certificate_has_a_digest_of_its_own() {
    let fixture = build_fixture(1).unwrap();
    let (tx, _) = make_main_transfer(&fixture, fixture.bob, 1).unwrap();
    let votes = sign_fixture_votes(
        &fixture.manifest,
        PHASE_PREVOTE,
        0,
        conflict_key(tx.input.reference),
        intent_hash(&tx).unwrap(),
        [0; 32],
        &vec![0, 1],
    )
    .unwrap();
    let one = adversarial_qc_digest(&Qc { votes: votes[..1].to_vec() });
    let two = adversarial_qc_digest(&Qc { votes });
    assert_ne!(one.unwrap(), two.unwrap());
}
