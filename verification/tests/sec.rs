use calibre::crypto::SigningKey;
use std::collections::HashMap;
use calibre::spend::{alice_cells, spend_to, Cell, SpendTx};
use calibre::{sec001, sec002};
use calibre::threshold::certificate_from;

type Keys = (SigningKey, SigningKey, SigningKey, SigningKey, SigningKey, HashMap<u64, Cell>, SpendTx);

fn fixture() -> Keys {
    let alice_sk = sec001::deterministic_key(1);
    let bob_sk = sec001::deterministic_key(2);
    let mallory_sk = sec001::deterministic_key(3);
    let certifier_sk = sec001::deterministic_key(100);
    let rogue_certifier_sk = sec001::deterministic_key(101);
    let alice = alice_sk.verifying_key().to_bytes();
    let bob = bob_sk.verifying_key().to_bytes();
    let cells = alice_cells(alice);
    let tx = sec001::base_tx(bob);
    (alice_sk, bob_sk, mallory_sk, certifier_sk, rogue_certifier_sk, cells, tx)
}

#[test]
fn valid_owner_authorization_and_certificate_commit() {
    let (alice_sk, bob_sk, _, certifier_sk, _, cells, tx) = fixture();
    let auth = sec001::sign_user_spend(&tx, &alice_sk);
    let verified = sec001::verify_user_authorization(&tx, &auth, &cells).unwrap();
    let cert = sec001::issue_certificate(verified, &certifier_sk);
    let mut core = sec001::CoreState::new(cells, certifier_sk.verifying_key().to_bytes());
    let output = core.apply_certified_spend(&tx, &cert).unwrap();
    assert_eq!(output.owner, bob_sk.verifying_key().to_bytes());
    assert_eq!(output.value, 800);
}

#[test]
fn wrong_owner_key_is_rejected() {
    let (_, _, mallory_sk, _, _, cells, tx) = fixture();
    let auth = sec001::sign_user_spend(&tx, &mallory_sk);
    assert!(sec001::verify_user_authorization(&tx, &auth, &cells).is_err());
}

#[test]
fn signed_recipient_and_amount_tamper_are_rejected() {
    let (alice_sk, _, mallory_sk, _, _, cells, tx) = fixture();
    let auth = sec001::sign_user_spend(&tx, &alice_sk);

    let mut recipient_tamper = tx.clone();
    recipient_tamper.recipient = mallory_sk.verifying_key().to_bytes();
    assert!(sec001::verify_user_authorization(&recipient_tamper, &auth, &cells).is_err());

    let mut amount_tamper = tx.clone();
    amount_tamper.output_value -= 1;
    assert!(sec001::verify_user_authorization(&amount_tamper, &auth, &cells).is_err());
}

#[test]
fn certificate_replay_on_modified_transaction_is_rejected() {
    let (alice_sk, _, mallory_sk, certifier_sk, _, cells, tx) = fixture();
    let auth = sec001::sign_user_spend(&tx, &alice_sk);
    let cert = sec001::issue_certificate(
        sec001::verify_user_authorization(&tx, &auth, &cells).unwrap(),
        &certifier_sk,
    );
    let mut modified = tx.clone();
    modified.recipient = mallory_sk.verifying_key().to_bytes();
    let mut core = sec001::CoreState::new(cells, certifier_sk.verifying_key().to_bytes());
    assert!(core.apply_certified_spend(&modified, &cert).is_err());
}

#[test]
fn untrusted_certifier_is_rejected() {
    let (alice_sk, _, _, certifier_sk, rogue_certifier_sk, cells, tx) = fixture();
    let auth = sec001::sign_user_spend(&tx, &alice_sk);
    let verified = sec001::verify_user_authorization(&tx, &auth, &cells).unwrap();
    let rogue_cert = sec001::issue_certificate(verified, &rogue_certifier_sk);
    let mut core = sec001::CoreState::new(cells, certifier_sk.verifying_key().to_bytes());
    assert!(core.apply_certified_spend(&tx, &rogue_cert).is_err());
}

#[test]
fn local_double_spend_replay_is_rejected_after_commit() {
    let (alice_sk, _, _, certifier_sk, _, cells, tx) = fixture();
    let auth = sec001::sign_user_spend(&tx, &alice_sk);
    let cert = sec001::issue_certificate(
        sec001::verify_user_authorization(&tx, &auth, &cells).unwrap(),
        &certifier_sk,
    );
    let mut core = sec001::CoreState::new(cells, certifier_sk.verifying_key().to_bytes());
    assert!(core.apply_certified_spend(&tx, &cert).is_ok());
    assert!(core.apply_certified_spend(&tx, &cert).is_err());
}

#[test]
fn trusted_single_certifier_can_forge_expected_limitation() {
    let (_, _, mallory_sk, certifier_sk, _, cells, _) = fixture();
    let mallory = mallory_sk.verifying_key().to_bytes();
    let forged_tx = sec001::base_tx(mallory);
    let forged_cert =
        sec001::issue_raw_certificate_without_user_check(&forged_tx, mallory, &certifier_sk);
    let mut core = sec001::CoreState::new(cells, certifier_sk.verifying_key().to_bytes());
    let output = core
        .apply_certified_spend(&forged_tx, &forged_cert)
        .expect("a single trusted certifier is believed");
    assert_eq!(output.owner, mallory);
}

fn threshold_fixture() -> (SigningKey, SigningKey, SigningKey, HashMap<u64, Cell>) {
    let alice_sk = sec002::deterministic_key(1);
    let bob_sk = sec002::deterministic_key(2);
    let mallory_sk = sec002::deterministic_key(3);
    let cells = alice_cells(alice_sk.verifying_key().to_bytes());
    (alice_sk, bob_sk, mallory_sk, cells)
}

#[test]
fn valid_five_of_seven_owner_spend_commits() {
    let (alice_sk, bob_sk, _, cells) = threshold_fixture();
    let tx = spend_to(bob_sk.verifying_key().to_bytes(), 1, 9000);
    let auth = sec002::sign_user_spend(&tx, &alice_sk);
    let mut nodes = sec002::committee_with_f_byzantine(0);
    let committee = sec002::committee_keys(&nodes);
    let shares =
        sec002::collect_valid_shares(&mut nodes, &vec![0, 1, 2, 3, 4], &tx, &auth, &cells);
    let cert = certificate_from(shares);
    let mut core = sec002::new_core(cells, committee, sec002::Q);
    assert!(core.apply_certified_spend(&tx, &cert).is_ok());
}

#[test]
fn two_byzantine_cannot_forge_unauthorized_owner() {
    let (_, _, mallory_sk, cells) = threshold_fixture();
    let mallory = mallory_sk.verifying_key().to_bytes();
    let tx = spend_to(mallory, 2, 9001);
    let nodes = sec002::committee_with_f_byzantine(2);
    let cert = certificate_from(vec![
        nodes[0].sign_raw_claim(&tx, mallory).unwrap(),
        nodes[1].sign_raw_claim(&tx, mallory).unwrap(),
    ]);
    let core = sec002::new_core(cells, sec002::committee_keys(&nodes), sec002::Q);
    assert!(core.verify_threshold_certificate(&tx, &cert).is_err());
}

#[test]
fn duplicate_share_cannot_inflate_threshold() {
    let (alice_sk, bob_sk, _, cells) = threshold_fixture();
    let tx = spend_to(bob_sk.verifying_key().to_bytes(), 3, 9002);
    let auth = sec002::sign_user_spend(&tx, &alice_sk);
    let mut nodes = sec002::committee_with_f_byzantine(0);
    let one = nodes[0].authorize_and_sign(&tx, &auth, &cells).unwrap();
    let cert = certificate_from(vec![one, one, one, one, one]);
    let core = sec002::new_core(cells, sec002::committee_keys(&nodes), sec002::Q);
    assert!(core.verify_threshold_certificate(&tx, &cert).is_err());
}

#[test]
fn exact_transaction_tamper_is_rejected() {
    let (alice_sk, bob_sk, mallory_sk, cells) = threshold_fixture();
    let tx = spend_to(bob_sk.verifying_key().to_bytes(), 4, 9003);
    let auth = sec002::sign_user_spend(&tx, &alice_sk);
    let mut nodes = sec002::committee_with_f_byzantine(0);
    let shares =
        sec002::collect_valid_shares(&mut nodes, &vec![0, 1, 2, 3, 4], &tx, &auth, &cells);
    let cert = certificate_from(shares);
    let mut modified = tx.clone();
    modified.recipient = mallory_sk.verifying_key().to_bytes();
    let core = sec002::new_core(cells, sec002::committee_keys(&nodes), sec002::Q);
    assert!(core.verify_threshold_certificate(&modified, &cert).is_err());
}

#[test]
fn f2_cannot_form_two_conflicting_quorums() {
    assert!(!sec002::dual_quorum_exists_by_partition(sec002::N, sec002::Q, 2));
}

#[test]
fn f3_can_form_two_conflicting_quorums() {
    assert!(sec002::dual_quorum_exists_by_partition(sec002::N, sec002::Q, 3));
}

#[test]
fn f3_real_dual_certificates_commit_on_partitioned_replicas() {
    let (alice_sk, bob_sk, mallory_sk, cells) = threshold_fixture();
    let tx_a = spend_to(bob_sk.verifying_key().to_bytes(), 5, 9100);
    let tx_b = spend_to(mallory_sk.verifying_key().to_bytes(), 6, 9101);
    let auth_a = sec002::sign_user_spend(&tx_a, &alice_sk);
    let auth_b = sec002::sign_user_spend(&tx_b, &alice_sk);
    let mut nodes = sec002::committee_with_f_byzantine(3);
    let committee = sec002::committee_keys(&nodes);
    let a = sec002::collect_valid_shares(&mut nodes, &vec![0, 1, 2, 3, 4], &tx_a, &auth_a, &cells);
    let b = sec002::collect_valid_shares(&mut nodes, &vec![0, 1, 2, 5, 6], &tx_b, &auth_b, &cells);
    assert_eq!(a.len(), sec002::Q);
    assert_eq!(b.len(), sec002::Q);
    let mut core_a = sec002::new_core(cells.clone(), committee.clone(), sec002::Q);
    let mut core_b = sec002::new_core(cells, committee, sec002::Q);
    assert!(core_a.apply_certified_spend(&tx_a, &certificate_from(a)).is_ok());
    assert!(core_b.apply_certified_spend(&tx_b, &certificate_from(b)).is_ok());
}

#[test]
fn an_honest_certifier_locks_what_it_signs() {
    let (alice_sk, bob_sk, mallory_sk, cells) = threshold_fixture();
    let tx_a = spend_to(bob_sk.verifying_key().to_bytes(), 5, 9100);
    let tx_b = spend_to(mallory_sk.verifying_key().to_bytes(), 6, 9101);
    let mut nodes = sec002::committee_with_f_byzantine(1);
    for (index, second) in [(0, true), (1, false)] {
        let auth_a = sec002::sign_user_spend(&tx_a, &alice_sk);
        let auth_b = sec002::sign_user_spend(&tx_b, &alice_sk);
        assert!(nodes[index].authorize_and_sign(&tx_a, &auth_a, &cells).is_ok());
        let again = nodes[index].authorize_and_sign(&tx_b, &auth_b, &cells);
        assert_eq!(again.is_ok(), second);
    }
    assert!(nodes[1].sign_raw_claim(&tx_b, [9; 32]).is_err());
}

#[test]
fn every_malformed_spend_is_refused() {
    let (alice_sk, _, _, _, _, cells, tx) = fixture();
    let mut foreign = tx.clone();
    foreign.network_id += 1;
    let mut none = tx.clone();
    none.inputs.clear();
    let mut many = tx.clone();
    many.inputs.push(many.inputs[0]);
    let mut twice = tx.clone();
    twice.inputs[1] = twice.inputs[0];
    let mut stale = tx.clone();
    stale.inputs[0].generation += 1;
    let mut missing = tx.clone();
    missing.inputs[0].id = 77;
    for bad in [foreign, none, many, twice, stale, missing] {
        let auth = sec001::sign_user_spend(&bad, &alice_sk);
        assert!(sec001::verify_user_authorization(&bad, &auth, &cells).is_err());
    }
}
