use calibre::crypto::SigningKey;
use std::collections::HashMap;
use calibre::sec003::{
    collect_valid_shares, committee_keys, decode_lock_record, deterministic_key,
    encode_lock_record, new_core, open_committee, sign_user_spend, tx_commitment, CertifierNode,
    DurableLockStore, LockKey, CERT_EPOCH, LOCK_RECORD_SIZE, N, Q,
};
use calibre::sec004;
use calibre::spend::{alice_cells, spend_to, Cell, InputRef, MAX_INPUTS};
use calibre::threshold::certificate_from;

fn fixture() -> (SigningKey, SigningKey, SigningKey, HashMap<u64, Cell>) {
    let alice_sk = deterministic_key(1);
    let bob_sk = deterministic_key(2);
    let mallory_sk = deterministic_key(3);
    let cells = alice_cells(alice_sk.verifying_key().to_bytes());
    (alice_sk, bob_sk, mallory_sk, cells)
}

fn logs_of(nodes: &[CertifierNode]) -> Vec<Vec<u8>> {
    nodes.iter().map(|node| node.store.log()).collect()
}

#[test]
fn durable_lock_survives_drop_and_reopen() {
    let (alice_sk, bob_sk, mallory_sk, cells) = fixture();
    let a = spend_to(bob_sk.verifying_key().to_bytes(), 1, 9000);
    let b = spend_to(mallory_sk.verifying_key().to_bytes(), 2, 9001);
    let auth_a = sign_user_spend(&a, &alice_sk);
    let auth_b = sign_user_spend(&b, &alice_sk);
    let log = {
        let mut node = CertifierNode::open(2, false, Vec::new()).unwrap();
        assert!(node.authorize_and_sign(&a, &auth_a, &cells).is_ok());
        node.store.log()
    };
    {
        let mut node = CertifierNode::open(2, false, log).unwrap();
        assert!(node.authorize_and_sign(&b, &auth_b, &cells).is_err());
    }
}

#[test]
fn f2_second_quorum_stays_impossible_after_three_honest_restarts() {
    let (alice_sk, bob_sk, mallory_sk, cells) = fixture();
    let a = spend_to(bob_sk.verifying_key().to_bytes(), 3, 9100);
    let b = spend_to(mallory_sk.verifying_key().to_bytes(), 4, 9101);
    let auth_a = sign_user_spend(&a, &alice_sk);
    let auth_b = sign_user_spend(&b, &alice_sk);
    let mut nodes = open_committee(&vec![Vec::new(); N], 2).unwrap();
    let a_shares = collect_valid_shares(&mut nodes, &vec![0, 1, 2, 3, 4], &a, &auth_a, &cells);
    assert_eq!(a_shares.len(), Q);
    let logs = logs_of(&nodes);
    drop(nodes);
    let mut nodes = open_committee(&logs, 2).unwrap();
    let b_shares =
        collect_valid_shares(&mut nodes, &vec![0, 1, 5, 6, 2, 3, 4], &b, &auth_b, &cells);
    assert_eq!(b_shares.len(), 4);
}

#[test]
fn lock_file_is_synced_before_share_is_returned() {
    let (alice_sk, bob_sk, _, cells) = fixture();
    let a = spend_to(bob_sk.verifying_key().to_bytes(), 5, 9200);
    let auth = sign_user_spend(&a, &alice_sk);
    let mut node = CertifierNode::open(2, false, Vec::new()).unwrap();
    let records = node.records_before_signing(&a, &auth, &cells).unwrap();
    let share = node.authorize_and_sign(&a, &auth, &cells).unwrap();
    assert_eq!(share.tx_digest, tx_commitment(&a, &auth.signer));
    let bytes = node.store.log();
    assert_eq!(bytes, records);
    assert_eq!(bytes.len(), MAX_INPUTS * LOCK_RECORD_SIZE);
}

#[test]
fn torn_partial_tail_is_truncated_without_forgetting_prior_lock() {
    let (alice_sk, bob_sk, mallory_sk, cells) = fixture();
    let a = spend_to(bob_sk.verifying_key().to_bytes(), 6, 9300);
    let b = spend_to(mallory_sk.verifying_key().to_bytes(), 7, 9301);
    let auth_a = sign_user_spend(&a, &alice_sk);
    let auth_b = sign_user_spend(&b, &alice_sk);
    let mut log = {
        let mut node = CertifierNode::open(2, false, Vec::new()).unwrap();
        node.authorize_and_sign(&a, &auth_a, &cells).unwrap();
        node.store.log()
    };
    log.extend_from_slice(b"TORN");
    let mut node = CertifierNode::open(2, false, log).unwrap();
    assert_eq!(node.store.log().len() % LOCK_RECORD_SIZE, 0);
    assert!(node.authorize_and_sign(&b, &auth_b, &cells).is_err());
}

#[test]
fn complete_corrupt_record_fails_closed() {
    assert!(CertifierNode::open(2, false, vec![0xA5; LOCK_RECORD_SIZE]).is_err());
}

#[test]
fn snapshot_rollback_of_three_honest_signers_reenables_second_quorum() {
    let (alice_sk, bob_sk, mallory_sk, cells) = fixture();
    let a = spend_to(bob_sk.verifying_key().to_bytes(), 8, 9400);
    let b = spend_to(mallory_sk.verifying_key().to_bytes(), 9, 9401);
    let auth_a = sign_user_spend(&a, &alice_sk);
    let auth_b = sign_user_spend(&b, &alice_sk);
    let mut nodes = open_committee(&vec![Vec::new(); N], 2).unwrap();
    let before = logs_of(&nodes);
    let a_shares = collect_valid_shares(&mut nodes, &vec![0, 1, 2, 3, 4], &a, &auth_a, &cells);
    assert_eq!(a_shares.len(), Q);
    let cert_a = certificate_from(a_shares);
    let committee = committee_keys(&nodes);
    let mut logs = logs_of(&nodes);
    drop(nodes);
    for i in [2usize, 3, 4] {
        logs[i] = before[i].clone();
    }
    let mut nodes = open_committee(&logs, 2).unwrap();
    let b_shares = collect_valid_shares(&mut nodes, &vec![0, 1, 2, 3, 4], &b, &auth_b, &cells);
    assert_eq!(b_shares.len(), Q);
    let cert_b = certificate_from(b_shares);
    let mut core_a = new_core(cells.clone(), committee.clone(), Q);
    let mut core_b = new_core(cells.clone(), committee, Q);
    assert!(core_a.apply_certified_spend(&a, &cert_a).is_ok());
    assert!(core_b.apply_certified_spend(&b, &cert_b).is_ok());
}

#[test]
fn main_duplicate_share_cannot_inflate_threshold() {
    let (alice_sk, bob_sk, _, cells) = fixture();
    let tx = spend_to(bob_sk.verifying_key().to_bytes(), 10, 9500);
    let auth = sign_user_spend(&tx, &alice_sk);
    let mut nodes = open_committee(&vec![Vec::new(); N], 0).unwrap();
    let one = nodes[0].authorize_and_sign(&tx, &auth, &cells).unwrap();
    let cert = certificate_from(vec![one, one, one, one, one]);
    let core = new_core(cells, committee_keys(&nodes), Q);
    assert!(core.verify_threshold_certificate(&tx, &cert).is_err());
}

#[test]
fn lock_records_round_trip_and_are_checked() {
    let key = LockKey { epoch: CERT_EPOCH, input: InputRef { id: 5, generation: 6 } };
    let record = encode_lock_record(key, [7; 32]);
    assert_eq!(record.len(), LOCK_RECORD_SIZE);
    assert_eq!(decode_lock_record(&record).unwrap(), (key, [7; 32]));
    let mut store = DurableLockStore::open(record.clone()).unwrap();
    assert_eq!(store.lock_of(key.input), Some([7; 32]));
    assert!(store.lock_inputs_before_signing(&vec![key.input], [8; 32]).is_err());
    assert!(store.lock_inputs_before_signing(&vec![key.input], [7; 32]).is_ok());
    assert_eq!(store.log(), record);
    for at in 0..record.len() {
        let mut bad = record.clone();
        bad[at] ^= 1;
        assert!(decode_lock_record(&bad).is_err(), "accepted a change at {at}");
    }
}

#[test]
fn quorum_intersection_exceeds_byzantine_bound() {
    assert_eq!(sec004::ANCHOR_Q + sec004::RECOVERY_Q - sec004::N, 4);
    assert!(sec004::ANCHOR_Q + sec004::RECOVERY_Q - sec004::N > sec004::F);
}

#[test]
fn witness_record_round_trip_and_signature_check() {
    let sk = sec004::deterministic_key("CALIBRE_SEC004_CERTIFIER_KEY_V1", 2);
    let e = sec004::make_evidence(&sk, InputRef { id: 1, generation: 7 }, [9u8; 32]);
    let decoded = sec004::decode_record(&sec004::encode_record(&e)).unwrap();
    assert_eq!(decoded.certifier, e.certifier);
    assert_eq!(decoded.input, e.input);
    assert_eq!(decoded.digest, e.digest);
}

#[test]
fn local_rollback_is_recovered_from_witness_quorum() {
    let mut witnesses = sec004::open_witnesses(&vec![Vec::new(); sec004::N]).unwrap();
    let mut certifier = sec004::CertifierNode::new(2, false);
    let input = InputRef { id: 1000, generation: 7 };
    let digest = [7u8; 32];
    let anchor = vec![0usize, 1, 2, 3, 4];
    certifier.anchor_input(input, digest, &mut witnesses, &anchor).unwrap();
    certifier.local_locks.insert(input, digest);
    certifier.rollback_local_state();
    let recovered =
        certifier.recover_input(input, &witnesses, &vec![0usize, 1, 2, 3, 5, 6]).unwrap();
    assert_eq!(recovered, Some(digest));
}

#[test]
fn three_honest_witness_rollbacks_erase_software_anchor_boundary() {
    let mut witnesses = sec004::open_witnesses(&vec![Vec::new(); sec004::N]).unwrap();
    let before: Vec<Vec<u8>> = witnesses.iter().map(|w| w.store.log()).collect();
    let certifier = sec004::CertifierNode::new(2, false);
    let input = InputRef { id: 1000, generation: 7 };
    certifier
        .anchor_input(input, [1u8; 32], &mut witnesses, &vec![0usize, 1, 2, 3, 4])
        .unwrap();
    let mut logs: Vec<Vec<u8>> = witnesses.iter().map(|w| w.store.log()).collect();
    drop(witnesses);
    for i in [2usize, 3, 4] {
        logs[i] = before[i].clone();
    }
    let witnesses = sec004::open_witnesses(&logs).unwrap();
    assert_eq!(
        certifier.recover_input(input, &witnesses, &vec![0usize, 1, 2, 3, 5, 6]).unwrap(),
        None
    );
}

#[test]
fn anchored_shares_make_a_certificate_that_commits() {
    let alice = sec004::deterministic_key("CALIBRE_SEC004_TEST_KEY_V1", 1);
    let bob = sec004::deterministic_key("CALIBRE_SEC004_TEST_KEY_V1", 2);
    let cells = alice_cells(alice.verifying_key().to_bytes());
    let tx = spend_to(bob.verifying_key().to_bytes(), 1, 9000);
    let auth = sec004::sign_user_spend(&tx, &alice);
    let verified = sec004::verify_user_authorization(&tx, &auth, &cells).unwrap();
    let mut witnesses = sec004::open_witnesses(&vec![Vec::new(); sec004::N]).unwrap();
    let mut certifiers: Vec<_> =
        (0..sec004::N).map(|i| sec004::CertifierNode::new(i, i < 2)).collect();
    let anchor = vec![0, 1, 2, 3, 4];
    let recovery = vec![0, 1, 2, 3, 5, 6];
    let mut shares = Vec::new();
    for certifier in certifiers.iter_mut().take(sec004::AUTH_Q) {
        shares.push(
            certifier
                .authorize_anchor_and_sign(&tx, &auth, &cells, &mut witnesses, &anchor, &recovery)
                .unwrap(),
        );
    }
    let committee: Vec<_> = certifiers.iter().map(|c| c.public()).collect();
    let cert = sec004::ThresholdCertificate {
        digest: verified.digest,
        user_signer: verified.signer,
        shares,
    };
    sec004::verify_threshold(&tx, &cert, &committee).unwrap();
    let mut core = sec004::CoreState::new(cells.clone(), committee);
    let output = core.apply(&tx, &cert).unwrap();
    assert_eq!(output.owner, bob.verifying_key().to_bytes());

    let mallory = sec004::deterministic_key("CALIBRE_SEC004_TEST_KEY_V1", 3);
    let other = spend_to(mallory.verifying_key().to_bytes(), 2, 9001);
    let other_auth = sec004::sign_user_spend(&other, &alice);
    certifiers[3].rollback_local_state();
    assert!(certifiers[3]
        .authorize_anchor_and_sign(&other, &other_auth, &cells, &mut witnesses, &anchor, &recovery)
        .is_err());
}

#[test]
fn torn_and_corrupt_witness_logs_are_told_apart() {
    let sk = sec004::deterministic_key("CALIBRE_SEC004_CERTIFIER_KEY_V1", 2);
    let e = sec004::make_evidence(&sk, InputRef { id: 1, generation: 7 }, [9u8; 32]);
    let mut log = sec004::encode_record(&e);
    assert_eq!(log.len(), sec004::WITNESS_RECORD_SIZE);
    log.extend_from_slice(b"TORN");
    let store = sec004::WitnessStore::open(log.clone()).unwrap();
    assert_eq!(store.get(e.certifier, e.input).unwrap().digest, e.digest);
    assert_eq!(store.log().len(), sec004::WITNESS_RECORD_SIZE);
    log[0] ^= 1;
    assert!(sec004::WitnessStore::open(log).is_err());
}

#[test]
fn changed_evidence_is_not_believed() {
    let sk = sec004::deterministic_key("CALIBRE_SEC004_CERTIFIER_KEY_V1", 2);
    let e = sec004::make_evidence(&sk, InputRef { id: 1, generation: 7 }, [9u8; 32]);
    sec004::verify_evidence(&e).unwrap();
    let mut changed = e;
    changed.digest[0] ^= 1;
    assert!(sec004::verify_evidence(&changed).is_err());
    assert_ne!(sec004::evidence_fingerprint(&e), sec004::evidence_fingerprint(&changed));
    let mut witness = sec004::WitnessNode::open(3, false, Vec::new()).unwrap();
    assert!(witness.accept(changed).is_err());
    assert!(witness.accept(e).is_ok());
}
