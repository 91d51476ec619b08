use calibre::model::{Digest, PHASE_PRECOMMIT, PHASE_PREVOTE};
use calibre::store::{
    encode_record, replay_wal, Lifecycle, PersistOutcome, PrecommitLock, Snapshot, WalStore, HEADER_LEN, KIND_VOTE,
};

fn snapshot(committee: Digest, epoch: u64, root: u8, payload: &[u8]) -> Snapshot {
    Snapshot { committee_hash: committee, epoch, state_root: [root; 32], bytes: payload.to_vec() }
}

fn active_store() -> WalStore {
    let committee = [1; 32];
    let genesis = snapshot(committee, 7, 2, b"genesis");
    let mut store = WalStore::open(Vec::new(), committee, 7, Some(genesis.clone())).unwrap();
    assert_eq!(store.lifecycle(), Lifecycle::Initialized);
    assert_eq!(store.activate([3; 32], genesis).unwrap(), PersistOutcome::Persisted);
    store
}

#[test]
fn lifecycle_votes_apply_retire_and_restart() {
    let committee = [1; 32];
    let next_committee = [9; 32];
    let conflict = [4; 32];
    let mut store = active_store();

    assert_eq!(
        store.persist_vote(conflict, 11, PHASE_PREVOTE, [5; 32]).unwrap(),
        PersistOutcome::Persisted
    );
    assert_eq!(
        store.persist_vote(conflict, 11, PHASE_PRECOMMIT, [5; 32]).unwrap(),
        PersistOutcome::Persisted
    );
    let next = snapshot(committee, 7, 6, b"after-certified-payment");
    assert_eq!(
        store.apply_verified([7; 32], [8; 32], next.clone()).unwrap(),
        PersistOutcome::Persisted
    );
    assert_eq!(
        store.retire([10; 32], next_committee, 8, next.state_root).unwrap(),
        PersistOutcome::Persisted
    );
    assert_eq!(store.lifecycle(), Lifecycle::Retired);
    let log = store.log().clone();
    drop(store);

    let reopened = WalStore::open(log, committee, 7, None).unwrap();
    assert_eq!(reopened.lifecycle(), Lifecycle::Retired);
    assert_eq!(reopened.current_snapshot(), &next);
    assert_eq!(reopened.precommit_lock(conflict).unwrap().digest, [5; 32]);
    assert!(reopened.applied_record([7; 32]).is_some());
    assert_eq!(reopened.retirement().unwrap().next_committee, next_committee);
}

#[test]
fn vote_choice_and_precommit_lock_are_durable_and_monotonic() {
    let conflict = [21; 32];
    let digest = [22; 32];
    let mut store = active_store();
    assert_eq!(
        store.persist_vote(conflict, 5, PHASE_PRECOMMIT, digest).unwrap(),
        PersistOutcome::Persisted
    );
    assert_eq!(
        store.persist_vote(conflict, 5, PHASE_PRECOMMIT, digest).unwrap(),
        PersistOutcome::AlreadyPresent
    );
    assert!(store.persist_vote(conflict, 5, PHASE_PRECOMMIT, [23; 32]).is_err());
    assert!(store.persist_vote(conflict, 4, PHASE_PREVOTE, digest).is_err());
    assert!(store.persist_vote(conflict, 6, PHASE_PREVOTE, [23; 32]).is_err());
    assert_eq!(
        store.persist_vote(conflict, 6, PHASE_PRECOMMIT, digest).unwrap(),
        PersistOutcome::Persisted
    );
    let log = store.log().clone();
    drop(store);

    let reopened = WalStore::open(log, [1; 32], 7, None).unwrap();
    assert_eq!(reopened.precommit_lock(conflict), Some(PrecommitLock { round: 6, digest }));
}

#[test]
fn verified_apply_is_idempotent_but_bare_or_conflicting_advance_fails() {
    let mut store = active_store();
    let next = snapshot([1; 32], 7, 31, b"certified-state");
    assert!(store.apply_verified([0; 32], [30; 32], next.clone()).is_err());
    assert!(store.apply_verified([29; 32], [0; 32], next.clone()).is_err());
    assert_eq!(
        store.apply_verified([29; 32], [30; 32], next.clone()).unwrap(),
        PersistOutcome::Persisted
    );
    assert_eq!(
        store.apply_verified([29; 32], [30; 32], next.clone()).unwrap(),
        PersistOutcome::AlreadyPresent
    );
    assert!(store
        .apply_verified([29; 32], [30; 32], snapshot([1; 32], 7, 32, b"fork"))
        .is_err());
    assert!(store.apply_verified([33; 32], [34; 32], next).is_err());
}

#[test]
fn retirement_is_terminal_and_cannot_resurrect_genesis() {
    let committee = [1; 32];
    let mut store = active_store();
    let root = store.current_snapshot().state_root;
    assert_eq!(
        store.retire([40; 32], [41; 32], 8, root).unwrap(),
        PersistOutcome::Persisted
    );
    assert_eq!(
        store.retire([40; 32], [41; 32], 8, root).unwrap(),
        PersistOutcome::AlreadyPresent
    );
    assert!(store.persist_vote([42; 32], 1, PHASE_PREVOTE, [43; 32]).is_err());
    assert!(store.activate([44; 32], snapshot(committee, 7, 2, b"genesis")).is_err());
    let log = store.log().clone();
    drop(store);

    let supplied_genesis = snapshot(committee, 7, 2, b"genesis");
    let reopened = WalStore::open(log, committee, 7, Some(supplied_genesis)).unwrap();
    assert_eq!(reopened.lifecycle(), Lifecycle::Retired);
}

#[test]
fn torn_and_checksum_mutated_wals_fail_closed() {
    let good = active_store().log().clone();

    let mut torn = good.clone();
    torn.pop();
    let torn_error = WalStore::open(torn, [1; 32], 7, None).err().unwrap();
    assert!(torn_error.contains("incomplete"));

    let mut corrupt = good;
    corrupt[HEADER_LEN + 1] ^= 0x80;
    let corrupt_error = WalStore::open(corrupt, [1; 32], 7, None).err().unwrap();
    assert!(corrupt_error.contains("checksum"));
}

#[test]
fn initialization_and_activation_are_separate_fail_closed_steps() {
    let committee = [50; 32];
    let genesis = snapshot(committee, 12, 51, b"provisioned");
    let mut store = WalStore::open(Vec::new(), committee, 12, Some(genesis.clone())).unwrap();
    assert_eq!(store.lifecycle(), Lifecycle::Initialized);
    assert!(store.persist_vote([52; 32], 1, PHASE_PREVOTE, [53; 32]).is_err());
    let log = store.log().clone();
    drop(store);

    let mut reopened = WalStore::open(log, committee, 12, None).unwrap();
    assert_eq!(reopened.lifecycle(), Lifecycle::Initialized);
    assert_eq!(
        reopened.activate([54; 32], genesis.clone()).unwrap(),
        PersistOutcome::Persisted
    );
    assert_eq!(
        reopened.activate([54; 32], genesis).unwrap(),
        PersistOutcome::AlreadyPresent
    );
}

#[test]
fn an_empty_log_needs_a_genesis() {
    assert!(WalStore::open(Vec::new(), [1; 32], 7, None).is_err());
    let foreign = snapshot([2; 32], 7, 2, b"genesis");
    assert!(WalStore::open(Vec::new(), [1; 32], 7, Some(foreign)).is_err());
}

#[test]
fn a_log_belongs_to_its_committee_and_epoch() {
    let log = active_store().log().clone();
    assert!(replay_wal(&log, &[1; 32], 7).is_ok());
    assert!(replay_wal(&log, &[9; 32], 7).is_err());
    assert!(replay_wal(&log, &[1; 32], 8).is_err());
}

#[test]
fn a_log_that_is_appended_to_replays_to_the_same_store() {
    let mut store = active_store();
    let before = store.log().clone();
    let record = store.vote_record([4; 32], 1, PHASE_PREVOTE, [5; 32]).unwrap().unwrap();
    store.persist_vote([4; 32], 1, PHASE_PREVOTE, [5; 32]).unwrap();
    let mut expected = before;
    expected.extend_from_slice(&record);
    assert_eq!(store.log(), &expected);
    assert!(store.vote_record([4; 32], 1, PHASE_PREVOTE, [5; 32]).unwrap().is_none());

    let reopened = WalStore::open(expected, [1; 32], 7, None).unwrap();
    assert_eq!(reopened.vote_digest([4; 32], 1, PHASE_PREVOTE), Some([5; 32]));
    assert_eq!(reopened.wal_records(), 3);
    assert_eq!(reopened.wal_bytes(), store.wal_bytes());
}

#[test]
fn a_store_that_could_not_write_refuses_everything_after() {
    let mut store = active_store();
    let held = store.log().len() as u64;
    assert_eq!(store.wal_bytes(), Ok(held));
    store.append_failed(Ok(held + 17));
    assert_eq!(store.wal_bytes(), Ok(held + 17));
    assert_eq!(store.log().len() as u64, held);
    assert!(store.persist_vote([4; 32], 1, PHASE_PREVOTE, [5; 32]).is_err());
    assert!(store.retire([40; 32], [41; 32], 8, [2; 32]).is_err());
}

#[test]
fn records_out_of_sequence_are_refused() {
    let mut log = active_store().log().clone();
    let copy = log.clone();
    log.extend_from_slice(&copy);
    assert!(replay_wal(&log, &[1; 32], 7).is_err());
    assert!(replay_wal(&[], &[1; 32], 7).is_err());
}

#[test]
fn every_step_names_the_record_that_it_appends() {
    let committee = [1; 32];
    let genesis = snapshot(committee, 7, 2, b"genesis");
    let mut store = WalStore::open(Vec::new(), committee, 7, Some(genesis.clone())).unwrap();

    let mut log = store.log().clone();
    log.extend(store.activation_record([3; 32], genesis.clone()).unwrap().unwrap());
    store.activate([3; 32], genesis.clone()).unwrap();
    assert_eq!(store.log(), &log);
    assert_eq!(store.activation_record([3; 32], genesis).unwrap(), None);

    log.extend(store.vote_record([4; 32], 1, PHASE_PREVOTE, [5; 32]).unwrap().unwrap());
    store.persist_vote([4; 32], 1, PHASE_PREVOTE, [5; 32]).unwrap();
    assert_eq!(store.log(), &log);
    assert!(store.vote_record([4; 32], 1, PHASE_PREVOTE, [6; 32]).is_err());

    log.extend(store.retirement_record([10; 32], [9; 32], 8, [2; 32]).unwrap().unwrap());
    store.retire([10; 32], [9; 32], 8, [2; 32]).unwrap();
    assert_eq!(store.log(), &log);
    assert!(store.vote_record([4; 32], 2, PHASE_PREVOTE, [5; 32]).is_err());
}

#[test]
fn every_cut_and_every_altered_byte_of_a_log_is_refused() {
    let mut store = active_store();
    store.persist_vote([4; 32], 1, PHASE_PREVOTE, [5; 32]).unwrap();
    let log = store.log().clone();
    let committee = [1; 32];
    let whole = replay_wal(&log, &committee, 7).unwrap();
    assert_eq!(whole.next_sequence, 3);
    let accepted: Vec<usize> =
        (0..log.len()).filter(|&cut| replay_wal(&log[..cut], &committee, 7).is_ok()).collect();
    assert_eq!(accepted.len(), 2);
    for at in 0..log.len() {
        let mut altered = log.clone();
        altered[at] ^= 1;
        assert!(replay_wal(&altered, &committee, 7).is_err(), "byte {at}");
    }
    assert!(replay_wal(&[], &committee, 7).is_err());
}

#[test]
fn locks_and_votes_outlive_failures_and_restarts() {
    let committee = [1; 32];
    let conflict = [4; 32];
    let mut store = active_store();
    store.persist_vote(conflict, 3, PHASE_PRECOMMIT, [5; 32]).unwrap();
    store.append_failed(Err("read WAL metadata: gone".to_owned()));
    assert_eq!(store.wal_bytes().unwrap_err(), "read WAL metadata: gone");
    assert!(store.persist_vote(conflict, 4, PHASE_PREVOTE, [5; 32]).is_err());
    let mut store = WalStore::open(store.log().clone(), committee, 7, None).unwrap();
    assert!(store.persist_vote(conflict, 3, PHASE_PRECOMMIT, [6; 32]).is_err());
    assert!(store.persist_vote(conflict, 2, PHASE_PREVOTE, [5; 32]).is_err());
    store.persist_vote(conflict, 9, PHASE_PRECOMMIT, [5; 32]).unwrap();
    let store = WalStore::open(store.log().clone(), committee, 7, None).unwrap();
    assert_eq!(store.precommit_lock(conflict).unwrap().round, 9);
    assert_eq!(store.precommit_lock(conflict).unwrap().digest, [5; 32]);
}

#[test]
fn a_store_is_opened_again_with_the_snapshot_it_began_with_and_no_other() {
    let committee = [1; 32];
    let genesis = snapshot(committee, 7, 2, b"genesis");
    let mut store = active_store();
    store.persist_vote([4; 32], 1, PHASE_PREVOTE, [5; 32]).unwrap();
    store.apply_verified([7; 32], [8; 32], snapshot(committee, 7, 6, b"later")).unwrap();
    let log = store.log().clone();

    let again = WalStore::open(log.clone(), committee, 7, Some(genesis.clone())).unwrap();
    assert_eq!(again.initial_snapshot(), &genesis);
    assert_eq!(again.current_snapshot(), store.current_snapshot());
    assert_eq!(again.vote_digest([4; 32], 1, PHASE_PREVOTE), Some([5; 32]));
    assert_eq!(again.log(), &log);

    let later = snapshot(committee, 7, 6, b"later");
    assert_eq!(
        WalStore::open(log.clone(), committee, 7, Some(later)).unwrap_err(),
        "provided initialization snapshot conflicts with durable WAL; fail closed"
    );
    let foreign = snapshot([2; 32], 7, 2, b"genesis");
    assert_eq!(
        WalStore::open(log, committee, 7, Some(foreign)).unwrap_err(),
        "snapshot committee does not match this WAL"
    );
}

#[test]
fn no_other_length_of_a_payload_is_accepted() {
    let mut store = active_store();
    let before = store.log().clone();
    store.persist_vote([4; 32], 1, PHASE_PREVOTE, [5; 32]).unwrap();
    let log = store.log().clone();
    for at in [12, 13, 14, 15, before.len() + 12, before.len() + 13] {
        for x in 0..=255u8 {
            let mut altered = log.clone();
            altered[at] = x;
            assert_eq!(replay_wal(&altered, &[1; 32], 7).is_ok(), x == log[at], "byte {at} is {x}");
        }
    }

    // Even with the right checksum, a payload ends where its form does.
    let payload = log[before.len() + HEADER_LEN..log.len() - 32].to_vec();
    for len in 0..payload.len() + 4 {
        let mut other = payload.clone();
        other.resize(len, 0);
        let mut longer = before.clone();
        longer.extend(encode_record(2, KIND_VOTE, &other).unwrap());
        assert_eq!(replay_wal(&longer, &[1; 32], 7).is_ok(), len == payload.len());
    }
}
