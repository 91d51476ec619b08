use calibre::auth::{auth_message, check_turns, AuthFault};
use calibre::auth_ed25519::{Ed25519, EdMaterial};
use calibre::bls::{verify_aggregate, verify_signature};
use calibre::engine::mix64;
use calibre::{perf018, perf019, perf020};
use ed25519_dalek::{verify_batch, Signature, VerifyingKey};

const MAX_ARITY: usize = 8;

#[test]
fn authorization_accepts_and_tamper_rejects() {
    let sk = perf018::deterministic_signing_key(7);
    let vk = sk.verifying_key();
    let mut inputs = [0u64; MAX_ARITY];
    for (k, x) in inputs.iter_mut().enumerate() {
        *x = 100 + k as u64;
    }
    let msg = auth_message(42, 8, 800, &inputs);
    let sig = sk.sign(&msg);
    assert!(vk.verify_strict(&msg, &sig));
    let mut bad = msg;
    bad[7] ^= 1;
    assert!(!vk.verify_strict(&bad, &sig));
}

/// What the authorizations that are a worker's turn add to the checksum.
fn turns_checksum(materials: &[EdMaterial], workers: usize, w: usize) -> u64 {
    materials
        .iter()
        .skip(w)
        .step_by(workers)
        .fold(0, |sum, a| sum ^ mix64(a.tx ^ (a.public[0] as u64).rotate_left(17)))
}

/// Checks the turns of two of four workers.
fn two_workers(materials: &Vec<EdMaterial>, first: usize) -> usize {
    let mut verified = 0;
    for w in [first, first + 1] {
        let r = check_turns::<Ed25519, 32, 64>(materials, 4, w).unwrap();
        assert_eq!(r.checksum, turns_checksum(materials, 4, w));
        verified += r.verified;
    }
    verified
}

// One by one, two thousand signatures take longer than one test may: workers 0 and
// 1 are here, workers 2 and 3 in the next test.
#[test]
fn parallel_counts_all_authorizations() {
    let materials = perf018::build_materials(2_000);
    assert_eq!(two_workers(&materials, 0) + 1_000, 2_000);
}

#[test]
fn parallel_counts_the_other_authorizations() {
    let materials = perf018::build_materials(2_000);
    assert_eq!(1_000 + two_workers(&materials, 2), 2_000);
}

#[test]
fn batch_accepts_valid_and_rejects_tamper() {
    let materials = perf019::build_materials(64);
    let mut messages: Vec<[u8; 88]> = materials
        .iter()
        .map(|a| auth_message(a.tx, a.arity, a.value, &a.inputs))
        .collect();
    let signatures: Vec<Signature> =
        materials.iter().map(|a| Signature::from_bytes(&a.signature)).collect();
    let keys: Vec<VerifyingKey> =
        materials.iter().map(|a| VerifyingKey::from_bytes(&a.public).unwrap()).collect();
    let refs: Vec<&[u8]> = messages.iter().map(|m| &m[..]).collect();
    assert!(verify_batch(&refs, &signatures, &keys).is_ok());
    assert!(perf019::run_batch(&materials, 1, 64).is_ok());

    messages[17][0] ^= 1;
    let bad_refs: Vec<&[u8]> = messages.iter().map(|m| &m[..]).collect();
    assert!(verify_batch(&bad_refs, &signatures, &keys).is_err());
    let mut bad = materials;
    bad[17].tx ^= 1;
    assert_eq!(perf019::run_batch(&bad, 1, 64), Err(AuthFault::Rejected));
}

#[test]
fn parallel_batch_counts_all_authorizations() {
    let materials = perf019::build_materials(4_096);
    let r = perf019::run_batch(&materials, 4, 128).unwrap();
    assert_eq!(r.verified, 4_096);
    assert!(r.batches > 0);
    assert_eq!(r.batches, 32);
}

#[test]
fn batch_and_individual_checksums_match() {
    let materials = perf019::build_materials(2_048);
    let b = perf019::run_batch(&materials, 4, 64).unwrap();
    let individual = (0..4).fold(0, |sum, w| sum ^ turns_checksum(&materials, 4, w));
    assert_eq!(individual, b.checksum);
}

#[test]
fn individual_checksums_of_the_first_workers_match() {
    let materials = perf019::build_materials(2_048);
    assert_eq!(two_workers(&materials, 0), 1_024);
}

#[test]
fn individual_checksums_of_the_last_workers_match() {
    let materials = perf019::build_materials(2_048);
    assert_eq!(two_workers(&materials, 2), 1_024);
}

#[test]
fn a_short_list_has_one_checksum_in_every_mode() {
    let materials = perf019::build_materials(130);
    let i = perf019::run_individual(&materials, 4).unwrap();
    let b = perf019::run_batch(&materials, 4, 64).unwrap();
    assert_eq!(i.checksum, b.checksum);
    assert_eq!((i.verified, b.verified), (130, 130));
}

#[test]
fn bls_individual_accepts_and_tamper_rejects() {
    let sk = perf020::deterministic_secret_key(7);
    let pk = sk.sk_to_pk();
    let mut inputs = [0u64; MAX_ARITY];
    for (k, x) in inputs.iter_mut().enumerate() {
        *x = 100 + k as u64;
    }
    let msg = auth_message(42, 8, 800, &inputs);
    let sig = sk.sign(&msg, perf020::dst(), &[]);
    assert!(verify_signature(&sig, &msg, perf020::dst(), &[], &pk));
    let mut bad = msg;
    bad[5] ^= 1;
    assert!(!verify_signature(&sig, &bad, perf020::dst(), &[], &pk));
}

#[test]
fn bls_aggregate_accepts_and_tamper_rejects() {
    let materials = perf020::build_materials(16);
    let batch = perf020::build_aggregate_batches(&materials, 16).unwrap()[0];
    let mut messages: Vec<[u8; 88]> = materials
        .iter()
        .map(|a| auth_message(a.tx, a.arity, a.value, &a.inputs))
        .collect();
    let keys: Vec<[u8; 48]> = materials.iter().map(|a| a.public).collect();
    assert!(verify_aggregate(&batch.signature, &messages, perf020::dst(), &keys));

    messages[3][0] ^= 1;
    assert!(!verify_aggregate(&batch.signature, &messages, perf020::dst(), &keys));
}

#[test]
fn aggregate_modes_count_every_authorization() {
    let materials = perf020::build_materials(512);
    let batches = perf020::build_aggregate_batches(&materials, 32).unwrap();
    let a = perf020::run_aggregate_verify_only(&materials, &batches).unwrap();
    let b = perf020::run_aggregate_construct_and_verify(&materials, 4, 32).unwrap();
    assert_eq!(a.verified, 512);
    assert_eq!(b.verified, 512);
    assert_eq!(a.checksum, b.checksum);
}

#[test]
fn messages_lay_out_every_field() {
    let inputs = [1u64, 2, 3, 4, 5, 6, 7, 8];
    let msg = auth_message(10, 8, 800, &inputs);
    assert_eq!(&msg[0..8], &10u64.to_le_bytes());
    assert_eq!(&msg[8..16], &800u64.to_le_bytes());
    assert_eq!(&msg[16..24], &8u64.to_le_bytes());
    assert_eq!(&msg[80..88], &8u64.to_le_bytes());
}

#[test]
fn materials_refer_to_their_own_inputs() {
    let materials = perf018::build_materials(3);
    assert_eq!(materials[2].inputs, [16, 17, 18, 19, 20, 21, 22, 23]);
    assert_eq!(materials[2].value, 800);
    let key = perf018::deterministic_signing_key(2);
    assert_eq!(materials[2].public, key.verifying_key().to_bytes());
}

#[test]
fn refused_authorizations_say_why() {
    let mut rejected = perf018::build_materials(4);
    rejected[1].value += 1;
    assert_eq!(perf018::run_case(&rejected, 2), Err(AuthFault::Rejected));
    let mut unreadable = perf018::build_materials(4);
    unreadable[3].public = [0xff; 32];
    let fault = perf018::run_case(&unreadable, 2).unwrap_err();
    assert!(fault == AuthFault::KeyParse || fault == AuthFault::Rejected);
    assert_eq!(
        perf018::fault_text(AuthFault::Rejected),
        "PERF-018 Ed25519 authorization rejected"
    );

    let mut bls = perf020::build_materials(2);
    bls[0].signature = [0; 96];
    assert_eq!(perf020::run_individual(&bls, 1), Err(AuthFault::SignatureParse));
    assert!(matches!(
        perf020::build_aggregate_batches(&bls, 2),
        Err(AuthFault::SignatureParse)
    ));
    bls[0].public = [0; 48];
    assert_eq!(perf020::run_individual(&bls, 1), Err(AuthFault::KeyParse));
    assert_eq!(
        perf020::run_aggregate_construct_and_verify(&bls, 1, 2),
        Err(AuthFault::KeyParse)
    );
}

#[test]
fn checksums_do_not_depend_on_the_workers() {
    let materials = perf018::build_materials(10);
    let one = perf018::run_case(&materials, 1).unwrap();
    for workers in 2..12 {
        assert_eq!(perf018::run_case(&materials, workers).unwrap(), one);
    }
}

#[test]
fn aggregates_of_any_size_come_to_the_same_checksum() {
    let materials = perf020::build_materials(7);
    let one = perf020::run_individual(&materials, 2).unwrap();
    for size in [1, 3, 7, 20] {
        let batches = perf020::build_aggregate_batches(&materials, size).unwrap();
        assert_eq!(batches.last().unwrap().end, 7);
        assert_eq!(perf020::run_aggregate_verify_only(&materials, &batches).unwrap(), one);
        assert_eq!(
            perf020::run_aggregate_construct_and_verify(&materials, 2, size).unwrap(),
            one
        );
    }
}

#[test]
fn a_swapped_aggregate_is_refused() {
    let materials = perf020::build_materials(4);
    let mut batches = perf020::build_aggregate_batches(&materials, 2).unwrap();
    let first = batches[0].signature;
    batches[0].signature = batches[1].signature;
    batches[1].signature = first;
    assert_eq!(
        perf020::run_aggregate_verify_only(&materials, &batches),
        Err(AuthFault::Rejected)
    );
}
