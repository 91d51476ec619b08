use calibre::model::{
    ApplyReceipt, Cell, CellRef, CommitteeManifest, CommitteeMember, Output, Proposal, Qc, State,
    Tx, UserAuth, Vote, PHASE_PRECOMMIT, PHASE_PREVOTE,
};
use calibre::ordmap::{OrdMap, OrdSet};
use calibre::store::Lifecycle;
use calibre::wire::{
    decode_cell, decode_cell_ref, decode_committee_manifest, decode_frame, decode_proposal,
    decode_qc, decode_request, decode_response, decode_state, decode_state_snapshot, decode_tx,
    decode_user_auth, decode_vote, encode_cell, encode_cell_ref, encode_committee_manifest,
    encode_frame, encode_proposal, encode_qc, encode_request, encode_response, encode_state,
    encode_state_snapshot, encode_tx, encode_user_auth, encode_vote, frame_len, Decoder, Encoder,
    Request, Response, MAX_COLLECTION_LEN, MAX_FRAME_LEN,
};

fn sample_cell(seed: u8) -> Cell {
    Cell {
        reference: CellRef { asset_id: 1, id: [seed; 32], generation: u64::from(seed) },
        amount: 100,
        owner: [seed.wrapping_add(1); 32],
        predecessor: [seed.wrapping_add(2); 32],
        state_digest: [seed.wrapping_add(3); 32],
    }
}

fn sample_tx() -> Tx {
    Tx {
        version: 1,
        network_id: 1,
        epoch: 100,
        committee_hash: [4; 32],
        input: sample_cell(5),
        outputs: vec![
            Output { asset_id: 1, amount: 60, owner: [6; 32] },
            Output { asset_id: 1, amount: 39, owner: [7; 32] },
        ],
        fee: 1,
        salt: [8; 32],
    }
}

fn sample_auth() -> UserAuth {
    UserAuth { signer: [9; 32], signature: [10; 64] }
}

fn sample_vote(phase: u8, signer_index: u8) -> Vote {
    Vote {
        network_id: 1,
        epoch: 100,
        committee_hash: [11; 32],
        phase,
        round: 3,
        conflict_key: [12; 32],
        intent: [13; 32],
        justify: [14; 32],
        signer_index,
        signature: [15u8.wrapping_add(signer_index); 64],
    }
}

fn sample_qc(phase: u8) -> Qc {
    Qc { votes: (0..5).map(|index| sample_vote(phase, index)).collect() }
}

fn sample_proposal() -> Proposal {
    Proposal {
        round: 4,
        proposer_index: 2,
        tx: sample_tx(),
        auth: sample_auth(),
        intent: [16; 32],
        justify: Some(sample_qc(PHASE_PRECOMMIT)),
        signature: [17; 64],
    }
}

fn sample_state() -> State {
    let cell = sample_cell(18);
    let spent = sample_cell(19).reference;
    let receipt = ApplyReceipt {
        intent: [20; 32],
        certificate_digest: [21; 32],
        output_refs: vec![cell.reference],
    };
    let mut live = OrdMap::new();
    live.insert(cell.reference, cell);
    let mut spent_by = OrdMap::new();
    spent_by.insert(spent, [22; 32]);
    let mut known_ids = OrdSet::new();
    known_ids.insert(cell.reference.id);
    known_ids.insert(spent.id);
    let mut applied = OrdMap::new();
    applied.insert(receipt.intent, receipt);
    State { live, spent_by, known_ids, applied }
}

#[test]
fn primitive_round_trip_is_little_endian_and_exact() {
    let mut encoder = Encoder::new();
    encoder.u8(7);
    encoder.bool(true);
    encoder.u16(0x1234);
    encoder.u32(0x1234_5678);
    encoder.u64(0x0123_4567_89ab_cdef);
    encoder.fixed(&[9u8; 32]);
    let bytes = encoder.finish().unwrap();
    assert_eq!(&bytes[2..4], &[0x34, 0x12]);
    assert_eq!(&bytes[4..8], &[0x78, 0x56, 0x34, 0x12]);

    let mut decoder = Decoder::new(&bytes).unwrap();
    assert_eq!(decoder.u8("tag").unwrap(), 7);
    assert!(decoder.bool("enabled").unwrap());
    assert_eq!(decoder.u16("short").unwrap(), 0x1234);
    assert_eq!(decoder.u32("word").unwrap(), 0x1234_5678);
    assert_eq!(decoder.u64("long").unwrap(), 0x0123_4567_89ab_cdef);
    assert_eq!(decoder.fixed::<32>("digest").unwrap(), [9u8; 32]);
    decoder.finish().unwrap();
}

#[test]
fn invalid_boolean_and_trailing_bytes_fail_closed() {
    let mut bad_bool = Decoder::new(&[2]).unwrap();
    assert!(bad_bool.bool("flag").unwrap_err().contains("invalid"));

    let mut trailing = Decoder::new(&[1, 0xff]).unwrap();
    assert_eq!(trailing.u8("tag").unwrap(), 1);
    assert!(trailing.finish().unwrap_err().contains("trailing"));
}

#[test]
fn bounded_counts_fail_before_allocation() {
    let count = (MAX_COLLECTION_LEN as u32 + 1).to_le_bytes();
    let mut decoder = Decoder::new(&count).unwrap();
    assert!(decoder.count("shares").unwrap_err().contains("exceeds"));

    let mut encoder = Encoder::new();
    assert!(encoder.count(MAX_COLLECTION_LEN + 1, "shares").is_err());
}

#[test]
fn frame_round_trip_uses_big_endian_length() {
    let bytes = encode_frame(b"CALIBRE").unwrap();
    assert_eq!(&bytes[..4], &[0, 0, 0, 7]);
    let (payload, used) = decode_frame(&bytes).unwrap();
    assert_eq!(payload, b"CALIBRE");
    assert_eq!(used, bytes.len());
}

#[test]
fn oversized_outgoing_and_incoming_frames_fail_closed() {
    assert!(encode_frame(&vec![0u8; MAX_FRAME_LEN + 1]).is_err());

    let declared = u32::try_from(MAX_FRAME_LEN + 1).unwrap().to_be_bytes();
    let error = decode_frame(&declared).unwrap_err();
    assert!(error.contains("incoming frame exceeds"));
    assert!(frame_len(&declared).unwrap_err().contains("incoming frame exceeds"));
}

#[test]
fn truncated_frame_fails_closed() {
    let bytes = [0, 0, 0, 4, 1, 2, 3];
    assert!(decode_frame(&bytes).is_err());
}

#[test]
fn every_core_type_round_trips_exactly() {
    let manifest = CommitteeManifest {
        network_id: 1,
        epoch: 100,
        threshold: 5,
        members: (0..7)
            .map(|index: u8| CommitteeMember {
                index,
                public_key: [index.wrapping_add(1); 32],
            })
            .collect(),
    };
    assert_eq!(
        decode_committee_manifest(&encode_committee_manifest(&manifest).unwrap()).unwrap(),
        manifest
    );

    let cell = sample_cell(1);
    assert_eq!(
        decode_cell_ref(&encode_cell_ref(&cell.reference).unwrap()).unwrap(),
        cell.reference
    );
    assert_eq!(decode_cell(&encode_cell(&cell).unwrap()).unwrap(), cell);

    let tx = sample_tx();
    assert_eq!(decode_tx(&encode_tx(&tx).unwrap()).unwrap(), tx);
    let auth = sample_auth();
    assert_eq!(decode_user_auth(&encode_user_auth(&auth).unwrap()).unwrap(), auth);
    let vote = sample_vote(PHASE_PREVOTE, 0);
    assert_eq!(decode_vote(&encode_vote(&vote).unwrap()).unwrap(), vote);
    let qc = sample_qc(PHASE_PRECOMMIT);
    assert_eq!(decode_qc(&encode_qc(&qc).unwrap()).unwrap(), qc);
    let proposal = sample_proposal();
    assert_eq!(decode_proposal(&encode_proposal(&proposal).unwrap()).unwrap(), proposal);
    let state = sample_state();
    assert_eq!(decode_state(&encode_state(&state).unwrap()).unwrap(), state);

    let snapshot = vec![sample_cell(30), sample_cell(31)];
    assert_eq!(
        decode_state_snapshot(&encode_state_snapshot(&snapshot).unwrap()).unwrap(),
        snapshot
    );
}

#[test]
fn request_and_response_variants_round_trip() {
    let proposal = sample_proposal();
    let prevote_qc = sample_qc(PHASE_PREVOTE);
    let finality_qc = sample_qc(PHASE_PRECOMMIT);
    let requests = vec![
        Request::Ping,
        Request::Prevote(proposal.clone()),
        Request::Precommit { proposal: proposal.clone(), prevote_qc: prevote_qc.clone() },
        Request::Apply {
            tx: proposal.tx.clone(),
            auth: proposal.auth,
            prevote_qc: prevote_qc.clone(),
            finality_qc,
        },
        Request::QueryState,
    ];
    for request in requests {
        assert_eq!(decode_request(&encode_request(&request).unwrap()).unwrap(), request);
    }

    let responses = vec![
        Response::Pong { index: 3, epoch: 100, committee_hash: [32; 32] },
        Response::Vote(sample_vote(PHASE_PREVOTE, 3)),
        Response::Applied { state_root: [33; 32], idempotent: true },
        Response::State {
            state_root: [34; 32],
            snapshot_bytes: 1234,
            wal_bytes: 4321,
            lifecycle: Lifecycle::Active,
        },
        Response::Rejected { code: 7 },
    ];
    for response in responses {
        assert_eq!(decode_response(&encode_response(&response).unwrap()).unwrap(), response);
    }
}

#[test]
fn bad_tags_phases_booleans_and_lifecycles_fail_closed() {
    assert!(decode_request(&[0xff]).unwrap_err().contains("request tag"));
    assert!(decode_response(&[0xff]).unwrap_err().contains("response tag"));

    let mut vote = encode_vote(&sample_vote(PHASE_PREVOTE, 0)).unwrap();
    vote[44] = 0xff;
    assert!(decode_vote(&vote).unwrap_err().contains("vote phase"));

    let mut applied =
        encode_response(&Response::Applied { state_root: [1; 32], idempotent: false }).unwrap();
    applied[33] = 2;
    assert!(decode_response(&applied).unwrap_err().contains("boolean"));

    let mut state = encode_response(&Response::State {
        state_root: [1; 32],
        snapshot_bytes: 1,
        wal_bytes: 2,
        lifecycle: Lifecycle::Active,
    })
    .unwrap();
    state[49] = 9;
    assert!(decode_response(&state).unwrap_err().contains("lifecycle"));
}

#[test]
fn type_decoders_reject_oversize_counts_and_trailing_bytes() {
    let mut manifest = encode_committee_manifest(&CommitteeManifest {
        network_id: 1,
        epoch: 100,
        threshold: 5,
        members: Vec::new(),
    })
    .unwrap();
    manifest[13..17].copy_from_slice(&8u32.to_le_bytes());
    assert!(decode_committee_manifest(&manifest).unwrap_err().contains("exceeds"));

    let mut tx = encode_tx(&sample_tx()).unwrap();
    tx[194..198].copy_from_slice(&9u32.to_le_bytes());
    assert!(decode_tx(&tx).unwrap_err().contains("outputs count exceeds"));

    let mut exact = encode_cell_ref(&sample_cell(1).reference).unwrap();
    exact.push(0);
    assert!(decode_cell_ref(&exact).unwrap_err().contains("trailing"));
}

#[test]
fn duplicate_snapshot_and_state_keys_are_rejected() {
    let cell = sample_cell(40);
    assert!(encode_state_snapshot(&[cell.clone(), cell.clone()]).is_err());

    let mut malformed = sample_state();
    let key = malformed.live.key_at(0);
    let mut changed = *malformed.live.get(&key).unwrap();
    changed.reference = sample_cell(41).reference;
    malformed.live.insert(key, changed);
    assert!(encode_state(&malformed).unwrap_err().contains("map key"));
}

#[test]
fn a_frame_stops_at_its_length() {
    let mut bytes = encode_frame(&[1, 2, 3]).unwrap();
    bytes.extend_from_slice(&[9, 9]);
    let (payload, used) = decode_frame(&bytes).unwrap();
    assert_eq!(payload, [1, 2, 3]);
    assert_eq!(used, 7);
    assert_eq!(frame_len(&[0, 0, 1, 2]).unwrap(), 258);
}

#[test]
fn the_smallest_requests_are_one_byte() {
    for request in [Request::Ping, Request::QueryState] {
        assert_eq!(encode_request(&request).unwrap().len(), 1);
    }
    assert!(decode_request(&[]).is_err());
    assert!(decode_response(&[]).is_err());
}

#[test]
fn a_cut_or_extended_request_is_refused_and_has_one_form() {
    let request = Request::Precommit {
        proposal: sample_proposal(),
        prevote_qc: sample_qc(PHASE_PREVOTE),
    };
    let bytes = encode_request(&request).unwrap();
    for cut in 0..bytes.len() {
        assert!(decode_request(&bytes[..cut]).is_err(), "cut at {cut}");
    }
    let mut extended = bytes.clone();
    extended.push(0);
    assert!(decode_request(&extended).is_err());
    for tag in [0u8, 6, 255] {
        let mut other = bytes.clone();
        other[0] = tag;
        assert!(decode_request(&other).is_err(), "tag {tag}");
    }
    assert_eq!(encode_request(&decode_request(&bytes).unwrap()).unwrap(), bytes);
}

#[test]
fn an_altered_response_is_refused() {
    let vote = encode_response(&Response::Vote(sample_vote(PHASE_PREVOTE, 3))).unwrap();
    let applied = Response::Applied { state_root: [1; 32], idempotent: true };
    let applied = encode_response(&applied).unwrap();
    let state = Response::State {
        state_root: [2; 32],
        snapshot_bytes: 3,
        wal_bytes: 4,
        lifecycle: Lifecycle::Active,
    };
    let state = encode_response(&state).unwrap();
    for (bytes, at, value) in
        [(&vote, 0, 5), (&vote, 45, 3), (&applied, 33, 2), (&state, 49, 0), (&state, 49, 4)]
    {
        let mut altered = bytes.clone();
        altered[at] = value;
        assert!(decode_response(&altered).is_err(), "byte {at} is {value}");
        let decoded = decode_response(bytes).unwrap();
        assert_eq!(&encode_response(&decoded).unwrap(), bytes);
    }
}

#[test]
fn a_committee_with_a_repeated_index_or_eight_members_is_refused() {
    let member = |index: u8| CommitteeMember { index, public_key: [index; 32] };
    let manifest = |indices: &[u8]| CommitteeManifest {
        network_id: 1,
        epoch: 2,
        threshold: 5,
        members: indices.iter().map(|&index| member(index)).collect(),
    };
    let bytes = encode_committee_manifest(&manifest(&[0, 1, 2])).unwrap();
    assert!(decode_committee_manifest(&bytes).is_ok());
    let mut eight = bytes.clone();
    eight[13..17].copy_from_slice(&8u32.to_le_bytes());
    assert_eq!(
        decode_committee_manifest(&eight).err().unwrap(),
        "committee members count exceeds 7"
    );
    let repeated = encode_committee_manifest(&manifest(&[0, 1, 0])).unwrap();
    assert_eq!(
        decode_committee_manifest(&repeated).err().unwrap(),
        "duplicate committee member index"
    );
}

#[test]
fn snapshot_cells_keep_their_order_and_have_one_form() {
    let cells = vec![sample_cell(9), sample_cell(2), sample_cell(5)];
    let bytes = encode_state_snapshot(&cells).unwrap();
    let decoded = decode_state_snapshot(&bytes).unwrap();
    assert_eq!(decoded, cells);
    assert_eq!(encode_state_snapshot(&decoded).unwrap(), bytes);
    for cut in 0..bytes.len() {
        assert!(decode_state_snapshot(&bytes[..cut]).is_err());
    }
    let mut twice = bytes.clone();
    let one = encode_state_snapshot(&cells[..1]).unwrap();
    twice[..4].copy_from_slice(&4u32.to_le_bytes());
    twice.extend_from_slice(&one[4..]);
    assert_eq!(
        decode_state_snapshot(&twice).err().unwrap(),
        "duplicate snapshot cell reference"
    );
}
