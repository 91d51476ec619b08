use calibre::batch::WorkItem;
use calibre::engine::{
    make_id, mix64, parse_list, shard_bits, shard_of, stream_count, stream_has_range,
    successor_id, turn, Cell, U64Hasher, VALUE,
};
use calibre::envelope::{
    encode_record, open_record, receive_record, record_checksum, transaction_inputs, RecordFault,
    WireFault,
};
use calibre::perf010::{mask_positions, owner_masks, pack_route, unpack_route};
use calibre::perf014::{lane_capacities, read_batch, Lane, StreamReceiver};
use calibre::streams::{expected_streams, BatchCursor};
use calibre::{perf002, perf003, perf004, perf005, perf007, perf008, perf010, perf014};

#[test]
fn shard_preserved() {
    let shards = 256usize;
    let bits = shards.trailing_zeros();
    let mask = shards as u64 - 1;
    let c = Cell { id: make_id(123, 77, bits), value: VALUE, generation: 9 };
    assert_eq!(shard_of(successor_id(c, 5, bits, mask), mask), 77);
}

#[test]
fn sharded_engine_preserves_count() {
    let r = perf002::run_case(100_000, 256, 8).unwrap();
    assert_eq!(r.processed, 100_000);
    assert_eq!(r.final_cells, 100_000);
}

#[test]
fn main_shard_preserved() {
    let shards = 1024usize;
    let bits = shards.trailing_zeros();
    let mask = shards as u64 - 1;
    let c = Cell { id: make_id(123, 777, bits), value: VALUE, generation: 9 };
    assert_eq!(shard_of(successor_id(c, 5, bits, mask), mask), 777);
}

#[test]
fn account_hot_count_is_safe() {
    let mut account = perf003::HotAccount::new();
    let r = perf003::run_case(perf003::Mode::SharedAccount, 100_000, 256, 8, 50, &mut account)
        .unwrap();
    assert_eq!(r.processed, 100_000);
    assert!(r.hot_ops > 40_000 && r.hot_ops < 60_000);
    assert_eq!(account.received, r.hot_ops);
}

#[test]
fn output_hot_receiver_runs_without_shared_account() {
    let mut account = perf003::HotAccount::new();
    let r = perf003::run_case(perf003::Mode::IndependentReceive, 100_000, 256, 8, 50, &mut account)
        .unwrap();
    assert_eq!(r.processed, 100_000);
    assert!(r.hot_ops > 40_000 && r.hot_ops < 60_000);
    assert_eq!(account.received, 0);
}

#[test]
fn input_ids_are_sharded_and_unique() {
    let shards = 256usize;
    let bits = shards.trailing_zeros();
    let a = perf004::input_id(1, shards, bits);
    let b = perf004::input_id(2, shards, bits);
    assert_ne!(a, b);
    assert_eq!((a & (shards as u64 - 1)) as usize, perf004::input_shard(1, shards));
}

#[test]
fn atomic_bundle_preserves_value_arity4() {
    let r = perf004::run_case(20_000, 4, 256, 8);
    assert_eq!(r.final_cells, 20_000);
    assert_eq!(r.total_value, 20_000u128 * 4u128 * VALUE as u128);
}

#[test]
fn atomic_bundle_preserves_value_arity8() {
    let r = perf004::run_case(10_000, 8, 256, 8);
    assert_eq!(r.final_cells, 10_000);
    assert_eq!(r.total_value, 10_000u128 * 8u128 * VALUE as u128);
}

#[test]
fn batch_no_conflict_commits_all_and_preserves_value() {
    let r = perf005::run_batch(&perf005::layout(20_000, 4, 256, 8, 0));
    assert_eq!(r.committed, 20_000);
    assert_eq!(r.aborted, 0);
    assert_eq!(r.total_value, 20_000u128 * 4u128 * VALUE as u128);
}

#[test]
fn batch_conflict_aborts_without_partial_value_loss() {
    let r = perf005::run_batch(&perf005::layout(20_000, 4, 256, 8, 10));
    assert!(r.aborted > 0);
    assert_eq!(r.committed + r.aborted, 20_000);
    assert_eq!(r.total_value, 20_000u128 * 4u128 * VALUE as u128);
}

#[test]
fn lock_conflict_aborts_without_partial_value_loss() {
    let r = perf005::run_lock(&perf005::layout(20_000, 4, 256, 8, 10));
    assert!(r.aborted > 0);
    assert_eq!(r.committed + r.aborted, 20_000);
    assert_eq!(r.total_value, 20_000u128 * 4u128 * VALUE as u128);
}

#[test]
fn fused_no_conflict_preserves_value() {
    let r = perf007::run_case(&perf007::layout(20_000, 8, 256, 8, 0), 1024);
    assert_eq!(r.committed, 20_000);
    assert_eq!(r.aborted, 0);
}

#[test]
fn fused_conflict_rolls_back_safely() {
    let r = perf007::run_case(&perf007::layout(20_000, 8, 256, 8, 10), 1024);
    assert_eq!(r.committed + r.aborted, 20_000);
    assert!(r.aborted > 0);
}

#[test]
fn tiny_fused_batches_run() {
    let r = perf007::run_case(&perf007::layout(10_000, 4, 256, 8, 0), 256);
    assert_eq!(r.committed, 10_000);
}

#[test]
fn stream_partition_covers_total() {
    let total = 100_003u64;
    let streams = 7usize;
    let sum: u64 = (0..streams).map(|s| stream_count(total, streams, s)).sum();
    assert_eq!(sum, total);
}

#[test]
fn loopback_records_round_trip() {
    let (txs, record_size, streams) = (20_000u64, 64usize, 2usize);
    let mut seen = 0u64;
    let mut checksum = 0u64;
    for s in 0..streams {
        for i in 0..stream_count(txs, streams, s) {
            let tx = perf008::stream_tx(s, streams, i);
            let record = perf008::encode_record(tx, record_size);
            assert_eq!(record.len(), record_size);
            checksum ^= perf008::check_record(&record, tx).unwrap();
            seen += 1;
        }
    }
    assert_eq!(seen, 20_000);
    let expected = (0..txs).fold(0u64, |sum, tx| {
        sum ^ mix64(tx ^ mix64(tx ^ perf008::MAGIC) ^ record_size as u64)
    });
    assert_eq!(checksum, expected);
}

#[test]
fn plain_records_are_refused_out_of_turn_or_changed() {
    let mut record = perf008::encode_record(5, 32);
    assert_eq!(&record[..8], &5u64.to_le_bytes());
    assert_eq!(record[31], 0xA5);
    assert_eq!(perf008::check_record(&record, 6).unwrap_err(), "wire tx ordering mismatch");
    record[9] ^= 1;
    assert_eq!(perf008::check_record(&record, 5).unwrap_err(), "wire record integrity mismatch");
}

#[test]
fn route_pack_round_trip() {
    let route = pack_route(7_654_321, 1023);
    let (serial, shard) = unpack_route(route);
    assert_eq!(serial, 7_654_321);
    assert_eq!(shard, 1023);
}

#[test]
fn integrated_owner_routing_no_conflict() {
    let l = perf010::layout(20_000, 8, 256, 8, 0);
    let r = perf010::run_case(&l, 1024, 128).unwrap();
    assert_eq!(r.totals.committed, 20_000);
    assert_eq!(r.totals.aborted, 0);
}

#[test]
fn integrated_owner_routing_conflict_rolls_back() {
    let l = perf010::layout(20_000, 8, 256, 8, 10);
    let r = perf010::run_case(&l, 1024, 128).unwrap();
    assert_eq!(r.totals.committed + r.totals.aborted, 20_000);
    assert!(r.totals.aborted > 0);
}

#[test]
fn stream_partition_and_lane_capacity() {
    let total = 100_003u64;
    let streams = 7usize;
    let sum: u64 = (0..streams).map(|s| stream_count(total, streams, s)).sum();
    assert_eq!(sum, total);
    assert!(stream_has_range(0, 4096, streams, 0));
}

#[test]
fn spsc_lane_round_trip() {
    let mut lane = Lane::new(4, 1);
    lane.write(0, WorkItem { tx: 7, slot: 3, id: 99 });
    lane.publish(0, 0, 1);
    let (a, b) = lane.range(0);
    assert_eq!((a, b), (0, 1));
    let x = lane.read(0);
    assert_eq!(x.tx, 7);
    assert_eq!(x.slot, 3);
    assert_eq!(x.id, 99);
}

#[test]
fn integrated_lane_no_conflict_preserves_value() {
    let l = perf014::layout(20_000, 8, 256, 8, 0);
    let r = perf014::run_case(&l, 2, 4, 1024, 128).unwrap();
    assert_eq!(r.totals.committed, 20_000);
    assert_eq!(r.totals.aborted, 0);
}

#[test]
fn integrated_lane_conflict_rolls_back() {
    let l = perf014::layout(20_000, 8, 256, 8, 10);
    let r = perf014::run_case(&l, 2, 4, 1024, 128).unwrap();
    assert_eq!(r.totals.committed + r.totals.aborted, 20_000);
    assert!(r.totals.aborted > 0);
}

#[test]
fn batches_of_any_size_commit_all_without_conflicts() {
    for size in [1, 7, 500, 1000] {
        let r = perf007::run_case(&perf007::layout(500, 3, 16, 4, 0), size);
        assert_eq!((r.committed, r.aborted, r.final_cells), (500, 0, 500));
    }
}

#[test]
fn totals_are_checked_against_what_they_have_to_be() {
    assert_eq!(perf005::validate_final(4, 400, 1, 200, 3, 2, 1), Some((5, 600)));
    assert_eq!(perf005::validate_final(4, 400, 1, 100, 3, 2, 1), None);
    assert_eq!(perf005::validate_final(5, 500, 1, 100, 3, 2, 1), None);
}

#[test]
fn every_shard_has_an_owner() {
    for (shards, workers) in [(256, 4), (7, 3), (1, 1), (4, 8)] {
        let sum: usize = (0..workers).map(|w| perf007::owned_shards(shards, workers, w)).sum();
        assert_eq!(sum, shards);
    }
}

#[test]
fn envelopes_carry_their_inputs_and_are_checked() {
    let inputs = [3u64, 9, 27];
    let record = encode_record(perf010::MAGIC, 5, &inputs, 128);
    assert_eq!(record.len(), 128);
    assert_eq!(&record[0..8], &5u64.to_le_bytes());
    assert_eq!(&record[16..24], &3u64.to_le_bytes());
    assert_eq!(&record[80..88], &300u64.to_le_bytes());
    assert_eq!(&record[88..96], &3u64.to_le_bytes());
    assert_eq!(record[127], 0xA5);
    let tag = perf010::wire_tag(5, 3, 300, &inputs);
    assert_eq!(&record[8..16], &tag.to_le_bytes());
    assert_eq!(open_record(perf010::MAGIC, &record, 5, 3).unwrap(), inputs);
    assert_eq!(open_record(perf010::MAGIC, &record, 6, 3), Err(RecordFault::Order));
    assert_eq!(open_record(perf010::MAGIC, &record, 5, 2), Err(RecordFault::Arity));
    assert_eq!(open_record(perf014::MAGIC, &record, 5, 3), Err(RecordFault::Integrity));
    let mut richer = record.clone();
    richer[80] += 1;
    assert_eq!(open_record(perf010::MAGIC, &richer, 5, 3), Err(RecordFault::Value));
    let mut moved = record.clone();
    moved[16] ^= 1;
    assert_eq!(open_record(perf010::MAGIC, &moved, 5, 3), Err(RecordFault::Integrity));
    let mut filled = record;
    filled[50] ^= 1;
    assert_eq!(open_record(perf010::MAGIC, &filled, 5, 3).unwrap(), inputs);
    assert_eq!(
        perf010::wire_fault_text(RecordFault::Order),
        "PERF-010 wire tx ordering mismatch"
    );
    assert_eq!(
        perf014::lane_fault_text(RecordFault::Value),
        "PERF-014 declared value mismatch"
    );
}

#[test]
fn every_input_is_in_one_mask() {
    let l = perf010::layout(100, 8, 256, 8, 0);
    let inputs: Vec<u64> = (40..48).collect();
    let masks = owner_masks(&l, &inputs, 4);
    assert_eq!(masks.len(), 4);
    let mut positions: Vec<usize> =
        masks.iter().flat_map(|mask| mask_positions(*mask)).collect();
    positions.sort_unstable();
    assert_eq!(positions, (0..8).collect::<Vec<_>>());
    assert_eq!(mask_positions(0b1010_0001), [0, 5, 7]);
}

#[test]
fn lanes_hold_every_reference() {
    let l = perf014::layout(1000, 4, 64, 6, 10);
    let total: usize =
        (0..3).map(|s| lane_capacities(&l, 3, s, 5).iter().sum::<usize>()).sum();
    assert_eq!(total, 4000);
}

#[test]
fn a_batch_waits_for_the_streams_that_carry_it() {
    assert_eq!(expected_streams(10, 4, 3), [3, 3, 2]);
    assert_eq!(expected_streams(1, 4, 3), [1]);
    let mut cursor = BatchCursor::new();
    let finished: Vec<Option<u64>> = [0, 0, 2, 2, 3].map(|b| cursor.enter(b)).to_vec();
    assert_eq!(finished, [None, None, Some(0), None, Some(2)]);
    assert_eq!(cursor.finish(), Some(3));
    assert_eq!(cursor.finish(), None);
}

#[test]
fn numbers_are_mixed_as_expected() {
    assert_eq!(mix64(0), 0);
    assert_eq!(mix64(1), 0x5692161d100b05e5);
    assert_eq!(turn(0x8000_0000_0000_0001, 1), 3);
    assert_eq!(shard_bits(256), Some(8));
    assert_eq!(shard_bits(255), None);
    let mut hasher = U64Hasher::new();
    hasher.write_u64(77);
    assert_eq!(hasher.finish(), mix64(77));
    hasher.write(&[1, 2]);
    assert_eq!(hasher.finish(), mix64(0x0201));
}

#[test]
fn lists_are_read_from_arguments() {
    let args: Vec<String> =
        ["p", "--txs", "5, 7,x,9", "--empty", "x"].iter().map(|s| s.to_string()).collect();
    assert_eq!(parse_list(&args, "--txs", vec![1], u64::MAX), [5, 7, 9]);
    assert_eq!(parse_list(&args, "--txs", vec![1], 8), [5, 7]);
    assert_eq!(parse_list(&args, "--empty", vec![1], u64::MAX), [1]);
    assert_eq!(parse_list(&args, "--absent", vec![2, 3], u64::MAX), [2, 3]);
}

#[test]
fn streams_are_found_in_ranges() {
    for streams in 1..6usize {
        for start in 0..8u64 {
            for end in 0..12u64 {
                for s in 0..streams {
                    let expected = (start..end).any(|tx| tx as usize % streams == s);
                    assert_eq!(stream_has_range(start, end, streams, s), expected);
                }
            }
        }
    }
}

#[test]
fn shards_are_locked_once_and_in_ascending_order() {
    let layout = calibre::perf004::layout(100, 8, 4, 2);
    for tx in 0..100 {
        let order = calibre::bundle::lock_order(&layout, tx);
        assert!(order.windows(2).all(|pair| pair[0] < pair[1]));
        assert!(order.iter().all(|&shard| shard < 4));
        let output = calibre::bundle::output_shard(&layout, tx) as u64;
        assert!(order.contains(&output));
        for k in 0..8 {
            let serial = calibre::bundle::referenced_serial(&layout, tx, k);
            let shard = calibre::bundle::input_shard(&layout, serial) as u64;
            assert!(order.contains(&shard));
        }
    }
}

#[test]
fn received_records_reach_the_lanes_of_their_owners() {
    let l = perf014::layout(64, 4, 64, 6, 10);
    let caps = lane_capacities(&l, 1, 0, 3);
    let mut receiver = StreamReceiver::new(&caps, 1);
    let mut sent = Vec::new();
    for tx in 0..64u64 {
        let record = encode_record(perf014::MAGIC, tx, &transaction_inputs(&l, tx), 128);
        let (items, share) = receive_record(perf014::MAGIC, &l, tx, &record).unwrap();
        assert_eq!(items.len(), 4);
        assert_eq!(share, record_checksum(&record));
        assert!(receiver.place_items(&items));
        sent.extend(items);
    }
    assert_eq!(receiver.cursors, caps);
    // Every lane is of the size that it needs, so one reference more does not fit.
    assert!(!receiver.place_items(&vec![sent[0]]));
    assert_eq!(receiver.cursors, caps);
    receiver.flush(0);
    for (worker, lane) in receiver.lanes.iter().enumerate() {
        let mut read = Vec::new();
        read_batch(lane, 0, &mut read);
        let expected: Vec<WorkItem> =
            sent.iter().copied().filter(|item| item.slot % 3 == worker).collect();
        assert_eq!(read, expected);
    }
}

#[test]
fn records_that_name_no_cell_are_not_routed() {
    let l = perf010::layout(16, 2, 64, 6, 0);
    let record = encode_record(perf010::MAGIC, 3, &vec![7, u64::MAX], 96);
    assert_eq!(receive_record(perf010::MAGIC, &l, 3, &record), Err(WireFault::Serial));
    assert_eq!(
        receive_record(perf010::MAGIC, &l, 4, &record),
        Err(WireFault::Record(RecordFault::Order))
    );
    let mut torn = encode_record(perf010::MAGIC, 3, &transaction_inputs(&l, 3), 96);
    torn[20] ^= 1;
    assert_eq!(
        receive_record(perf010::MAGIC, &l, 3, &torn),
        Err(WireFault::Record(RecordFault::Integrity))
    );
}
