//! Records that are routed by their receiver: each input goes to the worker that
//! owns its shard, and each worker visits only its own.
use crate::batch;
use crate::batch::{BatchEngine, BatchTotals, WorkItem};
use crate::bundle;
use crate::bundle::{input_shard, Layout};
use crate::engine::VALUE;
use crate::envelope;
use crate::envelope::{
    encode_record, open_record, record_checksum, route_inputs, tag_record, transaction_inputs,
    RecordFault, MAX_ARITY, MIN_RECORD,
};
use crate::text::text;
use vstd::prelude::*;

verus! {

pub const MAGIC: u64 = 0xCA11_BAEA_0000_0010;

pub const INPUT_SALT: u64 = 0xA11C_E001_5EED_0010;

pub const CONFLICT_SALT: u64 = 0xC0AF_11C7_0000_0010;

pub const OUTPUT_SALT: u64 = 0x0A7B_17A5_F00D_0010;

/// The part of a route that is the number of an input.
pub const SERIAL_MASK: u64 = 0x0000_FFFF_FFFF_FFFF;

/// What a run works on.
pub open spec fn routed_layout(
    txs: u64,
    arity: u64,
    shards: usize,
    bits: u32,
    conflict_pct: u32,
) -> Layout {
    Layout {
        txs,
        arity,
        shards,
        bits,
        conflict_pct,
        input_salt: INPUT_SALT,
        conflict_salt: CONFLICT_SALT,
        output_salt: OUTPUT_SALT,
    }
}

pub fn layout(txs: u64, arity: u64, shards: usize, bits: u32, conflict_pct: u32) -> (r: Layout)
    ensures
        r == routed_layout(txs, arity, shards, bits, conflict_pct),
{
    Layout {
        txs,
        arity,
        shards,
        bits,
        conflict_pct,
        input_salt: INPUT_SALT,
        conflict_salt: CONFLICT_SALT,
        output_salt: OUTPUT_SALT,
    }
}

// ---------------------------------------------------------------------------
// Routes.
// ---------------------------------------------------------------------------

/// The route of an input: its number and its shard in one word.
pub open spec fn route_of(serial: u64, shard: usize) -> u64 {
    ((shard as u64) << 48) | serial
}

pub fn pack_route(serial: u64, shard: usize) -> (r: u64)
    requires
        serial <= SERIAL_MASK,
        shard < 0x1_0000,
    ensures
        r == route_of(serial, shard),
{
    ((shard as u64) << 48) | serial
}

/// The number and the shard that a route is of.
pub open spec fn route_parts(route: u64) -> (u64, u64) {
    (route & SERIAL_MASK, route >> 48)
}

pub fn unpack_route(route: u64) -> (r: (u64, usize))
    ensures
        (r.0, r.1 as u64) == route_parts(route),
        r.0 <= SERIAL_MASK,
        r.1 < 0x1_0000,
{
    assert(route >> 48 < 0x1_0000u64 && route & 0x0000_FFFF_FFFF_FFFFu64
        <= 0x0000_FFFF_FFFF_FFFFu64) by (bit_vector);
    (route & SERIAL_MASK, (route >> 48) as usize)
}

/// A route gives back what it was made of.
pub proof fn law_route_round_trip(serial: u64, shard: usize)
    requires
        serial <= SERIAL_MASK,
        shard < 0x1_0000,
    ensures
        route_parts(route_of(serial, shard)) == (serial, shard as u64),
{
    let sid = shard as u64;
    assert(((sid << 48) | serial) & 0x0000_FFFF_FFFF_FFFFu64 == serial && ((sid << 48) | serial)
        >> 48 == sid) by (bit_vector)
        requires
            serial <= 0x0000_FFFF_FFFF_FFFFu64,
            sid < 0x1_0000u64,
    ;
}

/// No two inputs have the same route, and no route of an input is all ones.
pub proof fn law_routes_are_apart(a: u64, p: usize, b: u64, q: usize)
    requires
        a <= SERIAL_MASK,
        b <= SERIAL_MASK,
        p < 0x1_0000,
        q < 0x1_0000,
        route_of(a, p) == route_of(b, q),
    ensures
        a == b,
        p == q,
{
    law_route_round_trip(a, p);
    law_route_round_trip(b, q);
}

// ---------------------------------------------------------------------------
// Owners.
// ---------------------------------------------------------------------------

/// Whether a mask holds a position.
pub open spec fn bit_in(mask: u8, k: int) -> bool {
    (mask >> (k as u8)) & 1 == 1
}

/// Each worker's mask holds the positions of the inputs whose shards it owns.
pub open spec fn masks_fit(l: Layout, inputs: Seq<u64>, workers: int, masks: Seq<u8>) -> bool {
    &&& masks.len() == workers
    &&& forall|w: int, k: int|
        0 <= w < workers && 0 <= k < 8 ==> (#[trigger] bit_in(masks[w], k) <==> k < inputs.len()
            && bundle::input_place(l, inputs[k]).0 as int % workers == w)
}

/// For each worker, the positions of the inputs that it owns.
pub fn owner_masks(l: &Layout, inputs: &Vec<u64>, workers: usize) -> (r: Vec<u8>)
    requires
        l.shards > 0,
        workers > 0,
        inputs@.len() <= MAX_ARITY,
    ensures
        masks_fit(*l, inputs@, workers as int, r@),
{
    let mut masks: Vec<u8> = Vec::new();
    let mut w: usize = 0;
    while w < workers
        invariant
            w <= workers,
            masks@.len() == w,
            forall|i: int| 0 <= i < w ==> (#[trigger] masks@[i]) == 0,
        decreases workers - w,
    {
        masks.push(0);
        w = w + 1;
    }
    assert forall|w: int, k: int| 0 <= w < workers && 0 <= k < 8 implies !#[trigger] bit_in(
        masks@[w],
        k,
    ) by {
        let j = k as u8;
        assert((0u8 >> j) & 1 == 0) by (bit_vector);
    }
    let mut k: usize = 0;
    while k < inputs.len()
        invariant
            l.shards > 0,
            workers > 0,
            k <= inputs@.len() <= MAX_ARITY,
            masks@.len() == workers,
            forall|w: int, j: int|
                0 <= w < workers && 0 <= j < 8 ==> (#[trigger] bit_in(masks@[w], j) <==> j < k
                    && bundle::input_place(*l, inputs@[j]).0 as int % workers as int == w),
        decreases inputs@.len() - k,
    {
        let owner: usize = input_shard(l, inputs[k]) % workers;
        let ghost before = masks@;
        let mask: u8 = masks[owner];
        let bit: u8 = k as u8;
        masks.set(owner, mask | (1u8 << bit));
        assert forall|w: int, j: int| 0 <= w < workers && 0 <= j < 8 implies (#[trigger] bit_in(
            masks@[w],
            j,
        ) <==> j < k + 1 && bundle::input_place(*l, inputs@[j]).0 as int % workers as int == w) by {
            assert(bit_in(before[w], j) <==> j < k && bundle::input_place(*l, inputs@[j]).0 as int
                % workers as int == w);
            let p = j as u8;
            if w == owner {
                assert(((mask | (1u8 << bit)) >> p) & 1 == 1 <==> (p == bit || (mask >> p) & 1
                    == 1)) by (bit_vector)
                    requires
                        p < 8,
                        bit < 8,
                ;
            }
        }
        k = k + 1;
    }
    masks
}

/// The positions below `n` that a mask holds.
pub open spec fn positions(mask: u8, n: int) -> Seq<usize>
    decreases n,
{
    if n <= 0 {
        Seq::empty()
    } else if bit_in(mask, n - 1) {
        positions(mask, n - 1).push((n - 1) as usize)
    } else {
        positions(mask, n - 1)
    }
}

/// The positions that a mask holds, in order.
pub fn mask_positions(mask: u8) -> (r: Vec<usize>)
    ensures
        r@ == positions(mask, 8),
{
    let mut out: Vec<usize> = Vec::new();
    let mut k: u8 = 0;
    while k < 8
        invariant
            k <= 8,
            out@ == positions(mask, k as int),
        decreases 8 - k,
    {
        if (mask >> k) & 1 == 1 {
            out.push(k as usize);
        }
        k = k + 1;
    }
    out
}

/// Every input is visited once: the mask of its owner holds its position, and the
/// mask of no other worker does.
pub proof fn law_every_input_is_owned_once(
    l: Layout,
    inputs: Seq<u64>,
    workers: int,
    masks: Seq<u8>,
    k: int,
    w: int,
)
    requires
        0 < workers,
        inputs.len() <= MAX_ARITY,
        masks_fit(l, inputs, workers, masks),
        0 <= k < inputs.len(),
        0 <= w < workers,
    ensures
        0 <= bundle::input_place(l, inputs[k]).0 as int % workers < workers,
        bit_in(masks[w], k) <==> w == bundle::input_place(l, inputs[k]).0 as int % workers,
{
    vstd::arithmetic::div_mod::lemma_mod_bound(
        bundle::input_place(l, inputs[k]).0 as int,
        workers,
    );
    assert(bit_in(masks[w], k) <==> k < inputs.len() && bundle::input_place(l, inputs[k]).0 as int
        % workers == w);
}

// ---------------------------------------------------------------------------
// Records.
// ---------------------------------------------------------------------------

pub fn wire_tag(tx: u64, arity: usize, declared_value: u64, inputs: &[u64]) -> (r: u64)
    requires
        arity <= inputs@.len(),
        arity <= MAX_ARITY,
    ensures
        r == envelope::tag_after(MAGIC, tx, arity as u64, declared_value, inputs@, arity as int),
{
    tag_record(MAGIC, tx, arity, declared_value, inputs)
}

/// The words for a refused record.
pub open spec fn wire_fault_words(fault: RecordFault) -> Seq<char> {
    match fault {
        RecordFault::Order => "PERF-010 wire tx ordering mismatch"@,
        RecordFault::Arity => "PERF-010 wire arity mismatch"@,
        RecordFault::Value => "PERF-010 value mismatch"@,
        RecordFault::Integrity => "PERF-010 integrity mismatch"@,
    }
}

pub fn wire_fault_text(fault: RecordFault) -> (r: String)
    ensures
        r@ == wire_fault_words(fault),
{
    match fault {
        RecordFault::Order => text("PERF-010 wire tx ordering mismatch"),
        RecordFault::Arity => text("PERF-010 wire arity mismatch"),
        RecordFault::Value => text("PERF-010 value mismatch"),
        RecordFault::Integrity => text("PERF-010 integrity mismatch"),
    }
}

/// The checksum of the records of the transactions from `start` up to `end`.
pub open spec fn wire_sum(magic: u64, l: Layout, size: int, start: int, end: int) -> u64
    decreases end - start,
{
    if end <= start {
        0
    } else {
        let tx = (end - 1) as u64;
        wire_sum(magic, l, size, start, end - 1) ^ envelope::record_sum(
            envelope::full_record(magic, tx, envelope::tx_serials(l, tx), size),
        )
    }
}

/// Sends a record and receives it again: its inputs and what it adds to the
/// checksum.
pub fn pass_record(magic: u64, l: &Layout, tx: u64, record_size: usize) -> (r: Result<
    (Vec<u64>, u64),
    RecordFault,
>)
    requires
        bundle::layout_ok(*l),
        l.arity <= MAX_ARITY,
        tx < l.txs,
        record_size >= MIN_RECORD,
    ensures
        r matches Ok(p) && p.0@ == envelope::tx_serials(*l, tx) && p.1 == envelope::record_sum(
            envelope::full_record(magic, tx, envelope::tx_serials(*l, tx), record_size as int),
        ),
{
    let inputs: Vec<u64> = transaction_inputs(l, tx);
    let record: Vec<u8> = encode_record(magic, tx, &inputs, record_size);
    proof {
        envelope::law_envelope_round_trip(magic, tx, inputs@, record_size as int, tx);
    }
    match open_record(magic, &record, tx, l.arity as usize) {
        Ok(inputs) => Ok((inputs, record_checksum(&record))),
        Err(fault) => Err(fault),
    }
}

/// Passes the records of a batch: the places of all their inputs, and their
/// checksum.
pub fn pass_batch(magic: u64, l: &Layout, start: u64, end: u64, record_size: usize) -> (r: Result<
    (Vec<WorkItem>, u64),
    RecordFault,
>)
    requires
        bundle::layout_ok(*l),
        l.arity <= MAX_ARITY,
        start <= end <= l.txs,
        record_size >= MIN_RECORD,
    ensures
        r matches Ok(p) && p.0@ == batch::items_of(*l, start as int, end as int) && p.1 == wire_sum(
            magic,
            *l,
            record_size as int,
            start as int,
            end as int,
        ),
{
    let mut items: Vec<WorkItem> = Vec::new();
    let mut sum: u64 = 0;
    let mut tx: u64 = start;
    while tx < end
        invariant
            bundle::layout_ok(*l),
            l.arity <= MAX_ARITY,
            start <= tx <= end <= l.txs,
            record_size >= MIN_RECORD,
            items@ == batch::items_of(*l, start as int, tx as int),
            sum == wire_sum(magic, *l, record_size as int, start as int, tx as int),
        decreases end - tx,
    {
        let (inputs, share): (Vec<u64>, u64) = match pass_record(magic, l, tx, record_size) {
            Ok(p) => p,
            Err(fault) => return Err(fault),
        };
        proof {
            envelope::lemma_routed(*l, tx);
        }
        route_inputs(l, tx, &inputs, &mut items);
        sum = sum ^ share;
        tx = tx + 1;
    }
    Ok((items, sum))
}

/// What a run gives.
#[derive(Clone, Copy, Debug, PartialEq, Eq, Structural)]
pub struct WireTotals {
    pub totals: BatchTotals,
    pub wire_checksum: u64,
}

/// Sends, receives and runs all transactions, in batches.
pub fn run_case(l: &Layout, batch_size: u64, record_size: usize) -> (r: Result<
    WireTotals,
    RecordFault,
>)
    requires
        bundle::layout_ok(*l),
        l.arity <= MAX_ARITY,
        batch_size > 0,
        record_size >= MIN_RECORD,
    ensures
        r matches Ok(t) && {
            let end = batch::batch_run(*l, batch_size as int, l.txs as int);
            &&& t.totals.committed == end.committed
            &&& t.totals.committed + t.totals.aborted == l.txs
            &&& t.totals.checksum == end.checksum
            &&& t.totals.final_cells == bundle::inputs_total(*l) - t.totals.committed * l.arity
                + t.totals.committed
            &&& t.totals.total_value == bundle::inputs_total(*l) * VALUE
            &&& l.conflict_pct == 0 ==> t.totals.aborted == 0
            &&& t.wire_checksum == wire_sum(MAGIC, *l, record_size as int, 0, l.txs as int)
        },
{
    let mut engine: BatchEngine = BatchEngine::new(l);
    let mut start: u64 = 0;
    let mut sum: u64 = 0;
    let ghost mut q: int = 0;
    assert(0 * batch_size == 0) by (nonlinear_arith);
    while start < l.txs
        invariant
            bundle::layout_ok(*l),
            l.arity <= MAX_ARITY,
            record_size >= MIN_RECORD,
            batch_size > 0,
            start <= l.txs,
            start < l.txs ==> start == q * batch_size,
            0 <= q,
            engine@ == batch::batch_run(*l, batch_size as int, start as int),
            batch::batches_ok(*l, engine@, start as int),
            sum == wire_sum(MAGIC, *l, record_size as int, 0, start as int),
        decreases l.txs - start,
    {
        let end: u64 = if l.txs - start > batch_size {
            start + batch_size
        } else {
            l.txs
        };
        proof {
            batch::lemma_batch_step(batch_size as int, q, start as int, end as int);
            batch::lemma_work_items(*l, start as int, end as int);
            lemma_wire_sum(MAGIC, *l, record_size as int, 0, start as int, end as int);
            q = q + 1;
        }
        let (items, share): (Vec<WorkItem>, u64) = match pass_batch(
            MAGIC,
            l,
            start,
            end,
            record_size,
        ) {
            Ok(p) => p,
            Err(fault) => return Err(fault),
        };
        engine.run_work(l, &items, start, end);
        sum = sum ^ share;
        start = end;
    }
    proof {
        batch::law_run_conserves_value(*l, batch_size as int, l.txs as int);
        if l.conflict_pct == 0 {
            batch::law_batches_commit_all(*l, batch_size as int, l.txs as int);
        }
    }
    Ok(WireTotals { totals: engine.totals(l), wire_checksum: sum })
}

/// The checksum of a stretch of records is that of its two parts together.
pub proof fn lemma_wire_sum(magic: u64, l: Layout, size: int, start: int, mid: int, end: int)
    requires
        start <= mid <= end,
    ensures
        wire_sum(magic, l, size, start, end) == wire_sum(magic, l, size, start, mid) ^ wire_sum(
            magic,
            l,
            size,
            mid,
            end,
        ),
    decreases end - mid,
{
    if mid == end {
        let a = wire_sum(magic, l, size, start, mid);
        assert(a ^ 0u64 == a) by (bit_vector);
    } else {
        lemma_wire_sum(magic, l, size, start, mid, end - 1);
        let tx = (end - 1) as u64;
        let a = wire_sum(magic, l, size, start, mid);
        let b = wire_sum(magic, l, size, mid, end - 1);
        let c = envelope::record_sum(envelope::full_record(magic, tx, envelope::tx_serials(l, tx), size));
        assert((a ^ b) ^ c == a ^ (b ^ c)) by (bit_vector);
    }
}

/// The positions of a mask are those of its bits that are set, from the lowest on.
pub proof fn law_positions_are_those_of_the_bits(mask: u8, n: int)
    requires
        0 <= n <= 8,
    ensures
        forall|k: usize| #[trigger] positions(mask, n).contains(k) <==> k < n && bit_in(
            mask,
            k as int,
        ),
        forall|i: int, j: int|
            0 <= i < j < positions(mask, n).len() ==> positions(mask, n)[i] < positions(mask, n)[j],
    decreases n,
{
    if n > 0 {
        law_positions_are_those_of_the_bits(mask, n - 1);
        let before = positions(mask, n - 1);
        let after = positions(mask, n);
        assert forall|i: int| 0 <= i < before.len() implies #[trigger] before[i] < n - 1 by {
            assert(before.contains(before[i]));
        }
        assert forall|k: usize| #[trigger] after.contains(k) <==> k < n && bit_in(
            mask,
            k as int,
        ) by {
            assert(before.contains(k) <==> k < n - 1 && bit_in(mask, k as int));
            if before.contains(k) {
                let i = choose|i: int| 0 <= i < before.len() && before[i] == k;
                assert(after[i] == k);
            }
            if k == n - 1 && bit_in(mask, n - 1) {
                assert(after[after.len() - 1] == k);
            }
            if after.contains(k) {
                let i = choose|i: int| 0 <= i < after.len() && after[i] == k;
                if i < before.len() {
                    assert(before[i] == k);
                }
            }
        }
    }
}

} // verus!
