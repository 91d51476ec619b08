//! Two ways to make bundles that may conflict: one transaction at a time, and all
//! of them in one batch.
use crate::batch;
use crate::batch::{run_batches, BatchTotals};
use crate::bundle;
use crate::bundle::{run_bundles, BundleTotals, Layout};
use vstd::prelude::*;

verus! {

pub const INPUT_SALT: u64 = 0xA11C_E001_5EED_0005;

pub const CONFLICT_SALT: u64 = 0xC0AF_11C7_0000_0005;

pub const OUTPUT_SALT: u64 = 0x0A7B_17A5_F00D_0005;

/// What a run works on.
pub open spec fn contended_layout(
    txs: u64,
    arity: u64,
    shards: usize,
    bits: u32,
    conflict_pct: u32,
) -> Layout {
    Layout {
        txs,
        arity,
        shards,
        bits,
        conflict_pct,
        input_salt: INPUT_SALT,
        conflict_salt: CONFLICT_SALT,
        output_salt: OUTPUT_SALT,
    }
}

pub fn layout(txs: u64, arity: u64, shards: usize, bits: u32, conflict_pct: u32) -> (r: Layout)
    ensures
        r == contended_layout(txs, arity, shards, bits, conflict_pct),
{
    Layout {
        txs,
        arity,
        shards,
        bits,
        conflict_pct,
        input_salt: INPUT_SALT,
        conflict_salt: CONFLICT_SALT,
        output_salt: OUTPUT_SALT,
    }
}

/// Makes the transactions one at a time, in order.
pub fn run_lock(l: &Layout) -> (r: BundleTotals)
    requires
        bundle::layout_ok(*l),
        bundle::outputs_apart(*l),
    ensures
        r.committed == bundle::bundle_run(*l, l.txs as int).committed,
        r.committed + r.aborted == l.txs,
        r.checksum == bundle::bundle_run(*l, l.txs as int).checksum,
        r.final_cells == bundle::inputs_total(*l) - r.committed * l.arity + r.committed,
        r.total_value == bundle::inputs_total(*l) * crate::engine::VALUE,
{
    run_bundles(l)
}

/// Makes the transactions in one batch.
pub fn run_batch(l: &Layout) -> (r: BatchTotals)
    requires
        bundle::layout_ok(*l),
        l.txs > 0,
    ensures
        r.committed == batch::batch_run(*l, l.txs as int, l.txs as int).committed,
        r.committed + r.aborted == l.txs,
        r.checksum == batch::batch_run(*l, l.txs as int, l.txs as int).checksum,
        r.final_cells == bundle::inputs_total(*l) - r.committed * l.arity + r.committed,
        r.total_value == bundle::inputs_total(*l) * crate::engine::VALUE,
        l.conflict_pct == 0 ==> r.aborted == 0,
{
    run_batches(l, l.txs)
}

/// What the end of a run has to be.
pub open spec fn final_expected(
    final_cells: u64,
    total_value: u128,
    txs: u64,
    arity: u64,
    committed: u64,
) -> bool {
    &&& final_cells == txs * arity - committed * arity + committed
    &&& total_value == txs * arity * crate::engine::VALUE
}

/// Whether the cells left and the outputs add up to what the end of a run has to
/// be.
pub fn validate_final(
    remaining_cells: u64,
    remaining_value: u128,
    output_cells: u64,
    output_value: u128,
    txs: u64,
    arity: u64,
    committed: u64,
) -> (r: Option<(u64, u128)>)
    requires
        remaining_cells + output_cells <= u64::MAX,
        remaining_value + output_value <= u128::MAX,
        committed <= txs,
        arity >= 1,
        txs * arity <= u64::MAX,
    ensures
        match r {
            Some((cells, value)) => cells == remaining_cells + output_cells && value
                == remaining_value + output_value && final_expected(
                cells,
                value,
                txs,
                arity,
                committed,
            ),
            None => !final_expected(
                (remaining_cells + output_cells) as u64,
                (remaining_value + output_value) as u128,
                txs,
                arity,
                committed,
            ),
        },
{
    let final_cells: u64 = remaining_cells + output_cells;
    let total_value: u128 = remaining_value + output_value;
    proof {
        assert(committed * arity <= txs * arity) by (nonlinear_arith)
            requires
                committed <= txs,
                arity >= 1,
        ;
        assert(committed <= committed * arity) by (nonlinear_arith)
            requires
                arity >= 1,
                committed >= 0,
        ;
        assert(0 <= committed * arity) by (nonlinear_arith)
            requires
                committed >= 0,
                arity >= 1,
        ;
        assert(0 <= txs * arity) by (nonlinear_arith)
            requires
                txs >= 0,
                arity >= 1,
        ;
    }
    let initial: u64 = txs * arity;
    let expected_cells: u64 = initial - committed * arity + committed;
    let expected_value: u128 = initial as u128 * crate::engine::VALUE as u128;
    if final_cells == expected_cells && total_value == expected_value {
        Some((final_cells, total_value))
    } else {
        None
    }
}

/// What is left passes exactly if every transaction that was committed made one cell of its
/// inputs, and no value went: so after a run nothing else does.
pub proof fn law_final_state(
    final_cells: u64,
    total_value: u128,
    txs: u64,
    arity: u64,
    committed: u64,
)
    requires
        committed <= txs,
        1 <= arity,
    ensures
        final_expected(final_cells, total_value, txs, arity, committed) <==> {
            &&& final_cells + committed * (arity - 1) == txs * arity
            &&& total_value == 100 * (txs * arity)
        },
{
    assert(committed * (arity - 1) == committed * arity - committed) by (nonlinear_arith);
    assert(txs * arity * 100 == 100 * (txs * arity)) by (nonlinear_arith);
}

} // verus!
