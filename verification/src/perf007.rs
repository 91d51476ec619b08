//! Batches of a fixed size.
use crate::batch;
use crate::batch::{run_batches, BatchTotals};
use crate::bundle;
use crate::bundle::Layout;
use vstd::prelude::*;

verus! {

pub const INPUT_SALT: u64 = 0xA11C_E001_5EED_0007;

pub const CONFLICT_SALT: u64 = 0xC0AF_11C7_0000_0007;

pub const OUTPUT_SALT: u64 = 0x0A7B_17A5_F00D_0007;

/// What a run works on.
pub open spec fn microbatch_layout(
    txs: u64,
    arity: u64,
    shards: usize,
    bits: u32,
    conflict_pct: u32,
) -> Layout {
    Layout {
        txs,
        arity,
        shards,
        bits,
        conflict_pct,
        input_salt: INPUT_SALT,
        conflict_salt: CONFLICT_SALT,
        output_salt: OUTPUT_SALT,
    }
}

pub fn layout(txs: u64, arity: u64, shards: usize, bits: u32, conflict_pct: u32) -> (r: Layout)
    ensures
        r == microbatch_layout(txs, arity, shards, bits, conflict_pct),
{
    Layout {
        txs,
        arity,
        shards,
        bits,
        conflict_pct,
        input_salt: INPUT_SALT,
        conflict_salt: CONFLICT_SALT,
        output_salt: OUTPUT_SALT,
    }
}

/// Runs all transactions in batches.
pub fn run_case(l: &Layout, batch_size: u64) -> (r: BatchTotals)
    requires
        bundle::layout_ok(*l),
        batch_size > 0,
    ensures
        r.committed == batch::batch_run(*l, batch_size as int, l.txs as int).committed,
        r.committed + r.aborted == l.txs,
        r.checksum == batch::batch_run(*l, batch_size as int, l.txs as int).checksum,
        r.final_cells == bundle::inputs_total(*l) - r.committed * l.arity + r.committed,
        r.total_value == bundle::inputs_total(*l) * crate::engine::VALUE,
        l.conflict_pct == 0 ==> r.aborted == 0,
{
    run_batches(l, batch_size)
}

/// The shards that a worker owns: one in `workers`, from its own number on.
pub open spec fn owned_count(shards: int, workers: int, w: int) -> int {
    if w < shards {
        (shards - 1 - w) / workers + 1
    } else {
        0
    }
}

pub fn owned_shards(shards: usize, workers: usize, w: usize) -> (r: usize)
    requires
        workers > 0,
        shards > 0,
    ensures
        r == owned_count(shards as int, workers as int, w as int),
{
    if w < shards {
        proof {
            let q = (shards - 1 - w) / workers as int;
            assert(q <= shards - 1 - w) by (nonlinear_arith)
                requires
                    q == (shards - 1 - w) / workers as int,
                    workers > 0,
                    shards - 1 - w >= 0,
            ;
        }
        (shards - 1 - w) / workers + 1
    } else {
        0
    }
}

/// Every shard has one owner, and a place among the shards of its owner.
pub proof fn law_every_shard_is_owned(shards: int, workers: int, sid: int)
    requires
        0 <= sid < shards,
        0 < workers,
    ensures
        0 <= sid % workers < workers,
        0 <= sid / workers < owned_count(shards, workers, sid % workers),
        (sid / workers) * workers + sid % workers == sid,
{
    vstd::arithmetic::div_mod::lemma_fundamental_div_mod(sid, workers);
    vstd::arithmetic::div_mod::lemma_mod_bound(sid, workers);
    vstd::arithmetic::div_mod::lemma_div_pos_is_pos(sid, workers);
    let (w, q) = (sid % workers, sid / workers);
    assert(workers * q == q * workers) by (nonlinear_arith);
    assert(w <= sid) by (nonlinear_arith)
        requires
            sid == workers * q + w,
            q >= 0,
            workers > 0,
    ;
    assert(q <= (shards - 1 - w) / workers) by {
        assert(shards - 1 - w >= q * workers);
        vstd::arithmetic::div_mod::lemma_div_is_ordered(q * workers, shards - 1 - w, workers);
        vstd::arithmetic::div_mod::lemma_div_by_multiple(q, workers);
    }
}

/// A worker owns as many shards as the shards are dealt out to the workers in turn.
pub proof fn law_shards_are_dealt_to_workers(shards: int, workers: int, w: int)
    requires
        0 < shards,
        0 <= w < workers,
    ensures
        owned_count(shards, workers, w) == crate::engine::dealt(shards, workers, w),
{
    let q = shards / workers;
    let r = shards % workers;
    vstd::arithmetic::div_mod::lemma_fundamental_div_mod(shards, workers);
    assert(0 <= r < workers && shards == workers * q + r);
    if w < shards {
        let x = shards - 1 - w;
        if w < r {
            assert(x == q * workers + (r - 1 - w)) by (nonlinear_arith)
                requires
                    x == shards - 1 - w,
                    shards == workers * q + r,
            ;
            vstd::arithmetic::div_mod::lemma_fundamental_div_mod_converse(x, workers, q, r - 1 - w);
        } else {
            assert(x == (q - 1) * workers + (workers + r - 1 - w)) by (nonlinear_arith)
                requires
                    x == shards - 1 - w,
                    shards == workers * q + r,
            ;
            vstd::arithmetic::div_mod::lemma_fundamental_div_mod_converse(
                x,
                workers,
                q - 1,
                workers + r - 1 - w,
            );
        }
    } else {
        assert(q == 0 && r == shards) by (nonlinear_arith)
            requires
                shards == workers * q + r,
                0 < shards <= w < workers,
                0 <= r < workers,
        ;
    }
}

} // verus!
