//! Bundles without conflicts: every transaction takes its own inputs from several
//! shards and makes one output.
use crate::bundle;
use crate::bundle::{run_bundles, BundleTotals, Layout};
use crate::engine;
use crate::engine::{make_id, salted_shard};
use vstd::prelude::*;

verus! {

pub const INPUT_SALT: u64 = 0xA11C_E001_5EED_0001;

pub const OUTPUT_SALT: u64 = 0x0A7B_17A5_F00D_0004;

pub fn input_shard(serial: u64, shards: usize) -> (r: usize)
    requires
        shards > 0,
    ensures
        r == engine::shard_for(serial, INPUT_SALT, shards),
        r < shards,
{
    salted_shard(serial, INPUT_SALT, shards)
}

pub fn input_id(serial: u64, shards: usize, shard_bits: u32) -> (r: u64)
    requires
        shards > 0,
        shard_bits < 64,
        serial < u64::MAX,
    ensures
        r == engine::id_at((serial + 1) as u64, engine::shard_for(serial, INPUT_SALT, shards), shard_bits),
{
    make_id(serial + 1, input_shard(serial, shards), shard_bits)
}

pub fn output_shard(tx: u64, shards: usize) -> (r: usize)
    requires
        shards > 0,
    ensures
        r == engine::shard_for(tx, OUTPUT_SALT, shards),
        r < shards,
{
    salted_shard(tx, OUTPUT_SALT, shards)
}

pub fn output_id(tx: u64, shard: usize, shard_bits: u32) -> (r: u64)
    requires
        shard_bits < 64,
        crate::bundle::OUTPUT_BASE + tx + 1 <= u64::MAX,
    ensures
        r == engine::id_at((crate::bundle::OUTPUT_BASE + tx + 1) as u64, shard, shard_bits),
{
    make_id(crate::bundle::OUTPUT_BASE + tx + 1, shard, shard_bits)
}

/// What a run works on.
pub open spec fn plain_layout(txs: u64, arity: u64, shards: usize, bits: u32) -> Layout {
    Layout {
        txs,
        arity,
        shards,
        bits,
        conflict_pct: 0,
        input_salt: INPUT_SALT,
        conflict_salt: 0,
        output_salt: OUTPUT_SALT,
    }
}

pub fn layout(txs: u64, arity: u64, shards: usize, bits: u32) -> (r: Layout)
    ensures
        r == plain_layout(txs, arity, shards, bits),
{
    Layout {
        txs,
        arity,
        shards,
        bits,
        conflict_pct: 0,
        input_salt: INPUT_SALT,
        conflict_salt: 0,
        output_salt: OUTPUT_SALT,
    }
}

/// Runs all transactions: each is made, in the end there is one cell for each, and
/// the value is what it was.
pub fn run_case(txs: u64, arity: u64, shards: usize, bits: u32) -> (r: BundleTotals)
    requires
        bundle::layout_ok(plain_layout(txs, arity, shards, bits)),
        bundle::outputs_apart(plain_layout(txs, arity, shards, bits)),
    ensures
        r.committed == txs,
        r.aborted == 0,
        r.checksum == bundle::bundle_run(plain_layout(txs, arity, shards, bits), txs as int).checksum,
        r.final_cells == txs,
        r.total_value == txs * arity * crate::engine::VALUE,
{
    let l: Layout = layout(txs, arity, shards, bits);
    proof {
        bundle::law_no_conflict_commits_all(l, txs as int);
    }
    run_bundles(&l)
}

} // verus!
