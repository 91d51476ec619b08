//! Ed25519 authorizations, checked in batches.
use crate::auth;
use crate::auth::{check_each, AuthFault, AuthScheme, AuthTotals};
use crate::auth_ed25519;
use crate::auth_ed25519::{
    check_batches, pool_key, sign_materials, BatchAuthTotals, Ed25519, EdMaterial,
};
use crate::crypto::SigningKey;
use crate::text::text;
use vstd::prelude::*;

verus! {

pub const DOMAIN: u64 = 0xCA11_BAF0_0000_0019;

pub fn deterministic_signing_key(index: u64) -> (r: SigningKey)
    ensures
        r.seed@ == auth::signer_seed(DOMAIN, index),
{
    pool_key(DOMAIN, index)
}

pub fn build_materials(txs: usize) -> (r: Vec<EdMaterial>)
    requires
        txs * 8 <= u64::MAX,
    ensures
        r@.len() == txs,
        forall|i: int| 0 <= i < txs ==> auth_ed25519::signed_by_pool(DOMAIN, i, #[trigger] r@[i]),
{
    sign_materials(DOMAIN, txs)
}

/// Checks all authorizations one by one.
pub fn run_individual(materials: &Vec<EdMaterial>, workers: usize) -> (r: Result<
    AuthTotals,
    AuthFault,
>)
    requires
        workers > 0,
    ensures
        match r {
            Ok(t) => {
                &&& forall|i: int|
                    0 <= i < materials@.len() ==> #[trigger] <Ed25519 as AuthScheme<
                        32,
                        64,
                    >>::verdict(materials@[i]) is Ok
                &&& t.verified == materials@.len()
                &&& t.checksum == auth::range_sum(
                    auth::auth_shares::<Ed25519, 32, 64>(materials@),
                    0,
                    materials@.len() as int,
                )
            },
            Err(fault) => auth::some_refused::<Ed25519, 32, 64>(materials@, fault),
        },
{
    check_each::<Ed25519, 32, 64>(materials, workers)
}

/// Checks all authorizations in batches.
pub fn run_batch(materials: &Vec<EdMaterial>, workers: usize, batch_size: usize) -> (r: Result<
    BatchAuthTotals,
    AuthFault,
>)
    requires
        workers > 0,
        batch_size > 0,
        materials@.len() * workers <= usize::MAX,
    ensures
        match r {
            Ok(t) => {
                &&& forall|w: int|
                    0 <= w < workers ==> #[trigger] auth_ed25519::worker_verdict(
                        materials@,
                        workers as int,
                        batch_size as int,
                        w,
                    ) is Ok
                &&& t.verified == materials@.len()
                &&& t.batches == auth_ed25519::chunks_of_workers(
                    materials@.len() as int,
                    workers as int,
                    batch_size as int,
                    workers as int,
                )
                &&& t.checksum == auth::range_sum(
                    auth::auth_shares::<Ed25519, 32, 64>(materials@),
                    0,
                    materials@.len() as int,
                )
            },
            Err(fault) => exists|w: int|
                0 <= w < workers && #[trigger] auth_ed25519::worker_verdict(
                    materials@,
                    workers as int,
                    batch_size as int,
                    w,
                ) == Err::<(), AuthFault>(fault),
        },
{
    check_batches(materials, workers, batch_size)
}

/// The words for a refused authorization, checked alone or in a batch.
pub open spec fn batch_fault_words(fault: AuthFault, alone: bool) -> Seq<char> {
    match fault {
        AuthFault::KeyParse => if alone {
            "PERF-019 individual key parse"@
        } else {
            "PERF-019 batch key parse"@
        },
        _ => if alone {
            "PERF-019 individual authorization rejected"@
        } else {
            "PERF-019 Ed25519 batch authorization rejected"@
        },
    }
}

pub fn fault_text(fault: AuthFault, alone: bool) -> (r: String)
    ensures
        r@ == batch_fault_words(fault, alone),
{
    match fault {
        AuthFault::KeyParse => if alone {
            text("PERF-019 individual key parse")
        } else {
            text("PERF-019 batch key parse")
        },
        _ => if alone {
            text("PERF-019 individual authorization rejected")
        } else {
            text("PERF-019 Ed25519 batch authorization rejected")
        },
    }
}

} // verus!
