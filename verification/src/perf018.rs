//! Ed25519 authorizations, checked one by one.
use crate::auth;
use crate::auth::{check_each, AuthFault, AuthTotals};
use crate::auth_ed25519;
use crate::auth_ed25519::{pool_key, sign_materials, Ed25519, EdMaterial};
use crate::crypto::SigningKey;
use crate::text::text;
use vstd::prelude::*;

verus! {

pub const DOMAIN: u64 = 0xCA11_BAEF_0000_0018;

pub fn deterministic_signing_key(index: u64) -> (r: SigningKey)
    ensures
        r.seed@ == auth::signer_seed(DOMAIN, index),
{
    pool_key(DOMAIN, index)
}

pub fn build_materials(txs: usize) -> (r: Vec<EdMaterial>)
    requires
        txs * 8 <= u64::MAX,
    ensures
        r@.len() == txs,
        forall|i: int| 0 <= i < txs ==> auth_ed25519::signed_by_pool(DOMAIN, i, #[trigger] r@[i]),
{
    sign_materials(DOMAIN, txs)
}

/// Checks all authorizations. It succeeds if and only if every one is good.
pub fn run_case(materials: &Vec<EdMaterial>, workers: usize) -> (r: Result<AuthTotals, AuthFault>)
    requires
        workers > 0,
    ensures
        match r {
            Ok(t) => {
                &&& forall|i: int|
                    0 <= i < materials@.len() ==> #[trigger] <Ed25519 as crate::auth::AuthScheme<
                        32,
                        64,
                    >>::verdict(materials@[i]) is Ok
                &&& t.verified == materials@.len()
                &&& t.checksum == auth::range_sum(
                    auth::auth_shares::<Ed25519, 32, 64>(materials@),
                    0,
                    materials@.len() as int,
                )
            },
            Err(fault) => auth::some_refused::<Ed25519, 32, 64>(materials@, fault),
        },
{
    check_each::<Ed25519, 32, 64>(materials, workers)
}

/// The words for a refused authorization.
pub open spec fn each_fault_words(fault: AuthFault) -> Seq<char> {
    match fault {
        AuthFault::KeyParse => "PERF-018 public key parse"@,
        _ => "PERF-018 Ed25519 authorization rejected"@,
    }
}

pub fn fault_text(fault: AuthFault) -> (r: String)
    ensures
        r@ == each_fault_words(fault),
{
    match fault {
        AuthFault::KeyParse => text("PERF-018 public key parse"),
        _ => text("PERF-018 Ed25519 authorization rejected"),
    }
}

} // verus!
