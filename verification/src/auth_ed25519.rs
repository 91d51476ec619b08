//! Authorizations signed with Ed25519.
use crate::auth;
use crate::auth::{
    auth_share, make_seed, material_message, own_inputs, worker_range, AuthFault, AuthMaterial,
    AuthScheme, KEY_POOL,
};
use crate::bytes;
use crate::crypto;
use crate::crypto::{
    ed25519_verify_batch, PublicKeyBytes, SignatureBytes, SigningKey, VerifyingKey,
};
use crate::engine::VALUE;
use crate::envelope::MAX_ARITY;
use vstd::prelude::*;

verus! {

pub type EdMaterial = AuthMaterial<32, 64>;

/// How far the first byte of a key is turned for the checksum.
pub const SHARE_BITS: u32 = 17;

/// Ed25519 with strict verification.
#[derive(Clone, Copy, Debug)]
pub struct Ed25519;

impl AuthScheme<32, 64> for Ed25519 {
    open spec fn verdict(m: EdMaterial) -> Result<(), AuthFault> {
        if !crypto::ed25519_key_decodes(m.public@) {
            Err(AuthFault::KeyParse)
        } else if !crypto::ed25519_strictly_verifies(m.public@, auth::message_of(m), m.signature@) {
            Err(AuthFault::Rejected)
        } else {
            Ok(())
        }
    }

    open spec fn share(m: EdMaterial) -> u64 {
        auth::share_of_auth(m.tx, m.public@[0], SHARE_BITS)
    }

    fn check(m: &EdMaterial) -> (r: Result<(), AuthFault>) {
        let key: VerifyingKey = VerifyingKey { bytes: m.public };
        let message: [u8; 88] = material_message(m);
        let r: Result<(), AuthFault> = if key.verify_strict(&message, &m.signature) {
            Ok(())
        } else if !key.decodes() {
            Err(AuthFault::KeyParse)
        } else {
            Err(AuthFault::Rejected)
        };
        assert(r == <Ed25519 as AuthScheme<32, 64>>::verdict(*m));
        r
    }

    fn share_value(m: &EdMaterial) -> (r: u64) {
        let r: u64 = auth_share(m.tx, m.public[0], SHARE_BITS);
        assert(r == <Ed25519 as AuthScheme<32, 64>>::share(*m));
        r
    }
}

/// A signer of the pool.
pub fn pool_key(domain: u64, index: u64) -> (r: SigningKey)
    ensures
        r.seed@ == auth::signer_seed(domain, index),
{
    SigningKey { seed: make_seed(domain, index) }
}

/// The authorization number `i` that the pool of a domain signs.
pub open spec fn signed_by_pool(domain: u64, i: int, m: EdMaterial) -> bool {
    let seed = bytes::arr::<32>(auth::signer_seed(domain, (i % KEY_POOL as int) as u64));
    &&& m.tx == i
    &&& m.arity == MAX_ARITY
    &&& m.value == MAX_ARITY * VALUE
    &&& m.inputs@ == auth::eight_inputs(i as u64)
    &&& m.public == crypto::public_key(seed)
    &&& m.signature == crypto::signature(seed, auth::message_of(m))
}

/// The public keys of the first signers of the pool.
fn pool_publics(domain: u64, count: usize) -> (r: Vec<PublicKeyBytes>)
    requires
        count <= KEY_POOL,
    ensures
        r@.len() == count,
        forall|i: int|
            0 <= i < count ==> (#[trigger] r@[i]) == crypto::public_key(
                bytes::arr::<32>(auth::signer_seed(domain, i as u64)),
            ),
{
    let mut out: Vec<PublicKeyBytes> = Vec::new();
    let mut i: usize = 0;
    while i < count
        invariant
            i <= count <= KEY_POOL,
            out@.len() == i,
            forall|j: int|
                0 <= j < i ==> (#[trigger] out@[j]) == crypto::public_key(
                    bytes::arr::<32>(auth::signer_seed(domain, j as u64)),
                ),
        decreases count - i,
    {
        let key: SigningKey = pool_key(domain, i as u64);
        proof {
            bytes::lemma_arr_of_view(key.seed);
        }
        out.push(key.verifying_key().bytes);
        i = i + 1;
    }
    out
}

/// Signs as many authorizations as asked for.
pub fn sign_materials(domain: u64, txs: usize) -> (r: Vec<EdMaterial>)
    requires
        txs * 8 <= u64::MAX,
    ensures
        r@.len() == txs,
        forall|i: int| 0 <= i < txs ==> signed_by_pool(domain, i, #[trigger] r@[i]),
{
    let signers: usize = if txs < KEY_POOL {
        txs
    } else {
        KEY_POOL
    };
    let publics: Vec<PublicKeyBytes> = pool_publics(domain, signers);
    let mut out: Vec<EdMaterial> = Vec::new();
    let mut i: usize = 0;
    while i < txs
        invariant
            i <= txs,
            txs * 8 <= u64::MAX,
            signers == publics@.len(),
            signers == if txs < KEY_POOL {
                txs
            } else {
                KEY_POOL
            },
            forall|j: int|
                0 <= j < signers ==> (#[trigger] publics@[j]) == crypto::public_key(
                    bytes::arr::<32>(auth::signer_seed(domain, j as u64)),
                ),
            out@.len() == i,
            forall|j: int| 0 <= j < i ==> signed_by_pool(domain, j, #[trigger] out@[j]),
        decreases txs - i,
    {
        let signer: usize = i % KEY_POOL;
        let key: SigningKey = pool_key(domain, signer as u64);
        proof {
            bytes::lemma_arr_of_view(key.seed);
        }
        let mut m: EdMaterial = AuthMaterial {
            tx: i as u64,
            arity: MAX_ARITY,
            value: MAX_ARITY as u64 * VALUE,
            inputs: own_inputs(i as u64),
            public: publics[signer],
            signature: [0u8;64],
        };
        let message: [u8; 88] = material_message(&m);
        m.signature = key.sign(&message);
        out.push(m);
        i = i + 1;
    }
    out
}

/// What the pool signs is accepted.
pub proof fn law_pool_is_accepted(domain: u64, i: int, m: EdMaterial)
    requires
        signed_by_pool(domain, i, m),
        crypto::signs_well(bytes::arr::<32>(auth::signer_seed(domain, (i % KEY_POOL as int) as u64)), auth::message_of(m)),
    ensures
        <Ed25519 as AuthScheme<32, 64>>::verdict(m) is Ok,
{
}

// ---------------------------------------------------------------------------
// In batches.
// ---------------------------------------------------------------------------

/// Every key from `a` up to `b` can be read.
pub open spec fn keys_read(ms: Seq<EdMaterial>, a: int, b: int) -> bool {
    forall|i: int| a <= i < b ==> crypto::ed25519_key_decodes((#[trigger] ms[i]).public@)
}

/// The authorizations from `a` up to `b` pass batch verification.
pub open spec fn batch_passes(ms: Seq<EdMaterial>, a: int, b: int) -> bool {
    let n = (b - a) as nat;
    crypto::ed25519_batch_verifies(
        Seq::new(n, |i: int| auth::message_of(ms[a + i])),
        Seq::new(n, |i: int| ms[a + i].signature@),
        Seq::new(n, |i: int| ms[a + i].public@),
    )
}

/// Whether one batch is good, and if not, why.
pub open spec fn chunk_verdict(ms: Seq<EdMaterial>, a: int, b: int) -> Result<(), AuthFault> {
    if !keys_read(ms, a, b) {
        Err(AuthFault::KeyParse)
    } else if !batch_passes(ms, a, b) {
        Err(AuthFault::Rejected)
    } else {
        Ok(())
    }
}

/// The end of the batch that begins at `a`.
pub open spec fn chunk_end(a: int, end: int, size: int) -> int {
    if end - a > size {
        a + size
    } else {
        end
    }
}

/// Whether all batches of a stretch are good; if not, what is wrong with the first
/// that is not.
pub open spec fn stretch_verdict(ms: Seq<EdMaterial>, a: int, end: int, size: int) -> Result<
    (),
    AuthFault,
>
    decreases end - a,
{
    if a >= end || size <= 0 {
        Ok(())
    } else {
        let b = chunk_end(a, end, size);
        match chunk_verdict(ms, a, b) {
            Ok(()) => stretch_verdict(ms, b, end, size),
            Err(fault) => Err(fault),
        }
    }
}

/// How many batches a stretch is cut into.
pub open spec fn chunk_count(a: int, end: int, size: int) -> int
    decreases end - a,
{
    if a >= end || size <= 0 {
        0
    } else {
        1 + chunk_count(chunk_end(a, end, size), end, size)
    }
}

/// Checks one batch: what it adds to the checksum, or why it is refused.
pub fn check_chunk(ms: &Vec<EdMaterial>, a: usize, b: usize) -> (r: Result<u64, AuthFault>)
    requires
        a <= b <= ms@.len(),
    ensures
        match r {
            Ok(sum) => chunk_verdict(ms@, a as int, b as int) is Ok && sum == auth::range_sum(
                auth::auth_shares::<Ed25519, 32, 64>(ms@),
                a as int,
                b as int,
            ),
            Err(fault) => chunk_verdict(ms@, a as int, b as int) == Err::<(), AuthFault>(fault),
        },
{
    let ghost shares = auth::auth_shares::<Ed25519, 32, 64>(ms@);
    let mut messages: Vec<[u8; 88]> = Vec::new();
    let mut signatures: Vec<SignatureBytes> = Vec::new();
    let mut publics: Vec<PublicKeyBytes> = Vec::new();
    let mut sum: u64 = 0;
    let mut i: usize = a;
    while i < b
        invariant
            a <= i <= b <= ms@.len(),
            shares == auth::auth_shares::<Ed25519, 32, 64>(ms@),
            messages@.len() == i - a,
            signatures@.len() == i - a,
            publics@.len() == i - a,
            forall|j: int| 0 <= j < i - a ==> (#[trigger] messages@[j])@ == auth::message_of(ms@[a + j]),
            forall|j: int| 0 <= j < i - a ==> (#[trigger] signatures@[j]) == ms@[a + j].signature,
            forall|j: int| 0 <= j < i - a ==> (#[trigger] publics@[j]) == ms@[a + j].public,
            keys_read(ms@, a as int, i as int),
            sum == auth::range_sum(shares, a as int, i as int),
        decreases b - i,
    {
        let m: EdMaterial = ms[i];
        let key: VerifyingKey = VerifyingKey { bytes: m.public };
        if !key.decodes() {
            assert(!crypto::ed25519_key_decodes(ms@[i as int].public@));
            return Err(AuthFault::KeyParse);
        }
        messages.push(material_message(&m));
        signatures.push(m.signature);
        publics.push(m.public);
        sum = sum ^ <Ed25519 as AuthScheme<32, 64>>::share_value(&m);
        i = i + 1;
        assert(shares[i - 1] == <Ed25519 as AuthScheme<32, 64>>::share(m));
    }
    proof {
        let n = (b - a) as nat;
        assert(crypto::each(messages@) =~= Seq::new(n, |i: int| auth::message_of(ms@[a + i])));
        assert(crypto::each(signatures@) =~= Seq::new(n, |i: int| ms@[a + i].signature@));
        assert(crypto::each(publics@) =~= Seq::new(n, |i: int| ms@[a + i].public@));
    }
    if ed25519_verify_batch(&messages, &signatures, &publics) {
        Ok(sum)
    } else {
        Err(AuthFault::Rejected)
    }
}

/// What checking in batches gives.
#[derive(Clone, Copy, Debug, PartialEq, Eq, Structural)]
pub struct BatchAuthTotals {
    pub verified: usize,
    pub batches: usize,
    pub checksum: u64,
}

/// Checks a stretch in batches.
pub fn check_stretch(ms: &Vec<EdMaterial>, start: usize, end: usize, batch_size: usize) -> (r:
    Result<BatchAuthTotals, AuthFault>)
    requires
        start <= end <= ms@.len(),
        batch_size > 0,
    ensures
        match r {
            Ok(t) => {
                &&& stretch_verdict(ms@, start as int, end as int, batch_size as int) is Ok
                &&& t.verified == end - start
                &&& t.batches == chunk_count(start as int, end as int, batch_size as int)
                &&& t.batches <= end - start
                &&& t.checksum == auth::range_sum(
                    auth::auth_shares::<Ed25519, 32, 64>(ms@),
                    start as int,
                    end as int,
                )
            },
            Err(fault) => stretch_verdict(ms@, start as int, end as int, batch_size as int) == Err::<
                (),
                AuthFault,
            >(fault),
        },
{
    let ghost shares = auth::auth_shares::<Ed25519, 32, 64>(ms@);
    let mut cursor: usize = start;
    let mut batches: usize = 0;
    let mut checksum: u64 = 0;
    while cursor < end
        invariant
            start <= cursor <= end <= ms@.len(),
            batch_size > 0,
            shares == auth::auth_shares::<Ed25519, 32, 64>(ms@),
            batches <= cursor - start,
            batches + chunk_count(cursor as int, end as int, batch_size as int) == chunk_count(
                start as int,
                end as int,
                batch_size as int,
            ),
            stretch_verdict(ms@, start as int, end as int, batch_size as int) == stretch_verdict(
                ms@,
                cursor as int,
                end as int,
                batch_size as int,
            ),
            checksum == auth::range_sum(shares, start as int, cursor as int),
        decreases end - cursor,
    {
        let next: usize = if end - cursor > batch_size {
            cursor + batch_size
        } else {
            end
        };
        match check_chunk(ms, cursor, next) {
            Ok(sum) => {
                proof {
                    auth::lemma_range_sum(shares, start as int, cursor as int, next as int);
                }
                checksum = checksum ^ sum;
            },
            Err(fault) => {
                return Err(fault);
            },
        }
        batches = batches + 1;
        cursor = next;
    }
    Ok(BatchAuthTotals { verified: end - start, batches, checksum })
}

/// The number of batches of the first `k` workers.
pub open spec fn chunks_of_workers(total: int, workers: int, size: int, k: int) -> int
    decreases k,
{
    if k <= 0 {
        0
    } else {
        chunks_of_workers(total, workers, size, k - 1) + chunk_count(
            auth::bound_of(total, workers, k - 1),
            auth::bound_of(total, workers, k),
            size,
        )
    }
}

/// Whether the stretch of a worker is good.
pub open spec fn worker_verdict(ms: Seq<EdMaterial>, workers: int, size: int, w: int) -> Result<
    (),
    AuthFault,
> {
    stretch_verdict(
        ms,
        auth::bound_of(ms.len() as int, workers, w),
        auth::bound_of(ms.len() as int, workers, w + 1),
        size,
    )
}

/// Checks all authorizations in batches, with workers that take a stretch each. It
/// succeeds if and only if every batch is good; the checksum is the one that
/// checking one by one gives.
pub fn check_batches(ms: &Vec<EdMaterial>, workers: usize, batch_size: usize) -> (r: Result<
    BatchAuthTotals,
    AuthFault,
>)
    requires
        workers > 0,
        batch_size > 0,
        ms@.len() * workers <= usize::MAX,
    ensures
        match r {
            Ok(t) => {
                &&& forall|w: int|
                    0 <= w < workers ==> #[trigger] worker_verdict(
                        ms@,
                        workers as int,
                        batch_size as int,
                        w,
                    ) is Ok
                &&& t.verified == ms@.len()
                &&& t.batches == chunks_of_workers(
                    ms@.len() as int,
                    workers as int,
                    batch_size as int,
                    workers as int,
                )
                &&& t.checksum == auth::range_sum(
                    auth::auth_shares::<Ed25519, 32, 64>(ms@),
                    0,
                    ms@.len() as int,
                )
            },
            Err(fault) => exists|w: int|
                0 <= w < workers && #[trigger] worker_verdict(
                    ms@,
                    workers as int,
                    batch_size as int,
                    w,
                ) == Err::<(), AuthFault>(fault),
        },
{
    let ghost shares = auth::auth_shares::<Ed25519, 32, 64>(ms@);
    let total: usize = ms.len();
    let mut w: usize = 0;
    let mut verified: usize = 0;
    let mut batches: usize = 0;
    let mut checksum: u64 = 0;
    proof {
        auth::lemma_bounds(total as int, workers as int, 0);
    }
    while w < workers
        invariant
            w <= workers,
            workers > 0,
            batch_size > 0,
            total == ms@.len(),
            ms@.len() * workers <= usize::MAX,
            shares == auth::auth_shares::<Ed25519, 32, 64>(ms@),
            verified == auth::bound_of(total as int, workers as int, w as int),
            verified <= total,
            batches <= verified,
            batches == chunks_of_workers(
                total as int,
                workers as int,
                batch_size as int,
                w as int,
            ),
            checksum == auth::stretches_sum(shares, workers as int, w as int),
            forall|v: int|
                0 <= v < w ==> #[trigger] worker_verdict(
                    ms@,
                    workers as int,
                    batch_size as int,
                    v,
                ) is Ok,
        decreases workers - w,
    {
        proof {
            auth::lemma_bounds(total as int, workers as int, w as int);
        }
        let (start, end): (usize, usize) = worker_range(total, workers, w);
        match check_stretch(ms, start, end, batch_size) {
            Ok(t) => {
                verified = verified + t.verified;
                batches = batches + t.batches;
                checksum = checksum ^ t.checksum;
                assert(worker_verdict(ms@, workers as int, batch_size as int, w as int) is Ok);
            },
            Err(fault) => {
                assert(worker_verdict(ms@, workers as int, batch_size as int, w as int) == Err::<
                    (),
                    AuthFault,
                >(fault));
                return Err(fault);
            },
        }
        w = w + 1;
    }
    proof {
        auth::lemma_bounds(total as int, workers as int, workers - 1);
        auth::law_stretches_cover_all(shares, workers as int);
    }
    Ok(BatchAuthTotals { verified, batches, checksum })
}

/// A stretch is cut into as few batches as its length needs, and passes exactly if each of
/// them does: the first, and the rest behind it.
pub proof fn law_stretch_is_cut_into_batches(ms: Seq<EdMaterial>, a: int, end: int, size: int)
    requires
        a <= end,
        0 < size,
    ensures
        chunk_count(a, end, size) == (end - a + size - 1) / size,
        end - a <= size && a < end ==> stretch_verdict(ms, a, end, size) == chunk_verdict(
            ms,
            a,
            end,
        ),
        end - a > size ==> (stretch_verdict(ms, a, end, size) is Ok <==> chunk_verdict(
            ms,
            a,
            a + size,
        ) is Ok && stretch_verdict(ms, a + size, end, size) is Ok),
        a == end ==> stretch_verdict(ms, a, end, size) is Ok,
    decreases end - a,
{
    let n = end - a;
    if n == 0 {
        vstd::arithmetic::div_mod::lemma_fundamental_div_mod_converse(size - 1, size, 0, size - 1);
    } else if n <= size {
        vstd::arithmetic::div_mod::lemma_fundamental_div_mod_converse(
            n + size - 1,
            size,
            1,
            n - 1,
        );
        reveal_with_fuel(chunk_count, 2);
        reveal_with_fuel(stretch_verdict, 2);
    } else {
        law_stretch_is_cut_into_batches(ms, a + size, end, size);
        let y = n - size + size - 1;
        vstd::arithmetic::div_mod::lemma_div_plus_one(y, size);
    }
}

} // verus!
