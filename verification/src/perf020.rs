//! BLS authorizations, checked one by one or by an aggregate of their signatures.
use crate::auth;
use crate::auth::{
    auth_share, check_each, make_seed, material_message, own_inputs, worker_range, AuthFault,
    AuthMaterial, AuthScheme, AuthTotals, KEY_POOL,
};
use crate::auth_ed25519;
use crate::bls;
use crate::bls::{
    bls_aggregate_of, bls_aggregate_verify, bls_reads_key, bls_reads_signature, bls_verify,
    BlsPublicBytes, BlsSignatureBytes, SecretKey,
};
use crate::crypto;
use crate::engine::VALUE;
use crate::envelope::MAX_ARITY;
use crate::text::text;
use vstd::prelude::*;

verus! {

pub const DOMAIN: u64 = 0xCA11_BAF1_0000_0020;

/// How far the first byte of a key is turned for the checksum.
pub const SHARE_BITS: u32 = 19;

pub type BlsMaterial = AuthMaterial<48, 96>;

/// The domain tag of the signatures.
pub open spec fn dst_bytes() -> Seq<u8> {
    vstd::utf8::encode_utf8("BLS_SIG_BLS12381G2_XMD:SHA-256_SSWU_RO_NUL_"@)
}

pub fn dst() -> (r: &'static [u8])
    ensures
        r@ == dst_bytes(),
{
    "BLS_SIG_BLS12381G2_XMD:SHA-256_SSWU_RO_NUL_".as_bytes()
}

pub fn deterministic_secret_key(index: u64) -> (r: SecretKey)
    ensures
        r.encoding() == bls::bls_secret(auth::signer_seed(DOMAIN, index), Seq::empty()),
{
    let none: [u8; 0] = [];
    assert(none@ =~= Seq::empty());
    SecretKey::key_gen(&make_seed(DOMAIN, index), &none)
}

/// BLS with both group checks.
#[derive(Clone, Copy, Debug)]
pub struct Bls;

impl AuthScheme<48, 96> for Bls {
    open spec fn verdict(m: BlsMaterial) -> Result<(), AuthFault> {
        if !bls::bls_key_decodes(m.public@) {
            Err(AuthFault::KeyParse)
        } else if !bls::bls_signature_decodes(m.signature@) {
            Err(AuthFault::SignatureParse)
        } else if !bls::bls_verifies(m.signature@, auth::message_of(m), dst_bytes(), Seq::empty(), m.public@) {
            Err(AuthFault::Rejected)
        } else {
            Ok(())
        }
    }

    open spec fn share(m: BlsMaterial) -> u64 {
        auth::share_of_auth(m.tx, m.public@[0], SHARE_BITS)
    }

    fn check(m: &BlsMaterial) -> (r: Result<(), AuthFault>) {
        let message: [u8; 88] = material_message(m);
        let none: [u8; 0] = [];
        assert(none@ =~= Seq::empty());
        let r: Result<(), AuthFault> = if !bls_reads_key(&m.public) {
            Err(AuthFault::KeyParse)
        } else if !bls_reads_signature(&m.signature) {
            Err(AuthFault::SignatureParse)
        } else if !bls_verify(&m.signature, &message, dst(), &none, &m.public) {
            Err(AuthFault::Rejected)
        } else {
            Ok(())
        };
        assert(r == <Bls as AuthScheme<48, 96>>::verdict(*m));
        r
    }

    fn share_value(m: &BlsMaterial) -> (r: u64) {
        let r: u64 = auth_share(m.tx, m.public[0], SHARE_BITS);
        assert(r == <Bls as AuthScheme<48, 96>>::share(*m));
        r
    }
}

/// The authorization number `i` that the pool signs.
pub open spec fn signed_by_bls_pool(i: int, m: BlsMaterial) -> bool {
    let secret = bls::bls_secret(
        auth::signer_seed(DOMAIN, (i % KEY_POOL as int) as u64),
        Seq::empty(),
    );
    &&& m.tx == i
    &&& m.arity == MAX_ARITY
    &&& m.value == MAX_ARITY * VALUE
    &&& m.inputs@ == auth::eight_inputs(i as u64)
    &&& m.public@ == bls::bls_public(secret)
    &&& m.signature@ == bls::bls_signature(secret, auth::message_of(m), dst_bytes(), Seq::empty())
}

/// Signs as many authorizations as asked for.
pub fn build_materials(txs: usize) -> (r: Vec<BlsMaterial>)
    requires
        txs * 8 <= u64::MAX,
    ensures
        r@.len() == txs,
        forall|i: int| 0 <= i < txs ==> signed_by_bls_pool(i, #[trigger] r@[i]),
{
    let none: [u8; 0] = [];
    assert(none@ =~= Seq::empty());
    let mut out: Vec<BlsMaterial> = Vec::new();
    let mut i: usize = 0;
    while i < txs
        invariant
            i <= txs,
            txs * 8 <= u64::MAX,
            none@ == Seq::<u8>::empty(),
            out@.len() == i,
            forall|j: int| 0 <= j < i ==> signed_by_bls_pool(j, #[trigger] out@[j]),
        decreases txs - i,
    {
        let key: SecretKey = deterministic_secret_key((i % KEY_POOL) as u64);
        let mut m: BlsMaterial = AuthMaterial {
            tx: i as u64,
            arity: MAX_ARITY,
            value: MAX_ARITY as u64 * VALUE,
            inputs: own_inputs(i as u64),
            public: key.sk_to_pk(),
            signature: [0u8;96],
        };
        let message: [u8; 88] = material_message(&m);
        m.signature = key.sign(&message, dst(), &none);
        out.push(m);
        i = i + 1;
    }
    out
}

/// Checks all authorizations one by one.
pub fn run_individual(materials: &Vec<BlsMaterial>, workers: usize) -> (r: Result<
    AuthTotals,
    AuthFault,
>)
    requires
        workers > 0,
    ensures
        match r {
            Ok(t) => {
                &&& forall|i: int|
                    0 <= i < materials@.len() ==> #[trigger] <Bls as AuthScheme<48, 96>>::verdict(
                        materials@[i],
                    ) is Ok
                &&& t.verified == materials@.len()
                &&& t.checksum == auth::range_sum(
                    auth::auth_shares::<Bls, 48, 96>(materials@),
                    0,
                    materials@.len() as int,
                )
            },
            Err(fault) => auth::some_refused::<Bls, 48, 96>(materials@, fault),
        },
{
    check_each::<Bls, 48, 96>(materials, workers)
}

// ---------------------------------------------------------------------------
// Aggregates.
// ---------------------------------------------------------------------------

/// The aggregate of the signatures of a stretch.
#[derive(Clone, Copy, Debug)]
pub struct AggregateBatch {
    pub start: usize,
    pub end: usize,
    pub signature: [u8; 96],
}

/// The messages from `a` up to `b`.
pub open spec fn bls_messages(ms: Seq<BlsMaterial>, a: int, b: int) -> Seq<Seq<u8>> {
    Seq::new((b - a) as nat, |i: int| auth::message_of(ms[a + i]))
}

/// The keys from `a` up to `b`.
pub open spec fn bls_publics(ms: Seq<BlsMaterial>, a: int, b: int) -> Seq<Seq<u8>> {
    Seq::new((b - a) as nat, |i: int| ms[a + i].public@)
}

/// The signatures from `a` up to `b`.
pub open spec fn bls_signatures(ms: Seq<BlsMaterial>, a: int, b: int) -> Seq<Seq<u8>> {
    Seq::new((b - a) as nat, |i: int| ms[a + i].signature@)
}

/// Every signature from `a` up to `b` can be read.
pub open spec fn signatures_read(ms: Seq<BlsMaterial>, a: int, b: int) -> bool {
    forall|i: int| a <= i < b ==> bls::bls_signature_decodes((#[trigger] ms[i]).signature@)
}

/// Every key from `a` up to `b` can be read.
pub open spec fn bls_keys_read(ms: Seq<BlsMaterial>, a: int, b: int) -> bool {
    forall|i: int| a <= i < b ==> bls::bls_key_decodes((#[trigger] ms[i]).public@)
}

/// The aggregate of a stretch, or why there is none.
pub open spec fn stretch_aggregate(ms: Seq<BlsMaterial>, a: int, b: int) -> Result<
    Seq<u8>,
    AuthFault,
> {
    if !signatures_read(ms, a, b) {
        Err(AuthFault::SignatureParse)
    } else {
        match bls::bls_aggregate(bls_signatures(ms, a, b)) {
            Some(s) => Ok(s),
            None => Err(AuthFault::Aggregate),
        }
    }
}

/// Aggregates the signatures of a stretch.
pub fn aggregate_stretch(ms: &Vec<BlsMaterial>, a: usize, b: usize) -> (r: Result<
    BlsSignatureBytes,
    AuthFault,
>)
    requires
        a <= b <= ms@.len(),
    ensures
        match r {
            Ok(s) => stretch_aggregate(ms@, a as int, b as int) == Ok::<Seq<u8>, AuthFault>(s@),
            Err(fault) => stretch_aggregate(ms@, a as int, b as int) == Err::<Seq<u8>, AuthFault>(
                fault,
            ),
        },
{
    let mut signatures: Vec<BlsSignatureBytes> = Vec::new();
    let mut i: usize = a;
    while i < b
        invariant
            a <= i <= b <= ms@.len(),
            signatures@.len() == i - a,
            forall|j: int| 0 <= j < i - a ==> (#[trigger] signatures@[j]) == ms@[a + j].signature,
            signatures_read(ms@, a as int, i as int),
        decreases b - i,
    {
        let m: BlsMaterial = ms[i];
        if !bls_reads_signature(&m.signature) {
            assert(!bls::bls_signature_decodes(ms@[i as int].signature@));
            return Err(AuthFault::SignatureParse);
        }
        signatures.push(m.signature);
        i = i + 1;
    }
    assert(crypto::each(signatures@) =~= bls_signatures(ms@, a as int, b as int));
    match bls_aggregate_of(&signatures) {
        Some(s) => Ok(s),
        None => Err(AuthFault::Aggregate),
    }
}

/// An aggregate is that of its stretch.
pub open spec fn aggregate_fits(ms: Seq<BlsMaterial>, b: AggregateBatch) -> bool {
    &&& b.start < b.end <= ms.len()
    &&& stretch_aggregate(ms, b.start as int, b.end as int) == Ok::<Seq<u8>, AuthFault>(
        b.signature@,
    )
}

/// An aggregate that is not the last is of the size asked for, and the next follows
/// it without a gap.
pub open spec fn tile_fits(bs: Seq<AggregateBatch>, size: int, i: int) -> bool {
    i + 1 < bs.len() ==> bs[i].end == bs[i + 1].start && bs[i].end == bs[i].start + size
}

/// Aggregates follow one another without a gap, from the first authorization on, and
/// each is of the size asked for but for the last, which may be smaller.
pub open spec fn tiled(bs: Seq<AggregateBatch>, end: int, size: int) -> bool {
    &&& bs.len() == 0 ==> end == 0
    &&& bs.len() > 0 ==> bs[0].start == 0 && bs.last().end == end && end <= bs.last().start + size
    &&& forall|i: int| 0 <= i < bs.len() ==> #[trigger] tile_fits(bs, size, i)
}

/// Whether the signatures from number `a` on can be aggregated in batches; if not, what is
/// wrong with the first batch that cannot.
pub open spec fn batches_verdict(ms: Seq<BlsMaterial>, a: int, size: int) -> Result<(), AuthFault>
    decreases
            (if a < ms.len() {
                ms.len() - a
            } else {
                0
            }),
{
    if a >= ms.len() || size <= 0 {
        Ok(())
    } else {
        let b = auth_ed25519::chunk_end(a, ms.len() as int, size);
        match stretch_aggregate(ms, a, b) {
            Err(fault) => Err(fault),
            Ok(_) => batches_verdict(ms, b, size),
        }
    }
}

/// Aggregates all signatures in batches. It succeeds if and only if every batch can be
/// aggregated.
pub fn build_aggregate_batches(materials: &Vec<BlsMaterial>, batch_size: usize) -> (r: Result<
    Vec<AggregateBatch>,
    AuthFault,
>)
    requires
        batch_size > 0,
    ensures
        match r {
            Ok(bs) => {
                &&& batches_verdict(materials@, 0, batch_size as int) is Ok
                &&& tiled(bs@, materials@.len() as int, batch_size as int)
                &&& forall|i: int|
                    0 <= i < bs@.len() ==> aggregate_fits(materials@, #[trigger] bs@[i])
            },
            Err(fault) => batches_verdict(materials@, 0, batch_size as int) == Err::<(), AuthFault>(
                fault,
            ),
        },
{
    let mut out: Vec<AggregateBatch> = Vec::new();
    let mut start: usize = 0;
    while start < materials.len()
        invariant
            batch_size > 0,
            start <= materials@.len(),
            batches_verdict(materials@, 0, batch_size as int) == batches_verdict(
                materials@,
                start as int,
                batch_size as int,
            ),
            tiled(out@, start as int, batch_size as int),
            start < materials@.len() && out@.len() > 0 ==> out@.last().end == out@.last().start
                + batch_size,
            forall|i: int| 0 <= i < out@.len() ==> aggregate_fits(materials@, #[trigger] out@[i]),
        decreases materials@.len() - start,
    {
        let end: usize = if materials.len() - start > batch_size {
            start + batch_size
        } else {
            materials.len()
        };
        let ghost before = out@;
        match aggregate_stretch(materials, start, end) {
            Ok(signature) => {
                out.push(AggregateBatch { start, end, signature });
                proof {
                    assert forall|i: int| 0 <= i < out@.len() implies #[trigger] tile_fits(
                        out@,
                        batch_size as int,
                        i,
                    ) by {
                        if i < before.len() {
                            assert(tile_fits(before, batch_size as int, i));
                        }
                        if i + 1 == before.len() {
                            assert(out@[i] == before.last());
                        }
                    }
                    assert forall|i: int| 0 <= i < out@.len() implies aggregate_fits(
                        materials@,
                        #[trigger] out@[i],
                    ) by {
                        if i < before.len() {
                            assert(out@[i] == before[i]);
                        }
                    }
                    if before.len() > 0 {
                        assert(out@[0] == before[0]);
                    }
                }
            },
            Err(fault) => {
                return Err(fault);
            },
        }
        start = end;
    }
    Ok(out)
}

/// Whether an aggregate is good for its stretch, and if not, why.
pub open spec fn aggregate_verdict(ms: Seq<BlsMaterial>, b: AggregateBatch) -> Result<
    (),
    AuthFault,
> {
    let (start, end) = (b.start as int, b.end as int);
    if !bls_keys_read(ms, start, end) {
        Err(AuthFault::KeyParse)
    } else if !bls::bls_signature_decodes(b.signature@) {
        Err(AuthFault::SignatureParse)
    } else if !bls::bls_aggregate_verifies(
        b.signature@,
        bls_messages(ms, start, end),
        dst_bytes(),
        bls_publics(ms, start, end),
    ) {
        Err(AuthFault::Rejected)
    } else {
        Ok(())
    }
}

/// Checks an aggregate: what its stretch adds to the checksum, or why it is refused.
pub fn check_aggregate(ms: &Vec<BlsMaterial>, batch: &AggregateBatch) -> (r: Result<
    u64,
    AuthFault,
>)
    requires
        batch.start <= batch.end <= ms@.len(),
    ensures
        match r {
            Ok(sum) => aggregate_verdict(ms@, *batch) is Ok && sum == auth::range_sum(
                auth::auth_shares::<Bls, 48, 96>(ms@),
                batch.start as int,
                batch.end as int,
            ),
            Err(fault) => aggregate_verdict(ms@, *batch) == Err::<(), AuthFault>(fault),
        },
{
    let ghost shares = auth::auth_shares::<Bls, 48, 96>(ms@);
    let (a, b): (usize, usize) = (batch.start, batch.end);
    let mut messages: Vec<[u8; 88]> = Vec::new();
    let mut publics: Vec<BlsPublicBytes> = Vec::new();
    let mut sum: u64 = 0;
    let mut i: usize = a;
    while i < b
        invariant
            a == batch.start,
            b == batch.end,
            a <= i <= b <= ms@.len(),
            shares == auth::auth_shares::<Bls, 48, 96>(ms@),
            messages@.len() == i - a,
            publics@.len() == i - a,
            forall|j: int| 0 <= j < i - a ==> (#[trigger] messages@[j])@ == auth::message_of(ms@[a + j]),
            forall|j: int| 0 <= j < i - a ==> (#[trigger] publics@[j]) == ms@[a + j].public,
            bls_keys_read(ms@, a as int, i as int),
            sum == auth::range_sum(shares, a as int, i as int),
        decreases b - i,
    {
        let m: BlsMaterial = ms[i];
        if !bls_reads_key(&m.public) {
            assert(!bls::bls_key_decodes(ms@[i as int].public@));
            return Err(AuthFault::KeyParse);
        }
        messages.push(material_message(&m));
        publics.push(m.public);
        sum = sum ^ <Bls as AuthScheme<48, 96>>::share_value(&m);
        i = i + 1;
        assert(shares[i - 1] == <Bls as AuthScheme<48, 96>>::share(m));
    }
    proof {
        assert(crypto::each(messages@) =~= bls_messages(ms@, a as int, b as int));
        assert(crypto::each(publics@) =~= bls_publics(ms@, a as int, b as int));
    }
    if !bls_reads_signature(&batch.signature) {
        return Err(AuthFault::SignatureParse);
    }
    if bls_aggregate_verify(&batch.signature, &messages, dst(), &publics) {
        Ok(sum)
    } else {
        Err(AuthFault::Rejected)
    }
}

/// How many authorizations the first `n` aggregates are for.
pub open spec fn aggregated(bs: Seq<AggregateBatch>, n: int) -> int
    decreases n,
{
    if n <= 0 {
        0
    } else {
        aggregated(bs, n - 1) + (bs[n - 1].end - bs[n - 1].start)
    }
}

/// The checksum of the authorizations of the first `n` aggregates.
pub open spec fn aggregates_sum(shares: Seq<u64>, bs: Seq<AggregateBatch>, n: int) -> u64
    decreases n,
{
    if n <= 0 {
        0
    } else {
        aggregates_sum(shares, bs, n - 1) ^ auth::range_sum(
            shares,
            bs[n - 1].start as int,
            bs[n - 1].end as int,
        )
    }
}

/// The aggregates are of stretches of the list, and count as many as there are.
pub open spec fn aggregates_count(bs: Seq<AggregateBatch>, total: int) -> bool {
    &&& forall|i: int|
        0 <= i < bs.len() ==> (#[trigger] bs[i]).start <= bs[i].end && bs[i].end <= total
    &&& aggregated(bs, bs.len() as int) == total
}

/// Aggregates without a gap count every authorization, and come to the checksum of
/// the whole list.
pub proof fn law_tiles_cover_all(
    shares: Seq<u64>,
    bs: Seq<AggregateBatch>,
    total: int,
    size: int,
)
    requires
        tiled(bs, total, size),
        forall|i: int|
            0 <= i < bs.len() ==> (#[trigger] bs[i]).start <= bs[i].end && bs[i].end <= total,
    ensures
        aggregates_count(bs, total),
        aggregates_sum(shares, bs, bs.len() as int) == auth::range_sum(shares, 0, total),
{
    if bs.len() > 0 {
        lemma_tiles(shares, bs, total, size, bs.len() as int);
    }
}

proof fn lemma_tiles(
    shares: Seq<u64>,
    bs: Seq<AggregateBatch>,
    total: int,
    size: int,
    n: int,
)
    requires
        tiled(bs, total, size),
        forall|i: int|
            0 <= i < bs.len() ==> (#[trigger] bs[i]).start <= bs[i].end && bs[i].end <= total,
        1 <= n <= bs.len(),
    ensures
        aggregated(bs, n) == bs[n - 1].end,
        aggregates_sum(shares, bs, n) == auth::range_sum(shares, 0, bs[n - 1].end as int),
    decreases n,
{
    if n > 1 {
        lemma_tiles(shares, bs, total, size, n - 1);
        assert(tile_fits(bs, size, n - 2));
        auth::lemma_range_sum(shares, 0, bs[n - 1].start as int, bs[n - 1].end as int);
    } else {
        let a = auth::range_sum(shares, 0, bs[0].end as int);
        assert(0u64 ^ a == a) by (bit_vector);
        assert(aggregates_sum(shares, bs, 0) == 0);
        assert(aggregated(bs, 0) == 0);
    }
}

proof fn lemma_aggregated(bs: Seq<AggregateBatch>, total: int, k: int, n: int)
    requires
        forall|i: int|
            0 <= i < bs.len() ==> (#[trigger] bs[i]).start <= bs[i].end && bs[i].end <= total,
        0 <= k <= n <= bs.len(),
    ensures
        0 <= aggregated(bs, k) <= aggregated(bs, n),
    decreases n,
{
    if k < n {
        lemma_aggregated(bs, total, k, n - 1);
    } else if n > 0 {
        lemma_aggregated(bs, total, k - 1, n - 1);
    }
}

/// Checks ready-made aggregates.
pub fn run_aggregate_verify_only(
    materials: &Vec<BlsMaterial>,
    batches: &Vec<AggregateBatch>,
) -> (r: Result<AuthTotals, AuthFault>)
    requires
        aggregates_count(batches@, materials@.len() as int),
    ensures
        match r {
            Ok(t) => {
                &&& forall|i: int|
                    0 <= i < batches@.len() ==> aggregate_verdict(
                        materials@,
                        #[trigger] batches@[i],
                    ) is Ok
                &&& t.verified == materials@.len()
                &&& t.checksum == aggregates_sum(
                    auth::auth_shares::<Bls, 48, 96>(materials@),
                    batches@,
                    batches@.len() as int,
                )
            },
            Err(fault) => exists|i: int|
                0 <= i < batches@.len() && aggregate_verdict(materials@, #[trigger] batches@[i])
                    == Err::<(), AuthFault>(fault),
        },
{
    let ghost shares = auth::auth_shares::<Bls, 48, 96>(materials@);
    let mut i: usize = 0;
    let mut verified: usize = 0;
    let mut checksum: u64 = 0;
    let total: usize = materials.len();
    while i < batches.len()
        invariant
            total == materials@.len(),
            aggregates_count(batches@, materials@.len() as int),
            i <= batches@.len(),
            shares == auth::auth_shares::<Bls, 48, 96>(materials@),
            verified == aggregated(batches@, i as int),
            checksum == aggregates_sum(shares, batches@, i as int),
            forall|j: int|
                0 <= j < i ==> aggregate_verdict(materials@, #[trigger] batches@[j]) is Ok,
        decreases batches@.len() - i,
    {
        let batch: AggregateBatch = batches[i];
        assert(batches@[i as int].start <= batches@[i as int].end);
        match check_aggregate(materials, &batch) {
            Ok(sum) => {
                proof {
                    lemma_aggregated(
                        batches@,
                        total as int,
                        i + 1,
                        batches@.len() as int,
                    );
                }
                checksum = checksum ^ sum;
                verified = verified + (batch.end - batch.start);
            },
            Err(fault) => {
                assert(aggregate_verdict(materials@, batches@[i as int]) == Err::<(), AuthFault>(
                    fault,
                ));
                return Err(fault);
            },
        }
        i = i + 1;
    }
    Ok(AuthTotals { verified, checksum })
}

/// What comes of reading the keys and the signatures of a stretch, one after the
/// other.
pub open spec fn parse_verdict(ms: Seq<BlsMaterial>, a: int, b: int) -> Result<(), AuthFault>
    decreases b - a,
{
    if a >= b {
        Ok(())
    } else if !bls::bls_key_decodes(ms[a].public@) {
        Err(AuthFault::KeyParse)
    } else if !bls::bls_signature_decodes(ms[a].signature@) {
        Err(AuthFault::SignatureParse)
    } else {
        parse_verdict(ms, a + 1, b)
    }
}

/// Whether a stretch passes when its signatures are aggregated first, and if not,
/// why.
pub open spec fn construct_verdict(ms: Seq<BlsMaterial>, a: int, b: int) -> Result<(), AuthFault> {
    match parse_verdict(ms, a, b) {
        Err(fault) => Err(fault),
        Ok(()) => match bls::bls_aggregate(bls_signatures(ms, a, b)) {
            None => Err(AuthFault::Aggregate),
            Some(s) => if bls::bls_aggregate_verifies(
                s,
                bls_messages(ms, a, b),
                dst_bytes(),
                bls_publics(ms, a, b),
            ) {
                Ok(())
            } else {
                Err(AuthFault::Rejected)
            },
        },
    }
}

/// Aggregates the signatures of a stretch and checks the aggregate.
pub fn construct_and_check(ms: &Vec<BlsMaterial>, a: usize, b: usize) -> (r: Result<
    u64,
    AuthFault,
>)
    requires
        a <= b <= ms@.len(),
    ensures
        match r {
            Ok(sum) => construct_verdict(ms@, a as int, b as int) is Ok && sum == auth::range_sum(
                auth::auth_shares::<Bls, 48, 96>(ms@),
                a as int,
                b as int,
            ),
            Err(fault) => construct_verdict(ms@, a as int, b as int) == Err::<(), AuthFault>(fault),
        },
{
    let ghost shares = auth::auth_shares::<Bls, 48, 96>(ms@);
    let mut messages: Vec<[u8; 88]> = Vec::new();
    let mut publics: Vec<BlsPublicBytes> = Vec::new();
    let mut signatures: Vec<BlsSignatureBytes> = Vec::new();
    let mut sum: u64 = 0;
    let mut i: usize = a;
    while i < b
        invariant
            a <= i <= b <= ms@.len(),
            shares == auth::auth_shares::<Bls, 48, 96>(ms@),
            messages@.len() == i - a,
            publics@.len() == i - a,
            signatures@.len() == i - a,
            forall|j: int| 0 <= j < i - a ==> (#[trigger] messages@[j])@ == auth::message_of(ms@[a + j]),
            forall|j: int| 0 <= j < i - a ==> (#[trigger] publics@[j]) == ms@[a + j].public,
            forall|j: int| 0 <= j < i - a ==> (#[trigger] signatures@[j]) == ms@[a + j].signature,
            parse_verdict(ms@, a as int, b as int) == parse_verdict(ms@, i as int, b as int),
            sum == auth::range_sum(shares, a as int, i as int),
        decreases b - i,
    {
        let m: BlsMaterial = ms[i];
        if !bls_reads_key(&m.public) {
            return Err(AuthFault::KeyParse);
        }
        if !bls_reads_signature(&m.signature) {
            return Err(AuthFault::SignatureParse);
        }
        messages.push(material_message(&m));
        publics.push(m.public);
        signatures.push(m.signature);
        sum = sum ^ <Bls as AuthScheme<48, 96>>::share_value(&m);
        i = i + 1;
        assert(shares[i - 1] == <Bls as AuthScheme<48, 96>>::share(m));
    }
    proof {
        assert(crypto::each(messages@) =~= bls_messages(ms@, a as int, b as int));
        assert(crypto::each(publics@) =~= bls_publics(ms@, a as int, b as int));
        assert(crypto::each(signatures@) =~= bls_signatures(ms@, a as int, b as int));
    }
    match bls_aggregate_of(&signatures) {
        Some(s) => if bls_aggregate_verify(&s, &messages, dst(), &publics) {
            Ok(sum)
        } else {
            Err(AuthFault::Rejected)
        },
        None => Err(AuthFault::Aggregate),
    }
}

/// Whether all batches of a stretch pass; if not, what is wrong with the first that
/// does not.
pub open spec fn construct_stretch(ms: Seq<BlsMaterial>, a: int, end: int, size: int) -> Result<
    (),
    AuthFault,
>
    decreases end - a,
{
    if a >= end || size <= 0 {
        Ok(())
    } else {
        let b = auth_ed25519::chunk_end(a, end, size);
        match construct_verdict(ms, a, b) {
            Ok(()) => construct_stretch(ms, b, end, size),
            Err(fault) => Err(fault),
        }
    }
}

/// Aggregates and checks a stretch in batches.
pub fn construct_range(ms: &Vec<BlsMaterial>, start: usize, end: usize, batch_size: usize) -> (r:
    Result<AuthTotals, AuthFault>)
    requires
        start <= end <= ms@.len(),
        batch_size > 0,
    ensures
        match r {
            Ok(t) => {
                &&& construct_stretch(ms@, start as int, end as int, batch_size as int) is Ok
                &&& t.verified == end - start
                &&& t.checksum == auth::range_sum(
                    auth::auth_shares::<Bls, 48, 96>(ms@),
                    start as int,
                    end as int,
                )
            },
            Err(fault) => construct_stretch(ms@, start as int, end as int, batch_size as int)
                == Err::<(), AuthFault>(fault),
        },
{
    let ghost shares = auth::auth_shares::<Bls, 48, 96>(ms@);
    let mut cursor: usize = start;
    let mut checksum: u64 = 0;
    while cursor < end
        invariant
            start <= cursor <= end <= ms@.len(),
            batch_size > 0,
            shares == auth::auth_shares::<Bls, 48, 96>(ms@),
            construct_stretch(ms@, start as int, end as int, batch_size as int)
                == construct_stretch(ms@, cursor as int, end as int, batch_size as int),
            checksum == auth::range_sum(shares, start as int, cursor as int),
        decreases end - cursor,
    {
        let next: usize = if end - cursor > batch_size {
            cursor + batch_size
        } else {
            end
        };
        match construct_and_check(ms, cursor, next) {
            Ok(sum) => {
                proof {
                    auth::lemma_range_sum(shares, start as int, cursor as int, next as int);
                }
                checksum = checksum ^ sum;
            },
            Err(fault) => {
                return Err(fault);
            },
        }
        cursor = next;
    }
    Ok(AuthTotals { verified: end - start, checksum })
}

/// Whether the stretch of a worker passes.
pub open spec fn construct_worker(ms: Seq<BlsMaterial>, workers: int, size: int, w: int) -> Result<
    (),
    AuthFault,
> {
    construct_stretch(
        ms,
        auth::bound_of(ms.len() as int, workers, w),
        auth::bound_of(ms.len() as int, workers, w + 1),
        size,
    )
}

/// Aggregates and checks all authorizations, with workers that take a stretch each.
pub fn run_aggregate_construct_and_verify(
    materials: &Vec<BlsMaterial>,
    workers: usize,
    batch_size: usize,
) -> (r: Result<AuthTotals, AuthFault>)
    requires
        workers > 0,
        batch_size > 0,
        materials@.len() * workers <= usize::MAX,
    ensures
        match r {
            Ok(t) => {
                &&& forall|w: int|
                    0 <= w < workers ==> #[trigger] construct_worker(
                        materials@,
                        workers as int,
                        batch_size as int,
                        w,
                    ) is Ok
                &&& t.verified == materials@.len()
                &&& t.checksum == auth::range_sum(
                    auth::auth_shares::<Bls, 48, 96>(materials@),
                    0,
                    materials@.len() as int,
                )
            },
            Err(fault) => exists|w: int|
                0 <= w < workers && #[trigger] construct_worker(
                    materials@,
                    workers as int,
                    batch_size as int,
                    w,
                ) == Err::<(), AuthFault>(fault),
        },
{
    let ghost shares = auth::auth_shares::<Bls, 48, 96>(materials@);
    let total: usize = materials.len();
    let mut w: usize = 0;
    let mut verified: usize = 0;
    let mut checksum: u64 = 0;
    proof {
        auth::lemma_bounds(total as int, workers as int, 0);
    }
    while w < workers
        invariant
            w <= workers,
            workers > 0,
            batch_size > 0,
            total == materials@.len(),
            materials@.len() * workers <= usize::MAX,
            shares == auth::auth_shares::<Bls, 48, 96>(materials@),
            verified == auth::bound_of(total as int, workers as int, w as int),
            checksum == auth::stretches_sum(shares, workers as int, w as int),
            forall|v: int|
                0 <= v < w ==> #[trigger] construct_worker(
                    materials@,
                    workers as int,
                    batch_size as int,
                    v,
                ) is Ok,
        decreases workers - w,
    {
        proof {
            auth::lemma_bounds(total as int, workers as int, w as int);
        }
        let (start, end): (usize, usize) = worker_range(total, workers, w);
        match construct_range(materials, start, end, batch_size) {
            Ok(t) => {
                verified = verified + t.verified;
                checksum = checksum ^ t.checksum;
                assert(construct_worker(
                    materials@,
                    workers as int,
                    batch_size as int,
                    w as int,
                ) is Ok);
            },
            Err(fault) => {
                assert(construct_worker(
                    materials@,
                    workers as int,
                    batch_size as int,
                    w as int,
                ) == Err::<(), AuthFault>(fault));
                return Err(fault);
            },
        }
        w = w + 1;
    }
    proof {
        auth::lemma_bounds(total as int, workers as int, workers - 1);
        auth::law_stretches_cover_all(shares, workers as int);
    }
    Ok(AuthTotals { verified, checksum })
}

/// How authorizations are checked.
#[derive(Clone, Copy, Debug, PartialEq, Eq, Structural)]
pub enum Mode {
    Individual,
    Aggregate,
    Construct,
}

/// The words for a refused authorization.
pub open spec fn bls_fault_words(mode: Mode, fault: AuthFault) -> Seq<char> {
    match (mode, fault) {
        (Mode::Individual, AuthFault::KeyParse) => "PERF-020 individual pk parse"@,
        (Mode::Individual, AuthFault::SignatureParse) => "PERF-020 individual sig parse"@,
        (Mode::Individual, _) => "PERF-020 individual BLS reject"@,
        (Mode::Aggregate, AuthFault::KeyParse) => "PERF-020 aggregate pk parse"@,
        (Mode::Aggregate, AuthFault::SignatureParse) => "PERF-020 aggregate sig parse"@,
        (Mode::Aggregate, _) => "PERF-020 aggregate verify reject"@,
        (Mode::Construct, AuthFault::KeyParse) => "PERF-020 construct pk parse"@,
        (Mode::Construct, AuthFault::SignatureParse) => "PERF-020 construct sig parse"@,
        (Mode::Construct, AuthFault::Aggregate) => "PERF-020 aggregate inside timing"@,
        (Mode::Construct, AuthFault::Rejected) => "PERF-020 construct+verify reject"@,
    }
}

pub fn fault_text(mode: Mode, fault: AuthFault) -> (r: String)
    ensures
        r@ == bls_fault_words(mode, fault),
{
    match (mode, fault) {
        (Mode::Individual, AuthFault::KeyParse) => text("PERF-020 individual pk parse"),
        (Mode::Individual, AuthFault::SignatureParse) => text("PERF-020 individual sig parse"),
        (Mode::Individual, _) => text("PERF-020 individual BLS reject"),
        (Mode::Aggregate, AuthFault::KeyParse) => text("PERF-020 aggregate pk parse"),
        (Mode::Aggregate, AuthFault::SignatureParse) => text("PERF-020 aggregate sig parse"),
        (Mode::Aggregate, _) => text("PERF-020 aggregate verify reject"),
        (Mode::Construct, AuthFault::KeyParse) => text("PERF-020 construct pk parse"),
        (Mode::Construct, AuthFault::SignatureParse) => text("PERF-020 construct sig parse"),
        (Mode::Construct, AuthFault::Aggregate) => text("PERF-020 aggregate inside timing"),
        (Mode::Construct, AuthFault::Rejected) => text("PERF-020 construct+verify reject"),
    }
}

/// An aggregate is accepted exactly if every key and the signature can be read and it
/// verifies on the messages and keys of its batch.
pub proof fn law_aggregate_is_accepted_if(ms: Seq<BlsMaterial>, b: AggregateBatch)
    ensures
        aggregate_verdict(ms, b) is Ok <==> {
            &&& forall|i: int|
                b.start <= i < b.end ==> bls::bls_key_decodes((#[trigger] ms[i]).public@)
            &&& bls::bls_signature_decodes(b.signature@)
            &&& bls::bls_aggregate_verifies(
                b.signature@,
                Seq::new((b.end - b.start) as nat, |i: int| auth::message_of(ms[b.start + i])),
                dst_bytes(),
                Seq::new((b.end - b.start) as nat, |i: int| ms[b.start + i].public@),
            )
        },
{
    let n = (b.end - b.start) as nat;
    assert(Seq::new(n, |i: int| auth::message_of(ms[b.start + i])) =~= bls_messages(
        ms,
        b.start as int,
        b.end as int,
    ));
    assert(Seq::new(n, |i: int| ms[b.start + i].public@) =~= bls_publics(
        ms,
        b.start as int,
        b.end as int,
    ));
}

proof fn lemma_parse_verdict(ms: Seq<BlsMaterial>, a: int, b: int)
    ensures
        parse_verdict(ms, a, b) is Ok <==> forall|i: int|
            a <= i < b ==> bls::bls_key_decodes((#[trigger] ms[i]).public@)
                && bls::bls_signature_decodes(ms[i].signature@),
    decreases b - a,
{
    if a < b {
        lemma_parse_verdict(ms, a + 1, b);
    }
}

/// A stretch is made and verified exactly if every key and signature in it can be read, the
/// signatures have an aggregate, and that verifies on its messages and keys: as an aggregate
/// that was made before is.
pub proof fn law_stretch_is_made_and_verified_if(ms: Seq<BlsMaterial>, a: int, b: int)
    ensures
        construct_verdict(ms, a, b) is Ok <==> {
            &&& forall|i: int|
                a <= i < b ==> bls::bls_key_decodes((#[trigger] ms[i]).public@)
                    && bls::bls_signature_decodes(ms[i].signature@)
            &&& bls::bls_aggregate(bls_signatures(ms, a, b)) is Some
            &&& bls::bls_aggregate_verifies(
                bls::bls_aggregate(bls_signatures(ms, a, b))->Some_0,
                bls_messages(ms, a, b),
                dst_bytes(),
                bls_publics(ms, a, b),
            )
        },
        stretch_aggregate(ms, a, b) is Ok <==> {
            &&& forall|i: int|
                a <= i < b ==> bls::bls_signature_decodes((#[trigger] ms[i]).signature@)
            &&& bls::bls_aggregate(bls_signatures(ms, a, b)) is Some
        },
{
    lemma_parse_verdict(ms, a, b);
}

} // verus!
