//! Signed authorizations, and ways to check many of them.
use crate::bytes;
use crate::bytes::{array_from, put_u64};
use crate::engine;
use crate::engine::{mix64, turn};
use crate::envelope;
use crate::envelope::MAX_ARITY;
use vstd::prelude::*;

verus! {

/// How many signers there are.
pub const KEY_POOL: usize = 1024;

/// The length of the message of an authorization.
pub const MESSAGE_LEN: usize = 88;

/// A transaction with the key and the signature that authorize it.
#[derive(Clone, Copy, Debug)]
pub struct AuthMaterial<const P: usize, const S: usize> {
    pub tx: u64,
    pub arity: usize,
    pub value: u64,
    pub inputs: [u64; 8],
    pub public: [u8; P],
    pub signature: [u8; S],
}

/// Why an authorization is refused.
#[derive(Clone, Copy, Debug, PartialEq, Eq, Structural)]
pub enum AuthFault {
    KeyParse,
    SignatureParse,
    Aggregate,
    Rejected,
}

// ---------------------------------------------------------------------------
// Messages and keys.
// ---------------------------------------------------------------------------

/// The message that authorizes a transaction.
pub open spec fn message_bytes(tx: u64, arity: u64, value: u64, inputs: Seq<u64>) -> Seq<u8> {
    bytes::le64(tx) + bytes::le64(value) + bytes::le64(arity) + envelope::word_bytes(inputs, inputs.len() as int)
}

pub fn auth_message(tx: u64, arity: usize, value: u64, inputs: &[u64; 8]) -> (r: [u8; 88])
    ensures
        r@ == message_bytes(tx, arity as u64, value, inputs@),
{
    broadcast use bytes::lemma_le64;

    let mut out: Vec<u8> = Vec::new();
    put_u64(&mut out, tx);
    put_u64(&mut out, value);
    put_u64(&mut out, arity as u64);
    let ghost head = out@;
    assert(head =~= bytes::le64(tx) + bytes::le64(value) + bytes::le64(arity as u64));
    let mut k: usize = 0;
    assert(out@ =~= head + envelope::word_bytes(inputs@, 0));
    while k < MAX_ARITY
        invariant
            k <= MAX_ARITY,
            inputs@.len() == MAX_ARITY,
            head.len() == 24,
            out@ == head + envelope::word_bytes(inputs@, k as int),
        decreases MAX_ARITY - k,
    {
        put_u64(&mut out, inputs[k]);
        k = k + 1;
        assert(out@ =~= head + envelope::word_bytes(inputs@, k as int));
    }
    proof {
        envelope::lemma_word_bytes(inputs@, 8);
    }
    array_from::<88>(&out)
}

/// The message of an authorization.
pub open spec fn message_of<const P: usize, const S: usize>(m: AuthMaterial<P, S>) -> Seq<u8> {
    message_bytes(m.tx, m.arity as u64, m.value, m.inputs@)
}

pub fn material_message<const P: usize, const S: usize>(m: &AuthMaterial<P, S>) -> (r: [u8; 88])
    ensures
        r@ == message_of(*m),
{
    auth_message(m.tx, m.arity, m.value, &m.inputs)
}

/// One message says one thing: two transactions with the same message are the
/// same in all that was signed.
pub proof fn law_message_binds_the_transaction<const P: usize, const S: usize>(
    a: AuthMaterial<P, S>,
    b: AuthMaterial<P, S>,
)
    requires
        message_of(a) == message_of(b),
    ensures
        a.tx == b.tx,
        a.value == b.value,
        a.arity as u64 == b.arity as u64,
        a.inputs@ == b.inputs@,
{
    lemma_message_words(a.tx, a.arity as u64, a.value, a.inputs@);
    lemma_message_words(b.tx, b.arity as u64, b.value, b.inputs@);
    assert forall|k: int| 0 <= k < 8 implies a.inputs@[k] == b.inputs@[k] by {
        assert(envelope::word_at(message_of(a), 24 + 8 * k) == a.inputs@[k]);
        assert(envelope::word_at(message_of(b), 24 + 8 * k) == b.inputs@[k]);
    }
    assert(a.inputs@ =~= b.inputs@);
}

proof fn lemma_message_words(tx: u64, arity: u64, value: u64, inputs: Seq<u64>)
    ensures
        ({
            let b = message_bytes(tx, arity, value, inputs);
            &&& b.len() == 24 + 8 * inputs.len()
            &&& envelope::word_at(b, 0) == tx
            &&& envelope::word_at(b, 8) == value
            &&& envelope::word_at(b, 16) == arity
            &&& forall|k: int|
                0 <= k < inputs.len() ==> envelope::word_at(b, 24 + 8 * k) == #[trigger] inputs[k]
        }),
{
    reveal(envelope::word_at);
    let n = inputs.len() as int;
    let words = envelope::word_bytes(inputs, n);
    let b = message_bytes(tx, arity, value, inputs);
    envelope::lemma_word_bytes(inputs, n);
    bytes::lemma_le64(tx);
    bytes::lemma_le64(value);
    bytes::lemma_le64(arity);
    lemma_message_parts(bytes::le64(tx), bytes::le64(value), bytes::le64(arity), words, n);
    assert forall|k: int| 0 <= k < n implies envelope::word_at(b, 24 + 8 * k) == #[trigger] inputs[k] by {
        assert(words.subrange(8 * k, 8 * k + 8) == bytes::le64(inputs[k]));
        bytes::lemma_le64(inputs[k]);
    }
}

proof fn lemma_message_parts(tx: Seq<u8>, value: Seq<u8>, arity: Seq<u8>, words: Seq<u8>, n: int)
    requires
        tx.len() == 8,
        value.len() == 8,
        arity.len() == 8,
        words.len() == 8 * n,
    ensures
        ({
            let b = tx + value + arity + words;
            &&& b.len() == 24 + 8 * n
            &&& b.subrange(0, 8) == tx
            &&& b.subrange(8, 16) == value
            &&& b.subrange(16, 24) == arity
            &&& forall|k: int|
                0 <= k < n ==> (#[trigger] words.subrange(8 * k, 8 * k + 8)) == b.subrange(
                    24 + 8 * k,
                    24 + 8 * k + 8,
                )
        }),
{
    let b = tx + value + arity + words;
    assert(b.subrange(0, 8) =~= tx);
    assert(b.subrange(8, 16) =~= value);
    assert(b.subrange(16, 24) =~= arity);
    assert forall|k: int| 0 <= k < n implies (#[trigger] words.subrange(8 * k, 8 * k + 8))
        == b.subrange(24 + 8 * k, 24 + 8 * k + 8) by {
        assert(words.subrange(8 * k, 8 * k + 8) =~= b.subrange(24 + 8 * k, 24 + 8 * k + 8));
    }
}

/// The word number `i` of the seed of a signer.
pub open spec fn seed_word(domain: u64, index: u64, i: u64) -> u64 {
    engine::mixed(index ^ domain ^ i.wrapping_mul(0x9e37_79b9_7f4a_7c15))
}

/// The seed of a signer.
pub open spec fn signer_seed(domain: u64, index: u64) -> Seq<u8> {
    bytes::le64(seed_word(domain, index, 0)) + bytes::le64(seed_word(domain, index, 1)) + bytes::le64(
        seed_word(domain, index, 2),
    ) + bytes::le64(seed_word(domain, index, 3))
}

pub fn make_seed(domain: u64, index: u64) -> (r: [u8; 32])
    ensures
        r@ == signer_seed(domain, index),
{
    broadcast use bytes::lemma_le64;

    let mut out: Vec<u8> = Vec::new();
    put_u64(&mut out, mix64(index ^ domain ^ 0u64.wrapping_mul(0x9e37_79b9_7f4a_7c15)));
    put_u64(&mut out, mix64(index ^ domain ^ 1u64.wrapping_mul(0x9e37_79b9_7f4a_7c15)));
    put_u64(&mut out, mix64(index ^ domain ^ 2u64.wrapping_mul(0x9e37_79b9_7f4a_7c15)));
    put_u64(&mut out, mix64(index ^ domain ^ 3u64.wrapping_mul(0x9e37_79b9_7f4a_7c15)));
    assert(out@ =~= signer_seed(domain, index));
    array_from::<32>(&out)
}

/// The inputs of a transaction: eight, which no other transaction has.
pub open spec fn eight_inputs(tx: u64) -> Seq<u64> {
    Seq::new(8, |k: int| (tx * 8 + k) as u64)
}

pub fn referenced_serial(tx: u64, k: usize, arity: usize) -> (r: u64)
    requires
        tx * arity + k <= u64::MAX,
    ensures
        r == tx * arity + k,
{
    proof {
        assert(0 <= tx * arity) by (nonlinear_arith)
            requires
                0 <= tx,
                0 <= arity,
        ;
    }
    tx * arity as u64 + k as u64
}

pub fn own_inputs(tx: u64) -> (r: [u64; 8])
    requires
        tx * 8 + 7 <= u64::MAX,
    ensures
        r@ == eight_inputs(tx),
{
    let mut inputs: [u64; 8] = [u64::MAX;8];
    let mut k: usize = 0;
    while k < MAX_ARITY
        invariant
            k <= MAX_ARITY,
            tx * 8 + 7 <= u64::MAX,
            forall|j: int| 0 <= j < k ==> (#[trigger] inputs@[j]) == tx * 8 + j,
        decreases MAX_ARITY - k,
    {
        inputs[k] = referenced_serial(tx, k, MAX_ARITY);
        k = k + 1;
    }
    assert(inputs@ =~= eight_inputs(tx));
    inputs
}

// ---------------------------------------------------------------------------
// Checksums.
// ---------------------------------------------------------------------------

/// What an authorization adds to a checksum.
pub open spec fn share_of_auth(tx: u64, first: u8, bits: u32) -> u64 {
    engine::mixed(tx ^ engine::turned(first as u64, bits))
}

pub fn auth_share(tx: u64, first: u8, bits: u32) -> (r: u64)
    requires
        bits < 64,
    ensures
        r == share_of_auth(tx, first, bits),
{
    mix64(tx ^ turn(first as u64, bits))
}

/// The checksum of the shares from `start` up to `end`.
pub open spec fn range_sum(shares: Seq<u64>, start: int, end: int) -> u64
    decreases end - start,
{
    if end <= start {
        0
    } else {
        range_sum(shares, start, end - 1) ^ shares[end - 1]
    }
}

/// The checksum of those of the first `n` shares that are a worker's turn.
pub open spec fn stride_sum(shares: Seq<u64>, workers: int, w: int, n: int) -> u64
    decreases n,
{
    if n <= 0 {
        0
    } else if (n - 1) % workers == w {
        stride_sum(shares, workers, w, n - 1) ^ shares[n - 1]
    } else {
        stride_sum(shares, workers, w, n - 1)
    }
}

/// How many of the first `n` are a worker's turn.
pub open spec fn stride_count(workers: int, w: int, n: int) -> int
    decreases n,
{
    if n <= 0 {
        0
    } else {
        stride_count(workers, w, n - 1) + if (n - 1) % workers == w {
            1int
        } else {
            0
        }
    }
}

/// The checksums of the first `k` workers that take turns, together.
pub open spec fn strides_sum(shares: Seq<u64>, workers: int, k: int) -> u64
    decreases k,
{
    if k <= 0 {
        0
    } else {
        strides_sum(shares, workers, k - 1) ^ stride_sum(
            shares,
            workers,
            k - 1,
            shares.len() as int,
        )
    }
}

/// The same, over the first `n` shares.
spec fn grid_sum(shares: Seq<u64>, workers: int, k: int, n: int) -> u64
    decreases k,
{
    if k <= 0 {
        0
    } else {
        grid_sum(shares, workers, k - 1, n) ^ stride_sum(shares, workers, k - 1, n)
    }
}

proof fn lemma_grid_step(shares: Seq<u64>, workers: int, k: int, n: int)
    requires
        workers > 0,
        0 <= k,
        n > 0,
    ensures
        grid_sum(shares, workers, k, n) == if (n - 1) % workers < k {
            grid_sum(shares, workers, k, n - 1) ^ shares[n - 1]
        } else {
            grid_sum(shares, workers, k, n - 1)
        },
    decreases k,
{
    vstd::arithmetic::div_mod::lemma_mod_bound(n - 1, workers);
    if k > 0 {
        lemma_grid_step(shares, workers, k - 1, n);
        let a = grid_sum(shares, workers, k - 1, n - 1);
        let b = stride_sum(shares, workers, k - 1, n - 1);
        let c = shares[n - 1];
        assert((a ^ b) ^ c == a ^ (b ^ c) && (a ^ c) ^ b == (a ^ b) ^ c) by (bit_vector);
    }
}

proof fn lemma_grid_all(shares: Seq<u64>, workers: int, n: int)
    requires
        workers > 0,
        0 <= n,
    ensures
        grid_sum(shares, workers, workers, n) == range_sum(shares, 0, n),
    decreases n,
{
    if n > 0 {
        lemma_grid_step(shares, workers, workers, n);
        lemma_grid_all(shares, workers, n - 1);
        vstd::arithmetic::div_mod::lemma_mod_bound(n - 1, workers);
    } else {
        lemma_grid_none(shares, workers, workers);
    }
}

proof fn lemma_grid_none(shares: Seq<u64>, workers: int, k: int)
    requires
        0 <= k,
    ensures
        grid_sum(shares, workers, k, 0) == 0,
    decreases k,
{
    if k > 0 {
        lemma_grid_none(shares, workers, k - 1);
        assert(0u64 ^ 0u64 == 0) by (bit_vector);
    }
}

proof fn lemma_grid_is_strides(shares: Seq<u64>, workers: int, k: int)
    ensures
        grid_sum(shares, workers, k, shares.len() as int) == strides_sum(shares, workers, k),
    decreases k,
{
    if k > 0 {
        lemma_grid_is_strides(shares, workers, k - 1);
    }
}

/// Workers that take turns come to the checksum of the whole list, however many
/// they are.
pub proof fn law_turns_cover_all(shares: Seq<u64>, workers: int)
    requires
        workers > 0,
    ensures
        strides_sum(shares, workers, workers) == range_sum(shares, 0, shares.len() as int),
{
    lemma_grid_is_strides(shares, workers, workers);
    lemma_grid_all(shares, workers, shares.len() as int);
}

/// How many are the turn of the first `k` workers.
pub open spec fn strides_count(workers: int, k: int, n: int) -> int
    decreases k,
{
    if k <= 0 {
        0
    } else {
        strides_count(workers, k - 1, n) + stride_count(workers, k - 1, n)
    }
}

proof fn lemma_strides_step(workers: int, k: int, n: int)
    requires
        workers > 0,
        0 <= k,
        n > 0,
    ensures
        strides_count(workers, k, n) == strides_count(workers, k, n - 1) + if (n - 1) % workers
            < k {
            1int
        } else {
            0
        },
    decreases k,
{
    vstd::arithmetic::div_mod::lemma_mod_bound(n - 1, workers);
    if k > 0 {
        lemma_strides_step(workers, k - 1, n);
    }
}

proof fn lemma_strides_none(workers: int, k: int)
    requires
        0 <= k,
    ensures
        strides_count(workers, k, 0) == 0,
    decreases k,
{
    if k > 0 {
        lemma_strides_none(workers, k - 1);
    }
}

/// Workers that take turns take every one, once.
pub proof fn law_turns_count_all(workers: int, n: int)
    requires
        workers > 0,
        0 <= n,
    ensures
        strides_count(workers, workers, n) == n,
    decreases n,
{
    if n > 0 {
        lemma_strides_step(workers, workers, n);
        law_turns_count_all(workers, n - 1);
        vstd::arithmetic::div_mod::lemma_mod_bound(n - 1, workers);
    } else {
        lemma_strides_none(workers, workers);
    }
}

/// Where the stretch of a worker begins.
pub open spec fn bound_of(total: int, workers: int, w: int) -> int {
    (total * w) / workers
}

pub proof fn lemma_bounds(total: int, workers: int, w: int)
    requires
        workers > 0,
        0 <= total,
        0 <= w < workers,
    ensures
        0 <= bound_of(total, workers, w) <= bound_of(total, workers, w + 1) <= total,
        bound_of(total, workers, 0) == 0,
        bound_of(total, workers, workers) == total,
{
    assert(total * w <= total * (w + 1) && 0 <= total * w && total * (w + 1) <= total * workers)
        by (nonlinear_arith)
        requires
            0 <= total,
            0 <= w < workers,
    ;
    assert(total * 0 == 0) by (nonlinear_arith);
    vstd::arithmetic::div_mod::lemma_div_is_ordered(total * w, total * (w + 1), workers);
    vstd::arithmetic::div_mod::lemma_div_is_ordered(total * (w + 1), total * workers, workers);
    vstd::arithmetic::div_mod::lemma_div_by_multiple(total, workers);
    vstd::arithmetic::div_mod::lemma_div_pos_is_pos(total * w, workers);
}

/// The stretch of a list that is a worker's.
pub fn worker_range(total: usize, workers: usize, w: usize) -> (r: (usize, usize))
    requires
        w < workers,
        total * workers <= usize::MAX,
    ensures
        r.0 == bound_of(total as int, workers as int, w as int),
        r.1 == bound_of(total as int, workers as int, w + 1),
        r.0 <= r.1 <= total,
{
    proof {
        lemma_bounds(total as int, workers as int, w as int);
        assert(total * w <= total * (w + 1) && 0 <= total * w && total * (w + 1) <= total * workers)
            by (nonlinear_arith)
            requires
                0 <= total,
                0 <= w < workers,
        ;
    }
    (total * w / workers, total * (w + 1) / workers)
}

pub proof fn lemma_range_sum(shares: Seq<u64>, start: int, mid: int, end: int)
    requires
        start <= mid <= end,
    ensures
        range_sum(shares, start, end) == range_sum(shares, start, mid) ^ range_sum(
            shares,
            mid,
            end,
        ),
    decreases end - mid,
{
    let a = range_sum(shares, start, mid);
    if mid == end {
        assert(a ^ 0u64 == a) by (bit_vector);
    } else {
        lemma_range_sum(shares, start, mid, end - 1);
        let b = range_sum(shares, mid, end - 1);
        let c = shares[end - 1];
        assert((a ^ b) ^ c == a ^ (b ^ c)) by (bit_vector);
    }
}

/// The checksums of the stretches of the first `k` workers, together.
pub open spec fn stretches_sum(shares: Seq<u64>, workers: int, k: int) -> u64
    decreases k,
{
    if k <= 0 {
        0
    } else {
        let n = shares.len() as int;
        stretches_sum(shares, workers, k - 1) ^ range_sum(
            shares,
            bound_of(n, workers, k - 1),
            bound_of(n, workers, k),
        )
    }
}

proof fn lemma_stretches(shares: Seq<u64>, workers: int, k: int)
    requires
        workers > 0,
        0 <= k <= workers,
    ensures
        stretches_sum(shares, workers, k) == range_sum(
            shares,
            0,
            bound_of(shares.len() as int, workers, k),
        ),
    decreases k,
{
    let n = shares.len() as int;
    if k > 0 {
        lemma_stretches(shares, workers, k - 1);
        lemma_bounds(n, workers, k - 1);
        lemma_range_sum(shares, 0, bound_of(n, workers, k - 1), bound_of(n, workers, k));
    } else {
        lemma_bounds(n, workers, 0);
    }
}

/// Workers that take a stretch each come to the checksum of the whole list, however
/// many they are.
pub proof fn law_stretches_cover_all(shares: Seq<u64>, workers: int)
    requires
        workers > 0,
    ensures
        stretches_sum(shares, workers, workers) == range_sum(shares, 0, shares.len() as int),
{
    lemma_stretches(shares, workers, workers);
    lemma_bounds(shares.len() as int, workers, workers - 1);
}

// ---------------------------------------------------------------------------
// One by one.
// ---------------------------------------------------------------------------

/// A way to sign.
pub trait AuthScheme<const P: usize, const S: usize> {
    /// Whether an authorization is good, and if not, why.
    spec fn verdict(m: AuthMaterial<P, S>) -> Result<(), AuthFault>;

    /// What an authorization adds to a checksum.
    spec fn share(m: AuthMaterial<P, S>) -> u64;

    fn check(m: &AuthMaterial<P, S>) -> (r: Result<(), AuthFault>)
        ensures
            r == Self::verdict(*m),
    ;

    fn share_value(m: &AuthMaterial<P, S>) -> (r: u64)
        ensures
            r == Self::share(*m),
    ;
}

/// What the authorizations of a list add to a checksum.
pub open spec fn auth_shares<X: AuthScheme<P, S>, const P: usize, const S: usize>(
    ms: Seq<AuthMaterial<P, S>>,
) -> Seq<u64> {
    Seq::new(ms.len(), |i: int| X::share(ms[i]))
}

/// How many were checked, and the checksum.
#[derive(Clone, Copy, Debug, PartialEq, Eq, Structural)]
pub struct AuthTotals {
    pub verified: usize,
    pub checksum: u64,
}

/// Some authorization of a list is refused for a reason.
pub open spec fn some_refused<X: AuthScheme<P, S>, const P: usize, const S: usize>(
    ms: Seq<AuthMaterial<P, S>>,
    fault: AuthFault,
) -> bool {
    exists|i: int|
        0 <= i < ms.len() && #[trigger] X::verdict(ms[i]) == Err::<(), AuthFault>(fault)
}

/// Checks the authorizations that are a worker's turn.
pub fn check_turns<X: AuthScheme<P, S>, const P: usize, const S: usize>(
    ms: &Vec<AuthMaterial<P, S>>,
    workers: usize,
    w: usize,
) -> (r: Result<AuthTotals, AuthFault>)
    requires
        w < workers,
    ensures
        match r {
            Ok(t) => {
                &&& forall|i: int|
                    0 <= i < ms@.len() && i % workers as int == w ==> #[trigger] X::verdict(
                        ms@[i],
                    ) is Ok
                &&& t.verified == stride_count(workers as int, w as int, ms@.len() as int)
                &&& t.checksum == stride_sum(
                    auth_shares::<X, P, S>(ms@),
                    workers as int,
                    w as int,
                    ms@.len() as int,
                )
            },
            Err(fault) => some_refused::<X, P, S>(ms@, fault),
        },
{
    let ghost shares = auth_shares::<X, P, S>(ms@);
    let mut i: usize = 0;
    let mut turn_of: usize = 0;
    let mut verified: usize = 0;
    let mut checksum: u64 = 0;
    proof {
        vstd::arithmetic::div_mod::lemma_small_mod(0, workers as nat);
    }
    while i < ms.len()
        invariant
            w < workers,
            i <= ms@.len(),
            turn_of == i as int % workers as int,
            turn_of < workers,
            verified <= i,
            shares == auth_shares::<X, P, S>(ms@),
            verified == stride_count(workers as int, w as int, i as int),
            checksum == stride_sum(shares, workers as int, w as int, i as int),
            forall|j: int|
                0 <= j < i && j % workers as int == w ==> #[trigger] X::verdict(ms@[j]) is Ok,
        decreases ms@.len() - i,
    {
        if turn_of == w {
            match X::check(&ms[i]) {
                Ok(()) => {
                    verified = verified + 1;
                    checksum = checksum ^ X::share_value(&ms[i]);
                },
                Err(fault) => {
                    assert(X::verdict(ms@[i as int]) == Err::<(), AuthFault>(fault));
                    return Err(fault);
                },
            }
        }
        proof {
            lemma_next_turn(i as int, workers as int);
        }
        turn_of = if turn_of + 1 == workers {
            0
        } else {
            turn_of + 1
        };
        i = i + 1;
    }
    Ok(AuthTotals { verified, checksum })
}

proof fn lemma_next_turn(i: int, workers: int)
    requires
        workers > 0,
        0 <= i,
    ensures
        (i + 1) % workers == if i % workers + 1 == workers {
            0
        } else {
            i % workers + 1
        },
{
    let (q, r) = (i / workers, i % workers);
    vstd::arithmetic::div_mod::lemma_fundamental_div_mod(i, workers);
    vstd::arithmetic::div_mod::lemma_mod_bound(i, workers);
    if r + 1 == workers {
        assert((q + 1) * workers == workers * q + workers) by (nonlinear_arith);
        vstd::arithmetic::div_mod::lemma_fundamental_div_mod_converse(i + 1, workers, q + 1, 0);
    } else {
        assert(q * workers == workers * q) by (nonlinear_arith);
        vstd::arithmetic::div_mod::lemma_fundamental_div_mod_converse(i + 1, workers, q, r + 1);
    }
}

/// Checks all authorizations one by one, with workers that take turns. It succeeds
/// if and only if every one is good; the checksum does not depend on the number of
/// workers.
pub fn check_each<X: AuthScheme<P, S>, const P: usize, const S: usize>(
    ms: &Vec<AuthMaterial<P, S>>,
    workers: usize,
) -> (r: Result<AuthTotals, AuthFault>)
    requires
        workers > 0,
    ensures
        match r {
            Ok(t) => {
                &&& forall|i: int| 0 <= i < ms@.len() ==> #[trigger] X::verdict(ms@[i]) is Ok
                &&& t.verified == ms@.len()
                &&& t.checksum == range_sum(auth_shares::<X, P, S>(ms@), 0, ms@.len() as int)
            },
            Err(fault) => some_refused::<X, P, S>(ms@, fault),
        },
{
    let ghost shares = auth_shares::<X, P, S>(ms@);
    let mut w: usize = 0;
    let mut verified: usize = 0;
    let mut checksum: u64 = 0;
    let total: usize = ms.len();
    while w < workers
        invariant
            w <= workers,
            workers > 0,
            total == ms@.len(),
            shares == auth_shares::<X, P, S>(ms@),
            verified == strides_count(workers as int, w as int, ms@.len() as int),
            checksum == strides_sum(shares, workers as int, w as int),
            forall|i: int|
                0 <= i < ms@.len() && i % workers as int <= w - 1 ==> #[trigger] X::verdict(
                    ms@[i],
                ) is Ok,
        decreases workers - w,
    {
        match check_turns::<X, P, S>(ms, workers, w) {
            Ok(t) => {
                proof {
                    lemma_strides_bound(workers as int, w + 1, workers as int, ms@.len() as int);
                    law_turns_count_all(workers as int, ms@.len() as int);
                }
                verified = verified + t.verified;
                checksum = checksum ^ t.checksum;
            },
            Err(fault) => {
                return Err(fault);
            },
        }
        w = w + 1;
    }
    proof {
        law_turns_count_all(workers as int, ms@.len() as int);
        law_turns_cover_all(shares, workers as int);
        assert forall|i: int| 0 <= i < ms@.len() implies #[trigger] X::verdict(ms@[i]) is Ok by {
            vstd::arithmetic::div_mod::lemma_mod_bound(i, workers as int);
        }
    }
    Ok(AuthTotals { verified, checksum })
}

proof fn lemma_strides_bound(workers: int, k: int, m: int, n: int)
    requires
        0 <= k <= m,
    ensures
        strides_count(workers, k, n) <= strides_count(workers, m, n),
    decreases m - k,
{
    if k < m {
        lemma_strides_bound(workers, k, m - 1, n);
        lemma_stride_positive(workers, m - 1, n);
    }
}

proof fn lemma_stride_positive(workers: int, w: int, n: int)
    ensures
        0 <= stride_count(workers, w, n),
    decreases n,
{
    if n > 0 {
        lemma_stride_positive(workers, w, n - 1);
    }
}

/// The stretches of the workers begin at the start, end at the end, follow each other, and
/// are as long as an even share of the work or shorter or longer by less than one.
pub proof fn law_stretches_are_even(total: int, workers: int, w: int)
    requires
        0 <= total,
        0 <= w < workers,
    ensures
        bound_of(total, workers, 0) == 0,
        bound_of(total, workers, workers) == total,
        bound_of(total, workers, w) <= bound_of(total, workers, w + 1),
        total - workers < workers * (bound_of(total, workers, w + 1) - bound_of(total, workers, w))
            < total + workers,
{
    let (a, b) = (bound_of(total, workers, w), bound_of(total, workers, w + 1));
    vstd::arithmetic::div_mod::lemma_fundamental_div_mod(total * w, workers);
    vstd::arithmetic::div_mod::lemma_fundamental_div_mod(total * (w + 1), workers);
    assert(total * (w + 1) == total * w + total) by (nonlinear_arith);
    assert(workers * (b - a) == workers * b - workers * a) by (nonlinear_arith);
    assert(0 <= (total * w) % workers < workers);
    assert(0 <= (total * (w + 1)) % workers < workers);
    assert(a <= b) by (nonlinear_arith)
        requires
            workers * b - workers * a > total - workers,
            total >= 0,
            workers > 0,
    ;
    assert(total * 0 == 0) by (nonlinear_arith);
    vstd::arithmetic::div_mod::lemma_div_multiples_vanish(total, workers);
    assert(total * workers == workers * total) by (nonlinear_arith);
    assert(0int / workers == 0) by (nonlinear_arith)
        requires
            workers > 0,
    ;
}

} // verus!
