//! The controller of a run: its fixtures, the requests it makes, and what it
//! makes of the answers.
//!
//! Nothing here reads or sends. What stands around the library sends a request
//! and hands the answer back.
use crate::bytes;
use crate::bytes::{copy_slice, no_digest, put_u64, same_array};
use crate::crypto;
use crate::crypto::{hash_bytes, hash_domain, SigningKey};
use crate::model;
use crate::model::{
    assemble_qc, conflict_key, intent_hash, lab_committee, lab_user_key, lab_validator_key,
    make_genesis_cell, make_transfer, qc_digest, sign_user, sign_vote, validate_tx, verify_qc,
    verify_user_auth, verify_vote, ApplyOutcome, Cell, CellRef, CommitteeManifest, Digest,
    ManifestModel, Output, OutcomeModel, Proposal, ProposalModel, PublicKeyBytes, Qc, State,
    StateModel, Statement, Tx, TxModel, UserAuth, Verdict, Vote, ASSET_CALIBRE, N, OLD_EPOCH,
    PHASE_PRECOMMIT, PHASE_PREVOTE,
};
use crate::state;
use crate::text;
use crate::text::{concat2, push_hex, text, with_number};
use vstd::prelude::*;

verus! {

pub const VALIDATOR_COUNT: usize = 7;

pub const LAB_SEED: u64 = 0xc411_b2e5_2026_0001;

pub const ALICE_KEY_LABEL: u64 = 1;

pub const BOB_KEY_LABEL: u64 = 2;

pub const CHARLIE_KEY_LABEL: u64 = 3;

pub const MALLORY_KEY_LABEL: u64 = 4;

pub const BENCH_OWNER_KEY_LABEL: u64 = 10;

// ---------------------------------------------------------------------------
// Small things.
// ---------------------------------------------------------------------------

/// The digest of a number under a domain tag.
pub open spec fn labelled(domain: Seq<char>, label: u64) -> Digest {
    crypto::digest(domain, bytes::le64(label))
}

pub fn labelled_digest(domain: &str, label: u64) -> (d: Digest)
    ensures
        d == labelled(domain@, label),
{
    let mut bytes: Vec<u8> = Vec::new();
    put_u64(&mut bytes, label);
    assert(bytes@ =~= bytes::le64(label));
    hash_domain(domain, &bytes)
}

/// The hexadecimal numerals of the first `count` bytes, or of all if there are
/// fewer.
pub fn hex_prefix(bytes: &[u8], count: usize) -> (r: String)
    ensures
        r@ == text::hex_bytes(
            if bytes@.len() <= count {
                bytes@
            } else {
                bytes@.subrange(0, count as int)
            },
        ),
{
    let n: usize = if bytes.len() <= count {
        bytes.len()
    } else {
        count
    };
    let mut out: String = text("");
    let mut i: usize = 0;
    proof {
        reveal_strlit("");
        assert(out@ =~= text::hex_bytes(bytes@.subrange(0, 0)));
    }
    while i < n
        invariant
            i <= n <= bytes@.len(),
            out@ == text::hex_bytes(bytes@.subrange(0, i as int)),
        decreases n - i,
    {
        push_hex(&mut out, bytes[i] as u64, 2);
        proof {
            let s = bytes@.subrange(0, i + 1);
            assert(s.drop_last() =~= bytes@.subrange(0, i as int));
            assert(s.last() == bytes@[i as int]);
        }
        i = i + 1;
    }
    proof {
        if bytes@.len() <= count {
            assert(bytes@.subrange(0, i as int) =~= bytes@);
        }
    }
    out
}

/// The fingerprint of a program: the hexadecimal numerals of the BLAKE3 digest of its
/// bytes.
pub fn executable_fingerprint(bytes: &[u8]) -> (r: String)
    ensures
        r@ == text::hex_bytes(crypto::blake3_digest(bytes@)),
{
    let digest: Digest = hash_bytes(bytes);
    hex_prefix(&digest, 32)
}

/// How many of the two Byzantine validators vote for the first intent: an odd choice is
/// one for it.
pub open spec fn byzantine_first(zero: int, one: int) -> int {
    zero % 2 + one % 2
}

/// How many of them vote for the second intent.
pub open spec fn byzantine_second(zero: int, one: int) -> int {
    zero / 2 % 2 + one / 2 % 2
}

/// How many of the five honest validators choose the first intent, one for each binary
/// digit.
pub open spec fn honest_first(choices: int) -> int {
    choices % 2 + choices / 2 % 2 + choices / 4 % 2 + choices / 8 % 2 + choices / 16 % 2
}

/// Both intents have five votes.
pub open spec fn dual_quorum(choices: int, zero: int, one: int) -> bool {
    &&& honest_first(choices) + byzantine_first(zero, one) >= 5
    &&& 5 - honest_first(choices) + byzantine_second(zero, one) >= 5
}

/// Every way in which five honest validators choose between two conflicting
/// intents, and two Byzantine ones vote for either, both or none, gives at most
/// one of them five votes. The number of ways is returned.
pub fn exhaustive_conflict_safety_cases() -> (r: Result<u64, String>)
    ensures
        r == Ok::<u64, String>(512),
        r matches Ok(_) ==> forall|choices: int, zero: int, one: int|
            0 <= choices < 32 && 0 <= zero < 4 && 0 <= one < 4 ==> !#[trigger] dual_quorum(
                choices,
                zero,
                one,
            ),
{
    let mut cases: u64 = 0;
    let mut honest_choices: u8 = 0;
    while honest_choices < 32
        invariant
            honest_choices <= 32,
            cases == honest_choices * 16,
            forall|choices: int, zero: int, one: int|
                0 <= choices < honest_choices && 0 <= zero < 4 && 0 <= one < 4
                    ==> !#[trigger] dual_quorum(choices, zero, one),
        decreases 32 - honest_choices,
    {
        let honest_a: usize = ones_below_32(honest_choices);
        let honest_b: usize = 5 - honest_a;
        let mut byzantine_zero: u8 = 0;
        while byzantine_zero < 4
            invariant
                byzantine_zero <= 4,
                honest_choices < 32,
                cases == honest_choices * 16 + byzantine_zero * 4,
                honest_a == honest_first(honest_choices as int),
                honest_a + honest_b == 5,
                forall|zero: int, one: int|
                    0 <= zero < byzantine_zero && 0 <= one < 4 ==> !#[trigger] dual_quorum(
                        honest_choices as int,
                        zero,
                        one,
                    ),
            decreases 4 - byzantine_zero,
        {
            let mut byzantine_one: u8 = 0;
            while byzantine_one < 4
                invariant
                    byzantine_one <= 4,
                    byzantine_zero < 4,
                    honest_choices < 32,
                    cases == honest_choices * 16 + byzantine_zero * 4 + byzantine_one,
                    honest_a == honest_first(honest_choices as int),
                    honest_a + honest_b == 5,
                    forall|one: int|
                        0 <= one < byzantine_one ==> !#[trigger] dual_quorum(
                            honest_choices as int,
                            byzantine_zero as int,
                            one,
                        ),
                decreases 4 - byzantine_one,
            {
                let byzantine_a: usize = (byzantine_zero % 2) as usize + (byzantine_one
                    % 2) as usize;
                let byzantine_b: usize = (byzantine_zero / 2) as usize + (byzantine_one
                    / 2) as usize;
                if honest_a + byzantine_a >= 5 && honest_b + byzantine_b >= 5 {
                    return Err(text("dual quorum in an abstract case"));
                }
                assert(!dual_quorum(
                    honest_choices as int,
                    byzantine_zero as int,
                    byzantine_one as int,
                ));
                cases = cases + 1;
                byzantine_one = byzantine_one + 1;
            }
            byzantine_zero = byzantine_zero + 1;
        }
        honest_choices = honest_choices + 1;
    }
    Ok(cases)
}

/// The number of ones among the five lowest binary digits.
fn ones_below_32(choices: u8) -> (r: usize)
    ensures
        r == honest_first(choices as int),
        r <= 5,
{
    (choices % 2) as usize + (choices / 2 % 2) as usize + (choices / 4 % 2) as usize + (choices / 8
        % 2) as usize + (choices / 16 % 2) as usize
}

// ---------------------------------------------------------------------------
// Schedules.
// ---------------------------------------------------------------------------

/// The next number of the schedule generator.
pub open spec fn xorshift(state: u64) -> u64 {
    let a = state ^ (state << 13);
    let b = a ^ (a >> 7);
    b ^ (b << 17)
}

/// The list with two elements exchanged.
pub open spec fn exchanged(values: Seq<usize>, i: int, j: int) -> Seq<usize> {
    values.update(i, values[j]).update(j, values[i])
}

/// The list with the places from `upper` down to the second exchanged, each with
/// a place that the generator chooses.
pub open spec fn shuffled(values: Seq<usize>, upper: int, state: u64) -> Seq<usize>
    decreases upper,
{
    if upper < 1 {
        values
    } else {
        let next = xorshift(state);
        shuffled(exchanged(values, upper, next as usize as int % (upper + 1)), upper - 1, next)
    }
}

/// The numbers below `count` in ascending order.
pub open spec fn ascending_order(count: nat) -> Seq<usize> {
    Seq::new(count, |i: int| i as usize)
}

/// The numbers below `count` in descending order.
pub open spec fn descending_order(count: nat) -> Seq<usize> {
    Seq::new(count, |i: int| (count - 1 - i) as usize)
}

/// The schedule that the generator makes.
pub open spec fn permutation(count: nat, state: u64) -> Seq<usize> {
    shuffled(ascending_order(count), count - 1, state)
}

pub fn forward_order(count: usize) -> (r: Vec<usize>)
    ensures
        r@ == ascending_order(count as nat),
{
    let mut values: Vec<usize> = Vec::with_capacity(count);
    let mut i: usize = 0;
    while i < count
        invariant
            i <= count,
            values@ == ascending_order(i as nat),
        decreases count - i,
    {
        values.push(i);
        i = i + 1;
        assert(values@ =~= ascending_order(i as nat));
    }
    values
}

pub fn reverse_order(count: usize) -> (r: Vec<usize>)
    ensures
        r@ == descending_order(count as nat),
{
    let mut values: Vec<usize> = Vec::with_capacity(count);
    let mut i: usize = 0;
    while i < count
        invariant
            i <= count,
            values@ == Seq::new(i as nat, |j: int| (count - 1 - j) as usize),
        decreases count - i,
    {
        values.push(count - 1 - i);
        i = i + 1;
        assert(values@ =~= Seq::new(i as nat, |j: int| (count - 1 - j) as usize));
    }
    assert(values@ =~= descending_order(count as nat));
    values
}

/// A schedule of `count` transfers that depends on `state` alone.
pub fn deterministic_permutation(count: usize, state: u64) -> (r: Vec<usize>)
    ensures
        r@ == permutation(count as nat, state),
{
    let mut values: Vec<usize> = forward_order(count);
    if count == 0 {
        return values;
    }
    let mut current: u64 = state;
    let mut upper: usize = count - 1;
    while upper >= 1
        invariant
            upper < count,
            values@.len() == count,
            permutation(count as nat, state) == shuffled(values@, upper as int, current),
        decreases upper,
    {
        current = current ^ (current << 13);
        current = current ^ (current >> 7);
        current = current ^ (current << 17);
        let selected: usize = #[verifier::truncate] (current as usize) % (upper + 1);
        let a: usize = values[upper];
        let b: usize = values[selected];
        values.set(upper, b);
        values.set(selected, a);
        upper = upper - 1;
    }
    values
}

/// Every schedule holds each transfer once.
pub proof fn law_schedule_is_a_permutation(count: nat, state: u64)
    requires
        count <= usize::MAX,
    ensures
        permutation(count, state).to_multiset() == ascending_order(count).to_multiset(),
        permutation(count, state).len() == count,
        permutation(count, state).no_duplicates(),
        forall|k: usize|
            k < count <==> #[trigger] permutation(count, state).contains(k),
{
    broadcast use vstd::seq_lib::group_to_multiset_ensures;

    let base = ascending_order(count);
    let s = permutation(count, state);
    lemma_shuffled(base, count - 1, state);
    assert(s.to_multiset().len() == base.to_multiset().len());
    assert(base.no_duplicates());
    base.lemma_multiset_has_no_duplicates();
    s.lemma_multiset_has_no_duplicates_conv();
    assert forall|k: usize| k < count <==> #[trigger] s.contains(k) by {
        assert(s.contains(k) <==> s.to_multiset().count(k) > 0);
        assert(base.contains(k) <==> base.to_multiset().count(k) > 0);
        if k < count {
            assert(base[k as int] == k);
        }
    }
}

proof fn lemma_shuffled(values: Seq<usize>, upper: int, state: u64)
    requires
        upper < values.len(),
    ensures
        shuffled(values, upper, state).to_multiset() == values.to_multiset(),
    decreases upper,
{
    broadcast use vstd::seq_lib::group_to_multiset_ensures;

    if upper >= 1 {
        let next = xorshift(state);
        let j = next as usize as int % (upper + 1);
        let a = values.update(upper, values[j]);
        let b = exchanged(values, upper, j);
        vstd::seq_lib::to_multiset_update(values, upper, values[j]);
        vstd::seq_lib::to_multiset_update(a, j, values[upper]);
        assert(b.to_multiset() =~= values.to_multiset());
        lemma_shuffled(b, upper - 1, next);
    }
}

// ---------------------------------------------------------------------------
// Fixtures.
// ---------------------------------------------------------------------------

/// The parties and the cells of a run.
#[derive(Debug)]
pub struct LabFixture {
    pub manifest: CommitteeManifest,
    pub genesis: State,
    pub alice: SigningKey,
    pub bob: PublicKeyBytes,
    pub charlie: PublicKeyBytes,
    pub mallory: SigningKey,
    pub bench_owner: SigningKey,
    pub main_input: Cell,
    pub negative_inputs: Vec<Cell>,
    pub bench_inputs: Vec<Cell>,
}

/// The public key of a fixture user.
pub open spec fn user_public(label: u64) -> PublicKeyBytes {
    crypto::public_key(model::user_seed(label))
}

pub open spec fn main_cell() -> Cell {
    model::genesis_cell(1, 100, user_public(ALICE_KEY_LABEL))
}

pub open spec fn negative_cells() -> Seq<Cell> {
    Seq::new(3, |i: int| model::genesis_cell((10 + i) as u64, 100, user_public(ALICE_KEY_LABEL)))
}

pub open spec fn bench_cells(count: nat) -> Seq<Cell> {
    Seq::new(
        count,
        |i: int| model::genesis_cell((1000 + i) as u64, 10, user_public(BENCH_OWNER_KEY_LABEL)),
    )
}

/// The cells with which a run with `count` independent transfers starts.
pub open spec fn fixture_cells(count: nat) -> Seq<Cell> {
    seq![main_cell()] + negative_cells() + bench_cells(count)
}

/// A fixture for `count` independent transfers.
pub open spec fn fixture_for(f: LabFixture, count: nat) -> bool {
    &&& f.manifest@ == model::lab_manifest(OLD_EPOCH)
    &&& state::genesis_result(fixture_cells(count)) == Ok::<StateModel, Seq<char>>(f.genesis@)
    &&& f.alice.seed == model::user_seed(ALICE_KEY_LABEL)
    &&& f.bob == user_public(BOB_KEY_LABEL)
    &&& f.charlie == user_public(CHARLIE_KEY_LABEL)
    &&& f.mallory.seed == model::user_seed(MALLORY_KEY_LABEL)
    &&& f.bench_owner.seed == model::user_seed(BENCH_OWNER_KEY_LABEL)
    &&& f.main_input == main_cell()
    &&& f.negative_inputs@ == negative_cells()
    &&& f.bench_inputs@ == bench_cells(count)
}

/// Makes `count` cells with the labels from `first` on.
fn make_cells(first: u64, count: usize, amount: u64, owner: PublicKeyBytes) -> (r: Vec<Cell>)
    requires
        first + count <= u64::MAX,
    ensures
        r@ == Seq::new(count as nat, |i: int| model::genesis_cell((first + i) as u64, amount, owner)),
{
    let mut cells: Vec<Cell> = Vec::new();
    let mut i: usize = 0;
    while i < count
        invariant
            i <= count,
            first + count <= u64::MAX,
            cells@ == Seq::new(i as nat, |j: int| model::genesis_cell((first + j) as u64, amount, owner)),
        decreases count - i,
    {
        cells.push(make_genesis_cell(first + i as u64, amount, owner));
        i = i + 1;
        assert(cells@ =~= Seq::new(
            i as nat,
            |j: int| model::genesis_cell((first + j) as u64, amount, owner),
        ));
    }
    cells
}

/// The parties and the cells of a run with `bench_count` independent transfers.
pub fn build_fixture(bench_count: usize) -> (r: Result<LabFixture, String>)
    requires
        1000 + bench_count <= u64::MAX,
    ensures
        match state::genesis_result(fixture_cells(bench_count as nat)) {
            Ok(_) => r is Ok && fixture_for(r->Ok_0, bench_count as nat),
            Err(e) => r is Err && r->Err_0@ == e,
        },
{
    let manifest: CommitteeManifest = lab_committee(OLD_EPOCH);
    let alice: SigningKey = lab_user_key(ALICE_KEY_LABEL);
    let bob: PublicKeyBytes = lab_user_key(BOB_KEY_LABEL).verifying_key().to_bytes();
    let charlie: PublicKeyBytes = lab_user_key(CHARLIE_KEY_LABEL).verifying_key().to_bytes();
    let mallory: SigningKey = lab_user_key(MALLORY_KEY_LABEL);
    let bench_owner: SigningKey = lab_user_key(BENCH_OWNER_KEY_LABEL);
    let alice_public: PublicKeyBytes = alice.verifying_key().to_bytes();
    let main_input: Cell = make_genesis_cell(1, 100, alice_public);
    let negative_inputs: Vec<Cell> = make_cells(10, 3, 100, alice_public);
    let bench_inputs: Vec<Cell> = make_cells(
        1000,
        bench_count,
        10,
        bench_owner.verifying_key().to_bytes(),
    );
    assert(negative_inputs@ =~= negative_cells());
    assert(bench_inputs@ =~= bench_cells(bench_count as nat));
    let mut cells: Vec<Cell> = Vec::new();
    cells.push(main_input);
    push_cells(&mut cells, &negative_inputs);
    push_cells(&mut cells, &bench_inputs);
    assert(cells@ =~= fixture_cells(bench_count as nat));
    let genesis: State = State::from_cells(cells)?;
    Ok(
        LabFixture {
            manifest,
            genesis,
            alice,
            bob,
            charlie,
            mallory,
            bench_owner,
            main_input,
            negative_inputs,
            bench_inputs,
        },
    )
}

fn push_cells(out: &mut Vec<Cell>, more: &Vec<Cell>)
    ensures
        final(out)@ == old(out)@ + more@,
{
    let ghost before = out@;
    let mut i: usize = 0;
    while i < more.len()
        invariant
            i <= more@.len(),
            out@ == before + more@.subrange(0, i as int),
        decreases more@.len() - i,
    {
        out.push(more[i]);
        i = i + 1;
        assert(out@ =~= before + more@.subrange(0, i as int));
    }
    assert(more@.subrange(0, i as int) =~= more@);
}

// ---------------------------------------------------------------------------
// Transfers.
// ---------------------------------------------------------------------------

/// A transfer to one recipient.
pub open spec fn single_transfer(
    m: ManifestModel,
    input: Cell,
    recipient: PublicKeyBytes,
    amount: u64,
    fee: u64,
    salt_label: u64,
) -> Result<TxModel, Seq<char>> {
    model::transfer(
        m,
        input,
        seq![Output { asset_id: ASSET_CALIBRE, amount, owner: recipient }],
        fee,
        labelled("CALIBRE_INTEGRATION001_LAB_SALT_V1"@, salt_label),
    )
}

pub fn make_single_recipient_transfer(
    manifest: &CommitteeManifest,
    input: Cell,
    recipient: PublicKeyBytes,
    amount: u64,
    fee: u64,
    salt_label: u64,
) -> (r: Result<Tx, String>)
    ensures
        text::shown_view(r) == single_transfer(manifest@, input, recipient, amount, fee, salt_label),
{
    let mut outputs: Vec<Output> = Vec::new();
    outputs.push(Output { asset_id: ASSET_CALIBRE, amount, owner: recipient });
    assert(outputs@ =~= seq![Output { asset_id: ASSET_CALIBRE, amount, owner: recipient }]);
    make_transfer(
        manifest,
        input,
        outputs,
        fee,
        labelled_digest("CALIBRE_INTEGRATION001_LAB_SALT_V1", salt_label),
    )
}

/// The transfer of the main input: sixty to a recipient, thirty-nine back, and a
/// fee of one.
pub open spec fn main_transfer(
    m: ManifestModel,
    input: Cell,
    alice_seed: [u8; 32],
    recipient: PublicKeyBytes,
    salt_label: u64,
) -> Result<(TxModel, UserAuth), Seq<char>> {
    let asset_id = input.reference.asset_id;
    match model::transfer(
        m,
        input,
        seq![
            Output { asset_id, amount: 60, owner: recipient },
            Output { asset_id, amount: 39, owner: crypto::public_key(alice_seed) },
        ],
        1,
        labelled("CALIBRE_INTEGRATION001_MAIN_SALT_V1"@, salt_label),
    ) {
        Err(e) => Err(e),
        Ok(tx) => match model::user_signed(tx, alice_seed) {
            Err(e) => Err(e),
            Ok(auth) => Ok((tx, auth)),
        },
    }
}

pub open spec fn shown_signed(r: Result<(Tx, UserAuth), String>) -> Result<
    (TxModel, UserAuth),
    Seq<char>,
> {
    match r {
        Ok((tx, auth)) => Ok((tx@, auth)),
        Err(e) => Err(e@),
    }
}

pub fn make_main_transfer(fixture: &LabFixture, recipient: PublicKeyBytes, salt_label: u64) -> (r:
    Result<(Tx, UserAuth), String>)
    ensures
        shown_signed(r) == main_transfer(
            fixture.manifest@,
            fixture.main_input,
            fixture.alice.seed,
            recipient,
            salt_label,
        ),
{
    let asset_id: u32 = fixture.main_input.reference.asset_id;
    let alice: PublicKeyBytes = fixture.alice.verifying_key().to_bytes();
    let mut outputs: Vec<Output> = Vec::new();
    outputs.push(Output { asset_id, amount: 60, owner: recipient });
    outputs.push(Output { asset_id, amount: 39, owner: alice });
    assert(outputs@ =~= seq![
        Output { asset_id, amount: 60, owner: recipient },
        Output { asset_id, amount: 39, owner: alice },
    ]);
    let tx: Tx = make_transfer(
        &fixture.manifest,
        fixture.main_input,
        outputs,
        1,
        labelled_digest("CALIBRE_INTEGRATION001_MAIN_SALT_V1", salt_label),
    )?;
    let auth: UserAuth = sign_user(&tx, &fixture.alice)?;
    Ok((tx, auth))
}

/// The independent transfer number `i`: nine of ten to its own recipient.
pub open spec fn bench_transfer(m: ManifestModel, inputs: Seq<Cell>, owner_seed: [u8; 32], i: int)
    -> Result<(TxModel, UserAuth), Seq<char>> {
    match single_transfer(
        m,
        inputs[i],
        user_public((1000 + i) as u64),
        9,
        1,
        (20000 + i) as u64,
    ) {
        Err(e) => Err(e),
        Ok(tx) => match model::user_signed(tx, owner_seed) {
            Err(e) => Err(e),
            Ok(auth) => Ok((tx, auth)),
        },
    }
}

/// The first of the independent transfers below `n` that cannot be made.
pub open spec fn bench_fault(
    m: ManifestModel,
    inputs: Seq<Cell>,
    owner_seed: [u8; 32],
    i: int,
) -> Verdict
    decreases inputs.len() - i,
{
    if i < 0 || i >= inputs.len() {
        Ok(())
    } else {
        match bench_transfer(m, inputs, owner_seed, i) {
            Err(e) => Err(e),
            Ok(_) => bench_fault(m, inputs, owner_seed, i + 1),
        }
    }
}

pub open spec fn signed_list(list: Seq<(Tx, UserAuth)>) -> Seq<(TxModel, UserAuth)> {
    Seq::new(list.len(), |i: int| (list[i].0@, list[i].1))
}

pub fn make_bench_transfers(fixture: &LabFixture) -> (r: Result<Vec<(Tx, UserAuth)>, String>)
    requires
        20000 + fixture.bench_inputs@.len() <= u64::MAX,
    ensures
        match bench_fault(
            fixture.manifest@,
            fixture.bench_inputs@,
            fixture.bench_owner.seed,
            0,
        ) {
            Err(e) => r is Err && r->Err_0@ == e,
            Ok(_) => r is Ok && signed_list(r->Ok_0@) == Seq::new(
                fixture.bench_inputs@.len(),
                |i: int|
                    bench_transfer(
                        fixture.manifest@,
                        fixture.bench_inputs@,
                        fixture.bench_owner.seed,
                        i,
                    )->Ok_0,
            ),
        },
{
    let mut list: Vec<(Tx, UserAuth)> = Vec::new();
    let ghost m = fixture.manifest@;
    let ghost inputs = fixture.bench_inputs@;
    let ghost seed = fixture.bench_owner.seed;
    let ghost made = |i: int| bench_transfer(m, inputs, seed, i)->Ok_0;
    let mut i: usize = 0;
    assert(signed_list(list@) =~= Seq::new(0, made));
    while i < fixture.bench_inputs.len()
        invariant
            i <= inputs.len(),
            m == fixture.manifest@,
            inputs == fixture.bench_inputs@,
            seed == fixture.bench_owner.seed,
            20000 + inputs.len() <= u64::MAX,
            made == (|i: int| bench_transfer(m, inputs, seed, i)->Ok_0),
            signed_list(list@) == Seq::new(i as nat, made),
            bench_fault(m, inputs, seed, 0) == bench_fault(m, inputs, seed, i as int),
        decreases inputs.len() - i,
    {
        let recipient: PublicKeyBytes = lab_user_key(1000 + i as u64).verifying_key().to_bytes();
        let tx: Tx = make_single_recipient_transfer(
            &fixture.manifest,
            fixture.bench_inputs[i],
            recipient,
            9,
            1,
            20000 + i as u64,
        )?;
        let auth: UserAuth = sign_user(&tx, &fixture.bench_owner)?;
        let ghost before = list@;
        list.push((tx, auth));
        proof {
            assert(bench_transfer(m, inputs, seed, i as int) == Ok::<
                (TxModel, UserAuth),
                Seq<char>,
            >((tx@, auth)));
            assert(signed_list(list@) =~= signed_list(before).push((tx@, auth)));
            assert(signed_list(list@) =~= Seq::new((i + 1) as nat, made));
        }
        i = i + 1;
    }
    Ok(list)
}

// ---------------------------------------------------------------------------
// Mutations that have to be refused.
// ---------------------------------------------------------------------------

/// The bytes with the lowest bit of the first one turned over.
pub open spec fn flipped<const L: usize>(a: [u8; L]) -> [u8; L] {
    bytes::arr::<L>(a@.update(0, a@[0] ^ 1))
}

/// Turns the lowest bit of the first byte over.
pub fn flip<const L: usize>(a: &[u8; L]) -> (r: [u8; L])
    requires
        L > 0,
    ensures
        r == flipped(*a),
{
    let mut r: [u8; L] = *a;
    r[0] = a[0] ^ 1;
    proof {
        bytes::lemma_arr_of_view(r);
        assert(r@ =~= a@.update(0, a@[0] ^ 1));
    }
    r
}

/// A transfer that each mutation can be made of: it has two outputs, and no
/// number leaves its range.
pub open spec fn mutable(tx: TxModel) -> bool {
    &&& tx.outputs.len() >= 2
    &&& tx.outputs[0].amount < u64::MAX
    &&& tx.outputs[1].amount >= 1
    &&& tx.fee < u64::MAX
    &&& tx.input.reference.generation < u64::MAX
}

pub open spec fn with_output(tx: TxModel, i: int, o: Output) -> TxModel {
    TxModel { outputs: tx.outputs.update(i, o), ..tx }
}

pub open spec fn with_input(tx: TxModel, input: Cell) -> TxModel {
    TxModel { input, ..tx }
}

/// The transfer with each of its signed fields changed in turn, and what was
/// changed.
pub open spec fn mutations(tx: TxModel) -> Seq<(Seq<char>, TxModel)> {
    let o0 = tx.outputs[0];
    let o1 = tx.outputs[1];
    let input = tx.input;
    let r = input.reference;
    let less = Output { amount: (o1.amount - 1) as u64, ..o1 };
    seq![
        ("recipient"@, with_output(tx, 0, Output { owner: flipped(o0.owner), ..o0 })),
        ("protocol version"@, TxModel { version: tx.version.wrapping_add(1), ..tx }),
        (
            "amount"@,
            with_output(
                with_output(tx, 0, Output { amount: (o0.amount + 1) as u64, ..o0 }),
                1,
                less,
            ),
        ),
        ("fee"@, with_output(TxModel { fee: (tx.fee + 1) as u64, ..tx }, 1, less)),
        (
            "input identity"@,
            with_input(tx, Cell { reference: CellRef { id: flipped(r.id), ..r }, ..input }),
        ),
        (
            "input generation"@,
            with_input(
                tx,
                Cell {
                    reference: CellRef { generation: (r.generation + 1) as u64, ..r },
                    ..input
                },
            ),
        ),
        (
            "input state digest"@,
            with_input(tx, Cell { state_digest: flipped(input.state_digest), ..input }),
        ),
        ("input owner"@, with_input(tx, Cell { owner: flipped(input.owner), ..input })),
        (
            "input predecessor"@,
            with_input(tx, Cell { predecessor: flipped(input.predecessor), ..input }),
        ),
        (
            "asset"@,
            with_output(tx, 0, Output { asset_id: o0.asset_id.wrapping_add(1), ..o0 }),
        ),
        ("network"@, TxModel { network_id: tx.network_id.wrapping_add(1), ..tx }),
        ("committee generation"@, TxModel { epoch: tx.epoch.wrapping_add(1), ..tx }),
        ("committee identity"@, TxModel { committee_hash: flipped(tx.committee_hash), ..tx }),
        ("ordered output effects"@, with_output(with_output(tx, 0, o1), 1, o0)),
        ("transaction salt"@, TxModel { salt: flipped(tx.salt), ..tx }),
    ]
}

pub open spec fn shown_mutations(list: Seq<(String, Tx)>) -> Seq<(Seq<char>, TxModel)> {
    Seq::new(list.len(), |i: int| (list[i].0@, list[i].1@))
}

fn push_mutation(list: &mut Vec<(String, Tx)>, name: &str, tx: Tx)
    ensures
        shown_mutations(final(list)@) == shown_mutations(old(list)@).push((name@, tx@)),
{
    let ghost before = list@;
    list.push((text(name), tx));
    assert(shown_mutations(list@) =~= shown_mutations(before).push((name@, tx@)));
}

fn with_outputs(tx: &Tx, first: Output, second: Output) -> (r: Tx)
    requires
        tx.outputs@.len() >= 2,
    ensures
        r@ == with_output(with_output(tx@, 0, first), 1, second),
{
    let mut r: Tx = tx.clone();
    r.outputs.set(0, first);
    r.outputs.set(1, second);
    r
}

fn with_cell(tx: &Tx, input: Cell) -> (r: Tx)
    ensures
        r@ == with_input(tx@, input),
{
    let mut r: Tx = tx.clone();
    r.input = input;
    r
}

/// The mutations of the outputs and the fee, and of the first header field.
fn effect_mutations(tx: &Tx) -> (r: Vec<(String, Tx)>)
    requires
        mutable(tx@),
    ensures
        shown_mutations(r@) == mutations(tx@).subrange(0, 4),
{
    let first: Output = tx.outputs[0];
    let second: Output = tx.outputs[1];
    let less: Output = Output { amount: second.amount - 1, ..second };
    let mut list: Vec<(String, Tx)> = Vec::new();
    assert(shown_mutations(list@) =~= Seq::empty());
    let recipient: Tx = with_outputs(tx, Output { owner: flip(&first.owner), ..first }, second);
    assert(recipient@.outputs =~= mutations(tx@)[0].1.outputs);
    push_mutation(&mut list, "recipient", recipient);
    let mut version: Tx = tx.clone();
    version.version = version.version.wrapping_add(1);
    push_mutation(&mut list, "protocol version", version);
    let amount: Tx = with_outputs(tx, Output { amount: first.amount + 1, ..first }, less);
    push_mutation(&mut list, "amount", amount);
    let mut fee: Tx = with_outputs(tx, first, less);
    fee.fee = fee.fee + 1;
    assert(fee@.outputs =~= mutations(tx@)[3].1.outputs);
    push_mutation(&mut list, "fee", fee);
    assert(shown_mutations(list@) =~= mutations(tx@).subrange(0, 4));
    list
}

/// The mutations of the input.
fn input_mutations(tx: &Tx, list: Vec<(String, Tx)>) -> (r: Vec<(String, Tx)>)
    requires
        mutable(tx@),
        shown_mutations(list@) == mutations(tx@).subrange(0, 4),
    ensures
        shown_mutations(r@) == mutations(tx@).subrange(0, 9),
{
    let mut list: Vec<(String, Tx)> = list;
    let input: Cell = tx.input;
    let reference: CellRef = input.reference;
    let id: CellRef = CellRef { id: flip(&reference.id), ..reference };
    push_mutation(&mut list, "input identity", with_cell(tx, Cell { reference: id, ..input }));
    let generation: CellRef = CellRef { generation: reference.generation + 1, ..reference };
    push_mutation(
        &mut list,
        "input generation",
        with_cell(tx, Cell { reference: generation, ..input }),
    );
    push_mutation(
        &mut list,
        "input state digest",
        with_cell(tx, Cell { state_digest: flip(&input.state_digest), ..input }),
    );
    push_mutation(
        &mut list,
        "input owner",
        with_cell(tx, Cell { owner: flip(&input.owner), ..input }),
    );
    push_mutation(
        &mut list,
        "input predecessor",
        with_cell(tx, Cell { predecessor: flip(&input.predecessor), ..input }),
    );
    assert(shown_mutations(list@) =~= mutations(tx@).subrange(0, 9));
    list
}

/// The mutations of the asset, of the header and of the order of the outputs.
fn header_mutations(tx: &Tx, list: Vec<(String, Tx)>) -> (r: Vec<(String, Tx)>)
    requires
        mutable(tx@),
        shown_mutations(list@) == mutations(tx@).subrange(0, 9),
    ensures
        shown_mutations(r@) == mutations(tx@),
{
    let mut list: Vec<(String, Tx)> = list;
    let first: Output = tx.outputs[0];
    let second: Output = tx.outputs[1];
    let asset: Tx = with_outputs(
        tx,
        Output { asset_id: first.asset_id.wrapping_add(1), ..first },
        second,
    );
    assert(asset@.outputs =~= mutations(tx@)[9].1.outputs);
    push_mutation(&mut list, "asset", asset);
    let mut network: Tx = tx.clone();
    network.network_id = network.network_id.wrapping_add(1);
    push_mutation(&mut list, "network", network);
    let mut epoch: Tx = tx.clone();
    epoch.epoch = epoch.epoch.wrapping_add(1);
    push_mutation(&mut list, "committee generation", epoch);
    let mut committee: Tx = tx.clone();
    committee.committee_hash = flip(&tx.committee_hash);
    push_mutation(&mut list, "committee identity", committee);
    push_mutation(&mut list, "ordered output effects", with_outputs(tx, second, first));
    let mut salt: Tx = tx.clone();
    salt.salt = flip(&tx.salt);
    push_mutation(&mut list, "transaction salt", salt);
    assert(shown_mutations(list@) =~= mutations(tx@));
    list
}

/// What comes of holding an authorization against mutations, from number `i` on.
pub open spec fn mutations_verdict(
    list: Seq<(Seq<char>, TxModel)>,
    auth: UserAuth,
    m: ManifestModel,
    i: int,
) -> Verdict
    decreases list.len() - i,
{
    if i < 0 || i >= list.len() {
        Ok(())
    } else if model::auth_verdict(list[i].1, auth, m) is Ok {
        Err("owner authorization survived signed-field mutation: "@ + list[i].0)
    } else {
        mutations_verdict(list, auth, m, i + 1)
    }
}

fn mutations_refused(
    list: &Vec<(String, Tx)>,
    auth: &UserAuth,
    manifest: &CommitteeManifest,
) -> (r: Result<(), String>)
    ensures
        text::shown(r) == mutations_verdict(shown_mutations(list@), *auth, manifest@, 0),
{
    let mut i: usize = 0;
    while i < list.len()
        invariant
            i <= list@.len(),
            mutations_verdict(shown_mutations(list@), *auth, manifest@, 0) == mutations_verdict(
                shown_mutations(list@),
                *auth,
                manifest@,
                i as int,
            ),
        decreases list@.len() - i,
    {
        let checked: Result<(), String> = verify_user_auth(&list[i].1, auth, manifest);
        let ghost verdict = model::auth_verdict(list@[i as int].1@, *auth, manifest@);
        assert(text::shown(checked) == verdict);
        if checked.is_ok() {
            return Err(
                concat2(
                    "owner authorization survived signed-field mutation: ",
                    list[i].0.as_str(),
                ),
            );
        }
        i = i + 1;
    }
    Ok(())
}

/// Checks that an authorization covers every signed field: no mutation of the
/// transfer may pass with it. The number of mutations is returned.
pub fn signed_field_mutations_rejected(
    tx: &Tx,
    auth: &UserAuth,
    manifest: &CommitteeManifest,
) -> (r: Result<usize, String>)
    requires
        mutable(tx@),
    ensures
        match mutations_verdict(mutations(tx@), *auth, manifest@, 0) {
            Ok(_) => r == Ok::<usize, String>(15),
            Err(e) => r is Err && r->Err_0@ == e,
        },
{
    let list: Vec<(String, Tx)> = header_mutations(tx, input_mutations(tx, effect_mutations(tx)));
    assert(shown_mutations(list@).len() == 15);
    mutations_refused(&list, auth, manifest)?;
    Ok(list.len())
}

/// The transfer with value added, taken away, out of range, and without a fee.
pub open spec fn unbalanced(tx: TxModel) -> Seq<(Seq<char>, TxModel)> {
    let o0 = tx.outputs[0];
    let o1 = tx.outputs[1];
    seq![
        (
            "hidden mint transaction passed conservation"@,
            with_output(tx, 0, Output { amount: (o0.amount + 1) as u64, ..o0 }),
        ),
        (
            "missing-value transaction passed conservation"@,
            with_output(tx, 0, Output { amount: (o0.amount - 1) as u64, ..o0 }),
        ),
        (
            "overflowing transaction passed conservation"@,
            with_output(tx, 0, Output { amount: u64::MAX, ..o0 }),
        ),
        (
            "zero/implicit fee transaction was accepted"@,
            with_output(
                TxModel { fee: 0, ..tx },
                1,
                Output { amount: (o1.amount + tx.fee) as u64, ..o1 },
            ),
        ),
    ]
}

/// A transfer that can be unbalanced in each of these ways.
pub open spec fn unbalanceable(tx: TxModel) -> bool {
    &&& tx.outputs.len() >= 2
    &&& 1 <= tx.outputs[0].amount < u64::MAX
    &&& tx.outputs[1].amount + tx.fee <= u64::MAX
}

/// The first unbalanced transfer from number `i` on that is accepted.
pub open spec fn balance_verdict(
    list: Seq<(Seq<char>, TxModel)>,
    m: ManifestModel,
    i: int,
) -> Verdict
    decreases list.len() - i,
{
    if i < 0 || i >= list.len() {
        Ok(())
    } else if model::tx_verdict(list[i].1, m) is Ok {
        Err(list[i].0)
    } else {
        balance_verdict(list, m, i + 1)
    }
}

/// Checks that no unbalanced form of a transfer is accepted.
pub fn conservation_negatives_rejected(manifest: &CommitteeManifest, base: &Tx) -> (r: Result<
    (),
    String,
>)
    requires
        unbalanceable(base@),
    ensures
        text::shown(r) == balance_verdict(unbalanced(base@), manifest@, 0),
{
    let first: Output = base.outputs[0];
    let second: Output = base.outputs[1];
    let ghost list = unbalanced(base@);
    proof {
        reveal_with_fuel(balance_verdict, 5);
    }
    let hidden_mint: Tx = with_outputs(
        base,
        Output { amount: first.amount + 1, ..first },
        second,
    );
    assert(hidden_mint@.outputs =~= list[0].1.outputs);
    if validate_tx(&hidden_mint, manifest).is_ok() {
        return Err(text("hidden mint transaction passed conservation"));
    }
    let missing_value: Tx = with_outputs(
        base,
        Output { amount: first.amount - 1, ..first },
        second,
    );
    assert(missing_value@.outputs =~= list[1].1.outputs);
    if validate_tx(&missing_value, manifest).is_ok() {
        return Err(text("missing-value transaction passed conservation"));
    }
    let overflow: Tx = with_outputs(base, Output { amount: u64::MAX, ..first }, second);
    assert(overflow@.outputs =~= list[2].1.outputs);
    if validate_tx(&overflow, manifest).is_ok() {
        return Err(text("overflowing transaction passed conservation"));
    }
    let mut zero_fee: Tx = with_outputs(
        base,
        first,
        Output { amount: second.amount + base.fee, ..second },
    );
    zero_fee.fee = 0;
    assert(zero_fee@.outputs =~= list[3].1.outputs);
    if validate_tx(&zero_fee, manifest).is_ok() {
        return Err(text("zero/implicit fee transaction was accepted"));
    }
    Ok(())
}

/// No unbalanced form of a valid transfer is ever accepted.
pub proof fn law_unbalanced_is_refused(tx: TxModel, m: ManifestModel)
    requires
        unbalanceable(tx),
        model::tx_verdict(tx, m) is Ok,
    ensures
        balance_verdict(unbalanced(tx), m, 0) is Ok,
{
    reveal_with_fuel(balance_verdict, 5);
    let list = unbalanced(tx);
    model::law_valid_tx_conserves_value(tx, m);
    let n = tx.outputs.len() as int;
    assert forall|k: int| 0 <= k < 4 implies model::tx_verdict(#[trigger] list[k].1, m) is Err by {
        if model::tx_verdict(list[k].1, m) is Ok {
            model::law_valid_tx_conserves_value(list[k].1, m);
            let d = if k < 3 {
                list[k].1.outputs[0].amount - tx.outputs[0].amount
            } else {
                list[k].1.outputs[1].amount - tx.outputs[1].amount
            };
            lemma_total_changes(
                tx.outputs,
                list[k].1.outputs,
                if k < 3 {
                    0
                } else {
                    1
                },
                n,
            );
        }
    }
}

/// How the sum of the outputs changes with one of them.
proof fn lemma_total_changes(a: Seq<Output>, b: Seq<Output>, at: int, n: int)
    requires
        0 <= at < a.len(),
        a.len() == b.len(),
        0 <= n <= a.len(),
        forall|i: int| 0 <= i < a.len() && i != at ==> #[trigger] a[i] == b[i],
    ensures
        model::outputs_total(b, n) - model::outputs_total(a, n) == if at < n {
            b[at].amount - a[at].amount
        } else {
            0
        },
    decreases n,
{
    if n > 0 {
        lemma_total_changes(a, b, at, n - 1);
    }
}

// ---------------------------------------------------------------------------
// Votes and certificates.
// ---------------------------------------------------------------------------

/// Whether the signer of the vote number `i` signed an earlier one.
pub open spec fn signed_before(votes: Seq<Vote>, i: int) -> bool {
    exists|j: int| 0 <= j < i && (#[trigger] votes[j]).signer_index == votes[i].signer_index
}

/// The verdict on votes that were received for a statement, from number `i` on.
pub open spec fn observed_verdict(
    votes: Seq<Vote>,
    m: ManifestModel,
    s: Statement,
    i: int,
) -> Verdict
    decreases votes.len() - i,
{
    if i < 0 || i >= votes.len() {
        Ok(())
    } else {
        match model::vote_verdict(votes[i], m) {
            Err(e) => Err(e),
            Ok(_) => if !model::vote_on(votes[i], s) {
                Err("observed vote does not match the requested statement"@)
            } else if signed_before(votes, i) {
                Err("observed vote set contains a duplicate signer"@)
            } else {
                observed_verdict(votes, m, s, i + 1)
            },
        }
    }
}

fn was_signed_before(votes: &Vec<Vote>, i: usize) -> (r: bool)
    requires
        i < votes@.len(),
    ensures
        r == signed_before(votes@, i as int),
{
    let mut j: usize = 0;
    while j < i
        invariant
            j <= i < votes@.len(),
            forall|k: int|
                0 <= k < j ==> (#[trigger] votes@[k]).signer_index != votes@[i as int].signer_index,
        decreases i - j,
    {
        if votes[j].signer_index == votes[i].signer_index {
            return true;
        }
        j = j + 1;
    }
    false
}

/// Checks votes that were received for a statement: each is valid and on it, and
/// no validator signed two.
pub fn verify_observed_votes(
    votes: &Vec<Vote>,
    manifest: &CommitteeManifest,
    phase: u8,
    round: u64,
    conflict: Digest,
    intent: Digest,
) -> (r: Result<(), String>)
    ensures
        text::shown(r) == observed_verdict(
            votes@,
            manifest@,
            (Statement { phase, round, conflict, intent, justify: None }),
            0,
        ),
{
    let ghost s = Statement { phase, round, conflict, intent, justify: None };
    let mut i: usize = 0;
    while i < votes.len()
        invariant
            i <= votes@.len(),
            s == (Statement { phase, round, conflict, intent, justify: None }),
            observed_verdict(votes@, manifest@, s, 0) == observed_verdict(
                votes@,
                manifest@,
                s,
                i as int,
            ),
        decreases votes@.len() - i,
    {
        let vote: Vote = votes[i];
        verify_vote(&vote, manifest)?;
        if vote.phase != phase || vote.round != round || !same_array(&vote.conflict_key, &conflict)
            || !same_array(&vote.intent, &intent) {
            return Err(text("observed vote does not match the requested statement"));
        }
        if was_signed_before(votes, i) {
            return Err(text("observed vote set contains a duplicate signer"));
        }
        i = i + 1;
    }
    Ok(())
}

/// The votes of fixture validators for a statement, from number `i` of the list
/// of signers on.
pub open spec fn fixture_votes(
    m: ManifestModel,
    s: Statement,
    justify: Digest,
    signers: Seq<usize>,
    i: int,
    so_far: Seq<Vote>,
) -> Result<Seq<Vote>, Seq<char>>
    decreases signers.len() - i,
{
    if i < 0 || i >= signers.len() {
        Ok(so_far)
    } else {
        match model::vote_signed(
            m,
            s.phase,
            s.round,
            s.conflict,
            s.intent,
            justify,
            signers[i] as u8,
            model::validator_seed(m.epoch, signers[i] as int),
        ) {
            Err(e) => Err(e),
            Ok(vote) => fixture_votes(m, s, justify, signers, i + 1, so_far.push(vote)),
        }
    }
}

pub open spec fn shown_votes(r: Result<Vec<Vote>, String>) -> Result<Seq<Vote>, Seq<char>> {
    match r {
        Ok(votes) => Ok(votes@),
        Err(e) => Err(e@),
    }
}

/// Signs a statement with the keys of fixture validators.
pub fn sign_fixture_votes(
    manifest: &CommitteeManifest,
    phase: u8,
    round: u64,
    conflict: Digest,
    intent: Digest,
    justify: Digest,
    signers: &Vec<usize>,
) -> (r: Result<Vec<Vote>, String>)
    ensures
        shown_votes(r) == fixture_votes(
            manifest@,
            (Statement { phase, round, conflict, intent, justify: None }),
            justify,
            signers@,
            0,
            Seq::empty(),
        ),
{
    let ghost s = Statement { phase, round, conflict, intent, justify: None };
    let mut votes: Vec<Vote> = Vec::new();
    let mut i: usize = 0;
    assert(votes@ =~= Seq::empty());
    while i < signers.len()
        invariant
            i <= signers@.len(),
            s == (Statement { phase, round, conflict, intent, justify: None }),
            fixture_votes(manifest@, s, justify, signers@, 0, Seq::empty()) == fixture_votes(
                manifest@,
                s,
                justify,
                signers@,
                i as int,
                votes@,
            ),
        decreases signers@.len() - i,
    {
        let index: usize = signers[i];
        let key: SigningKey = lab_validator_key(manifest.epoch, index);
        let vote: Vote = sign_vote(
            manifest,
            phase,
            round,
            conflict,
            intent,
            justify,
            #[verifier::truncate]
            (index as u8),
            &key,
        )?;
        votes.push(vote);
        i = i + 1;
    }
    Ok(votes)
}

pub open spec fn on_transfer(tx: TxModel, phase: u8, round: u64, justify: Option<Digest>)
    -> Statement {
    Statement {
        phase,
        round,
        conflict: model::conflict_digest(tx.input.reference),
        intent: model::intent_digest(tx),
        justify,
    }
}

/// The two certificates that fixture validators make for a transfer.
pub open spec fn fixture_chain(m: ManifestModel, tx: TxModel, round: u64, signers: Seq<usize>)
    -> Result<(Seq<Vote>, Seq<Vote>), Seq<char>> {
    let s = on_transfer(tx, PHASE_PREVOTE, round, None);
    match model::intent_result(tx) {
        Err(e) => Err(e),
        Ok(_) => match fixture_votes(m, s, bytes::zero_digest(), signers, 0, Seq::empty()) {
            Err(e) => Err(e),
            Ok(prevotes) => match model::assembled(prevotes, m, s) {
                Err(e) => Err(e),
                Ok(prevote_qc) => match model::qc_digest_result(prevote_qc, m) {
                    Err(e) => Err(e),
                    Ok(d) => match fixture_votes(
                        m,
                        on_transfer(tx, PHASE_PRECOMMIT, round, None),
                        d,
                        signers,
                        0,
                        Seq::empty(),
                    ) {
                        Err(e) => Err(e),
                        Ok(precommits) => match model::assembled(
                            precommits,
                            m,
                            on_transfer(tx, PHASE_PRECOMMIT, round, Some(d)),
                        ) {
                            Err(e) => Err(e),
                            Ok(precommit_qc) => Ok((prevote_qc, precommit_qc)),
                        },
                    },
                },
            },
        },
    }
}

pub open spec fn shown_chain(r: Result<(Qc, Qc), String>) -> Result<
    (Seq<Vote>, Seq<Vote>),
    Seq<char>,
> {
    match r {
        Ok((a, b)) => Ok((a@, b@)),
        Err(e) => Err(e@),
    }
}

/// The two certificates that fixture validators make for a transfer.
pub fn fixture_finality_chain(
    manifest: &CommitteeManifest,
    tx: &Tx,
    round: u64,
    signer_indices: &Vec<usize>,
) -> (r: Result<(Qc, Qc), String>)
    ensures
        shown_chain(r) == fixture_chain(manifest@, tx@, round, signer_indices@),
{
    let conflict: Digest = conflict_key(tx.input.reference);
    let intent: Digest = intent_hash(tx)?;
    let prevotes: Vec<Vote> = sign_fixture_votes(
        manifest,
        PHASE_PREVOTE,
        round,
        conflict,
        intent,
        no_digest(),
        signer_indices,
    )?;
    let prevote_qc: Qc = assemble_qc(
        prevotes,
        manifest,
        PHASE_PREVOTE,
        round,
        conflict,
        intent,
        None,
    )?;
    let prevote_digest: Digest = qc_digest(&prevote_qc, manifest)?;
    let precommits: Vec<Vote> = sign_fixture_votes(
        manifest,
        PHASE_PRECOMMIT,
        round,
        conflict,
        intent,
        prevote_digest,
        signer_indices,
    )?;
    let precommit_qc: Qc = assemble_qc(
        precommits,
        manifest,
        PHASE_PRECOMMIT,
        round,
        conflict,
        intent,
        Some(prevote_digest),
    )?;
    Ok((prevote_qc, precommit_qc))
}

/// A transfer with the two certificates that finalize it.
#[derive(Debug)]
pub struct FinalizedTransfer {
    pub tx: Tx,
    pub auth: UserAuth,
    pub prevote_qc: Qc,
    pub qc: Qc,
}

/// The mathematical content of a [`FinalizedTransfer`].
#[verifier::ext_equal]
pub struct FinalizedModel {
    pub tx: TxModel,
    pub auth: UserAuth,
    pub prevote_qc: Seq<Vote>,
    pub qc: Seq<Vote>,
}

impl View for FinalizedTransfer {
    type V = FinalizedModel;

    open spec fn view(&self) -> FinalizedModel {
        FinalizedModel {
            tx: self.tx@,
            auth: self.auth,
            prevote_qc: self.prevote_qc@,
            qc: self.qc@,
        }
    }
}

impl Clone for FinalizedTransfer {
    fn clone(&self) -> (r: Self)
        ensures
            r@ == self@,
    {
        FinalizedTransfer {
            tx: self.tx.clone(),
            auth: self.auth,
            prevote_qc: self.prevote_qc.clone(),
            qc: self.qc.clone(),
        }
    }
}

/// The prevote certificate of a proposal, from the votes that came back.
pub fn prevote_certificate(
    manifest: &CommitteeManifest,
    proposal: &Proposal,
    prevotes: Vec<Vote>,
) -> (r: Result<Qc, String>)
    ensures
        text::shown_view(r) == model::assembled(
            prevotes@,
            manifest@,
            (Statement {
                phase: PHASE_PREVOTE,
                round: proposal@.round,
                conflict: model::conflict_digest(proposal@.tx.input.reference),
                intent: proposal@.intent,
                justify: None,
            }),
        ),
{
    assemble_qc(
        prevotes,
        manifest,
        PHASE_PREVOTE,
        proposal.round,
        conflict_key(proposal.tx.input.reference),
        proposal.intent,
        None,
    )
}

/// What the precommits of a proposal come to.
pub open spec fn finality_result(
    m: ManifestModel,
    p: ProposalModel,
    prevote_qc: Seq<Vote>,
    precommits: Seq<Vote>,
) -> Result<FinalizedModel, Seq<char>> {
    match model::qc_digest_result(prevote_qc, m) {
        Err(e) => Err(e),
        Ok(d) => match model::assembled(
            precommits,
            m,
            Statement {
                phase: PHASE_PRECOMMIT,
                round: p.round,
                conflict: model::conflict_digest(p.tx.input.reference),
                intent: p.intent,
                justify: Some(d),
            },
        ) {
            Err(e) => Err(e),
            Ok(qc) => Ok(FinalizedModel { tx: p.tx, auth: p.auth, prevote_qc, qc }),
        },
    }
}

/// The finalized transfer of a proposal, from its prevote certificate and the
/// precommits that came back.
pub fn finality_certificate(
    manifest: &CommitteeManifest,
    proposal: &Proposal,
    prevote_qc: Qc,
    precommits: Vec<Vote>,
) -> (r: Result<FinalizedTransfer, String>)
    ensures
        text::shown_view(r) == finality_result(manifest@, proposal@, prevote_qc@, precommits@),
{
    let prevote_digest: Digest = qc_digest(&prevote_qc, manifest)?;
    let qc: Qc = assemble_qc(
        precommits,
        manifest,
        PHASE_PRECOMMIT,
        proposal.round,
        conflict_key(proposal.tx.input.reference),
        proposal.intent,
        Some(prevote_digest),
    )?;
    Ok(FinalizedTransfer { tx: proposal.tx.clone(), auth: proposal.auth, prevote_qc, qc })
}

/// The certificate with its vote number zero replaced.
pub open spec fn with_first(votes: Seq<Vote>, first: Vote) -> Seq<Vote> {
    votes.update(0, first)
}

/// The forms of a certificate that have to be refused, and their names.
pub open spec fn bad_certificates(votes: Seq<Vote>) -> Seq<(Seq<char>, Seq<Vote>)> {
    let v = votes[0];
    seq![
        ("four shares"@, votes.subrange(0, 4)),
        ("duplicate identities"@, Seq::new(5, |i: int| v)),
        ("non-member"@, with_first(votes, Vote { signer_index: N as u8, ..v })),
        (
            "wrong committee"@,
            with_first(votes, Vote { committee_hash: flipped(v.committee_hash), ..v }),
        ),
        ("wrong generation"@, with_first(votes, Vote { epoch: v.epoch.wrapping_add(1), ..v })),
        ("altered payload"@, with_first(votes, Vote { intent: flipped(v.intent), ..v })),
        (
            "invalid signature"@,
            with_first(votes, Vote { signature: flipped(v.signature), ..v }),
        ),
    ]
}

/// The first bad certificate from number `i` on that passes.
pub open spec fn quorum_fault(
    list: Seq<(Seq<char>, Seq<Vote>)>,
    m: ManifestModel,
    s: Statement,
    i: int,
) -> Verdict
    decreases list.len() - i,
{
    if i < 0 || i >= list.len() {
        Ok(())
    } else if model::qc_verdict(list[i].1, m, s) is Ok {
        Err("quorum verifier accepted "@ + list[i].0)
    } else {
        quorum_fault(list, m, s, i + 1)
    }
}

/// What holding a finalized transfer against the bad certificates comes to.
pub open spec fn quorum_matrix(f: FinalizedModel, m: ManifestModel) -> Verdict {
    if f.qc.len() == 0 {
        Err("finality QC unexpectedly empty"@)
    } else {
        match model::intent_result(f.tx) {
            Err(e) => Err(e),
            Ok(_) => {
                let s = on_transfer(
                    f.tx,
                    PHASE_PRECOMMIT,
                    f.qc[0].round,
                    Some(f.qc[0].justify),
                );
                match model::qc_verdict(f.qc, m, s) {
                    Err(e) => Err(e),
                    Ok(_) => quorum_fault(bad_certificates(f.qc), m, s, 0),
                }
            },
        }
    }
}

pub open spec fn shown_certificates(list: Seq<(String, Qc)>) -> Seq<(Seq<char>, Seq<Vote>)> {
    Seq::new(list.len(), |i: int| (list[i].0@, list[i].1@))
}

fn push_certificate(list: &mut Vec<(String, Qc)>, name: &str, qc: Qc)
    ensures
        shown_certificates(final(list)@) == shown_certificates(old(list)@).push((name@, qc@)),
{
    let ghost before = list@;
    list.push((text(name), qc));
    assert(shown_certificates(list@) =~= shown_certificates(before).push((name@, qc@)));
}

fn first_replaced(qc: &Qc, first: Vote) -> (r: Qc)
    requires
        qc@.len() > 0,
    ensures
        r@ == with_first(qc@, first),
{
    let mut r: Qc = qc.clone();
    r.votes.set(0, first);
    r
}

fn bad_forms(qc: &Qc) -> (r: Vec<(String, Qc)>)
    requires
        qc@.len() >= 4,
    ensures
        shown_certificates(r@) == bad_certificates(qc@),
{
    let v: Vote = qc.votes[0];
    let mut list: Vec<(String, Qc)> = Vec::new();
    assert(shown_certificates(list@) =~= Seq::empty());
    let four: Vec<Vote> = copy_slice(&qc.votes.as_slice()[0..4]);
    assert(four@ =~= qc@.subrange(0, 4));
    push_certificate(&mut list, "four shares", Qc { votes: four });
    let mut five: Vec<Vote> = Vec::new();
    five.push(v);
    five.push(v);
    five.push(v);
    five.push(v);
    five.push(v);
    assert(five@ =~= Seq::new(5, |i: int| v));
    push_certificate(&mut list, "duplicate identities", Qc { votes: five });
    push_certificate(
        &mut list,
        "non-member",
        first_replaced(qc, Vote { signer_index: N as u8, ..v }),
    );
    push_certificate(
        &mut list,
        "wrong committee",
        first_replaced(qc, Vote { committee_hash: flip(&v.committee_hash), ..v }),
    );
    push_certificate(
        &mut list,
        "wrong generation",
        first_replaced(qc, Vote { epoch: v.epoch.wrapping_add(1), ..v }),
    );
    push_certificate(
        &mut list,
        "altered payload",
        first_replaced(qc, Vote { intent: flip(&v.intent), ..v }),
    );
    push_certificate(
        &mut list,
        "invalid signature",
        first_replaced(qc, Vote { signature: flip(&v.signature), ..v }),
    );
    assert(shown_certificates(list@) =~= bad_certificates(qc@));
    list
}

fn certificates_refused(
    list: &Vec<(String, Qc)>,
    manifest: &CommitteeManifest,
    round: u64,
    conflict: Digest,
    intent: Digest,
    justify: Digest,
) -> (r: Result<(), String>)
    ensures
        text::shown(r) == quorum_fault(
            shown_certificates(list@),
            manifest@,
            (Statement {
                phase: PHASE_PRECOMMIT,
                round,
                conflict,
                intent,
                justify: Some(justify),
            }),
            0,
        ),
{
    let ghost s = Statement {
        phase: PHASE_PRECOMMIT,
        round,
        conflict,
        intent,
        justify: Some(justify),
    };
    let mut i: usize = 0;
    while i < list.len()
        invariant
            i <= list@.len(),
            s == (Statement {
                phase: PHASE_PRECOMMIT,
                round,
                conflict,
                intent,
                justify: Some(justify),
            }),
            quorum_fault(shown_certificates(list@), manifest@, s, 0) == quorum_fault(
                shown_certificates(list@),
                manifest@,
                s,
                i as int,
            ),
        decreases list@.len() - i,
    {
        if verify_qc(
            &list[i].1,
            manifest,
            PHASE_PRECOMMIT,
            round,
            conflict,
            intent,
            Some(justify),
        ).is_ok() {
            return Err(concat2("quorum verifier accepted ", list[i].0.as_str()));
        }
        i = i + 1;
    }
    Ok(())
}

/// Checks that no bad form of the certificate of a finalized transfer passes. The
/// number of forms is returned.
pub fn quorum_negative_matrix(finalized: &FinalizedTransfer, manifest: &CommitteeManifest) -> (r:
    Result<usize, String>)
    ensures
        match quorum_matrix(finalized@, manifest@) {
            Ok(_) => r == Ok::<usize, String>(7),
            Err(e) => r is Err && r->Err_0@ == e,
        },
{
    if finalized.qc.votes.len() == 0 {
        return Err(text("finality QC unexpectedly empty"));
    }
    let first: Vote = finalized.qc.votes[0];
    let conflict: Digest = conflict_key(finalized.tx.input.reference);
    let intent: Digest = intent_hash(&finalized.tx)?;
    verify_qc(
        &finalized.qc,
        manifest,
        PHASE_PRECOMMIT,
        first.round,
        conflict,
        intent,
        Some(first.justify),
    )?;
    let list: Vec<(String, Qc)> = bad_forms(&finalized.qc);
    assert(shown_certificates(list@).len() == 7);
    certificates_refused(&list, manifest, first.round, conflict, intent, first.justify)?;
    Ok(list.len())
}

/// Of the bad forms, those that no signature is needed to refuse are refused
/// whatever the certificate: too few shares, one share counted five times, a
/// signer that is no member, another committee, another generation and another
/// intent.
pub proof fn law_bad_certificates_are_refused(votes: Seq<Vote>, m: ManifestModel, s: Statement)
    requires
        model::qc_verdict(votes, m, s) is Ok,
        m.members.len() == N,
    ensures
        forall|k: int|
            0 <= k < 6 ==> model::qc_verdict(#[trigger] bad_certificates(votes)[k].1, m, s) is Err,
{
    let list = bad_certificates(votes);
    let v = votes[0];
    reveal_with_fuel(model::votes_verdict, 3);
    assert forall|k: int| 0 <= k < 6 implies model::qc_verdict(#[trigger] list[k].1, m, s) is Err by {
        lemma_flip_differs(v.committee_hash);
        lemma_flip_differs(v.intent);
        if k == 0 {
            assert(list[0].1.len() == 4);
        } else if k == 1 {
            assert(list[1].1[1] == v && list[1].1[0] == v);
        } else {
            assert(list[k].1[0] != v);
        }
    }
}

proof fn lemma_flip_differs<const L: usize>(a: [u8; L])
    requires
        L > 0,
    ensures
        flipped(a) != a,
{
    bytes::lemma_arr_view::<L>(a@.update(0, a@[0] ^ 1));
    let x = a@[0];
    assert(x ^ 1 != x) by (bit_vector);
    assert(flipped(a)@[0] == x ^ 1);
}

// ---------------------------------------------------------------------------
// Applying.
// ---------------------------------------------------------------------------

pub open spec fn finalized_list(list: Seq<FinalizedTransfer>) -> Seq<FinalizedModel> {
    Seq::new(list.len(), |i: int| list[i]@)
}

/// The state after the transfers of a schedule, from number `k` on.
pub open spec fn applied_from(
    s: StateModel,
    list: Seq<FinalizedModel>,
    order: Seq<usize>,
    m: ManifestModel,
    k: int,
) -> Result<StateModel, Seq<char>>
    decreases order.len() - k,
{
    if k < 0 || k >= order.len() {
        Ok(s)
    } else if order[k] >= list.len() {
        Err("schedule contains invalid transfer index "@ + text::dec(order[k] as nat))
    } else {
        let f = list[order[k] as int];
        match state::apply_result(s, f.tx, f.auth, f.prevote_qc, f.qc, m) {
            Err(e) => Err(e),
            Ok(OutcomeModel::AlreadyApplied(_)) => Err(
                "fresh schedule repeated transfer index "@ + text::dec(order[k] as nat),
            ),
            Ok(OutcomeModel::Applied(receipt)) => applied_from(
                state::state_after(s, f.tx, receipt),
                list,
                order,
                m,
                k + 1,
            ),
        }
    }
}

/// The state after the transfers of a schedule.
pub fn apply_in_order(
    starting_state: &State,
    finalized: &Vec<FinalizedTransfer>,
    order: &Vec<usize>,
    manifest: &CommitteeManifest,
) -> (r: Result<State, String>)
    ensures
        text::shown_view(r) == applied_from(
            starting_state@,
            finalized_list(finalized@),
            order@,
            manifest@,
            0,
        ),
{
    let mut state: State = starting_state.clone();
    let ghost list = finalized_list(finalized@);
    let mut k: usize = 0;
    while k < order.len()
        invariant
            k <= order@.len(),
            list == finalized_list(finalized@),
            applied_from(starting_state@, list, order@, manifest@, 0) == applied_from(
                state@,
                list,
                order@,
                manifest@,
                k as int,
            ),
        decreases order@.len() - k,
    {
        let index: usize = order[k];
        if index >= finalized.len() {
            proof {
                reveal_strlit("");
                let s = "schedule contains invalid transfer index "@ + text::dec(index as nat);
                assert(s + ""@ =~= s);
            }
            return Err(
                with_number("schedule contains invalid transfer index ", index as u64, ""),
            );
        }
        let transfer: &FinalizedTransfer = &finalized[index];
        match state.apply_finalized(
            &transfer.tx,
            &transfer.auth,
            &transfer.prevote_qc,
            &transfer.qc,
            manifest,
        ) {
            Err(e) => {
                return Err(e);
            },
            Ok(ApplyOutcome::AlreadyApplied(_)) => {
                proof {
                    reveal_strlit("");
                    let s = "fresh schedule repeated transfer index "@ + text::dec(index as nat);
                    assert(s + ""@ =~= s);
                }
                return Err(
                    with_number("fresh schedule repeated transfer index ", index as u64, ""),
                );
            },
            Ok(ApplyOutcome::Applied(_)) => {},
        }
        k = k + 1;
    }
    Ok(state)
}

} // verus!
