//! Spending cells: what an owner signs, and what a spend has to satisfy.
//!
//! The security experiments share this model. They differ in the domain tags
//! under which they hash and sign.
use crate::bytes;
use crate::bytes::{copy_vec, put_bytes, put_digest, put_u32, put_u64, same_array};
use crate::crypto;
use crate::crypto::{hash_domain, SigningKey, VerifyingKey};
use crate::model::{Digest, PublicKeyBytes, SignatureBytes, Verdict};
use crate::ordmap;
use crate::ordmap::{OrdKey, Ordered};
use crate::text;
use crate::text::{concat2, push_dec, text};
use std::collections::HashMap;
use vstd::prelude::*;

verus! {

pub const NETWORK_ID: u32 = 1;

pub const MAX_INPUTS: usize = 8;

pub const CELL_VALUE: u64 = 100;

// ---------------------------------------------------------------------------
// Data.
// ---------------------------------------------------------------------------

#[derive(Clone, Copy, Debug, PartialEq, Eq)]
pub struct Cell {
    pub id: u64,
    pub value: u64,
    pub generation: u64,
    pub owner: PublicKeyBytes,
}

#[derive(Clone, Copy, Debug, PartialEq, Eq, Structural, Hash)]
pub struct InputRef {
    pub id: u64,
    pub generation: u64,
}

impl Ordered for InputRef {
    open spec fn lt(self, other: Self) -> bool {
        self.id < other.id || self.id == other.id && self.generation < other.generation
    }

    proof fn lt_irreflexive(a: Self) {
    }

    proof fn lt_transitive(a: Self, b: Self, c: Self) {
    }

    proof fn lt_total(a: Self, b: Self) {
    }
}

impl OrdKey for InputRef {
    type Key = InputRef;

    open spec fn key(&self) -> InputRef {
        *self
    }

    fn twin(&self) -> (r: Self) {
        *self
    }

    fn before(&self, other: &Self) -> (r: bool) {
        let r = self.id < other.id || self.id == other.id && self.generation < other.generation;
        assert(r == Ordered::lt(*self, *other));
        r
    }

    fn same(&self, other: &Self) -> (r: bool) {
        *self == *other
    }
}

#[derive(Debug, PartialEq, Eq)]
pub struct SpendTx {
    pub network_id: u32,
    pub tx_id: u64,
    pub inputs: Vec<InputRef>,
    pub output_id: u64,
    pub recipient: PublicKeyBytes,
    pub output_value: u64,
    pub expiry: u64,
}

/// The mathematical content of a [`SpendTx`].
#[verifier::ext_equal]
pub struct SpendModel {
    pub network_id: u32,
    pub tx_id: u64,
    pub inputs: Seq<InputRef>,
    pub output_id: u64,
    pub recipient: PublicKeyBytes,
    pub output_value: u64,
    pub expiry: u64,
}

impl View for SpendTx {
    type V = SpendModel;

    open spec fn view(&self) -> SpendModel {
        SpendModel {
            network_id: self.network_id,
            tx_id: self.tx_id,
            inputs: self.inputs@,
            output_id: self.output_id,
            recipient: self.recipient,
            output_value: self.output_value,
            expiry: self.expiry,
        }
    }
}

impl Clone for SpendTx {
    fn clone(&self) -> (r: Self)
        ensures
            r@ == self@,
    {
        SpendTx {
            network_id: self.network_id,
            tx_id: self.tx_id,
            inputs: copy_vec(&self.inputs),
            output_id: self.output_id,
            recipient: self.recipient,
            output_value: self.output_value,
            expiry: self.expiry,
        }
    }
}

#[derive(Clone, Copy, Debug)]
pub struct UserAuthorization {
    pub signer: PublicKeyBytes,
    pub signature: SignatureBytes,
}

/// A spend whose authorization was checked.
#[derive(Clone, Copy, Debug)]
pub struct VerifiedSpend {
    pub tx_digest: Digest,
    pub user_signer: PublicKeyBytes,
}

// ---------------------------------------------------------------------------
// Messages.
// ---------------------------------------------------------------------------

/// How an input enters the message that the owner signs.
pub open spec fn input_bytes() -> spec_fn(InputRef) -> Seq<u8> {
    |i: InputRef| bytes::le64(i.id) + bytes::le64(i.generation)
}

/// What an owner signs, behind a domain tag.
pub open spec fn spend_bytes(tx: SpendModel) -> Seq<u8> {
    bytes::le32(tx.network_id) + bytes::le64(tx.tx_id) + bytes::le64(tx.inputs.len() as u64) + bytes::flat(
        tx.inputs,
        input_bytes(),
    ) + bytes::le64(tx.output_id) + tx.recipient@ + bytes::le64(tx.output_value) + bytes::le64(tx.expiry)
}

/// The message that the owner of the inputs signs.
pub open spec fn user_message(domain: Seq<char>, tx: SpendModel) -> Seq<u8> {
    crypto::ascii(domain) + spend_bytes(tx)
}

pub fn canonical_user_message(domain: &str, tx: &SpendTx) -> (r: Vec<u8>)
    ensures
        r@ == user_message(domain@, tx@),
{
    let mut out: Vec<u8> = Vec::new();
    put_bytes(&mut out, domain.as_bytes());
    put_u32(&mut out, tx.network_id);
    put_u64(&mut out, tx.tx_id);
    put_u64(&mut out, tx.inputs.len() as u64);
    let ghost head = out@;
    let ghost inputs = tx.inputs@;
    let mut i: usize = 0;
    proof {
        bytes::lemma_flat_ends(inputs, input_bytes());
        assert(out@ =~= head + bytes::flat(inputs.subrange(0, 0), input_bytes()));
    }
    while i < tx.inputs.len()
        invariant
            i <= inputs.len(),
            inputs == tx.inputs@,
            out@ == head + bytes::flat(inputs.subrange(0, i as int), input_bytes()),
        decreases inputs.len() - i,
    {
        put_u64(&mut out, tx.inputs[i].id);
        put_u64(&mut out, tx.inputs[i].generation);
        proof {
            bytes::lemma_flat_step(inputs, input_bytes(), i as int);
            assert(out@ =~= head + (bytes::flat(inputs.subrange(0, i as int), input_bytes())
                + input_bytes()(inputs[i as int])));
        }
        i = i + 1;
    }
    put_u64(&mut out, tx.output_id);
    put_bytes(&mut out, &tx.recipient);
    put_u64(&mut out, tx.output_value);
    put_u64(&mut out, tx.expiry);
    proof {
        bytes::lemma_flat_ends(inputs, input_bytes());
        assert(out@ =~= user_message(domain@, tx@));
    }
    out
}

/// The commitment to a spend and its signer.
pub open spec fn commitment(
    domain: Seq<char>,
    user_domain: Seq<char>,
    tx: SpendModel,
    signer: PublicKeyBytes,
) -> Digest {
    crypto::digest(domain, user_message(user_domain, tx) + signer@)
}

pub fn commit(domain: &str, user_domain: &str, tx: &SpendTx, signer: &PublicKeyBytes) -> (d: Digest)
    ensures
        d == commitment(domain@, user_domain@, tx@, *signer),
{
    let mut bytes: Vec<u8> = canonical_user_message(user_domain, tx);
    put_digest(&mut bytes, signer);
    hash_domain(domain, &bytes)
}

/// What a certifier signs for a spend.
pub open spec fn share_message_bytes(
    domain: Seq<char>,
    tx_digest: Digest,
    user_signer: PublicKeyBytes,
    epoch: u64,
) -> Seq<u8> {
    crypto::ascii(domain) + bytes::le64(epoch) + tx_digest@ + user_signer@
}

pub fn share_message_for(
    domain: &str,
    tx_digest: &Digest,
    user_signer: &PublicKeyBytes,
    epoch: u64,
) -> (r: Vec<u8>)
    ensures
        r@ == share_message_bytes(domain@, *tx_digest, *user_signer, epoch),
{
    let mut out: Vec<u8> = Vec::new();
    put_bytes(&mut out, domain.as_bytes());
    put_u64(&mut out, epoch);
    put_digest(&mut out, tx_digest);
    put_digest(&mut out, user_signer);
    assert(out@ =~= share_message_bytes(domain@, *tx_digest, *user_signer, epoch));
    out
}

/// The authorization that a key gives to a spend.
pub open spec fn authorization(domain: Seq<char>, tx: SpendModel, seed: [u8; 32])
    -> UserAuthorization {
    UserAuthorization {
        signer: crypto::public_key(seed),
        signature: crypto::signature(seed, user_message(domain, tx)),
    }
}

pub fn sign_spend(domain: &str, tx: &SpendTx, sk: &SigningKey) -> (r: UserAuthorization)
    ensures
        r == authorization(domain@, tx@, sk.seed),
        crypto::has_nonce(r.signature) ==> crypto::signs_well(sk.seed, user_message(domain@, tx@)),
{
    let message: Vec<u8> = canonical_user_message(domain, tx);
    UserAuthorization {
        signer: sk.verifying_key().to_bytes(),
        signature: sk.sign(&message),
    }
}

// ---------------------------------------------------------------------------
// Checks.
// ---------------------------------------------------------------------------

/// How strictly inputs are checked, and in which words.
#[derive(Clone, Copy, Debug, PartialEq, Eq, Structural)]
pub struct InputRules {
    /// Two inputs are the same if their identifiers are; otherwise their
    /// generations have to agree too.
    pub by_id: bool,
    /// The words are those of the core.
    pub core: bool,
}

/// Whether the input number `i` occurs before it.
pub open spec fn repeats(inputs: Seq<InputRef>, i: int, by_id: bool) -> bool {
    exists|j: int|
        0 <= j < i && (#[trigger] inputs[j]).id == inputs[i].id && (by_id
            || inputs[j].generation == inputs[i].generation)
}

pub open spec fn core_prefix(core: bool) -> Seq<char> {
    if core {
        "core "@
    } else {
        ""@
    }
}

/// What the inputs from number `i` on add to a total.
pub open spec fn inputs_result(
    cells: Map<u64, Cell>,
    inputs: Seq<InputRef>,
    owner: Option<PublicKeyBytes>,
    rules: InputRules,
    i: int,
    total: nat,
) -> Result<nat, Seq<char>>
    decreases inputs.len() - i,
{
    if i < 0 || i >= inputs.len() {
        Ok(total)
    } else {
        let input = inputs[i];
        let named = core_prefix(rules.core) + "input "@ + text::dec(input.id as nat);
        if repeats(inputs, i, rules.by_id) {
            Err(core_prefix(rules.core) + "duplicate input"@)
        } else if !cells.contains_key(input.id) {
            Err(
                named + if rules.core {
                    " already spent/not active"@
                } else {
                    " not active"@
                },
            )
        } else if cells[input.id].generation != input.generation {
            Err(named + " generation mismatch"@)
        } else if owner is Some && cells[input.id].owner != owner->Some_0 {
            Err(named + " owner mismatch"@)
        } else if total + cells[input.id].value > u64::MAX {
            Err(core_prefix(rules.core) + "input value overflow"@)
        } else {
            inputs_result(
                cells,
                inputs,
                owner,
                rules,
                i + 1,
                total + cells[input.id].value as nat,
            )
        }
    }
}

fn is_repeated(inputs: &Vec<InputRef>, i: usize, by_id: bool) -> (r: bool)
    requires
        i < inputs@.len(),
    ensures
        r == repeats(inputs@, i as int, by_id),
{
    let mut j: usize = 0;
    while j < i
        invariant
            j <= i < inputs@.len(),
            forall|k: int|
                0 <= k < j ==> !((#[trigger] inputs@[k]).id == inputs@[i as int].id && (by_id
                    || inputs@[k].generation == inputs@[i as int].generation)),
        decreases i - j,
    {
        if inputs[j].id == inputs[i].id && (by_id || inputs[j].generation
            == inputs[i].generation) {
            return true;
        }
        j = j + 1;
    }
    false
}

fn prefixed(core: bool, rest: &str) -> (r: String)
    ensures
        r@ == core_prefix(core) + rest@,
{
    if core {
        concat2("core ", rest)
    } else {
        concat2("", rest)
    }
}

fn named_input(core: bool, id: u64, rest: &str) -> (r: String)
    ensures
        r@ == core_prefix(core) + "input "@ + text::dec(id as nat) + rest@,
{
    let mut r: String = prefixed(core, "input ");
    push_dec(&mut r, id);
    r.append(rest);
    r
}

/// The value of the inputs of a spend.
pub fn check_inputs(
    cells: &HashMap<u64, Cell>,
    inputs: &Vec<InputRef>,
    owner: Option<PublicKeyBytes>,
    rules: InputRules,
) -> (r: Result<u64, String>)
    ensures
        match inputs_result(cells@, inputs@, owner, rules, 0, 0) {
            Ok(total) => r is Ok && r->Ok_0 == total,
            Err(e) => r is Err && r->Err_0@ == e,
        },
{
    let mut total: u64 = 0;
    let mut i: usize = 0;
    while i < inputs.len()
        invariant
            i <= inputs@.len(),
            inputs_result(cells@, inputs@, owner, rules, 0, 0) == inputs_result(
                cells@,
                inputs@,
                owner,
                rules,
                i as int,
                total as nat,
            ),
        decreases inputs@.len() - i,
    {
        let input: InputRef = inputs[i];
        if is_repeated(inputs, i, rules.by_id) {
            return Err(prefixed(rules.core, "duplicate input"));
        }
        let cell: Cell = match cells.get(&input.id) {
            Some(cell) => *cell,
            None => {
                return Err(
                    if rules.core {
                        named_input(rules.core, input.id, " already spent/not active")
                    } else {
                        named_input(rules.core, input.id, " not active")
                    },
                );
            },
        };
        if cell.generation != input.generation {
            return Err(named_input(rules.core, input.id, " generation mismatch"));
        }
        if let Some(owner) = owner {
            if !same_array(&cell.owner, &owner) {
                return Err(named_input(rules.core, input.id, " owner mismatch"));
            }
        }
        total = match total.checked_add(cell.value) {
            Some(sum) => sum,
            None => {
                return Err(prefixed(rules.core, "input value overflow"));
            },
        };
        i = i + 1;
    }
    Ok(total)
}

/// The spend that an owner authorized, or why it is refused.
pub open spec fn verified_spend(
    user_domain: Seq<char>,
    commitment_domain: Seq<char>,
    by_id: bool,
    tx: SpendModel,
    auth: UserAuthorization,
    cells: Map<u64, Cell>,
) -> Result<VerifiedSpend, Seq<char>> {
    if tx.network_id != NETWORK_ID {
        Err("wrong network/domain"@)
    } else if tx.inputs.len() == 0 || tx.inputs.len() > MAX_INPUTS {
        Err("invalid input count"@)
    } else if !crypto::ed25519_key_decodes(auth.signer@) {
        Err("invalid user public key"@)
    } else if !crypto::ed25519_strictly_verifies(
        auth.signer@,
        user_message(user_domain, tx),
        auth.signature@,
    ) {
        Err("user signature rejected"@)
    } else {
        match inputs_result(
            cells,
            tx.inputs,
            Some(auth.signer),
            InputRules { by_id, core: false },
            0,
            0,
        ) {
            Err(e) => Err(e),
            Ok(total) => if total != tx.output_value {
                Err(
                    "value conservation mismatch: inputs="@ + text::dec(total) + " output="@ + text::dec(
                        tx.output_value as nat,
                    ),
                )
            } else {
                Ok(
                    VerifiedSpend {
                        tx_digest: commitment(commitment_domain, user_domain, tx, auth.signer),
                        user_signer: auth.signer,
                    },
                )
            },
        }
    }
}

/// Checks that the owner of every input authorized the spend, and that the spend
/// keeps their value.
pub fn verify_authorization(
    user_domain: &str,
    commitment_domain: &str,
    by_id: bool,
    tx: &SpendTx,
    auth: &UserAuthorization,
    cells: &HashMap<u64, Cell>,
) -> (r: Result<VerifiedSpend, String>)
    ensures
        text::shown(r) == verified_spend(
            user_domain@,
            commitment_domain@,
            by_id,
            tx@,
            *auth,
            cells@,
        ),
{
    if tx.network_id != NETWORK_ID {
        return Err(text("wrong network/domain"));
    }
    if tx.inputs.len() == 0 || tx.inputs.len() > MAX_INPUTS {
        return Err(text("invalid input count"));
    }
    let key: VerifyingKey = VerifyingKey { bytes: auth.signer };
    if !key.decodes() {
        return Err(text("invalid user public key"));
    }
    let message: Vec<u8> = canonical_user_message(user_domain, tx);
    if !key.verify_strict(&message, &auth.signature) {
        return Err(text("user signature rejected"));
    }
    let total: u64 = check_inputs(
        cells,
        &tx.inputs,
        Some(auth.signer),
        InputRules { by_id, core: false },
    )?;
    if total != tx.output_value {
        let mut refusal: String = text("value conservation mismatch: inputs=");
        push_dec(&mut refusal, total);
        refusal.append(" output=");
        push_dec(&mut refusal, tx.output_value);
        return Err(refusal);
    }
    Ok(
        VerifiedSpend {
            tx_digest: commit(commitment_domain, user_domain, tx, &auth.signer),
            user_signer: auth.signer,
        },
    )
}

// ---------------------------------------------------------------------------
// The core.
// ---------------------------------------------------------------------------

/// The output of a spend.
pub open spec fn output_cell_of(tx: SpendModel) -> Cell {
    Cell { id: tx.output_id, value: tx.output_value, generation: 0, owner: tx.recipient }
}

/// The cells without the first `n` inputs.
pub open spec fn without_inputs(cells: Map<u64, Cell>, inputs: Seq<InputRef>, n: int) -> Map<
    u64,
    Cell,
>
    decreases n,
{
    if n <= 0 || n > inputs.len() {
        cells
    } else {
        without_inputs(cells, inputs, n - 1).remove(inputs[n - 1].id)
    }
}

/// The cells after a spend: its inputs are gone, and its output is there.
pub open spec fn spent(cells: Map<u64, Cell>, tx: SpendModel) -> Map<u64, Cell> {
    without_inputs(cells, tx.inputs, tx.inputs.len() as int).insert(
        tx.output_id,
        output_cell_of(tx),
    )
}

/// Whether the core can make a spend that is certified.
pub open spec fn core_verdict(cells: Map<u64, Cell>, tx: SpendModel, by_id: bool) -> Verdict {
    if tx.inputs.len() == 0 || tx.inputs.len() > MAX_INPUTS {
        Err("core invalid input count"@)
    } else if cells.contains_key(tx.output_id) {
        Err("output id already active"@)
    } else {
        match inputs_result(cells, tx.inputs, None, InputRules { by_id, core: true }, 0, 0) {
            Err(e) => Err(e),
            Ok(total) => if total != tx.output_value {
                Err("core value conservation mismatch"@)
            } else {
                Ok(())
            },
        }
    }
}

/// Takes the inputs of a spend out and puts its output in.
pub fn make_spend(cells: &mut HashMap<u64, Cell>, tx: &SpendTx) -> (r: Cell)
    ensures
        r == output_cell_of(tx@),
        final(cells)@ == spent(old(cells)@, tx@),
{
    let ghost before = cells@;
    let mut i: usize = 0;
    while i < tx.inputs.len()
        invariant
            i <= tx.inputs@.len(),
            cells@ == without_inputs(before, tx.inputs@, i as int),
        decreases tx.inputs@.len() - i,
    {
        cells.remove(&tx.inputs[i].id);
        i = i + 1;
    }
    let output: Cell = Cell {
        id: tx.output_id,
        value: tx.output_value,
        generation: 0,
        owner: tx.recipient,
    };
    cells.insert(output.id, output);
    output
}

/// Makes a spend that is certified.
pub fn apply_spend(cells: &mut HashMap<u64, Cell>, tx: &SpendTx, by_id: bool) -> (r: Result<
    Cell,
    String,
>)
    ensures
        match core_verdict(old(cells)@, tx@, by_id) {
            Ok(_) => r == Ok::<Cell, String>(output_cell_of(tx@)) && final(cells)@ == spent(
                old(cells)@,
                tx@,
            ),
            Err(e) => r is Err && r->Err_0@ == e && final(cells)@ == old(cells)@,
        },
{
    if tx.inputs.len() == 0 || tx.inputs.len() > MAX_INPUTS {
        return Err(text("core invalid input count"));
    }
    if cells.contains_key(&tx.output_id) {
        return Err(text("output id already active"));
    }
    let total: u64 = check_inputs(cells, &tx.inputs, None, InputRules { by_id, core: true })?;
    if total != tx.output_value {
        return Err(text("core value conservation mismatch"));
    }
    Ok(make_spend(cells, tx))
}

/// The value of a cell.
pub open spec fn value_of() -> spec_fn(Cell) -> nat {
    |c: Cell| c.value as nat
}

/// The value of all active cells.
pub open spec fn active_value(cells: Map<u64, Cell>) -> nat {
    ordmap::weight(cells, value_of())
}

/// The inputs from number `i` on pass: what that says of each of them, and of
/// their value.
proof fn lemma_inputs(
    cells: Map<u64, Cell>,
    inputs: Seq<InputRef>,
    owner: Option<PublicKeyBytes>,
    rules: InputRules,
    i: int,
    total: nat,
)
    requires
        0 <= i <= inputs.len(),
        inputs_result(cells, inputs, owner, rules, i, total) is Ok,
    ensures
        forall|k: int|
            i <= k < inputs.len() ==> cells.contains_key((#[trigger] inputs[k]).id)
                && cells[inputs[k].id].generation == inputs[k].generation && !repeats(
                inputs,
                k,
                rules.by_id,
            ) && (owner is Some ==> cells[inputs[k].id].owner == owner->Some_0),
        inputs_result(cells, inputs, owner, rules, i, total)->Ok_0 == total + inputs_value(
            cells,
            inputs,
            i,
        ),
    decreases inputs.len() - i,
{
    if i < inputs.len() {
        lemma_inputs(
            cells,
            inputs,
            owner,
            rules,
            i + 1,
            total + cells[inputs[i].id].value as nat,
        );
    }
}

/// The value of the inputs from number `i` on.
pub open spec fn inputs_value(cells: Map<u64, Cell>, inputs: Seq<InputRef>, i: int) -> nat
    decreases inputs.len() - i,
{
    if i < 0 || i >= inputs.len() {
        0
    } else {
        cells[inputs[i].id].value as nat + inputs_value(cells, inputs, i + 1)
    }
}

/// The inputs of a spend have different identifiers.
pub open spec fn distinct_ids(inputs: Seq<InputRef>) -> bool {
    forall|i: int, j: int|
        0 <= i < j < inputs.len() ==> (#[trigger] inputs[i]).id != (#[trigger] inputs[j]).id
}

proof fn lemma_distinct(
    cells: Map<u64, Cell>,
    inputs: Seq<InputRef>,
    owner: Option<PublicKeyBytes>,
    rules: InputRules,
)
    requires
        inputs_result(cells, inputs, owner, rules, 0, 0) is Ok,
    ensures
        distinct_ids(inputs),
{
    lemma_inputs(cells, inputs, owner, rules, 0, 0);
    assert forall|i: int, j: int| 0 <= i < j < inputs.len() implies (#[trigger] inputs[i]).id != (
    #[trigger] inputs[j]).id by {
        if inputs[i].id == inputs[j].id {
            assert(inputs[i].generation == inputs[j].generation);
            assert(repeats(inputs, j, rules.by_id));
        }
    }
}

/// The inputs are active in the stated generations, belong to the owner if one is
/// asked for, and do not repeat.
pub open spec fn spendable(
    cells: Map<u64, Cell>,
    inputs: Seq<InputRef>,
    owner: Option<PublicKeyBytes>,
) -> bool {
    &&& distinct_ids(inputs)
    &&& forall|k: int|
        0 <= k < inputs.len() ==> cells.contains_key((#[trigger] inputs[k]).id)
            && cells[inputs[k].id].generation == inputs[k].generation && (owner is Some
            ==> cells[inputs[k].id].owner == owner->Some_0)
}

/// Spendable inputs pass.
proof fn lemma_spendable(
    cells: Map<u64, Cell>,
    inputs: Seq<InputRef>,
    owner: Option<PublicKeyBytes>,
    rules: InputRules,
    i: int,
    total: nat,
)
    requires
        0 <= i <= inputs.len(),
        spendable(cells, inputs, owner),
        total + inputs_value(cells, inputs, i) <= u64::MAX,
    ensures
        inputs_result(cells, inputs, owner, rules, i, total) == Ok::<nat, Seq<char>>(
            total + inputs_value(cells, inputs, i),
        ),
    decreases inputs.len() - i,
{
    if i < inputs.len() {
        assert(cells.contains_key(inputs[i].id));
        assert(!repeats(inputs, i, rules.by_id)) by {
            if repeats(inputs, i, rules.by_id) {
                let j = choose|j: int|
                    0 <= j < i && (#[trigger] inputs[j]).id == inputs[i].id && (rules.by_id
                        || inputs[j].generation == inputs[i].generation);
                assert(inputs[j].id != inputs[i].id);
            }
        }
        lemma_spendable(
            cells,
            inputs,
            owner,
            rules,
            i + 1,
            total + cells[inputs[i].id].value as nat,
        );
    }
}

/// What taking the first `n` inputs out leaves, and its value.
proof fn lemma_without(cells: Map<u64, Cell>, inputs: Seq<InputRef>, n: int)
    requires
        cells.dom().finite(),
        0 <= n <= inputs.len(),
        distinct_ids(inputs),
        forall|k: int| 0 <= k < inputs.len() ==> cells.contains_key((#[trigger] inputs[k]).id),
    ensures
        without_inputs(cells, inputs, n).dom().finite(),
        forall|id: u64| #[trigger]
            without_inputs(cells, inputs, n).contains_key(id) ==> cells.contains_key(id),
        forall|k: int|
            0 <= k < n ==> !without_inputs(cells, inputs, n).contains_key(
                (#[trigger] inputs[k]).id,
            ),
        forall|k: int|
            n <= k < inputs.len() ==> without_inputs(cells, inputs, n).contains_key(
                (#[trigger] inputs[k]).id,
            ) && without_inputs(cells, inputs, n)[inputs[k].id] == cells[inputs[k].id],
        active_value(without_inputs(cells, inputs, n)) + inputs_value(cells, inputs, 0)
            == active_value(cells) + inputs_value(cells, inputs, n),
    decreases n,
{
    if n > 0 {
        lemma_without(cells, inputs, n - 1);
        let before = without_inputs(cells, inputs, n - 1);
        ordmap::lemma_weight_remove(before, value_of(), inputs[n - 1].id);
    }
}

/// A spend that the core makes keeps the value of all active cells.
pub proof fn law_spend_keeps_value(cells: Map<u64, Cell>, tx: SpendModel, by_id: bool)
    requires
        cells.dom().finite(),
        core_verdict(cells, tx, by_id) is Ok,
    ensures
        active_value(spent(cells, tx)) == active_value(cells),
        spent(cells, tx).dom().finite(),
{
    let rules = InputRules { by_id, core: true };
    lemma_inputs(cells, tx.inputs, None, rules, 0, 0);
    lemma_distinct(cells, tx.inputs, None, rules);
    lemma_without(cells, tx.inputs, tx.inputs.len() as int);
    ordmap::lemma_weight_insert(
        without_inputs(cells, tx.inputs, tx.inputs.len() as int),
        value_of(),
        tx.output_id,
        output_cell_of(tx),
    );
}

/// A spent cell cannot be spent again: after a spend, no spend that has one of
/// its inputs is made.
pub proof fn law_no_second_spend(
    cells: Map<u64, Cell>,
    tx: SpendModel,
    by_id: bool,
    other: SpendModel,
    k: int,
    j: int,
)
    requires
        cells.dom().finite(),
        core_verdict(cells, tx, by_id) is Ok,
        0 <= k < tx.inputs.len(),
        0 <= j < other.inputs.len(),
        other.inputs[j].id == tx.inputs[k].id,
    ensures
        core_verdict(spent(cells, tx), other, by_id) is Err,
{
    let rules = InputRules { by_id, core: true };
    lemma_inputs(cells, tx.inputs, None, rules, 0, 0);
    lemma_distinct(cells, tx.inputs, None, rules);
    lemma_without(cells, tx.inputs, tx.inputs.len() as int);
    if core_verdict(spent(cells, tx), other, by_id) is Ok {
        lemma_inputs(spent(cells, tx), other.inputs, None, rules, 0, 0);
        assert(spent(cells, tx).contains_key(other.inputs[j].id));
        assert(cells.contains_key(tx.inputs[k].id));
    }
}

/// The core makes a certified spend if and only if it has from one to the bound
/// of inputs, the inputs are spendable, the output is new and the spend keeps
/// their value.
pub proof fn law_core_verdict(cells: Map<u64, Cell>, tx: SpendModel, by_id: bool)
    ensures
        core_verdict(cells, tx, by_id) is Ok <==> {
            &&& 0 < tx.inputs.len() <= MAX_INPUTS
            &&& !cells.contains_key(tx.output_id)
            &&& spendable(cells, tx.inputs, None)
            &&& inputs_value(cells, tx.inputs, 0) == tx.output_value
        },
{
    let rules = InputRules { by_id, core: true };
    if core_verdict(cells, tx, by_id) is Ok {
        lemma_inputs(cells, tx.inputs, None, rules, 0, 0);
        lemma_distinct(cells, tx.inputs, None, rules);
    }
    if spendable(cells, tx.inputs, None) && inputs_value(cells, tx.inputs, 0)
        == tx.output_value {
        lemma_spendable(cells, tx.inputs, None, rules, 0, 0);
    }
}

/// The owner of spendable inputs can spend them: what they sign is accepted, as
/// far as verification accepts what signing makes.
pub proof fn law_owner_can_spend(
    user_domain: Seq<char>,
    commitment_domain: Seq<char>,
    by_id: bool,
    tx: SpendModel,
    seed: [u8; 32],
    cells: Map<u64, Cell>,
)
    requires
        tx.network_id == NETWORK_ID,
        0 < tx.inputs.len() <= MAX_INPUTS,
        crypto::signs_well(seed, user_message(user_domain, tx)),
        spendable(cells, tx.inputs, Some(crypto::public_key(seed))),
        inputs_value(cells, tx.inputs, 0) == tx.output_value,
    ensures
        verified_spend(
            user_domain,
            commitment_domain,
            by_id,
            tx,
            authorization(user_domain, tx, seed),
            cells,
        ) == Ok::<VerifiedSpend, Seq<char>>(
            VerifiedSpend {
                tx_digest: commitment(commitment_domain, user_domain, tx, crypto::public_key(seed)),
                user_signer: crypto::public_key(seed),
            },
        ),
{
    lemma_spendable(
        cells,
        tx.inputs,
        Some(crypto::public_key(seed)),
        InputRules { by_id, core: false },
        0,
        0,
    );
}

/// An accepted authorization is the owner's: every input is active, in the stated
/// generation, and belongs to the signer; and the spend keeps their value.
pub proof fn law_authorization_is_the_owners(
    user_domain: Seq<char>,
    commitment_domain: Seq<char>,
    by_id: bool,
    tx: SpendModel,
    auth: UserAuthorization,
    cells: Map<u64, Cell>,
)
    requires
        verified_spend(user_domain, commitment_domain, by_id, tx, auth, cells) is Ok,
    ensures
        forall|k: int|
            0 <= k < tx.inputs.len() ==> cells.contains_key((#[trigger] tx.inputs[k]).id)
                && cells[tx.inputs[k].id].owner == auth.signer
                && cells[tx.inputs[k].id].generation == tx.inputs[k].generation,
        distinct_ids(tx.inputs),
        inputs_value(cells, tx.inputs, 0) == tx.output_value,
        crypto::ed25519_strictly_verifies(
            auth.signer@,
            user_message(user_domain, tx),
            auth.signature@,
        ),
{
    let rules = InputRules { by_id, core: false };
    lemma_inputs(cells, tx.inputs, Some(auth.signer), rules, 0, 0);
    lemma_distinct(cells, tx.inputs, Some(auth.signer), rules);
}

// ---------------------------------------------------------------------------
// Fixtures.
// ---------------------------------------------------------------------------

/// The fixture cells of an owner.
pub open spec fn fixture_cells_of(owner: PublicKeyBytes, n: int) -> Map<u64, Cell>
    decreases n,
{
    if n <= 0 {
        Map::empty()
    } else {
        fixture_cells_of(owner, n - 1).insert(
            (1000 + n - 1) as u64,
            Cell { id: (1000 + n - 1) as u64, value: CELL_VALUE, generation: 7, owner },
        )
    }
}

pub fn alice_cells(alice: PublicKeyBytes) -> (r: HashMap<u64, Cell>)
    ensures
        r@ == fixture_cells_of(alice, MAX_INPUTS as int),
{
    let mut cells: HashMap<u64, Cell> = HashMap::new();
    let mut i: usize = 0;
    while i < MAX_INPUTS
        invariant
            i <= MAX_INPUTS,
            cells@ == fixture_cells_of(alice, i as int),
        decreases MAX_INPUTS - i,
    {
        let id: u64 = 1000 + i as u64;
        cells.insert(id, Cell { id, value: CELL_VALUE, generation: 7, owner: alice });
        i = i + 1;
    }
    cells
}

/// The spend of all fixture cells to a recipient.
pub open spec fn fixture_spend(recipient: PublicKeyBytes, tx_id: u64, output_id: u64)
    -> SpendModel {
    SpendModel {
        network_id: NETWORK_ID,
        tx_id,
        inputs: Seq::new(
            MAX_INPUTS as nat,
            |i: int| InputRef { id: (1000 + i) as u64, generation: 7 },
        ),
        output_id,
        recipient,
        output_value: 800,
        expiry: 2_000_000_000,
    }
}

pub fn spend_to(recipient: PublicKeyBytes, tx_id: u64, output_id: u64) -> (r: SpendTx)
    ensures
        r@ == fixture_spend(recipient, tx_id, output_id),
{
    let mut inputs: Vec<InputRef> = Vec::new();
    let mut i: usize = 0;
    while i < MAX_INPUTS
        invariant
            i <= MAX_INPUTS,
            inputs@ == Seq::new(
                i as nat,
                |j: int| InputRef { id: (1000 + j) as u64, generation: 7 },
            ),
        decreases MAX_INPUTS - i,
    {
        inputs.push(InputRef { id: 1000 + i as u64, generation: 7 });
        i = i + 1;
        assert(inputs@ =~= Seq::new(
            i as nat,
            |j: int| InputRef { id: (1000 + j) as u64, generation: 7 },
        ));
    }
    SpendTx {
        network_id: NETWORK_ID,
        tx_id,
        inputs,
        output_id,
        recipient,
        output_value: CELL_VALUE * MAX_INPUTS as u64,
        expiry: 2_000_000_000,
    }
}

/// A spend is authorized exactly if it is of this network, has one to eight inputs with
/// different identifiers, each is active in the stated generation and belongs to the signer,
/// the signer's key and signature hold, and the output has the value of the inputs. What is
/// verified is then the commitment to the spend and its signer.
pub proof fn law_spend_is_authorized_if(
    user_domain: Seq<char>,
    commitment_domain: Seq<char>,
    by_id: bool,
    tx: SpendModel,
    auth: UserAuthorization,
    cells: Map<u64, Cell>,
)
    ensures
        ({
            let r = verified_spend(user_domain, commitment_domain, by_id, tx, auth, cells);
            &&& r is Ok <==> {
                &&& tx.network_id == 1
                &&& 1 <= tx.inputs.len() <= 8
                &&& crypto::ed25519_key_decodes(auth.signer@)
                &&& crypto::ed25519_strictly_verifies(
                    auth.signer@,
                    user_message(user_domain, tx),
                    auth.signature@,
                )
                &&& forall|i: int, j: int|
                    0 <= i < j < tx.inputs.len() ==> (#[trigger] tx.inputs[i]).id != (
                    #[trigger] tx.inputs[j]).id
                &&& forall|k: int|
                    0 <= k < tx.inputs.len() ==> {
                        &&& cells.contains_key((#[trigger] tx.inputs[k]).id)
                        &&& cells[tx.inputs[k].id].generation == tx.inputs[k].generation
                        &&& cells[tx.inputs[k].id].owner == auth.signer
                    }
                &&& inputs_value(cells, tx.inputs, 0) == tx.output_value
            }
            &&& r matches Ok(v) ==> v.user_signer == auth.signer && v.tx_digest == commitment(
                commitment_domain,
                user_domain,
                tx,
                auth.signer,
            )
        }),
{
    let rules = InputRules { by_id, core: false };
    let owner = Some(auth.signer);
    if inputs_result(cells, tx.inputs, owner, rules, 0, 0) is Ok {
        lemma_inputs(cells, tx.inputs, owner, rules, 0, 0);
        lemma_distinct(cells, tx.inputs, owner, rules);
    }
    if spendable(cells, tx.inputs, owner) && inputs_value(cells, tx.inputs, 0)
        == tx.output_value {
        lemma_spendable(cells, tx.inputs, owner, rules, 0, 0);
    }
}

proof fn lemma_without_inputs(cells: Map<u64, Cell>, inputs: Seq<InputRef>, n: int, id: u64)
    requires
        0 <= n <= inputs.len(),
    ensures
        without_inputs(cells, inputs, n).contains_key(id) <==> cells.contains_key(id) && forall|
            k: int,
        |
            0 <= k < n ==> (#[trigger] inputs[k]).id != id,
        without_inputs(cells, inputs, n).contains_key(id) ==> without_inputs(cells, inputs, n)[id]
            == cells[id],
    decreases n,
{
    if n > 0 {
        lemma_without_inputs(cells, inputs, n - 1, id);
        let m = n - 1;
        if cells.contains_key(id) && (forall|k: int| 0 <= k < m ==> (#[trigger] inputs[k]).id != id)
            && inputs[m].id != id {
            assert(forall|k: int| 0 <= k < n ==> (#[trigger] inputs[k]).id != id);
        }
    }
}

/// What a spend does to the active cells: its inputs go, its output comes, in generation 0,
/// with the value of the spend and for its recipient, and every other cell stays as it is.
pub proof fn law_spend_moves_cells(cells: Map<u64, Cell>, tx: SpendModel, id: u64)
    ensures
        ({
            let after = spent(cells, tx);
            &&& after.contains_key(tx.output_id)
            &&& after[tx.output_id].id == tx.output_id
            &&& after[tx.output_id].value == tx.output_value
            &&& after[tx.output_id].owner == tx.recipient
            &&& after[tx.output_id].generation == 0
            &&& id != tx.output_id ==> {
                &&& after.contains_key(id) <==> cells.contains_key(id) && forall|k: int|
                    0 <= k < tx.inputs.len() ==> (#[trigger] tx.inputs[k]).id != id
                &&& after.contains_key(id) ==> after[id] == cells[id]
            }
        }),
{
    lemma_without_inputs(cells, tx.inputs, tx.inputs.len() as int, id);
}

proof fn lemma_fixture_cells(owner: PublicKeyBytes, n: int)
    requires
        0 <= n <= 8,
    ensures
        forall|id: u64| #[trigger]
            fixture_cells_of(owner, n).contains_key(id) <==> 1000 <= id < 1000 + n,
        forall|id: u64|
            1000 <= id < 1000 + n ==> #[trigger] fixture_cells_of(owner, n)[id] == (Cell {
                id,
                value: 100,
                generation: 7,
                owner,
            }),
    decreases n,
{
    if n > 0 {
        lemma_fixture_cells(owner, n - 1);
        let before = fixture_cells_of(owner, n - 1);
        let after = fixture_cells_of(owner, n);
        assert forall|id: u64| #[trigger] after.contains_key(id) <==> 1000 <= id < 1000 + n by {
            assert(before.contains_key(id) <==> 1000 <= id < 1000 + (n - 1));
        }
        assert forall|id: u64| 1000 <= id < 1000 + n implies #[trigger] after[id] == (Cell {
            id,
            value: 100,
            generation: 7,
            owner,
        }) by {
            if id < 1000 + (n - 1) {
                assert(before[id].id == id);
            }
        }
    }
}

proof fn lemma_even_inputs(cells: Map<u64, Cell>, inputs: Seq<InputRef>, i: int)
    requires
        0 <= i <= inputs.len(),
        forall|k: int| 0 <= k < inputs.len() ==> cells[(#[trigger] inputs[k]).id].value == 100,
    ensures
        inputs_value(cells, inputs, i) == 100 * (inputs.len() - i),
    decreases inputs.len() - i,
{
    if i < inputs.len() {
        lemma_even_inputs(cells, inputs, i + 1);
        assert(cells[inputs[i].id].value == 100);
    }
}

/// The fixture: eight cells of the owner's, worth a hundred each, and a spend of all of them
/// that the core makes, unless its output has the identifier of one of them.
pub proof fn law_fixture_spend_is_made(
    owner: PublicKeyBytes,
    recipient: PublicKeyBytes,
    tx_id: u64,
    output_id: u64,
    by_id: bool,
)
    ensures
        ({
            let cells = fixture_cells_of(owner, MAX_INPUTS as int);
            let tx = fixture_spend(recipient, tx_id, output_id);
            &&& core_verdict(cells, tx, by_id) is Ok <==> !(1000 <= output_id < 1008)
            &&& tx.inputs.len() == 8
            &&& tx.output_value == 800
            &&& tx.recipient == recipient
            &&& forall|id: u64| #[trigger]
                cells.contains_key(id) ==> cells[id].owner == owner && cells[id].value == 100
                    && cells[id].id == id
        }),
{
    let cells = fixture_cells_of(owner, MAX_INPUTS as int);
    let tx = fixture_spend(recipient, tx_id, output_id);
    lemma_fixture_cells(owner, 8);
    lemma_even_inputs(cells, tx.inputs, 0);
    law_core_verdict(cells, tx, by_id);
    assert(spendable(cells, tx.inputs, None));
}

} // verus!
