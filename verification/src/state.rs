//! The monetary state: live and spent cells, and what has been applied.
use crate::bytes;
use crate::bytes::{put_digest, put_u16, put_u32, put_u64};
use crate::crypto;
use crate::crypto::hash_domain;
use crate::model;
use crate::model::{
    conflict_key, intent_hash, materialize_outputs, put_ref, qc_digest, validate_cell,
    verify_qc, verify_user_auth, ApplyOutcome, ApplyReceipt, Cell, CellRef, CommitteeManifest,
    Digest, ManifestModel, OutcomeModel, Qc, ReceiptModel, State, StateModel, Statement, Tx,
    TxModel, UserAuth, Verdict, Vote, PHASE_PRECOMMIT, PHASE_PREVOTE, PROTOCOL_VERSION,
};
use crate::ordmap;
use crate::ordmap::{OrdKey, OrdSet, Ordered};
use crate::text;
use crate::text::text;
use vstd::prelude::*;

verus! {

// ---------------------------------------------------------------------------
// Genesis.
// ---------------------------------------------------------------------------

/// The state with the cells from number `i` on added, or why they do not fit.
pub open spec fn with_genesis(cells: Seq<Cell>, i: int, s: StateModel) -> Result<
    StateModel,
    Seq<char>,
>
    decreases cells.len() - i,
{
    if i < 0 || i >= cells.len() {
        Ok(s)
    } else {
        match model::cell_verdict(cells[i]) {
            Err(e) => Err(e),
            Ok(_) => if s.live.contains_key(cells[i].reference) {
                Err("duplicate genesis cell reference"@)
            } else if s.known_ids.contains(cells[i].reference.id) {
                Err("duplicate genesis cell id"@)
            } else {
                with_genesis(
                    cells,
                    i + 1,
                    StateModel {
                        live: s.live.insert(cells[i].reference, cells[i]),
                        spent_by: s.spent_by,
                        known_ids: s.known_ids.insert(cells[i].reference.id),
                        applied: s.applied,
                    },
                )
            },
        }
    }
}

/// The genesis state of a list of cells, or why there is none.
pub open spec fn genesis_result(cells: Seq<Cell>) -> Result<StateModel, Seq<char>> {
    with_genesis(cells, 0, model::empty_state())
}

// ---------------------------------------------------------------------------
// Consistency.
// ---------------------------------------------------------------------------

/// The verdict on the live entries from number `i` on.
pub open spec fn live_verdict(s: StateModel, i: int) -> Verdict
    decreases ordmap::listed(s.live).len() - i,
{
    let entries = ordmap::listed(s.live);
    if i < 0 || i >= entries.len() {
        Ok(())
    } else if entries[i].0 != entries[i].1.reference {
        Err("live-state key/reference mismatch"@)
    } else {
        match model::cell_verdict(entries[i].1) {
            Err(e) => Err(e),
            Ok(_) => if !s.known_ids.contains(entries[i].0.id) {
                Err("live cell is absent from known-id set"@)
            } else if s.spent_by.contains_key(entries[i].0) {
                Err("cell is both live and spent"@)
            } else {
                live_verdict(s, i + 1)
            },
        }
    }
}

/// The verdict on the spent entries from number `i` on.
pub open spec fn spent_verdict(s: StateModel, i: int) -> Verdict
    decreases ordmap::listed(s.spent_by).len() - i,
{
    let entries = ordmap::listed(s.spent_by);
    if i < 0 || i >= entries.len() {
        Ok(())
    } else if !s.known_ids.contains(entries[i].0.id) {
        Err("spent cell is absent from known-id set"@)
    } else if s.live.contains_key(entries[i].0) {
        Err("spent cell remains live"@)
    } else {
        spent_verdict(s, i + 1)
    }
}

/// The verdict on the receipts from number `i` on.
pub open spec fn receipts_verdict(s: StateModel, i: int) -> Verdict
    decreases ordmap::listed(s.applied).len() - i,
{
    let entries = ordmap::listed(s.applied);
    if i < 0 || i >= entries.len() {
        Ok(())
    } else if entries[i].0 != entries[i].1.intent {
        Err("applied receipt key mismatch"@)
    } else if entries[i].1.output_refs.len() == 0 {
        Err("applied receipt has no output refs"@)
    } else {
        receipts_verdict(s, i + 1)
    }
}

/// The verdict on a state.
pub open spec fn state_verdict(s: StateModel) -> Verdict {
    match live_verdict(s, 0) {
        Err(e) => Err(e),
        Ok(_) => match spent_verdict(s, 0) {
            Err(e) => Err(e),
            Ok(_) => receipts_verdict(s, 0),
        },
    }
}

/// The parts of a state are finite.
pub open spec fn state_finite(s: StateModel) -> bool {
    s.live.dom().finite() && s.spent_by.dom().finite() && s.known_ids.finite()
        && s.applied.dom().finite()
}

/// A consistent state: every live cell is valid, stands under its own
/// reference, is known and is not spent; every spent reference is known; every
/// receipt stands under its intent and names an output.
pub open spec fn state_valid(s: StateModel) -> bool {
    &&& forall|r: CellRef| #[trigger]
        s.live.contains_key(r) ==> s.live[r].reference == r && model::cell_verdict(s.live[r]) is Ok
            && s.known_ids.contains(r.id) && !s.spent_by.contains_key(r)
    &&& forall|r: CellRef| #[trigger] s.spent_by.contains_key(r) ==> s.known_ids.contains(r.id)
    &&& forall|d: Digest| #[trigger]
        s.applied.contains_key(d) ==> s.applied[d].intent == d && s.applied[d].output_refs.len()
            > 0
}

proof fn lemma_live_verdict(s: StateModel, i: int)
    requires
        0 <= i <= ordmap::listed(s.live).len(),
    ensures
        live_verdict(s, i) is Ok <==> forall|k: int|
            i <= k < ordmap::listed(s.live).len() ==> {
                let e = #[trigger] ordmap::listed(s.live)[k];
                e.0 == e.1.reference && model::cell_verdict(e.1) is Ok && s.known_ids.contains(e.0.id)
                    && !s.spent_by.contains_key(e.0)
            },
    decreases ordmap::listed(s.live).len() - i,
{
    if i < ordmap::listed(s.live).len() {
        lemma_live_verdict(s, i + 1);
    }
}

proof fn lemma_spent_verdict(s: StateModel, i: int)
    requires
        0 <= i <= ordmap::listed(s.spent_by).len(),
    ensures
        spent_verdict(s, i) is Ok <==> forall|k: int|
            i <= k < ordmap::listed(s.spent_by).len() ==> {
                let e = #[trigger] ordmap::listed(s.spent_by)[k];
                s.known_ids.contains(e.0.id) && !s.live.contains_key(e.0)
            },
    decreases ordmap::listed(s.spent_by).len() - i,
{
    if i < ordmap::listed(s.spent_by).len() {
        lemma_spent_verdict(s, i + 1);
    }
}

proof fn lemma_receipts_verdict(s: StateModel, i: int)
    requires
        0 <= i <= ordmap::listed(s.applied).len(),
    ensures
        receipts_verdict(s, i) is Ok <==> forall|k: int|
            i <= k < ordmap::listed(s.applied).len() ==> {
                let e = #[trigger] ordmap::listed(s.applied)[k];
                e.0 == e.1.intent && e.1.output_refs.len() > 0
            },
    decreases ordmap::listed(s.applied).len() - i,
{
    if i < ordmap::listed(s.applied).len() {
        lemma_receipts_verdict(s, i + 1);
    }
}

/// A key of a finite map occurs in its listing, and the entries of the listing
/// are those of the map.
pub proof fn lemma_entries<K: Ordered, V>(m: Map<K, V>)
    requires
        m.dom().finite(),
    ensures
        forall|k: K| #[trigger]
            m.contains_key(k) ==> exists|i: int|
                0 <= i < ordmap::listed(m).len() && #[trigger] ordmap::listed(m)[i] == (k, m[k]),
        forall|i: int|
            0 <= i < ordmap::listed(m).len() ==> m.contains_key((#[trigger] ordmap::listed(m)[i]).0)
                && m[ordmap::listed(m)[i].0] == ordmap::listed(m)[i].1,
{
    ordmap::lemma_listed_finite(m);
    let s = ordmap::listed(m);
    assert forall|k: K| #[trigger] m.contains_key(k) implies exists|i: int|
        0 <= i < ordmap::listed(m).len() && #[trigger] ordmap::listed(m)[i] == (k, m[k]) by {
        assert(ordmap::has_entry(s, k));
        let i = ordmap::entry_index(s, k);
        ordmap::lemma_ascending_index(s, i);
        assert(s[i] == (k, m[k]));
    }
    assert forall|i: int| 0 <= i < s.len() implies m.contains_key((#[trigger] s[i]).0)
        && m[s[i].0] == s[i].1 by {
        ordmap::lemma_ascending_index(s, i);
    }
}

/// A state is accepted exactly if it is consistent.
pub proof fn law_state_verdict(s: StateModel)
    requires
        state_finite(s),
    ensures
        state_verdict(s) is Ok <==> state_valid(s),
{
    lemma_live_verdict(s, 0);
    lemma_spent_verdict(s, 0);
    lemma_receipts_verdict(s, 0);
    lemma_entries(s.live);
    lemma_entries(s.spent_by);
    lemma_entries(s.applied);
    if state_verdict(s) is Ok {
        assert(state_valid(s));
    }
    if state_valid(s) {
        assert forall|k: int| 0 <= k < ordmap::listed(s.spent_by).len() implies {
            let e = #[trigger] ordmap::listed(s.spent_by)[k];
            s.known_ids.contains(e.0.id) && !s.live.contains_key(e.0)
        } by {
            assert(s.spent_by.contains_key(ordmap::listed(s.spent_by)[k].0));
        }
        assert(state_verdict(s) is Ok);
    }
}

// ---------------------------------------------------------------------------
// Value.
// ---------------------------------------------------------------------------

/// The amount of a cell.
pub open spec fn amount_of() -> spec_fn(Cell) -> nat {
    |c: Cell| c.amount as nat
}

/// The value of all live cells.
pub open spec fn live_total(live: Map<CellRef, Cell>) -> nat {
    ordmap::weight(live, amount_of())
}

// ---------------------------------------------------------------------------
// Root.
// ---------------------------------------------------------------------------

/// How a live cell enters the state root.
pub open spec fn live_bytes() -> spec_fn((CellRef, Cell)) -> Seq<u8> {
    |e: (CellRef, Cell)|
        model::ref_bytes(e.0) + bytes::le64(e.1.amount) + e.1.owner@ + e.1.predecessor@ + e.1.state_digest@
}

/// How a spent reference enters the state root.
pub open spec fn spent_bytes() -> spec_fn((CellRef, Digest)) -> Seq<u8> {
    |e: (CellRef, Digest)| model::ref_bytes(e.0) + e.1@
}

/// How a known identifier enters the state root.
pub open spec fn id_bytes() -> spec_fn(Digest) -> Seq<u8> {
    |d: Digest| d@
}

/// How an output reference of a receipt enters the state root.
pub open spec fn output_ref_bytes() -> spec_fn(CellRef) -> Seq<u8> {
    |r: CellRef| model::ref_bytes(r)
}

/// How a receipt enters the state root.
pub open spec fn receipt_bytes() -> spec_fn((Digest, ReceiptModel)) -> Seq<u8> {
    |e: (Digest, ReceiptModel)|
        e.0@ + e.1.certificate_digest@ + bytes::le32(e.1.output_refs.len() as u32) + bytes::flat(
            e.1.output_refs,
            output_ref_bytes(),
        )
}

/// What is hashed of a state.
pub open spec fn root_bytes(s: StateModel) -> Seq<u8> {
    bytes::le16(PROTOCOL_VERSION) + bytes::le32(ordmap::listed(s.live).len() as u32) + bytes::flat(ordmap::listed(s.live), live_bytes())
        + bytes::le32(ordmap::listed(s.spent_by).len() as u32) + bytes::flat(ordmap::listed(s.spent_by), spent_bytes()) + bytes::le32(
        ordmap::members(s.known_ids).len() as u32,
    ) + bytes::flat(ordmap::members(s.known_ids), id_bytes()) + bytes::le32(ordmap::listed(s.applied).len() as u32) + bytes::flat(
        ordmap::listed(s.applied),
        receipt_bytes(),
    )
}

/// The root of a state. It is a function of what the state holds, so the order
/// in which cells came into the state has no part in it.
pub open spec fn root_digest(s: StateModel) -> Digest {
    crypto::digest("CALIBRE_INTEGRATION001_STATE_ROOT_V1"@, root_bytes(s))
}

fn count_u32(n: usize) -> (r: u32)
    ensures
        r == n as u32,
{
    #[verifier::truncate]
    (n as u32)
}

fn put_live(bytes: &mut Vec<u8>, state: &State)
    ensures
        final(bytes)@ == old(bytes)@ + (bytes::le32(ordmap::listed(state.live@).len() as u32) + bytes::flat(
            ordmap::listed(state.live@),
            live_bytes(),
        )),
        state.live@.dom().finite(),
{
    let count: usize = state.live.len();
    put_u32(bytes, count_u32(count));
    let ghost head = bytes@;
    let ghost entries = ordmap::listed(state.live@);
    let mut i: usize = 0;
    proof {
        bytes::lemma_flat_ends(entries, live_bytes());
        assert(head + Seq::<u8>::empty() =~= head);
    }
    while i < count
        invariant
            i <= count,
            count == entries.len(),
            entries == ordmap::listed(state.live@),
            bytes@ == head + bytes::flat(entries.subrange(0, i as int), live_bytes()),
        decreases count - i,
    {
        let reference: CellRef = state.live.key_at(i);
        let cell: Cell = *state.live.value_at(i);
        put_ref(bytes, &reference);
        put_u64(bytes, cell.amount);
        put_digest(bytes, &cell.owner);
        put_digest(bytes, &cell.predecessor);
        put_digest(bytes, &cell.state_digest);
        proof {
            bytes::lemma_flat_step(entries, live_bytes(), i as int);
            assert(bytes@ =~= head + (bytes::flat(entries.subrange(0, i as int), live_bytes()) + (
            model::ref_bytes(reference) + bytes::le64(cell.amount) + cell.owner@ + cell.predecessor@
                + cell.state_digest@)));
        }
        i = i + 1;
    }
    proof {
        bytes::lemma_flat_ends(entries, live_bytes());
        assert(bytes@ =~= old(bytes)@ + (bytes::le32(entries.len() as u32) + bytes::flat(entries, live_bytes())));
    }
}

fn put_spent(bytes: &mut Vec<u8>, state: &State)
    ensures
        final(bytes)@ == old(bytes)@ + (bytes::le32(ordmap::listed(state.spent_by@).len() as u32) + bytes::flat(
            ordmap::listed(state.spent_by@),
            spent_bytes(),
        )),
        state.spent_by@.dom().finite(),
{
    let count: usize = state.spent_by.len();
    put_u32(bytes, count_u32(count));
    let ghost head = bytes@;
    let ghost entries = ordmap::listed(state.spent_by@);
    let mut i: usize = 0;
    proof {
        bytes::lemma_flat_ends(entries, spent_bytes());
        assert(head + Seq::<u8>::empty() =~= head);
    }
    while i < count
        invariant
            i <= count,
            count == entries.len(),
            entries == ordmap::listed(state.spent_by@),
            bytes@ == head + bytes::flat(entries.subrange(0, i as int), spent_bytes()),
        decreases count - i,
    {
        let reference: CellRef = state.spent_by.key_at(i);
        let intent: Digest = *state.spent_by.value_at(i);
        put_ref(bytes, &reference);
        put_digest(bytes, &intent);
        proof {
            bytes::lemma_flat_step(entries, spent_bytes(), i as int);
            assert(bytes@ =~= head + (bytes::flat(entries.subrange(0, i as int), spent_bytes()) + (
            model::ref_bytes(reference) + intent@)));
        }
        i = i + 1;
    }
    proof {
        bytes::lemma_flat_ends(entries, spent_bytes());
        assert(bytes@ =~= old(bytes)@ + (bytes::le32(entries.len() as u32) + bytes::flat(
            entries,
            spent_bytes(),
        )));
    }
}

fn put_known(bytes: &mut Vec<u8>, state: &State)
    ensures
        final(bytes)@ == old(bytes)@ + (bytes::le32(ordmap::members(state.known_ids@).len() as u32) + bytes::flat(
            ordmap::members(state.known_ids@),
            id_bytes(),
        )),
        state.known_ids@.finite(),
{
    let count: usize = state.known_ids.len();
    put_u32(bytes, count_u32(count));
    let ghost head = bytes@;
    let ghost ids = ordmap::members(state.known_ids@);
    let mut i: usize = 0;
    proof {
        bytes::lemma_flat_ends(ids, id_bytes());
        assert(head + Seq::<u8>::empty() =~= head);
    }
    while i < count
        invariant
            i <= count,
            count == ids.len(),
            ids == ordmap::members(state.known_ids@),
            bytes@ == head + bytes::flat(ids.subrange(0, i as int), id_bytes()),
        decreases count - i,
    {
        let id: Digest = state.known_ids.at(i);
        put_digest(bytes, &id);
        proof {
            bytes::lemma_flat_step(ids, id_bytes(), i as int);
            assert(bytes@ =~= head + (bytes::flat(ids.subrange(0, i as int), id_bytes()) + id@));
        }
        i = i + 1;
    }
    proof {
        bytes::lemma_flat_ends(ids, id_bytes());
        assert(bytes@ =~= old(bytes)@ + (bytes::le32(ids.len() as u32) + bytes::flat(ids, id_bytes())));
    }
}

fn put_receipt(bytes: &mut Vec<u8>, intent: &Digest, receipt: &ApplyReceipt)
    ensures
        final(bytes)@ == old(bytes)@ + receipt_bytes()((*intent, receipt@)),
{
    put_digest(bytes, intent);
    put_digest(bytes, &receipt.certificate_digest);
    put_u32(bytes, count_u32(receipt.output_refs.len()));
    let ghost head = bytes@;
    let ghost refs = receipt.output_refs@;
    let mut i: usize = 0;
    proof {
        bytes::lemma_flat_ends(refs, output_ref_bytes());
        assert(head + Seq::<u8>::empty() =~= head);
    }
    while i < receipt.output_refs.len()
        invariant
            i <= refs.len(),
            refs == receipt.output_refs@,
            bytes@ == head + bytes::flat(refs.subrange(0, i as int), output_ref_bytes()),
        decreases refs.len() - i,
    {
        put_ref(bytes, &receipt.output_refs[i]);
        proof {
            bytes::lemma_flat_step(refs, output_ref_bytes(), i as int);
            assert(bytes@ =~= head + (bytes::flat(refs.subrange(0, i as int), output_ref_bytes())
                + model::ref_bytes(refs[i as int])));
        }
        i = i + 1;
    }
    proof {
        bytes::lemma_flat_ends(refs, output_ref_bytes());
        assert(bytes@ =~= old(bytes)@ + receipt_bytes()((*intent, receipt@)));
    }
}

fn put_applied(bytes: &mut Vec<u8>, state: &State)
    ensures
        final(bytes)@ == old(bytes)@ + (bytes::le32(ordmap::listed(state.applied@).len() as u32) + bytes::flat(
            ordmap::listed(state.applied@),
            receipt_bytes(),
        )),
        state.applied@.dom().finite(),
{
    let count: usize = state.applied.len();
    put_u32(bytes, count_u32(count));
    let ghost head = bytes@;
    let ghost entries = ordmap::listed(state.applied@);
    let mut i: usize = 0;
    proof {
        bytes::lemma_flat_ends(entries, receipt_bytes());
        assert(head + Seq::<u8>::empty() =~= head);
    }
    while i < count
        invariant
            i <= count,
            count == entries.len(),
            entries == ordmap::listed(state.applied@),
            bytes@ == head + bytes::flat(entries.subrange(0, i as int), receipt_bytes()),
        decreases count - i,
    {
        let intent: Digest = state.applied.key_at(i);
        let receipt: &ApplyReceipt = state.applied.value_at(i);
        put_receipt(bytes, &intent, receipt);
        proof {
            bytes::lemma_flat_step(entries, receipt_bytes(), i as int);
            assert(entries[i as int] == (intent, receipt@));
            assert(bytes@ =~= head + (bytes::flat(entries.subrange(0, i as int), receipt_bytes())
                + receipt_bytes()(entries[i as int])));
        }
        i = i + 1;
    }
    proof {
        bytes::lemma_flat_ends(entries, receipt_bytes());
        assert(bytes@ =~= old(bytes)@ + (bytes::le32(entries.len() as u32) + bytes::flat(
            entries,
            receipt_bytes(),
        )));
    }
}

pub fn state_root(state: &State) -> (d: Digest)
    ensures
        d == root_digest(state@),
        state_finite(state@),
{
    let mut bytes: Vec<u8> = Vec::new();
    put_u16(&mut bytes, PROTOCOL_VERSION);
    put_live(&mut bytes, state);
    put_spent(&mut bytes, state);
    put_known(&mut bytes, state);
    put_applied(&mut bytes, state);
    assert(bytes@ =~= root_bytes(state@));
    hash_domain("CALIBRE_INTEGRATION001_STATE_ROOT_V1", &bytes)
}

// ---------------------------------------------------------------------------
// Finalized transfers.
// ---------------------------------------------------------------------------

/// Whether the reference of the cell number `i` occurs before it.
pub open spec fn repeated_ref(cells: Seq<Cell>, i: int) -> bool {
    exists|j: int| 0 <= j < i && (#[trigger] cells[j]).reference == cells[i].reference
}

/// The verdict on new cells from number `i` on.
pub open spec fn fit_verdict(cells: Seq<Cell>, known: Set<Digest>, i: int) -> Verdict
    decreases cells.len() - i,
{
    if i < 0 || i >= cells.len() {
        Ok(())
    } else {
        match model::cell_verdict(cells[i]) {
            Err(e) => Err(e),
            Ok(_) => if repeated_ref(cells, i) {
                Err("duplicate output reference"@)
            } else if known.contains(cells[i].reference.id) {
                Err("output id collides with prior state"@)
            } else {
                fit_verdict(cells, known, i + 1)
            },
        }
    }
}

/// The prevote statement for an intent, in the round of the first vote.
pub open spec fn prevote_statement(tx: TxModel, prevote: Seq<Vote>) -> Statement {
    Statement {
        phase: PHASE_PREVOTE,
        round: prevote[0].round,
        conflict: model::conflict_digest(tx.input.reference),
        intent: model::intent_digest(tx),
        justify: None,
    }
}

/// The precommit statement that follows a prevote certificate.
pub open spec fn precommit_statement(tx: TxModel, prevote: Seq<Vote>) -> Statement {
    Statement {
        phase: PHASE_PRECOMMIT,
        round: prevote[0].round,
        conflict: model::conflict_digest(tx.input.reference),
        intent: model::intent_digest(tx),
        justify: Some(model::qc_hash(prevote)),
    }
}

/// The verdict on the two certificates of a transfer.
pub open spec fn chain_verdict(
    tx: TxModel,
    prevote: Seq<Vote>,
    precommit: Seq<Vote>,
    m: ManifestModel,
) -> Verdict {
    match model::intent_result(tx) {
        Err(e) => Err(e),
        Ok(_) => if prevote.len() == 0 {
            Err("empty prevote QC"@)
        } else {
            match model::qc_verdict(prevote, m, prevote_statement(tx, prevote)) {
                Err(e) => Err(e),
                Ok(_) => match model::qc_digest_result(prevote, m) {
                    Err(e) => Err(e),
                    Ok(_) => if precommit.len() == 0 {
                        Err("empty finality QC"@)
                    } else if precommit[0].round != prevote[0].round {
                        Err("PRECOMMIT QC round does not match PREVOTE QC"@)
                    } else {
                        model::qc_verdict(precommit, m, precommit_statement(tx, prevote))
                    },
                },
            }
        },
    }
}

/// The receipt of a transfer.
pub open spec fn receipt_of(tx: TxModel, precommit: Seq<Vote>) -> ReceiptModel {
    ReceiptModel {
        intent: model::intent_digest(tx),
        certificate_digest: model::qc_hash(precommit),
        output_refs: Seq::new(model::created_cells(tx).len(), |i: int| model::created_cells(tx)[i].reference),
    }
}

/// What applying a finalized transfer comes to.
pub open spec fn apply_result(
    s: StateModel,
    tx: TxModel,
    auth: UserAuth,
    prevote: Seq<Vote>,
    precommit: Seq<Vote>,
    m: ManifestModel,
) -> Result<OutcomeModel, Seq<char>> {
    match chain_verdict(tx, prevote, precommit, m) {
        Err(e) => Err(e),
        Ok(_) => match model::auth_verdict(tx, auth, m) {
            Err(e) => Err(e),
            Ok(_) => if s.applied.contains_key(model::intent_digest(tx)) {
                Ok(OutcomeModel::AlreadyApplied(s.applied[model::intent_digest(tx)]))
            } else if !s.live.contains_key(tx.input.reference) {
                Err("input is not live"@)
            } else if s.live[tx.input.reference] != tx.input {
                Err("transaction does not reference the exact live input state"@)
            } else {
                match model::qc_digest_result(precommit, m) {
                    Err(e) => Err(e),
                    Ok(_) => if tx.input.reference.generation == u64::MAX {
                        Err("cell generation overflow"@)
                    } else {
                        match fit_verdict(model::created_cells(tx), s.known_ids, 0) {
                            Err(e) => Err(e),
                            Ok(_) => Ok(OutcomeModel::Applied(receipt_of(tx, precommit))),
                        }
                    },
                }
            },
        },
    }
}

/// A map of cells with the first `n` cells of a list put in.
pub open spec fn cells_added(live: Map<CellRef, Cell>, cells: Seq<Cell>, n: int) -> Map<
    CellRef,
    Cell,
>
    decreases n,
{
    if n <= 0 || n > cells.len() {
        live
    } else {
        cells_added(live, cells, n - 1).insert(cells[n - 1].reference, cells[n - 1])
    }
}

/// A set of identifiers with those of the first `n` cells of a list put in.
pub open spec fn ids_added(known: Set<Digest>, cells: Seq<Cell>, n: int) -> Set<Digest>
    decreases n,
{
    if n <= 0 || n > cells.len() {
        known
    } else {
        ids_added(known, cells, n - 1).insert(cells[n - 1].reference.id)
    }
}

/// The state after a transfer: its input is spent, its cells are live, and its
/// receipt is kept.
pub open spec fn state_after(s: StateModel, tx: TxModel, receipt: ReceiptModel) -> StateModel {
    let cells = model::created_cells(tx);
    StateModel {
        live: cells_added(s.live.remove(tx.input.reference), cells, cells.len() as int),
        spent_by: s.spent_by.insert(tx.input.reference, receipt.intent),
        known_ids: ids_added(s.known_ids, cells, cells.len() as int),
        applied: s.applied.insert(receipt.intent, receipt),
    }
}

/// The state that an outcome leaves behind.
pub open spec fn state_then(
    s: StateModel,
    tx: TxModel,
    outcome: Result<OutcomeModel, Seq<char>>,
) -> StateModel {
    match outcome {
        Ok(OutcomeModel::Applied(receipt)) => state_after(s, tx, receipt),
        _ => s,
    }
}

fn check_outputs(outputs: &Vec<Cell>, known: &OrdSet<Digest>) -> (r: Result<(), String>)
    ensures
        text::shown(r) == fit_verdict(outputs@, known@, 0),
{
    let mut refs: OrdSet<CellRef> = OrdSet::new();
    let mut i: usize = 0;
    let ghost cells = outputs@;
    while i < outputs.len()
        invariant
            i <= cells.len(),
            cells == outputs@,
            fit_verdict(cells, known@, 0) == fit_verdict(cells, known@, i as int),
            forall|k: CellRef|
                refs@.contains(k) <==> exists|j: int|
                    0 <= j < i && (#[trigger] cells[j]).reference == k,
        decreases cells.len() - i,
    {
        let cell: Cell = outputs[i];
        validate_cell(&cell)?;
        let ghost before = refs@;
        if !refs.insert(cell.reference) {
            assert(repeated_ref(cells, i as int));
            return Err(text("duplicate output reference"));
        }
        if known.contains(&cell.reference.id) {
            return Err(text("output id collides with prior state"));
        }
        proof {
            assert forall|k: CellRef| refs@.contains(k) <==> exists|j: int|
                0 <= j < i + 1 && (#[trigger] cells[j]).reference == k by {
                if refs@.contains(k) {
                    if before.contains(k) {
                        let j = choose|j: int| 0 <= j < i && (#[trigger] cells[j]).reference == k;
                        assert(0 <= j < i + 1 && cells[j].reference == k);
                    } else {
                        assert(cells[i as int].reference == k);
                    }
                }
                if exists|j: int| 0 <= j < i + 1 && (#[trigger] cells[j]).reference == k {
                    let j = choose|j: int| 0 <= j < i + 1 && (#[trigger] cells[j]).reference == k;
                    if j < i {
                        assert(before.contains(k));
                    }
                }
            }
        }
        i = i + 1;
    }
    Ok(())
}

impl State {
    /// The genesis state of a list of cells.
    pub fn from_cells(cells: Vec<Cell>) -> (r: Result<Self, String>)
        ensures
            text::shown_view(r) == genesis_result(cells@),
    {
        let mut state: State = State::default();
        let mut i: usize = 0;
        while i < cells.len()
            invariant
                i <= cells@.len(),
                genesis_result(cells@) == with_genesis(cells@, i as int, state@),
            decreases cells@.len() - i,
        {
            let cell: Cell = cells[i];
            validate_cell(&cell)?;
            if state.live.insert(cell.reference, cell).is_some() {
                return Err(text("duplicate genesis cell reference"));
            }
            if !state.known_ids.insert(cell.reference.id) {
                return Err(text("duplicate genesis cell id"));
            }
            i = i + 1;
        }
        Ok(state)
    }

    /// The live cell under a reference.
    pub fn live_cell(&self, reference: CellRef) -> (r: Option<&Cell>)
        ensures
            r is Some <==> self@.live.contains_key(reference),
            r is Some ==> *r->Some_0 == self@.live[reference],
    {
        self.live.get(&reference)
    }

    /// Checks the consistency of the state.
    pub fn validate(&self) -> (r: Result<(), String>)
        ensures
            text::shown(r) == state_verdict(self@),
    {
        let live: usize = self.live.len();
        let mut i: usize = 0;
        while i < live
            invariant
                i <= live,
                live == ordmap::listed(self.live@).len(),
                live_verdict(self@, 0) == live_verdict(self@, i as int),
            decreases live - i,
        {
            let reference: CellRef = self.live.key_at(i);
            let cell: Cell = *self.live.value_at(i);
            if !reference.same(&cell.reference) {
                return Err(text("live-state key/reference mismatch"));
            }
            validate_cell(&cell)?;
            if !self.known_ids.contains(&reference.id) {
                return Err(text("live cell is absent from known-id set"));
            }
            if self.spent_by.contains_key(&reference) {
                return Err(text("cell is both live and spent"));
            }
            i = i + 1;
        }
        let spent: usize = self.spent_by.len();
        let mut j: usize = 0;
        while j < spent
            invariant
                j <= spent,
                spent == ordmap::listed(self.spent_by@).len(),
                live_verdict(self@, 0) is Ok,
                spent_verdict(self@, 0) == spent_verdict(self@, j as int),
            decreases spent - j,
        {
            let reference: CellRef = self.spent_by.key_at(j);
            if !self.known_ids.contains(&reference.id) {
                return Err(text("spent cell is absent from known-id set"));
            }
            if self.live.contains_key(&reference) {
                return Err(text("spent cell remains live"));
            }
            j = j + 1;
        }
        let applied: usize = self.applied.len();
        let mut k: usize = 0;
        while k < applied
            invariant
                k <= applied,
                applied == ordmap::listed(self.applied@).len(),
                live_verdict(self@, 0) is Ok,
                spent_verdict(self@, 0) is Ok,
                receipts_verdict(self@, 0) == receipts_verdict(self@, k as int),
            decreases applied - k,
        {
            let intent: Digest = self.applied.key_at(k);
            let receipt: &ApplyReceipt = self.applied.value_at(k);
            if !intent.same(&receipt.intent) {
                return Err(text("applied receipt key mismatch"));
            }
            if receipt.output_refs.len() == 0 {
                return Err(text("applied receipt has no output refs"));
            }
            k = k + 1;
        }
        Ok(())
    }

    /// The digest of the whole state.
    pub fn root(&self) -> (d: Digest)
        ensures
            d == root_digest(self@),
            state_finite(self@),
    {
        state_root(self)
    }

    /// The value of all live cells.
    pub fn total_value(&self) -> (r: Result<u64, String>)
        ensures
            live_total(self@.live) <= u64::MAX ==> r == Ok::<u64, String>(
                live_total(self@.live) as u64,
            ),
            live_total(self@.live) > u64::MAX ==> r is Err && r->Err_0@
                == "state value overflow"@,
    {
        let count: usize = self.live.len();
        let mut total: u64 = 0;
        let mut i: usize = 0;
        let ghost entries = ordmap::listed(self.live@);
        while i < count
            invariant
                i <= count,
                count == entries.len(),
                entries == ordmap::listed(self.live@),
                total == ordmap::entries_weight(entries, amount_of(), i as int),
            decreases count - i,
        {
            let amount: u64 = self.live.value_at(i).amount;
            proof {
                ordmap::lemma_weight_grows(entries, amount_of(), i + 1, count as int);
            }
            total = match total.checked_add(amount) {
                Some(sum) => sum,
                None => {
                    return Err(text("state value overflow"));
                },
            };
            i = i + 1;
        }
        Ok(total)
    }

    /// Applies a transfer that its two certificates finalize. The state changes
    /// only if the transfer is applied now.
    pub fn apply_finalized(
        &mut self,
        tx: &Tx,
        auth: &UserAuth,
        prevote_qc: &Qc,
        precommit_qc: &Qc,
        manifest: &CommitteeManifest,
    ) -> (r: Result<ApplyOutcome, String>)
        ensures
            text::shown_view(r) == apply_result(
                old(self)@,
                tx@,
                *auth,
                prevote_qc@,
                precommit_qc@,
                manifest@,
            ),
            final(self)@ == state_then(old(self)@, tx@, text::shown_view(r)),
    {
        let intent: Digest = intent_hash(tx)?;
        let conflict: Digest = conflict_key(tx.input.reference);
        if prevote_qc.votes.len() == 0 {
            return Err(text("empty prevote QC"));
        }
        let round: u64 = prevote_qc.votes[0].round;
        verify_qc(prevote_qc, manifest, PHASE_PREVOTE, round, conflict, intent, None)?;
        let prevote_digest: Digest = qc_digest(prevote_qc, manifest)?;
        if precommit_qc.votes.len() == 0 {
            return Err(text("empty finality QC"));
        }
        if precommit_qc.votes[0].round != round {
            return Err(text("PRECOMMIT QC round does not match PREVOTE QC"));
        }
        verify_qc(
            precommit_qc,
            manifest,
            PHASE_PRECOMMIT,
            round,
            conflict,
            intent,
            Some(prevote_digest),
        )?;
        verify_user_auth(tx, auth, manifest)?;
        match self.applied.get(&intent) {
            Some(receipt) => {
                return Ok(ApplyOutcome::AlreadyApplied(receipt.clone()));
            },
            None => {},
        }
        proof {
            model::law_valid_tx_conserves_value(tx@, manifest@);
        }
        let current: Cell = match self.live.get(&tx.input.reference) {
            Some(cell) => *cell,
            None => {
                return Err(text("input is not live"));
            },
        };
        if !current.same(&tx.input) {
            return Err(text("transaction does not reference the exact live input state"));
        }
        let certificate_digest: Digest = qc_digest(precommit_qc, manifest)?;
        let outputs: Vec<Cell> = materialize_outputs(tx)?;
        check_outputs(&outputs, &self.known_ids)?;

        let mut output_refs: Vec<CellRef> = Vec::new();
        let mut k: usize = 0;
        while k < outputs.len()
            invariant
                k <= outputs@.len(),
                output_refs@ == Seq::new(k as nat, |i: int| outputs@[i].reference),
            decreases outputs@.len() - k,
        {
            output_refs.push(outputs[k].reference);
            k = k + 1;
            assert(output_refs@ =~= Seq::new(k as nat, |i: int| outputs@[i].reference));
        }
        let receipt: ApplyReceipt = ApplyReceipt { intent, certificate_digest, output_refs };
        assert(receipt@ =~= receipt_of(tx@, precommit_qc@));
        let ghost before = self@;
        self.live.remove(&tx.input.reference);
        self.spent_by.insert(tx.input.reference, intent);
        let mut n: usize = 0;
        while n < outputs.len()
            invariant
                n <= outputs@.len(),
                self.live@ == cells_added(
                    before.live.remove(tx.input.reference),
                    outputs@,
                    n as int,
                ),
                self.known_ids@ == ids_added(before.known_ids, outputs@, n as int),
                self.spent_by@ == before.spent_by.insert(tx.input.reference, intent),
                self.applied@ == before.applied,
            decreases outputs@.len() - n,
        {
            let cell: Cell = outputs[n];
            self.known_ids.insert(cell.reference.id);
            self.live.insert(cell.reference, cell);
            n = n + 1;
        }
        self.applied.insert(intent, receipt.clone());
        Ok(ApplyOutcome::Applied(receipt))
    }
}

// ---------------------------------------------------------------------------
// Laws.
// ---------------------------------------------------------------------------

/// The amounts of the first `n` cells together.
pub open spec fn cells_total(cells: Seq<Cell>, n: int) -> nat
    decreases n,
{
    if n <= 0 || n > cells.len() {
        0
    } else {
        cells_total(cells, n - 1) + cells[n - 1].amount as nat
    }
}

/// Every cell is valid, and no two have one identifier.
pub open spec fn genesis_cells(cells: Seq<Cell>) -> bool {
    &&& forall|i: int| 0 <= i < cells.len() ==> model::cell_verdict(#[trigger] cells[i]) is Ok
    &&& forall|i: int, j: int|
        0 <= i < j < cells.len() ==> (#[trigger] cells[i]).reference.id != (
        #[trigger] cells[j]).reference.id
}

/// The state that holds exactly the cells of a list.
spec fn holds_first(s: StateModel, cells: Seq<Cell>, n: int) -> bool {
    &&& s.spent_by == Map::<CellRef, Digest>::empty()
    &&& s.applied == Map::<Digest, ReceiptModel>::empty()
    &&& forall|r: CellRef| #[trigger]
        s.live.contains_key(r) <==> exists|i: int|
            0 <= i < n && (#[trigger] cells[i]).reference == r
    &&& forall|i: int|
        0 <= i < n ==> s.live[(#[trigger] cells[i]).reference] == cells[i]
    &&& forall|d: Digest| #[trigger]
        s.known_ids.contains(d) <==> exists|i: int|
            0 <= i < n && (#[trigger] cells[i]).reference.id == d
    &&& s.live.dom().finite()
    &&& s.known_ids.finite()
    &&& live_total(s.live) == cells_total(cells, n)
}

proof fn lemma_genesis(cells: Seq<Cell>, n: int, s: StateModel)
    requires
        0 <= n <= cells.len(),
        holds_first(s, cells, n),
        forall|i: int| 0 <= i < n ==> model::cell_verdict(#[trigger] cells[i]) is Ok,
        forall|i: int, j: int|
            0 <= i < j < n ==> (#[trigger] cells[i]).reference.id != (
            #[trigger] cells[j]).reference.id,
    ensures
        with_genesis(cells, n, s) is Ok <==> genesis_cells(cells),
        with_genesis(cells, n, s) is Ok ==> holds_first(
            with_genesis(cells, n, s)->Ok_0,
            cells,
            cells.len() as int,
        ),
    decreases cells.len() - n,
{
    if n < cells.len() {
        let cell = cells[n];
        if model::cell_verdict(cell) is Ok {
            if s.live.contains_key(cell.reference) {
                let i = choose|i: int|
                    0 <= i < n && (#[trigger] cells[i]).reference == cell.reference;
                assert(cells[i].reference.id == cells[n].reference.id);
            } else if s.known_ids.contains(cell.reference.id) {
                let i = choose|i: int|
                    0 <= i < n && (#[trigger] cells[i]).reference.id == cell.reference.id;
                assert(cells[i].reference.id == cells[n].reference.id);
            } else {
                let t = StateModel {
                    live: s.live.insert(cell.reference, cell),
                    spent_by: s.spent_by,
                    known_ids: s.known_ids.insert(cell.reference.id),
                    applied: s.applied,
                };
                ordmap::lemma_weight_insert(s.live, amount_of(), cell.reference, cell);
                assert(holds_first(t, cells, n + 1)) by {
                    assert forall|r: CellRef| #[trigger] t.live.contains_key(r) <==> exists|i: int|
                        0 <= i < n + 1 && (#[trigger] cells[i]).reference == r by {
                        if t.live.contains_key(r) {
                            if r == cell.reference {
                                assert(cells[n].reference == r);
                            } else {
                                assert(s.live.contains_key(r));
                            }
                        }
                        if exists|i: int| 0 <= i < n + 1 && (#[trigger] cells[i]).reference == r {
                            let i = choose|i: int|
                                0 <= i < n + 1 && (#[trigger] cells[i]).reference == r;
                            if i < n {
                                assert(s.live.contains_key(r));
                            }
                        }
                    }
                    assert forall|i: int| 0 <= i < n + 1 implies t.live[(
                    #[trigger] cells[i]).reference] == cells[i] by {
                        if i < n {
                            assert(s.live.contains_key(cells[i].reference));
                        }
                    }
                    assert forall|d: Digest| #[trigger] t.known_ids.contains(d) <==> exists|i: int|
                        0 <= i < n + 1 && (#[trigger] cells[i]).reference.id == d by {
                        if t.known_ids.contains(d) {
                            if d == cell.reference.id {
                                assert(cells[n].reference.id == d);
                            } else {
                                assert(s.known_ids.contains(d));
                            }
                        }
                        if exists|i: int| 0 <= i < n + 1 && (#[trigger] cells[i]).reference.id == d {
                            let i = choose|i: int|
                                0 <= i < n + 1 && (#[trigger] cells[i]).reference.id == d;
                            if i < n {
                                assert(s.known_ids.contains(d));
                            }
                        }
                    }
                }
                assert forall|i: int, j: int| 0 <= i < j < n + 1 implies (
                #[trigger] cells[i]).reference.id != (#[trigger] cells[j]).reference.id by {
                    if j == n && cells[i].reference.id == cells[n].reference.id {
                        assert(s.known_ids.contains(cells[n].reference.id));
                    }
                }
                lemma_genesis(cells, n + 1, t);
            }
        }
    }
}

proof fn lemma_genesis_start(cells: Seq<Cell>)
    ensures
        genesis_result(cells) is Ok <==> genesis_cells(cells),
        genesis_result(cells) is Ok ==> holds_first(
            genesis_result(cells)->Ok_0,
            cells,
            cells.len() as int,
        ),
{
    ordmap::lemma_listed_finite(Map::<CellRef, Cell>::empty());
    lemma_genesis(cells, 0, model::empty_state());
}

/// A genesis state exists exactly for valid cells with distinct identifiers. It
/// is consistent, and its value is that of its cells.
pub proof fn law_genesis(cells: Seq<Cell>)
    ensures
        genesis_result(cells) is Ok <==> genesis_cells(cells),
        genesis_result(cells) is Ok ==> {
            let s = genesis_result(cells)->Ok_0;
            &&& state_finite(s)
            &&& state_valid(s)
            &&& live_total(s.live) == cells_total(cells, cells.len() as int)
        },
{
    lemma_genesis_start(cells);
}

/// A genesis state holds its cells and nothing else: each is live under its reference, its
/// identifier is known, nothing is spent, and no transfer is applied.
pub proof fn law_genesis_holds_its_cells(cells: Seq<Cell>)
    requires
        genesis_result(cells) is Ok,
    ensures
        ({
            let s = genesis_result(cells)->Ok_0;
            &&& forall|i: int|
                0 <= i < cells.len() ==> s.live.contains_key((#[trigger] cells[i]).reference)
                    && s.live[cells[i].reference] == cells[i]
            &&& forall|r: CellRef| #[trigger]
                s.live.contains_key(r) ==> exists|i: int|
                    0 <= i < cells.len() && (#[trigger] cells[i]).reference == r
            &&& forall|d: Digest| #[trigger]
                s.known_ids.contains(d) <==> exists|i: int|
                    0 <= i < cells.len() && (#[trigger] cells[i]).reference.id == d
            &&& forall|r: CellRef| !#[trigger] s.spent_by.contains_key(r)
            &&& forall|d: Digest| !#[trigger] s.applied.contains_key(d)
        }),
{
    lemma_genesis_start(cells);
}

/// The order in which the genesis cells are given has no part in the genesis
/// state, nor in its root.
pub proof fn law_genesis_order(cells: Seq<Cell>, order: Seq<int>)
    requires
        order.len() == cells.len(),
        order.no_duplicates(),
        forall|i: int| 0 <= i < order.len() ==> 0 <= #[trigger] order[i] < cells.len(),
        genesis_result(cells) is Ok,
    ensures
        genesis_result(Seq::new(cells.len(), |i: int| cells[order[i]])) == genesis_result(cells),
{
    let other = Seq::new(cells.len(), |i: int| cells[order[i]]);
    lemma_genesis_start(cells);
    lemma_genesis_start(other);
    assert forall|i: int| 0 <= i < other.len() implies model::cell_verdict(#[trigger] other[i]) is Ok by {
        assert(other[i] == cells[order[i]]);
    }
    assert forall|i: int, j: int| 0 <= i < j < other.len() implies (
    #[trigger] other[i]).reference.id != (#[trigger] other[j]).reference.id by {
        assert(order[i] != order[j]);
        let a = if order[i] < order[j] {
            order[i]
        } else {
            order[j]
        };
        let b = if order[i] < order[j] {
            order[j]
        } else {
            order[i]
        };
        assert(cells[a].reference.id != cells[b].reference.id);
    }
    let s = genesis_result(cells)->Ok_0;
    let t = genesis_result(other)->Ok_0;
    lemma_order_is_onto(order, cells.len() as int);
    assert forall|r: CellRef| s.live.contains_key(r) <==> t.live.contains_key(r) by {
        if s.live.contains_key(r) {
            let i = choose|i: int| 0 <= i < cells.len() && (#[trigger] cells[i]).reference == r;
            let k = order.index_of(i);
            assert(order.contains(i));
            assert(other[k].reference == r);
        }
        if t.live.contains_key(r) {
            let k = choose|k: int| 0 <= k < other.len() && (#[trigger] other[k]).reference == r;
            assert(cells[order[k]].reference == r);
        }
    }
    assert forall|r: CellRef| s.live.contains_key(r) implies s.live[r] == t.live[r] by {
        let i = choose|i: int| 0 <= i < cells.len() && (#[trigger] cells[i]).reference == r;
        let k = order.index_of(i);
        assert(order.contains(i));
        assert(other[k] == cells[i]);
    }
    assert forall|d: Digest| s.known_ids.contains(d) <==> t.known_ids.contains(d) by {
        if s.known_ids.contains(d) {
            let i = choose|i: int| 0 <= i < cells.len() && (#[trigger] cells[i]).reference.id == d;
            let k = order.index_of(i);
            assert(order.contains(i));
            assert(other[k].reference.id == d);
        }
        if t.known_ids.contains(d) {
            let k = choose|k: int| 0 <= k < other.len() && (#[trigger] other[k]).reference.id == d;
            assert(cells[order[k]].reference.id == d);
        }
    }
    assert(s.live =~= t.live);
    assert(s.known_ids =~= t.known_ids);
    assert(s =~= t);
}

/// A list of `n` distinct numbers below `n` holds each of them.
pub proof fn lemma_order_is_onto(order: Seq<int>, n: int)
    requires
        order.len() == n,
        order.no_duplicates(),
        forall|i: int| 0 <= i < order.len() ==> 0 <= #[trigger] order[i] < n,
    ensures
        forall|i: int| 0 <= i < n ==> order.contains(i),
{
    let all = vstd::set_lib::set_int_range(0, n);
    vstd::set_lib::lemma_int_range(0, n);
    order.unique_seq_to_set();
    let got = order.to_set();
    assert(got.subset_of(all)) by {
        assert forall|x: int| got.contains(x) implies all.contains(x) by {
            let i = choose|i: int| 0 <= i < order.len() && order[i] == x;
            assert(0 <= order[i] < n);
        }
    }
    vstd::set_lib::lemma_subset_equality(got, all);
    assert forall|i: int| 0 <= i < n implies order.contains(i) by {
        assert(all.contains(i));
        assert(got.contains(i));
    }
}

proof fn lemma_fit(cells: Seq<Cell>, known: Set<Digest>, i: int)
    requires
        0 <= i <= cells.len(),
        fit_verdict(cells, known, i) is Ok,
    ensures
        forall|k: int|
            i <= k < cells.len() ==> model::cell_verdict(#[trigger] cells[k]) is Ok && !repeated_ref(
                cells,
                k,
            ) && !known.contains(cells[k].reference.id),
    decreases cells.len() - i,
{
    if i < cells.len() {
        lemma_fit(cells, known, i + 1);
    }
}

pub proof fn lemma_cells_added(live: Map<CellRef, Cell>, cells: Seq<Cell>, n: int)
    requires
        0 <= n <= cells.len(),
        live.dom().finite(),
        forall|i: int| 0 <= i < cells.len() ==> !live.contains_key((#[trigger] cells[i]).reference),
        forall|i: int| 0 <= i < cells.len() ==> !#[trigger] repeated_ref(cells, i),
    ensures
        cells_added(live, cells, n).dom().finite(),
        forall|r: CellRef| #[trigger]
            cells_added(live, cells, n).contains_key(r) <==> live.contains_key(r) || exists|i: int|
                0 <= i < n && (#[trigger] cells[i]).reference == r,
        forall|r: CellRef| #[trigger]
            live.contains_key(r) ==> cells_added(live, cells, n)[r] == live[r],
        forall|i: int|
            0 <= i < n ==> cells_added(live, cells, n)[(#[trigger] cells[i]).reference]
                == cells[i],
        live_total(cells_added(live, cells, n)) == live_total(live) + cells_total(cells, n),
    decreases n,
{
    if n > 0 {
        lemma_cells_added(live, cells, n - 1);
        let before = cells_added(live, cells, n - 1);
        let cell = cells[n - 1];
        assert(!repeated_ref(cells, n - 1));
        assert(!before.contains_key(cell.reference)) by {
            if before.contains_key(cell.reference) && !live.contains_key(cell.reference) {
                let i = choose|i: int|
                    0 <= i < n - 1 && (#[trigger] cells[i]).reference == cell.reference;
                assert(repeated_ref(cells, n - 1));
            }
        }
        ordmap::lemma_weight_insert(before, amount_of(), cell.reference, cell);
        let after = cells_added(live, cells, n);
        assert forall|r: CellRef| #[trigger] after.contains_key(r) <==> live.contains_key(r)
            || exists|i: int| 0 <= i < n && (#[trigger] cells[i]).reference == r by {
            if after.contains_key(r) {
                if r == cell.reference {
                    assert(cells[n - 1].reference == r);
                } else {
                    assert(before.contains_key(r));
                }
            }
            if exists|i: int| 0 <= i < n && (#[trigger] cells[i]).reference == r {
                let i = choose|i: int| 0 <= i < n && (#[trigger] cells[i]).reference == r;
                if i < n - 1 {
                    assert(before.contains_key(r));
                }
            }
            if live.contains_key(r) {
                assert(before.contains_key(r));
            }
        }
        assert forall|r: CellRef| #[trigger] live.contains_key(r) implies after[r] == live[r] by {
            assert(before.contains_key(r));
        }
        assert forall|i: int| 0 <= i < n implies after[(#[trigger] cells[i]).reference]
            == cells[i] by {
            if i < n - 1 {
                assert(before.contains_key(cells[i].reference));
            }
        }
    }
}

pub proof fn lemma_ids_added(known: Set<Digest>, cells: Seq<Cell>, n: int)
    requires
        0 <= n <= cells.len(),
    ensures
        known.finite() ==> ids_added(known, cells, n).finite(),
        forall|d: Digest| #[trigger]
            ids_added(known, cells, n).contains(d) <==> known.contains(d) || exists|i: int|
                0 <= i < n && (#[trigger] cells[i]).reference.id == d,
    decreases n,
{
    if n > 0 {
        lemma_ids_added(known, cells, n - 1);
        let before = ids_added(known, cells, n - 1);
        let after = ids_added(known, cells, n);
        assert forall|d: Digest| #[trigger] after.contains(d) <==> known.contains(d)
            || exists|i: int| 0 <= i < n && (#[trigger] cells[i]).reference.id == d by {
            if after.contains(d) && d == cells[n - 1].reference.id {
                assert(cells[n - 1].reference.id == d);
            }
            if exists|i: int| 0 <= i < n && (#[trigger] cells[i]).reference.id == d {
                let i = choose|i: int| 0 <= i < n && (#[trigger] cells[i]).reference.id == d;
                if i < n - 1 {
                    assert(before.contains(d));
                }
            }
            if known.contains(d) {
                assert(before.contains(d));
            }
        }
    }
}

proof fn lemma_created_total(tx: TxModel, n: int)
    requires
        0 <= n <= tx.outputs.len(),
    ensures
        cells_total(model::created_cells(tx), n) == model::outputs_total(tx.outputs, n),
    decreases n,
{
    if n > 0 {
        lemma_created_total(tx, n - 1);
        assert(model::created_cells(tx)[n - 1] == model::created_cell(tx, n - 1));
        assert(model::effects(tx)[n - 1] == tx.outputs[n - 1]);
    }
}

/// What an applied transfer shows of the state before it.
pub proof fn lemma_applied(
    s: StateModel,
    tx: TxModel,
    auth: UserAuth,
    prevote: Seq<Vote>,
    precommit: Seq<Vote>,
    m: ManifestModel,
)
    requires
        state_finite(s),
        state_valid(s),
        apply_result(s, tx, auth, prevote, precommit, m) matches Ok(OutcomeModel::Applied(_)),
    ensures
        s.live.contains_key(tx.input.reference),
        s.live[tx.input.reference] == tx.input,
        !s.applied.contains_key(model::intent_digest(tx)),
        forall|i: int|
            0 <= i < model::created_cells(tx).len() ==> !s.known_ids.contains(
                (#[trigger] model::created_cells(tx)[i]).reference.id,
            ) && model::cell_verdict(model::created_cells(tx)[i]) is Ok,
        forall|i: int|
            0 <= i < model::created_cells(tx).len() ==> !#[trigger] repeated_ref(model::created_cells(tx), i),
        forall|i: int|
            0 <= i < model::created_cells(tx).len() ==> !s.live.remove(tx.input.reference).contains_key(
                (#[trigger] model::created_cells(tx)[i]).reference,
            ) && model::created_cells(tx)[i].reference != tx.input.reference
                && !s.spent_by.contains_key(model::created_cells(tx)[i].reference),
        cells_total(model::created_cells(tx), model::created_cells(tx).len() as int) == tx.input.amount,
{
    let cells = model::created_cells(tx);
    lemma_fit(cells, s.known_ids, 0);
    model::law_valid_tx_conserves_value(tx, m);
    lemma_created_total(tx, tx.outputs.len() as int);
    assert(cells[tx.outputs.len() as int] == model::created_cell(tx, tx.outputs.len() as int));
    assert forall|i: int| 0 <= i < cells.len() implies !s.live.remove(
        tx.input.reference,
    ).contains_key((#[trigger] cells[i]).reference) && cells[i].reference != tx.input.reference
        && !s.spent_by.contains_key(cells[i].reference) by {
        assert(!s.known_ids.contains(cells[i].reference.id));
        if s.live.contains_key(cells[i].reference) {
        }
        if s.spent_by.contains_key(cells[i].reference) {
        }
        assert(s.live.contains_key(tx.input.reference));
    }
}

/// Applying a transfer conserves the value of the state.
pub proof fn law_apply_conserves_value(
    s: StateModel,
    tx: TxModel,
    auth: UserAuth,
    prevote: Seq<Vote>,
    precommit: Seq<Vote>,
    m: ManifestModel,
)
    requires
        state_finite(s),
        state_valid(s),
    ensures
        live_total(
            state_then(s, tx, apply_result(s, tx, auth, prevote, precommit, m)).live,
        ) == live_total(s.live),
{
    if apply_result(s, tx, auth, prevote, precommit, m) matches Ok(OutcomeModel::Applied(_)) {
        lemma_applied(s, tx, auth, prevote, precommit, m);
        let cells = model::created_cells(tx);
        let rest = s.live.remove(tx.input.reference);
        ordmap::lemma_weight_remove(s.live, amount_of(), tx.input.reference);
        lemma_cells_added(rest, cells, cells.len() as int);
    }
}

/// Applying a transfer keeps the state consistent.
pub proof fn law_apply_keeps_consistency(
    s: StateModel,
    tx: TxModel,
    auth: UserAuth,
    prevote: Seq<Vote>,
    precommit: Seq<Vote>,
    m: ManifestModel,
)
    requires
        state_finite(s),
        state_valid(s),
    ensures
        state_finite(state_then(s, tx, apply_result(s, tx, auth, prevote, precommit, m))),
        state_valid(state_then(s, tx, apply_result(s, tx, auth, prevote, precommit, m))),
{
    if apply_result(s, tx, auth, prevote, precommit, m) matches Ok(OutcomeModel::Applied(_)) {
        lemma_applied(s, tx, auth, prevote, precommit, m);
        let cells = model::created_cells(tx);
        let rest = s.live.remove(tx.input.reference);
        lemma_cells_added(rest, cells, cells.len() as int);
        lemma_ids_added(s.known_ids, cells, cells.len() as int);
        let t = state_then(s, tx, apply_result(s, tx, auth, prevote, precommit, m));
        assert forall|r: CellRef| #[trigger] t.live.contains_key(r) implies t.live[r].reference
            == r && model::cell_verdict(t.live[r]) is Ok && t.known_ids.contains(r.id)
            && !t.spent_by.contains_key(r) by {
            if rest.contains_key(r) {
                assert(s.live.contains_key(r));
                assert(t.live[r] == s.live[r]);
            } else {
                let i = choose|i: int| 0 <= i < cells.len() && (#[trigger] cells[i]).reference == r;
                assert(t.live[cells[i].reference] == cells[i]);
                assert(cells[i].reference.id == r.id);
            }
        }
        assert forall|r: CellRef| #[trigger] t.spent_by.contains_key(
            r,
        ) implies t.known_ids.contains(r.id) by {
            if r != tx.input.reference {
                assert(s.spent_by.contains_key(r));
            } else {
                assert(s.live.contains_key(r));
            }
        }
        assert forall|d: Digest| #[trigger] t.applied.contains_key(d) implies t.applied[d].intent
            == d && t.applied[d].output_refs.len() > 0 by {
            if d != model::intent_digest(tx) {
                assert(s.applied.contains_key(d));
            }
        }
    }
}

/// Applying an applied transfer again changes nothing and gives back the
/// receipt of the first time.
pub proof fn law_apply_is_idempotent(
    s: StateModel,
    tx: TxModel,
    auth: UserAuth,
    prevote: Seq<Vote>,
    precommit: Seq<Vote>,
    m: ManifestModel,
)
    requires
        apply_result(s, tx, auth, prevote, precommit, m) matches Ok(OutcomeModel::Applied(_)),
    ensures
        ({
            let first = apply_result(s, tx, auth, prevote, precommit, m);
            let t = state_then(s, tx, first);
            let again = apply_result(t, tx, auth, prevote, precommit, m);
            &&& again == Ok::<OutcomeModel, Seq<char>>(
                OutcomeModel::AlreadyApplied(first->Ok_0->Applied_0),
            )
            &&& state_then(t, tx, again) == t
        }),
{
}

/// A spent cell is not spent again: after a transfer is applied, no transfer
/// with another intent that names the same input is applied, whatever its
/// certificates.
pub proof fn law_no_double_spend(
    s: StateModel,
    tx: TxModel,
    auth: UserAuth,
    prevote: Seq<Vote>,
    precommit: Seq<Vote>,
    other: TxModel,
    other_auth: UserAuth,
    other_prevote: Seq<Vote>,
    other_precommit: Seq<Vote>,
    m: ManifestModel,
)
    requires
        state_finite(s),
        state_valid(s),
        apply_result(s, tx, auth, prevote, precommit, m) matches Ok(OutcomeModel::Applied(_)),
        other.input.reference == tx.input.reference,
    ensures
        ({
            let t = state_then(s, tx, apply_result(s, tx, auth, prevote, precommit, m));
            let second = apply_result(t, other, other_auth, other_prevote, other_precommit, m);
            &&& !(second matches Ok(OutcomeModel::Applied(_)))
            &&& state_then(t, other, second) == t
            &&& t.spent_by.contains_key(tx.input.reference)
            &&& t.spent_by[tx.input.reference] == model::intent_digest(tx)
            &&& !t.live.contains_key(tx.input.reference)
        }),
{
    lemma_applied(s, tx, auth, prevote, precommit, m);
    let cells = model::created_cells(tx);
    let rest = s.live.remove(tx.input.reference);
    lemma_cells_added(rest, cells, cells.len() as int);
    let t = state_then(s, tx, apply_result(s, tx, auth, prevote, precommit, m));
    assert(!t.live.contains_key(tx.input.reference)) by {
        if t.live.contains_key(tx.input.reference) {
            let i = choose|i: int|
                0 <= i < cells.len() && (#[trigger] cells[i]).reference == tx.input.reference;
            assert(cells[i].reference != tx.input.reference);
        }
    }
}

} // verus!
