//! Schedules that apply the same transfers end in the same state.
use crate::controller;
use crate::controller::FinalizedModel;
use crate::model;
use crate::model::{Cell, CellRef, Digest, ManifestModel, OutcomeModel, StateModel};
use crate::state;
use vstd::prelude::*;

verus! {

/// A transfer is among those of a schedule from number `k` on.
pub open spec fn scheduled(order: Seq<usize>, k: int, n: int) -> bool {
    exists|i: int| k <= i < order.len() && #[trigger] order[i] == n
}

/// Some scheduled transfer has an intent.
#[verifier::opaque]
spec fn intends(list: Seq<FinalizedModel>, order: Seq<usize>, k: int, d: Digest) -> bool {
    exists|n: int| #[trigger] scheduled(order, k, n) && model::intent_digest(list[n].tx) == d
}

/// Some scheduled transfer spends a cell.
#[verifier::opaque]
spec fn spends(list: Seq<FinalizedModel>, order: Seq<usize>, k: int, r: CellRef) -> bool {
    exists|n: int| #[trigger] scheduled(order, k, n) && list[n].tx.input.reference == r
}

/// A transfer creates a cell.
#[verifier::opaque]
spec fn makes(f: FinalizedModel, cell: Cell) -> bool {
    exists|j: int| 0 <= j < model::created_cells(f.tx).len() && #[trigger] model::created_cells(f.tx)[j] == cell
}

/// Some scheduled transfer creates a cell.
#[verifier::opaque]
spec fn creates(list: Seq<FinalizedModel>, order: Seq<usize>, k: int, cell: Cell) -> bool {
    exists|n: int| #[trigger] scheduled(order, k, n) && makes(list[n], cell)
}

/// Some scheduled transfer creates a cell with a reference.
#[verifier::opaque]
spec fn creates_at(list: Seq<FinalizedModel>, order: Seq<usize>, k: int, r: CellRef) -> bool {
    exists|cell: Cell| #[trigger] creates(list, order, k, cell) && cell.reference == r
}

/// Some scheduled transfer creates a cell with an identifier.
#[verifier::opaque]
spec fn creates_id(list: Seq<FinalizedModel>, order: Seq<usize>, k: int, id: Digest) -> bool {
    exists|cell: Cell| #[trigger] creates(list, order, k, cell) && cell.reference.id == id
}

/// A transfer creates a cell with a reference.
#[verifier::opaque]
spec fn makes_at(f: FinalizedModel, r: CellRef) -> bool {
    exists|cell: Cell| #[trigger] makes(f, cell) && cell.reference == r
}

/// A transfer creates a cell with an identifier.
#[verifier::opaque]
spec fn makes_id(f: FinalizedModel, id: Digest) -> bool {
    exists|cell: Cell| #[trigger] makes(f, cell) && cell.reference.id == id
}

/// What a schedule leaves in the receipts, whatever its order.
spec fn settles_applied(
    s: StateModel,
    t: StateModel,
    list: Seq<FinalizedModel>,
    order: Seq<usize>,
    k: int,
) -> bool {
    &&& forall|d: Digest| #[trigger]
        t.applied.contains_key(d) <==> s.applied.contains_key(d) || intends(list, order, k, d)
    &&& forall|d: Digest| #[trigger] s.applied.contains_key(d) ==> t.applied[d] == s.applied[d]
    &&& forall|n: int| #[trigger]
        scheduled(order, k, n) ==> t.applied[model::intent_digest(list[n].tx)] == state::receipt_of(
            list[n].tx,
            list[n].qc,
        )
}

/// What a schedule leaves among the spent cells, whatever its order.
spec fn settles_spent(
    s: StateModel,
    t: StateModel,
    list: Seq<FinalizedModel>,
    order: Seq<usize>,
    k: int,
) -> bool {
    &&& forall|r: CellRef| #[trigger]
        t.spent_by.contains_key(r) <==> s.spent_by.contains_key(r) || spends(list, order, k, r)
    &&& forall|r: CellRef| #[trigger] s.spent_by.contains_key(r) ==> t.spent_by[r] == s.spent_by[r]
    &&& forall|n: int| #[trigger]
        scheduled(order, k, n) ==> t.spent_by[list[n].tx.input.reference] == model::intent_digest(
            list[n].tx,
        )
}

/// What a schedule leaves among the known identifiers, whatever its order.
spec fn settles_ids(
    s: StateModel,
    t: StateModel,
    list: Seq<FinalizedModel>,
    order: Seq<usize>,
    k: int,
) -> bool {
    &&& forall|id: Digest| #[trigger]
        t.known_ids.contains(id) <==> s.known_ids.contains(id) || creates_id(list, order, k, id)
    &&& forall|cell: Cell| #[trigger]
        creates(list, order, k, cell) ==> !s.known_ids.contains(cell.reference.id)
}

/// What a schedule leaves among the live cells, whatever its order.
spec fn settles_live(
    s: StateModel,
    t: StateModel,
    list: Seq<FinalizedModel>,
    order: Seq<usize>,
    k: int,
) -> bool {
    &&& forall|r: CellRef| #[trigger]
        t.live.contains_key(r) <==> (s.live.contains_key(r) || creates_at(list, order, k, r))
            && !spends(list, order, k, r)
    &&& forall|r: CellRef| #[trigger]
        s.live.contains_key(r) && t.live.contains_key(r) ==> t.live[r] == s.live[r]
    &&& forall|cell: Cell| #[trigger]
        creates(list, order, k, cell) && t.live.contains_key(cell.reference)
            ==> t.live[cell.reference] == cell
}

/// What a schedule leaves behind, whatever its order.
spec fn settles(
    s: StateModel,
    t: StateModel,
    list: Seq<FinalizedModel>,
    order: Seq<usize>,
    k: int,
) -> bool {
    &&& settles_applied(s, t, list, order, k)
    &&& settles_spent(s, t, list, order, k)
    &&& settles_ids(s, t, list, order, k)
    &&& settles_live(s, t, list, order, k)
}

proof fn lemma_scheduled_step(order: Seq<usize>, k: int, n: int)
    requires
        0 <= k < order.len(),
    ensures
        scheduled(order, k, n) <==> n == order[k] || scheduled(order, k + 1, n),
{
    if scheduled(order, k, n) && n != order[k] {
        let i = choose|i: int| k <= i < order.len() && #[trigger] order[i] == n;
        assert(k + 1 <= i < order.len() && order[i] == n);
    }
    if n == order[k] {
        assert(order[k] == n);
    }
    if scheduled(order, k + 1, n) {
        let i = choose|i: int| k + 1 <= i < order.len() && #[trigger] order[i] == n;
        assert(k <= i < order.len() && order[i] == n);
    }
}

proof fn lemma_intends_step(list: Seq<FinalizedModel>, order: Seq<usize>, k: int, d: Digest)
    requires
        0 <= k < order.len(),
    ensures
        intends(list, order, k, d) <==> model::intent_digest(list[order[k] as int].tx) == d || intends(list, order, k + 1, d),
{
    reveal(intends);
    lemma_scheduled_step(order, k, order[k] as int);
    if intends(list, order, k, d) {
        let n = choose|n: int| #[trigger] scheduled(order, k, n) && model::intent_digest(list[n].tx) == d;
        lemma_scheduled_step(order, k, n);
    }
    if intends(list, order, k + 1, d) {
        let n = choose|n: int| #[trigger] scheduled(order, k + 1, n) && model::intent_digest(list[n].tx) == d;
        lemma_scheduled_step(order, k, n);
    }
}

proof fn lemma_spends_step(list: Seq<FinalizedModel>, order: Seq<usize>, k: int, r: CellRef)
    requires
        0 <= k < order.len(),
    ensures
        spends(list, order, k, r) <==> list[order[k] as int].tx.input.reference == r || spends(list, order, k + 1, r),
{
    reveal(spends);
    lemma_scheduled_step(order, k, order[k] as int);
    if spends(list, order, k, r) {
        let n = choose|n: int| #[trigger] scheduled(order, k, n) && list[n].tx.input.reference == r;
        lemma_scheduled_step(order, k, n);
    }
    if spends(list, order, k + 1, r) {
        let n = choose|n: int| #[trigger] scheduled(order, k + 1, n) && list[n].tx.input.reference == r;
        lemma_scheduled_step(order, k, n);
    }
}

proof fn lemma_creates_step(list: Seq<FinalizedModel>, order: Seq<usize>, k: int, cell: Cell)
    requires
        0 <= k < order.len(),
    ensures
        creates(list, order, k, cell) <==> makes(list[order[k] as int], cell) || creates(list, order, k + 1, cell),
{
    reveal(creates);
    lemma_scheduled_step(order, k, order[k] as int);
    if creates(list, order, k, cell) {
        let n = choose|n: int| #[trigger] scheduled(order, k, n) && makes(list[n], cell);
        lemma_scheduled_step(order, k, n);
    }
    if creates(list, order, k + 1, cell) {
        let n = choose|n: int| #[trigger] scheduled(order, k + 1, n) && makes(list[n], cell);
        lemma_scheduled_step(order, k, n);
    }
}

proof fn lemma_creates_at_step(list: Seq<FinalizedModel>, order: Seq<usize>, k: int, r: CellRef)
    requires
        0 <= k < order.len(),
    ensures
        creates_at(list, order, k, r) <==> makes_at(list[order[k] as int], r) || creates_at(list, order, k + 1, r),
{
    reveal(creates_at);
    reveal(makes_at);
    let f = list[order[k] as int];
    if creates_at(list, order, k, r) {
        let cell = choose|cell: Cell| #[trigger] creates(list, order, k, cell) && cell.reference == r;
        lemma_creates_step(list, order, k, cell);
    }
    if creates_at(list, order, k + 1, r) {
        let cell = choose|cell: Cell| #[trigger] creates(list, order, k + 1, cell) && cell.reference == r;
        lemma_creates_step(list, order, k, cell);
    }
    if makes_at(f, r) {
        let cell = choose|cell: Cell| #[trigger] makes(f, cell) && cell.reference == r;
        lemma_creates_step(list, order, k, cell);
    }
}

proof fn lemma_creates_id_step(list: Seq<FinalizedModel>, order: Seq<usize>, k: int, id: Digest)
    requires
        0 <= k < order.len(),
    ensures
        creates_id(list, order, k, id) <==> makes_id(list[order[k] as int], id) || creates_id(list, order, k + 1, id),
{
    reveal(creates_id);
    reveal(makes_id);
    let f = list[order[k] as int];
    if creates_id(list, order, k, id) {
        let cell = choose|cell: Cell| #[trigger] creates(list, order, k, cell) && cell.reference.id == id;
        lemma_creates_step(list, order, k, cell);
    }
    if creates_id(list, order, k + 1, id) {
        let cell = choose|cell: Cell| #[trigger] creates(list, order, k + 1, cell) && cell.reference.id == id;
        lemma_creates_step(list, order, k, cell);
    }
    if makes_id(f, id) {
        let cell = choose|cell: Cell| #[trigger] makes(f, cell) && cell.reference.id == id;
        lemma_creates_step(list, order, k, cell);
    }
}

/// What one transfer leaves behind.
spec fn settles_one(s: StateModel, t: StateModel, f: FinalizedModel) -> bool {
    let intent = model::intent_digest(f.tx);
    let input = f.tx.input.reference;
    &&& t.applied == s.applied.insert(intent, state::receipt_of(f.tx, f.qc))
    &&& !s.applied.contains_key(intent)
    &&& t.spent_by == s.spent_by.insert(input, intent)
    &&& !s.spent_by.contains_key(input)
    &&& s.live.contains_key(input)
    &&& s.known_ids.contains(input.id)
    &&& forall|id: Digest| #[trigger]
        t.known_ids.contains(id) <==> s.known_ids.contains(id) || makes_id(f, id)
    &&& forall|cell: Cell| #[trigger] makes(f, cell) ==> !s.known_ids.contains(cell.reference.id)
    &&& forall|r: CellRef| #[trigger]
        t.live.contains_key(r) <==> s.live.contains_key(r) && r != input || makes_at(f, r)
    &&& forall|r: CellRef| #[trigger]
        s.live.contains_key(r) && r != input ==> t.live[r] == s.live[r]
    &&& forall|cell: Cell| #[trigger] makes(f, cell) ==> t.live[cell.reference] == cell
}

proof fn lemma_settles_one(s: StateModel, f: FinalizedModel, m: ManifestModel)
    requires
        state::state_finite(s),
        state::state_valid(s),
        state::apply_result(s, f.tx, f.auth, f.prevote_qc, f.qc, m) matches Ok(OutcomeModel::Applied(_)),
    ensures
        settles_one(s, state::state_after(s, f.tx, state::receipt_of(f.tx, f.qc)), f),
{
    reveal(makes);
    reveal(makes_at);
    reveal(makes_id);
    state::lemma_applied(s, f.tx, f.auth, f.prevote_qc, f.qc, m);
    let t = state::state_after(s, f.tx, state::receipt_of(f.tx, f.qc));
    let cells = model::created_cells(f.tx);
    let rest = s.live.remove(f.tx.input.reference);
    state::lemma_cells_added(rest, cells, cells.len() as int);
    state::lemma_ids_added(s.known_ids, cells, cells.len() as int);
    assert forall|cell: Cell| #[trigger] makes(f, cell) implies !s.known_ids.contains(
        cell.reference.id,
    ) && t.live[cell.reference] == cell && t.live.contains_key(cell.reference)
        && t.known_ids.contains(cell.reference.id) by {
        let j = choose|j: int| 0 <= j < cells.len() && #[trigger] cells[j] == cell;
        assert(cells[j].reference == cell.reference);
        assert(cells[j].reference.id == cell.reference.id);
    }
    assert forall|id: Digest| #[trigger] t.known_ids.contains(id) <==> s.known_ids.contains(id)
        || exists|cell: Cell| #[trigger] makes(f, cell) && cell.reference.id == id by {
        if t.known_ids.contains(id) && !s.known_ids.contains(id) {
            let j = choose|j: int| 0 <= j < cells.len() && (#[trigger] cells[j]).reference.id == id;
            assert(makes(f, cells[j]));
        }
    }
    assert forall|r: CellRef| #[trigger] t.live.contains_key(r) <==> s.live.contains_key(r) && r
        != f.tx.input.reference || exists|cell: Cell| #[trigger]
        makes(f, cell) && cell.reference == r by {
        if t.live.contains_key(r) && !rest.contains_key(r) {
            let j = choose|j: int| 0 <= j < cells.len() && (#[trigger] cells[j]).reference == r;
            assert(makes(f, cells[j]));
        }
        if s.live.contains_key(r) && r != f.tx.input.reference {
            assert(rest.contains_key(r));
        }
    }
    assert forall|r: CellRef| #[trigger]
        s.live.contains_key(r) && r != f.tx.input.reference implies t.live[r] == s.live[r] by {
        assert(rest.contains_key(r));
    }
    assert(s.live.contains_key(f.tx.input.reference));
}

proof fn lemma_joined_applied(
    s: StateModel,
    mid: StateModel,
    t: StateModel,
    list: Seq<FinalizedModel>,
    order: Seq<usize>,
    k: int,
)
    requires
        0 <= k < order.len(),
        settles_one(s, mid, list[order[k] as int]),
        settles_applied(mid, t, list, order, k + 1),
        settles_spent(mid, t, list, order, k + 1),
    ensures
        settles_applied(s, t, list, order, k),
        settles_spent(s, t, list, order, k),
{
    let f = list[order[k] as int];
    let (intent, input) = (model::intent_digest(f.tx), f.tx.input.reference);
    assert(mid.applied.contains_key(intent) && mid.spent_by.contains_key(input));
    assert forall|n: int| #[trigger] scheduled(order, k, n) implies t.applied[model::intent_digest(
        list[n].tx,
    )] == state::receipt_of(list[n].tx, list[n].qc) && t.spent_by[list[n].tx.input.reference]
        == model::intent_digest(list[n].tx) by {
        lemma_scheduled_step(order, k, n);
        assert(scheduled(order, k + 1, n) || n == order[k]);
    }
    assert forall|d: Digest| #[trigger] t.applied.contains_key(d) <==> s.applied.contains_key(d)
        || intends(list, order, k, d) by {
        lemma_intends_step(list, order, k, d);
        assert(mid.applied.contains_key(d) <==> s.applied.contains_key(d) || d == intent);
    }
    assert forall|d: Digest| #[trigger] s.applied.contains_key(d) implies t.applied[d]
        == s.applied[d] by {
        assert(mid.applied.contains_key(d));
    }
    assert forall|r: CellRef| #[trigger] t.spent_by.contains_key(r) <==> s.spent_by.contains_key(r)
        || spends(list, order, k, r) by {
        lemma_spends_step(list, order, k, r);
        assert(mid.spent_by.contains_key(r) <==> s.spent_by.contains_key(r) || r == input);
    }
    assert forall|r: CellRef| #[trigger] s.spent_by.contains_key(r) implies t.spent_by[r]
        == s.spent_by[r] by {
        assert(mid.spent_by.contains_key(r));
    }
}

proof fn lemma_joined_ids(
    s: StateModel,
    mid: StateModel,
    t: StateModel,
    list: Seq<FinalizedModel>,
    order: Seq<usize>,
    k: int,
)
    requires
        0 <= k < order.len(),
        settles_one(s, mid, list[order[k] as int]),
        settles_ids(mid, t, list, order, k + 1),
    ensures
        settles_ids(s, t, list, order, k),
{
    let f = list[order[k] as int];
    assert forall|cell: Cell| #[trigger] creates(list, order, k, cell) implies !s.known_ids.contains(
        cell.reference.id,
    ) by {
        lemma_creates_step(list, order, k, cell);
        if creates(list, order, k + 1, cell) {
            assert(!mid.known_ids.contains(cell.reference.id));
        } else {
            assert(makes(f, cell));
        }
    }
    assert forall|id: Digest| #[trigger] t.known_ids.contains(id) <==> s.known_ids.contains(id)
        || creates_id(list, order, k, id) by {
        lemma_creates_id_step(list, order, k, id);
        assert(mid.known_ids.contains(id) <==> s.known_ids.contains(id) || makes_id(f, id));
    }
}

proof fn lemma_joined_live(
    s: StateModel,
    mid: StateModel,
    t: StateModel,
    list: Seq<FinalizedModel>,
    order: Seq<usize>,
    k: int,
)
    requires
        0 <= k < order.len(),
        forall|r: CellRef| #[trigger] s.live.contains_key(r) ==> s.known_ids.contains(r.id),
        settles_one(s, mid, list[order[k] as int]),
        settles_ids(s, t, list, order, k),
        settles_ids(mid, t, list, order, k + 1),
        settles_live(mid, t, list, order, k + 1),
    ensures
        settles_live(s, t, list, order, k),
{
    let f = list[order[k] as int];
    let input = f.tx.input.reference;
    assert forall|r: CellRef| #[trigger] creates_at(list, order, k, r) implies r != input by {
        reveal(creates_at);
        let cell = choose|cell: Cell| #[trigger]
            creates(list, order, k, cell) && cell.reference == r;
        assert(!s.known_ids.contains(cell.reference.id));
    }
    assert forall|r: CellRef| #[trigger] t.live.contains_key(r) <==> (s.live.contains_key(r)
        || creates_at(list, order, k, r)) && !spends(list, order, k, r) by {
        lemma_spends_step(list, order, k, r);
        lemma_creates_at_step(list, order, k, r);
        assert(mid.live.contains_key(r) <==> s.live.contains_key(r) && r != input || makes_at(
            f,
            r,
        ));
    }
    assert forall|r: CellRef| #[trigger]
        s.live.contains_key(r) && t.live.contains_key(r) implies t.live[r] == s.live[r] by {
        lemma_spends_step(list, order, k, r);
        assert(mid.live.contains_key(r));
    }
    assert forall|cell: Cell| #[trigger]
        creates(list, order, k, cell) && t.live.contains_key(
            cell.reference,
        ) implies t.live[cell.reference] == cell by {
        lemma_creates_step(list, order, k, cell);
        if !creates(list, order, k + 1, cell) {
            assert(makes(f, cell));
            assert(makes_at(f, cell.reference)) by {
                reveal(makes_at);
            }
            assert(mid.live.contains_key(cell.reference));
        }
    }
}

proof fn lemma_settles(
    s: StateModel,
    list: Seq<FinalizedModel>,
    order: Seq<usize>,
    m: ManifestModel,
    k: int,
)
    requires
        state::state_finite(s),
        state::state_valid(s),
        0 <= k <= order.len(),
        controller::applied_from(s, list, order, m, k) is Ok,
    ensures
        settles(s, controller::applied_from(s, list, order, m, k)->Ok_0, list, order, k),
    decreases order.len() - k,
{
    if k < order.len() {
        let f = list[order[k] as int];
        let mid = state::state_after(s, f.tx, state::receipt_of(f.tx, f.qc));
        state::law_apply_keeps_consistency(s, f.tx, f.auth, f.prevote_qc, f.qc, m);
        lemma_settles_one(s, f, m);
        lemma_settles(mid, list, order, m, k + 1);
        let t = controller::applied_from(s, list, order, m, k)->Ok_0;
        lemma_joined_applied(s, mid, t, list, order, k);
        lemma_joined_ids(s, mid, t, list, order, k);
        lemma_joined_live(s, mid, t, list, order, k);
    } else {
        reveal(intends);
        reveal(spends);
        reveal(creates);
        reveal(creates_at);
        reveal(creates_id);
        assert forall|n: int| !#[trigger] scheduled(order, k, n) by {}
        assert forall|cell: Cell| !#[trigger] creates(list, order, k, cell) by {}
    }
}

/// Two schedules say the same of what they do.
proof fn lemma_same_parts(
    list: Seq<FinalizedModel>,
    a: Seq<usize>,
    b: Seq<usize>,
)
    requires
        forall|n: int| scheduled(a, 0, n) <==> #[trigger] scheduled(b, 0, n),
    ensures
        forall|d: Digest| #[trigger] intends(list, a, 0, d) ==> intends(list, b, 0, d),
        forall|r: CellRef| #[trigger] spends(list, a, 0, r) ==> spends(list, b, 0, r),
        forall|cell: Cell| #[trigger] creates(list, a, 0, cell) ==> creates(list, b, 0, cell),
        forall|r: CellRef| #[trigger] creates_at(list, a, 0, r) ==> creates_at(list, b, 0, r),
        forall|id: Digest| #[trigger] creates_id(list, a, 0, id) ==> creates_id(list, b, 0, id),
{
    reveal(intends);
    reveal(spends);
    reveal(creates);
    reveal(creates_at);
    reveal(creates_id);
    assert forall|d: Digest| #[trigger] intends(list, a, 0, d) implies intends(list, b, 0, d) by {
        let n = choose|n: int| #[trigger] scheduled(a, 0, n) && model::intent_digest(list[n].tx) == d;
        assert(scheduled(b, 0, n));
    }
    assert forall|r: CellRef| #[trigger] spends(list, a, 0, r) implies spends(list, b, 0, r) by {
        let n = choose|n: int| #[trigger] scheduled(a, 0, n) && list[n].tx.input.reference == r;
        assert(scheduled(b, 0, n));
    }
    assert forall|cell: Cell| #[trigger] creates(list, a, 0, cell) implies creates(
        list,
        b,
        0,
        cell,
    ) by {
        let n = choose|n: int| #[trigger] scheduled(a, 0, n) && makes(list[n], cell);
        assert(scheduled(b, 0, n));
    }
    assert forall|r: CellRef| #[trigger] creates_at(list, a, 0, r) implies creates_at(
        list,
        b,
        0,
        r,
    ) by {
        let cell = choose|cell: Cell| #[trigger] creates(list, a, 0, cell) && cell.reference == r;
        assert(creates(list, b, 0, cell));
    }
    assert forall|id: Digest| #[trigger] creates_id(list, a, 0, id) implies creates_id(
        list,
        b,
        0,
        id,
    ) by {
        let cell = choose|cell: Cell| #[trigger]
            creates(list, a, 0, cell) && cell.reference.id == id;
        assert(creates(list, b, 0, cell));
    }
}

/// Schedules converge: any two schedules that apply the same transfers to the same
/// state, and both come to their end, come to the same state.
pub proof fn law_schedules_converge(
    s: StateModel,
    list: Seq<FinalizedModel>,
    a: Seq<usize>,
    b: Seq<usize>,
    m: ManifestModel,
)
    requires
        state::state_finite(s),
        state::state_valid(s),
        forall|n: int| scheduled(a, 0, n) <==> #[trigger] scheduled(b, 0, n),
        controller::applied_from(s, list, a, m, 0) is Ok,
        controller::applied_from(s, list, b, m, 0) is Ok,
    ensures
        controller::applied_from(s, list, a, m, 0) == controller::applied_from(s, list, b, m, 0),
{
    reveal(intends);
    reveal(spends);
    reveal(creates_at);
    let (t, u) = (controller::applied_from(s, list, a, m, 0)->Ok_0, controller::applied_from(s, list, b, m, 0)->Ok_0);
    lemma_settles(s, list, a, m, 0);
    lemma_settles(s, list, b, m, 0);
    assert forall|n: int| scheduled(b, 0, n) <==> #[trigger] scheduled(a, 0, n) by {
        assert(scheduled(a, 0, n) <==> scheduled(b, 0, n));
    }
    lemma_same_parts(list, a, b);
    lemma_same_parts(list, b, a);
    assert forall|d: Digest| #[trigger] t.applied.contains_key(d) implies t.applied[d]
        == u.applied[d] by {
        if !s.applied.contains_key(d) {
            let n = choose|n: int| #[trigger] scheduled(a, 0, n) && model::intent_digest(list[n].tx) == d;
            assert(scheduled(b, 0, n));
        }
    }
    assert(t.applied =~= u.applied) by {
        assert forall|d: Digest| t.applied.contains_key(d) <==> #[trigger] u.applied.contains_key(
            d,
        ) by {
            assert(t.applied.contains_key(d) <==> s.applied.contains_key(d) || intends(
                list,
                a,
                0,
                d,
            ));
        }
    }
    assert forall|r: CellRef| #[trigger] t.spent_by.contains_key(r) implies t.spent_by[r]
        == u.spent_by[r] by {
        if !s.spent_by.contains_key(r) {
            let n = choose|n: int| #[trigger]
                scheduled(a, 0, n) && list[n].tx.input.reference == r;
            assert(scheduled(b, 0, n));
        }
    }
    assert(t.spent_by =~= u.spent_by) by {
        assert forall|r: CellRef| t.spent_by.contains_key(r) <==> #[trigger] u.spent_by.contains_key(
            r,
        ) by {
            assert(t.spent_by.contains_key(r) <==> s.spent_by.contains_key(r) || spends(
                list,
                a,
                0,
                r,
            ));
        }
    }
    assert(t.known_ids =~= u.known_ids) by {
        assert forall|id: Digest| t.known_ids.contains(id) <==> #[trigger] u.known_ids.contains(
            id,
        ) by {
            assert(t.known_ids.contains(id) <==> s.known_ids.contains(id) || creates_id(
                list,
                a,
                0,
                id,
            ));
        }
    }
    assert forall|r: CellRef| t.live.contains_key(r) <==> #[trigger] u.live.contains_key(r) by {
        assert(t.live.contains_key(r) <==> (s.live.contains_key(r) || creates_at(list, a, 0, r))
            && !spends(list, a, 0, r));
        assert(spends(list, a, 0, r) <==> spends(list, b, 0, r));
    }
    assert forall|r: CellRef| #[trigger] t.live.contains_key(r) implies t.live[r] == u.live[r] by {
        assert(u.live.contains_key(r));
        if !s.live.contains_key(r) {
            let cell = choose|cell: Cell| #[trigger]
                creates(list, a, 0, cell) && cell.reference == r;
            assert(creates(list, b, 0, cell));
            assert(t.live.contains_key(cell.reference));
            assert(u.live.contains_key(cell.reference));
        }
    }
    assert(t.live =~= u.live);
    assert(t == u);
}

} // verus!
