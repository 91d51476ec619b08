//! Bundles: a transaction takes all its inputs, from whatever shards, and makes
//! one output of the same value, or it does nothing.
use crate::engine;
use crate::engine::{make_id, mix64, salted_shard, Cell, VALUE};
use crate::ordmap;
use crate::ordmap::{OrdSet, Ordered};
use crate::perf002;
use std::collections::HashMap;
use vstd::prelude::*;

verus! {

/// What a run works on.
#[derive(Clone, Copy, Debug)]
pub struct Layout {
    pub txs: u64,
    pub arity: u64,
    pub shards: usize,
    pub bits: u32,
    pub conflict_pct: u32,
    pub input_salt: u64,
    pub conflict_salt: u64,
    pub output_salt: u64,
}

/// The first local part of an output.
pub const OUTPUT_BASE: u64 = 0x0001_0000_0000_0000;

/// How many inputs there are.
pub open spec fn inputs_total(l: Layout) -> int {
    l.txs * l.arity
}

/// The shards can be named, and all inputs can be told apart.
pub open spec fn layout_ok(l: Layout) -> bool {
    &&& engine::shard_bits_ok(l.shards, l.bits)
    &&& 1 <= l.arity <= 255
    &&& 0 <= inputs_total(l) < OUTPUT_BASE
    &&& engine::narrow(inputs_total(l) as u64, l.bits)
}

/// Outputs can be told from inputs too.
pub open spec fn outputs_apart(l: Layout) -> bool {
    engine::narrow((OUTPUT_BASE + l.txs) as u64, l.bits)
}

// ---------------------------------------------------------------------------
// Places.
// ---------------------------------------------------------------------------

/// Where an input is: its shard and its identifier.
pub open spec fn input_place(l: Layout, serial: u64) -> (usize, u64) {
    let sid = engine::shard_for(serial, l.input_salt, l.shards);
    (sid, engine::id_at((serial + 1) as u64, sid, l.bits))
}

/// Where an output is.
pub open spec fn output_place(l: Layout, tx: u64) -> (usize, u64) {
    let sid = engine::shard_for(tx, l.output_salt, l.shards);
    (sid, engine::id_at((OUTPUT_BASE + tx + 1) as u64, sid, l.bits))
}

pub fn input_shard(l: &Layout, serial: u64) -> (r: usize)
    requires
        l.shards > 0,
    ensures
        r == input_place(*l, serial).0,
        r < l.shards,
{
    salted_shard(serial, l.input_salt, l.shards)
}

pub fn input_id(l: &Layout, serial: u64) -> (r: u64)
    requires
        l.shards > 0,
        l.bits < 64,
        serial < u64::MAX,
    ensures
        r == input_place(*l, serial).1,
{
    make_id(serial + 1, input_shard(l, serial), l.bits)
}

pub fn output_shard(l: &Layout, tx: u64) -> (r: usize)
    requires
        l.shards > 0,
    ensures
        r == output_place(*l, tx).0,
        r < l.shards,
{
    salted_shard(tx, l.output_salt, l.shards)
}

pub fn output_id(l: &Layout, tx: u64, shard: usize) -> (r: u64)
    requires
        l.bits < 64,
        OUTPUT_BASE + tx + 1 <= u64::MAX,
    ensures
        r == engine::id_at((OUTPUT_BASE + tx + 1) as u64, shard, l.bits),
{
    make_id(OUTPUT_BASE + tx + 1, shard, l.bits)
}

/// The input that a transaction refers to: its own, or, where it is made to
/// conflict, the first of the transaction before it.
pub open spec fn referenced(l: Layout, tx: u64, k: int) -> u64 {
    if l.conflict_pct > 0 && tx > 0 && k == 0 && engine::mixed(tx ^ l.conflict_salt) % 100
        < l.conflict_pct {
        ((tx - 1) * l.arity) as u64
    } else {
        (tx * l.arity + k) as u64
    }
}

pub proof fn lemma_serial(l: Layout, tx: u64, k: int)
    requires
        layout_ok(l),
        tx < l.txs,
        0 <= k < l.arity,
    ensures
        0 <= tx * l.arity + k < inputs_total(l),
        tx > 0 ==> 0 <= (tx - 1) * l.arity < tx * l.arity,
        0 <= referenced(l, tx, k) < inputs_total(l),
{
    assert(tx * l.arity + k < l.txs * l.arity) by (nonlinear_arith)
        requires
            tx < l.txs,
            0 <= k < l.arity,
    ;
    assert(0 <= tx * l.arity) by (nonlinear_arith)
        requires
            0 <= tx,
            0 <= l.arity,
    ;
    if tx > 0 {
        assert(0 <= (tx - 1) * l.arity < tx * l.arity) by (nonlinear_arith)
            requires
                tx > 0,
                l.arity > 0,
        ;
    }
}

pub fn referenced_serial(l: &Layout, tx: u64, k: u64) -> (r: u64)
    requires
        layout_ok(*l),
        tx < l.txs,
        k < l.arity,
    ensures
        r == referenced(*l, tx, k as int),
        r < inputs_total(*l),
{
    proof {
        lemma_serial(*l, tx, k as int);
    }
    if l.conflict_pct > 0 && tx > 0 && k == 0 && mix64(tx ^ l.conflict_salt) % 100
        < l.conflict_pct as u64 {
        (tx - 1) * l.arity
    } else {
        tx * l.arity + k
    }
}

pub proof fn lemma_places(l: Layout, serial: u64)
    requires
        layout_ok(l),
        serial < inputs_total(l),
    ensures
        input_place(l, serial).0 < l.shards,
        engine::narrow((serial + 1) as u64, l.bits),
{
    engine::lemma_shard_for(serial, l.input_salt, l.shards);
    engine::lemma_narrow((serial + 1) as u64, inputs_total(l) as u64, l.bits);
}

proof fn lemma_output_place(l: Layout, tx: u64)
    requires
        layout_ok(l),
        tx < l.txs,
    ensures
        output_place(l, tx).0 < l.shards,
        engine::narrow((tx + 1) as u64, l.bits),
        l.txs < OUTPUT_BASE,
        outputs_apart(l) ==> engine::narrow((OUTPUT_BASE + tx + 1) as u64, l.bits),
{
    engine::lemma_shard_for(tx, l.output_salt, l.shards);
    assert(l.txs <= l.txs * l.arity) by (nonlinear_arith)
        requires
            l.arity >= 1,
    ;
    engine::lemma_narrow((tx + 1) as u64, inputs_total(l) as u64, l.bits);
    if outputs_apart(l) {
        engine::lemma_narrow((OUTPUT_BASE + tx + 1) as u64, (OUTPUT_BASE + l.txs) as u64, l.bits);
    }
}

/// No two inputs are in the same place.
pub proof fn law_inputs_are_apart(l: Layout, a: u64, b: u64)
    requires
        layout_ok(l),
        a < inputs_total(l),
        b < inputs_total(l),
        input_place(l, a) == input_place(l, b),
    ensures
        a == b,
{
    lemma_places(l, a);
    lemma_places(l, b);
    engine::law_ids_are_distinct(
        (a + 1) as u64,
        input_place(l, a).0,
        (b + 1) as u64,
        input_place(l, b).0,
        l.shards,
        l.bits,
    );
}

/// No two outputs are in the same place.
pub proof fn law_outputs_are_apart(l: Layout, a: u64, b: u64)
    requires
        layout_ok(l),
        a < l.txs,
        b < l.txs,
        output_place(l, a).1 == output_place(l, b).1,
    ensures
        a == b,
{
    lemma_output_place(l, a);
    lemma_output_place(l, b);
    engine::lemma_mask(l.shards, l.bits);
    let (x, y, bits, m) = ((a + 1) as u64, (b + 1) as u64, l.bits, engine::mask_of(l.shards));
    let (u, v) = ((OUTPUT_BASE + a + 1) as u64, (OUTPUT_BASE + b + 1) as u64);
    let (p, q) = (output_place(l, a).0 as u64, output_place(l, b).0 as u64);
    assert(x == y) by (bit_vector)
        requires
            bits < 64,
            m + 1 == 1u64 << bits,
            p <= m,
            q <= m,
            u == 0x0001_0000_0000_0000u64 + x,
            v == 0x0001_0000_0000_0000u64 + y,
            (x << bits) >> bits == x,
            (y << bits) >> bits == y,
            ((u << bits) | p) == ((v << bits) | q),
    ;
}

/// No output is in the place of an input.
pub proof fn law_outputs_are_no_inputs(l: Layout, tx: u64, serial: u64)
    requires
        layout_ok(l),
        outputs_apart(l),
        tx < l.txs,
        serial < inputs_total(l),
    ensures
        output_place(l, tx).1 != input_place(l, serial).1,
{
    lemma_output_place(l, tx);
    lemma_places(l, serial);
    if output_place(l, tx).1 == input_place(l, serial).1 {
        engine::law_ids_are_distinct(
            (OUTPUT_BASE + tx + 1) as u64,
            output_place(l, tx).0,
            (serial + 1) as u64,
            input_place(l, serial).0,
            l.shards,
            l.bits,
        );
    }
}

/// A transaction refers to no input twice.
pub proof fn law_references_are_apart(l: Layout, tx: u64, j: int, k: int)
    requires
        layout_ok(l),
        tx < l.txs,
        0 <= j < k < l.arity,
    ensures
        referenced(l, tx, j) != referenced(l, tx, k),
{
    lemma_serial(l, tx, j);
    lemma_serial(l, tx, k);
}

// ---------------------------------------------------------------------------
// The state.
// ---------------------------------------------------------------------------

/// The contents of the shards.
pub open spec fn shard_maps(v: Seq<HashMap<u64, Cell>>) -> Seq<Map<u64, Cell>> {
    v.map_values(|m: HashMap<u64, Cell>| m@)
}

/// How many cells the first `n` shards hold.
pub open spec fn cells_in(maps: Seq<Map<u64, Cell>>, n: int) -> int
    decreases n,
{
    if n <= 0 || n > maps.len() {
        0
    } else {
        cells_in(maps, n - 1) + maps[n - 1].len()
    }
}

/// The value of the cells of the first `n` shards.
pub open spec fn value_in(maps: Seq<Map<u64, Cell>>, n: int) -> int
    decreases n,
{
    if n <= 0 || n > maps.len() {
        0
    } else {
        value_in(maps, n - 1) + ordmap::weight(maps[n - 1], perf002::cell_value())
    }
}

/// The shards hold finitely many cells.
pub open spec fn shards_finite(maps: Seq<Map<u64, Cell>>) -> bool {
    forall|i: int| 0 <= i < maps.len() ==> (#[trigger] maps[i]).dom().finite()
}

pub proof fn lemma_totals_update(maps: Seq<Map<u64, Cell>>, i: int, m: Map<u64, Cell>, n: int)
    requires
        0 <= i < maps.len(),
        0 <= n <= maps.len(),
    ensures
        cells_in(maps.update(i, m), n) == cells_in(maps, n) + if i < n {
            m.len() - maps[i].len()
        } else {
            0
        },
        value_in(maps.update(i, m), n) == value_in(maps, n) + if i < n {
            ordmap::weight(m, perf002::cell_value()) - ordmap::weight(maps[i], perf002::cell_value())
        } else {
            0
        },
    decreases n,
{
    if n > 0 {
        lemma_totals_update(maps, i, m, n - 1);
    }
}

/// The shards with a cell put into one of them.
pub open spec fn with_cell(maps: Seq<Map<u64, Cell>>, sid: int, cell: Cell) -> Seq<
    Map<u64, Cell>,
> {
    maps.update(sid, maps[sid].insert(cell.id, cell))
}

/// The shards with a cell taken out of one of them.
pub open spec fn without_cell(maps: Seq<Map<u64, Cell>>, sid: int, id: u64) -> Seq<
    Map<u64, Cell>,
> {
    maps.update(sid, maps[sid].remove(id))
}

/// Putting a new cell in adds one cell and its value.
pub proof fn lemma_with_cell(maps: Seq<Map<u64, Cell>>, sid: int, cell: Cell)
    requires
        0 <= sid < maps.len(),
        shards_finite(maps),
        !maps[sid].contains_key(cell.id),
    ensures
        shards_finite(with_cell(maps, sid, cell)),
        cells_in(with_cell(maps, sid, cell), maps.len() as int) == cells_in(
            maps,
            maps.len() as int,
        ) + 1,
        value_in(with_cell(maps, sid, cell), maps.len() as int) == value_in(
            maps,
            maps.len() as int,
        ) + cell.value,
{
    assert(maps[sid].dom().finite());
    ordmap::lemma_weight_insert(maps[sid], perf002::cell_value(), cell.id, cell);
    lemma_totals_update(maps, sid, maps[sid].insert(cell.id, cell), maps.len() as int);
    assert forall|i: int| 0 <= i < maps.len() implies (#[trigger] with_cell(
        maps,
        sid,
        cell,
    )[i]).dom().finite() by {
        assert(maps[i].dom().finite());
    }
}

/// Taking a cell out takes one cell and its value away.
pub proof fn lemma_without_cell(maps: Seq<Map<u64, Cell>>, sid: int, id: u64)
    requires
        0 <= sid < maps.len(),
        shards_finite(maps),
        maps[sid].contains_key(id),
    ensures
        shards_finite(without_cell(maps, sid, id)),
        cells_in(without_cell(maps, sid, id), maps.len() as int) == cells_in(
            maps,
            maps.len() as int,
        ) - 1,
        value_in(without_cell(maps, sid, id), maps.len() as int) == value_in(
            maps,
            maps.len() as int,
        ) - maps[sid][id].value,
{
    assert(maps[sid].dom().finite());
    ordmap::lemma_weight_remove(maps[sid], perf002::cell_value(), id);
    lemma_totals_update(maps, sid, maps[sid].remove(id), maps.len() as int);
    assert forall|i: int| 0 <= i < maps.len() implies (#[trigger] without_cell(
        maps,
        sid,
        id,
    )[i]).dom().finite() by {
        assert(maps[i].dom().finite());
    }
}

/// An input as it is made.
pub open spec fn input_cell(l: Layout, serial: u64) -> Cell {
    Cell { id: input_place(l, serial).1, value: VALUE, generation: 0 }
}

/// The shards with the first `n` inputs.
pub open spec fn filled(l: Layout, n: int) -> Seq<Map<u64, Cell>>
    decreases n,
{
    if n <= 0 {
        Seq::new(l.shards as nat, |i: int| Map::<u64, Cell>::empty())
    } else {
        with_cell(
            filled(l, n - 1),
            input_place(l, (n - 1) as u64).0 as int,
            input_cell(l, (n - 1) as u64),
        )
    }
}

/// Every cell of the shards is an input below `n`, in its place.
pub open spec fn inputs_below(l: Layout, maps: Seq<Map<u64, Cell>>, n: int) -> bool {
    forall|i: int, id: u64|
        0 <= i < maps.len() && #[trigger] maps[i].contains_key(id) ==> exists|s: u64|
            s < n && #[trigger] input_place(l, s) == (i as usize, id)
}

/// Every input below `n` is there, as it was made.
pub open spec fn inputs_there(l: Layout, maps: Seq<Map<u64, Cell>>, from: int, n: int) -> bool {
    forall|s: u64|
        from <= s < n ==> maps[(#[trigger] input_place(l, s)).0 as int].contains_key(
            input_place(l, s).1,
        )
}

/// Each input that is there is as it was made.
pub open spec fn inputs_plain(l: Layout, maps: Seq<Map<u64, Cell>>) -> bool {
    forall|s: u64|
        s < inputs_total(l) && maps[(#[trigger] input_place(l, s)).0 as int].contains_key(
            input_place(l, s).1,
        ) ==> maps[input_place(l, s).0 as int][input_place(l, s).1] == input_cell(l, s)
}

proof fn lemma_empty_totals(maps: Seq<Map<u64, Cell>>, n: int)
    requires
        0 <= n <= maps.len(),
        forall|i: int| 0 <= i < maps.len() ==> #[trigger] maps[i] == Map::<u64, Cell>::empty(),
    ensures
        cells_in(maps, n) == 0,
        value_in(maps, n) == 0,
    decreases n,
{
    if n > 0 {
        lemma_empty_totals(maps, n - 1);
        perf002::lemma_weight_empty();
    }
}

/// The shards at the start: as many cells as there are inputs, each worth the
/// same.
pub proof fn lemma_filled(l: Layout, n: int)
    requires
        layout_ok(l),
        0 <= n <= inputs_total(l),
    ensures
        filled(l, n).len() == l.shards,
        shards_finite(filled(l, n)),
        cells_in(filled(l, n), l.shards as int) == n,
        value_in(filled(l, n), l.shards as int) == n * VALUE,
        inputs_below(l, filled(l, n), n),
        inputs_there(l, filled(l, n), 0, n),
        inputs_plain(l, filled(l, n)),
    decreases n,
{
    if n <= 0 {
        lemma_empty_totals(filled(l, n), l.shards as int);
        assert forall|s: u64| s < inputs_total(l) implies !filled(l, n)[(#[trigger] input_place(
            l,
            s,
        )).0 as int].contains_key(input_place(l, s).1) by {
            lemma_places(l, s);
        }
    } else {
        lemma_filled(l, n - 1);
        let s = (n - 1) as u64;
        let before = filled(l, n - 1);
        let after = filled(l, n);
        let (sid, id) = input_place(l, s);
        lemma_places(l, s);
        if before[sid as int].contains_key(id) {
            let t = choose|t: u64| t < n - 1 && #[trigger] input_place(l, t) == (sid, id);
            law_inputs_are_apart(l, s, t);
        }
        lemma_with_cell(before, sid as int, input_cell(l, s));
        assert forall|i: int, k: u64|
            0 <= i < after.len() && #[trigger] after[i].contains_key(k) implies exists|t: u64|
            t < n && #[trigger] input_place(l, t) == (i as usize, k) by {
            if before[i].contains_key(k) {
                let t = choose|t: u64|
                    t < n - 1 && #[trigger] input_place(l, t) == (i as usize, k);
                assert(input_place(l, t) == (i as usize, k));
            } else {
                assert(input_place(l, s) == (i as usize, k));
            }
        }
        assert forall|t: u64| 0 <= t < n implies after[(#[trigger] input_place(
            l,
            t,
        )).0 as int].contains_key(input_place(l, t).1) by {
            lemma_places(l, t);
        }
        assert forall|t: u64|
            t < inputs_total(l) && after[(#[trigger] input_place(l, t)).0 as int].contains_key(
                input_place(l, t).1,
            ) implies after[input_place(l, t).0 as int][input_place(l, t).1] == input_cell(
            l,
            t,
        ) by {
            lemma_places(l, t);
            if input_place(l, t) == (sid, id) {
                law_inputs_are_apart(l, s, t);
            }
        }
    }
}

/// Builds the shards with all inputs.
pub fn new_state(l: &Layout) -> (r: Vec<HashMap<u64, Cell>>)
    requires
        layout_ok(*l),
    ensures
        shard_maps(r@) == filled(*l, inputs_total(*l)),
{
    let mut maps: Vec<HashMap<u64, Cell>> = Vec::new();
    let mut i: usize = 0;
    while i < l.shards
        invariant
            i <= l.shards,
            shard_maps(maps@) == Seq::new(i as nat, |j: int| Map::<u64, Cell>::empty()),
        decreases l.shards - i,
    {
        let ghost before = shard_maps(maps@);
        let none: HashMap<u64, Cell> = HashMap::new();
        maps.push(none);
        i = i + 1;
        assert(shard_maps(maps@) =~= before.push(none@));
        assert(shard_maps(maps@) =~= Seq::new(i as nat, |j: int| Map::<u64, Cell>::empty()));
    }
    let total: u64 = l.txs * l.arity;
    let mut serial: u64 = 0;
    while serial < total
        invariant
            layout_ok(*l),
            serial <= total,
            total == inputs_total(*l),
            shard_maps(maps@) == filled(*l, serial as int),
        decreases total - serial,
    {
        proof {
            lemma_filled(*l, serial as int);
        }
        let sid: usize = input_shard(l, serial);
        let id: u64 = input_id(l, serial);
        put_cell(&mut maps, sid, Cell { id, value: VALUE, generation: 0 });
        serial = serial + 1;
    }
    maps
}

/// Puts a cell into a shard.
pub fn put_cell(maps: &mut Vec<HashMap<u64, Cell>>, sid: usize, cell: Cell)
    requires
        sid < old(maps)@.len(),
    ensures
        shard_maps(final(maps)@) == with_cell(shard_maps(old(maps)@), sid as int, cell),
        final(maps)@.len() == old(maps)@.len(),
{
    let ghost before = maps@;
    maps[sid].insert(cell.id, cell);
    proof {
        assert(maps@ =~= before.update(sid as int, maps@[sid as int]));
        assert(shard_maps(maps@) =~= with_cell(shard_maps(before), sid as int, cell));
    }
}

/// Takes a cell out of a shard.
pub fn take_cell(maps: &mut Vec<HashMap<u64, Cell>>, sid: usize, id: u64) -> (r: Option<Cell>)
    requires
        sid < old(maps)@.len(),
    ensures
        final(maps)@.len() == old(maps)@.len(),
        r == if shard_maps(old(maps)@)[sid as int].contains_key(id) {
            Some(shard_maps(old(maps)@)[sid as int][id])
        } else {
            None
        },
        shard_maps(final(maps)@) == without_cell(shard_maps(old(maps)@), sid as int, id),
{
    let ghost before = maps@;
    let taken: Option<Cell> = maps[sid].remove(&id);
    proof {
        assert(maps@ =~= before.update(sid as int, maps@[sid as int]));
        assert(shard_maps(before)[sid as int] == before[sid as int]@);
        assert(shard_maps(maps@) =~= without_cell(shard_maps(before), sid as int, id));
    }
    taken
}

// ---------------------------------------------------------------------------
// One transaction at a time.
// ---------------------------------------------------------------------------

/// The place of the input number `k` of a transaction.
pub open spec fn reference(l: Layout, tx: u64, k: int) -> (usize, u64) {
    input_place(l, referenced(l, tx, k))
}

/// Whether the input number `k` of a transaction is there.
pub open spec fn reference_there(l: Layout, maps: Seq<Map<u64, Cell>>, tx: u64, k: int) -> bool {
    maps[reference(l, tx, k).0 as int].contains_key(reference(l, tx, k).1)
}

/// All inputs of a transaction are there.
pub open spec fn all_there(l: Layout, maps: Seq<Map<u64, Cell>>, tx: u64) -> bool {
    forall|k: int| 0 <= k < l.arity ==> #[trigger] reference_there(l, maps, tx, k)
}

/// The shards without the first `n` inputs of a transaction.
pub open spec fn without_references(l: Layout, maps: Seq<Map<u64, Cell>>, tx: u64, n: int) -> Seq<
    Map<u64, Cell>,
>
    decreases n,
{
    if n <= 0 {
        maps
    } else {
        without_cell(
            without_references(l, maps, tx, n - 1),
            reference(l, tx, n - 1).0 as int,
            reference(l, tx, n - 1).1,
        )
    }
}

/// What the first `n` inputs of a transaction add to the checksum.
pub open spec fn references_checksum(l: Layout, tx: u64, n: int) -> u64
    decreases n,
{
    if n <= 0 {
        0
    } else {
        references_checksum(l, tx, n - 1) ^ engine::mixed(reference(l, tx, n - 1).1 ^ 0u64 ^ VALUE)
    }
}

/// The output of a transaction.
pub open spec fn bundle_output(l: Layout, tx: u64) -> Cell {
    Cell { id: output_place(l, tx).1, value: (l.arity * VALUE) as u64, generation: 1 }
}

/// What an output adds to the checksum.
pub open spec fn output_checksum(l: Layout, tx: u64) -> u64 {
    engine::mixed(bundle_output(l, tx).id ^ bundle_output(l, tx).value ^ 1u64)
}

/// The shards after a transaction whose inputs are all there.
pub open spec fn after_bundle(l: Layout, maps: Seq<Map<u64, Cell>>, tx: u64) -> Seq<
    Map<u64, Cell>,
> {
    with_cell(
        without_references(l, maps, tx, l.arity as int),
        output_place(l, tx).0 as int,
        bundle_output(l, tx),
    )
}

/// What taking the first `n` inputs of a transaction leaves.
proof fn lemma_without_references(l: Layout, maps: Seq<Map<u64, Cell>>, tx: u64, n: int)
    requires
        layout_ok(l),
        tx < l.txs,
        maps.len() == l.shards,
        shards_finite(maps),
        inputs_plain(l, maps),
        all_there(l, maps, tx),
        0 <= n <= l.arity,
    ensures
        ({
            let left = without_references(l, maps, tx, n);
            &&& left.len() == maps.len()
            &&& shards_finite(left)
            &&& cells_in(left, l.shards as int) == cells_in(maps, l.shards as int) - n
            &&& value_in(left, l.shards as int) == value_in(maps, l.shards as int) - n * VALUE
            &&& forall|k: int|
                n <= k < l.arity ==> #[trigger] reference_there(l, left, tx, k) && left[reference(
                    l,
                    tx,
                    k,
                ).0 as int][reference(l, tx, k).1] == input_cell(l, referenced(l, tx, k))
            &&& forall|i: int, id: u64|
                0 <= i < maps.len() && #[trigger] left[i].contains_key(id)
                    ==> maps[i].contains_key(id) && left[i][id] == maps[i][id]
        }),
    decreases n,
{
    if n <= 0 {
        assert forall|k: int| 0 <= k < l.arity implies #[trigger] reference_there(l, maps, tx, k)
            && maps[reference(l, tx, k).0 as int][reference(l, tx, k).1] == input_cell(
            l,
            referenced(l, tx, k),
        ) by {
            lemma_serial(l, tx, k);
            let s = referenced(l, tx, k);
            assert(reference_there(l, maps, tx, k));
            assert(maps[input_place(l, s).0 as int].contains_key(input_place(l, s).1));
            assert(maps[input_place(l, s).0 as int][input_place(l, s).1] == input_cell(l, s));
        }
    } else {
        lemma_without_references(l, maps, tx, n - 1);
        let before = without_references(l, maps, tx, n - 1);
        let left = without_references(l, maps, tx, n);
        let (sid, id) = reference(l, tx, n - 1);
        lemma_serial(l, tx, n - 1);
        lemma_places(l, referenced(l, tx, n - 1));
        assert(reference_there(l, before, tx, n - 1));
        lemma_without_cell(before, sid as int, id);
        assert forall|k: int| n <= k < l.arity implies #[trigger] reference_there(l, left, tx, k)
            && left[reference(l, tx, k).0 as int][reference(l, tx, k).1] == input_cell(
            l,
            referenced(l, tx, k),
        ) by {
            assert(reference_there(l, before, tx, k));
            lemma_serial(l, tx, k);
            lemma_places(l, referenced(l, tx, k));
            law_references_are_apart(l, tx, n - 1, k);
            if reference(l, tx, k) == (sid, id) {
                law_inputs_are_apart(l, referenced(l, tx, n - 1), referenced(l, tx, k));
            }
        }
    }
}

fn references_present(l: &Layout, maps: &Vec<HashMap<u64, Cell>>, tx: u64) -> (r: bool)
    requires
        layout_ok(*l),
        tx < l.txs,
        maps@.len() == l.shards,
    ensures
        r == all_there(*l, shard_maps(maps@), tx),
{
    let mut k: u64 = 0;
    while k < l.arity
        invariant
            layout_ok(*l),
            tx < l.txs,
            maps@.len() == l.shards,
            k <= l.arity,
            forall|j: int|
                0 <= j < k ==> #[trigger] reference_there(*l, shard_maps(maps@), tx, j),
        decreases l.arity - k,
    {
        let serial: u64 = referenced_serial(l, tx, k);
        let sid: usize = input_shard(l, serial);
        let id: u64 = input_id(l, serial);
        assert(shard_maps(maps@)[sid as int] == maps@[sid as int]@);
        if !maps[sid].contains_key(&id) {
            assert(!reference_there(*l, shard_maps(maps@), tx, k as int));
            return false;
        }
        k = k + 1;
    }
    true
}

/// Makes a transaction if all its inputs are there; the result is what it adds to
/// the checksum. Otherwise nothing changes.
pub fn bundle_step(l: &Layout, maps: &mut Vec<HashMap<u64, Cell>>, tx: u64) -> (r: Option<u64>)
    requires
        layout_ok(*l),
        tx < l.txs,
        old(maps)@.len() == l.shards,
        shards_finite(shard_maps(old(maps)@)),
        inputs_plain(*l, shard_maps(old(maps)@)),
        !shard_maps(old(maps)@)[output_place(*l, tx).0 as int].contains_key(
            output_place(*l, tx).1,
        ),
    ensures
        final(maps)@.len() == old(maps)@.len(),
        if all_there(*l, shard_maps(old(maps)@), tx) {
            r == Some(
                references_checksum(*l, tx, l.arity as int) ^ output_checksum(*l, tx),
            ) && shard_maps(final(maps)@) == after_bundle(*l, shard_maps(old(maps)@), tx)
        } else {
            r is None && shard_maps(final(maps)@) == shard_maps(old(maps)@)
        },
{
    if !references_present(l, maps, tx) {
        return None;
    }
    let ghost before = shard_maps(maps@);
    let mut value: u64 = 0;
    let mut newest: u64 = 0;
    let mut checksum: u64 = 0;
    let mut k: u64 = 0;
    proof {
        lemma_without_references(*l, before, tx, 0);
    }
    while k < l.arity
        invariant
            layout_ok(*l),
            tx < l.txs,
            k <= l.arity,
            maps@.len() == l.shards,
            before.len() == l.shards,
            shards_finite(before),
            inputs_plain(*l, before),
            all_there(*l, before, tx),
            shard_maps(maps@) == without_references(*l, before, tx, k as int),
            value == k * VALUE,
            newest == 0,
            checksum == references_checksum(*l, tx, k as int),
        decreases l.arity - k,
    {
        proof {
            lemma_without_references(*l, before, tx, k as int);
            assert(reference_there(*l, shard_maps(maps@), tx, k as int));
        }
        let serial: u64 = referenced_serial(l, tx, k);
        let sid: usize = input_shard(l, serial);
        let id: u64 = input_id(l, serial);
        if let Some(cell) = take_cell(maps, sid, id) {
            value = value + cell.value;
            if cell.generation > newest {
                newest = cell.generation;
            }
            checksum = checksum ^ mix64(cell.id ^ cell.generation ^ cell.value);
        }
        k = k + 1;
    }
    proof {
        lemma_output_place(*l, tx);
    }
    let sid: usize = output_shard(l, tx);
    let id: u64 = output_id(l, tx, sid);
    let next: Cell = Cell { id, value, generation: newest + 1 };
    put_cell(maps, sid, next);
    Some(checksum ^ mix64(next.id ^ next.value ^ next.generation))
}

/// What holds of the shards after some transactions: the inputs that are left are
/// as they were made, no other transaction has an output, and the cells and their
/// value add up.
pub open spec fn bundles_ok(
    l: Layout,
    maps: Seq<Map<u64, Cell>>,
    done: Set<u64>,
    committed: int,
) -> bool {
    &&& maps.len() == l.shards
    &&& shards_finite(maps)
    &&& inputs_plain(l, maps)
    &&& forall|tx: u64|
        tx < l.txs && !done.contains(tx) ==> !maps[(#[trigger] output_place(
            l,
            tx,
        )).0 as int].contains_key(output_place(l, tx).1)
    &&& value_in(maps, l.shards as int) == inputs_total(l) * VALUE
    &&& cells_in(maps, l.shards as int) == inputs_total(l) - committed * l.arity + committed
}

/// At the start everything adds up.
pub proof fn law_bundles_start(l: Layout)
    requires
        layout_ok(l),
        outputs_apart(l),
    ensures
        bundles_ok(l, filled(l, inputs_total(l)), Set::empty(), 0),
{
    lemma_filled(l, inputs_total(l));
    let maps = filled(l, inputs_total(l));
    assert forall|tx: u64| tx < l.txs implies !maps[(#[trigger] output_place(
        l,
        tx,
    )).0 as int].contains_key(output_place(l, tx).1) by {
        lemma_output_place(l, tx);
        let (sid, id) = output_place(l, tx);
        if maps[sid as int].contains_key(id) {
            let s = choose|s: u64| s < inputs_total(l) && #[trigger] input_place(l, s) == (sid, id);
            law_outputs_are_no_inputs(l, tx, s);
        }
    }
    assert(0 * l.arity == 0) by (nonlinear_arith);
}

/// Value is conserved: whatever transaction comes next, in whatever order, the
/// cells and their value still add up, whether it is made or not.
pub proof fn law_bundle_conserves_value(
    l: Layout,
    maps: Seq<Map<u64, Cell>>,
    done: Set<u64>,
    committed: int,
    tx: u64,
)
    requires
        layout_ok(l),
        outputs_apart(l),
        tx < l.txs,
        !done.contains(tx),
        bundles_ok(l, maps, done, committed),
    ensures
        all_there(l, maps, tx) ==> bundles_ok(
            l,
            after_bundle(l, maps, tx),
            done.insert(tx),
            committed + 1,
        ),
        bundles_ok(l, maps, done.insert(tx), committed),
{
    if all_there(l, maps, tx) {
        let left = without_references(l, maps, tx, l.arity as int);
        let after = after_bundle(l, maps, tx);
        let (sid, id) = output_place(l, tx);
        lemma_without_references(l, maps, tx, l.arity as int);
        lemma_output_place(l, tx);
        assert(!left[sid as int].contains_key(id));
        lemma_with_cell(left, sid as int, bundle_output(l, tx));
        assert forall|s: u64|
            s < inputs_total(l) && after[(#[trigger] input_place(l, s)).0 as int].contains_key(
                input_place(l, s).1,
            ) implies after[input_place(l, s).0 as int][input_place(l, s).1] == input_cell(
            l,
            s,
        ) by {
            lemma_places(l, s);
            law_outputs_are_no_inputs(l, tx, s);
        }
        assert forall|t: u64|
            t < l.txs && !done.insert(tx).contains(t) implies !after[(#[trigger] output_place(
            l,
            t,
        )).0 as int].contains_key(output_place(l, t).1) by {
            lemma_output_place(l, t);
            if output_place(l, t).1 == id {
                law_outputs_are_apart(l, t, tx);
            }
        }
        assert((committed + 1) * l.arity == committed * l.arity + l.arity) by (nonlinear_arith);
    }
}

/// How many cells there are, and their value.
pub fn count_state(maps: &Vec<HashMap<u64, Cell>>) -> (r: (u64, u128))
    requires
        value_in(shard_maps(maps@), maps@.len() as int) <= u128::MAX,
        cells_in(shard_maps(maps@), maps@.len() as int) <= u64::MAX,
    ensures
        r.0 == cells_in(shard_maps(maps@), maps@.len() as int),
        r.1 == value_in(shard_maps(maps@), maps@.len() as int),
{
    let ghost all = shard_maps(maps@);
    let mut cells: u64 = 0;
    let mut value: u128 = 0;
    let mut i: usize = 0;
    while i < maps.len()
        invariant
            i <= maps@.len(),
            all == shard_maps(maps@),
            value_in(all, all.len() as int) <= u128::MAX,
            cells_in(all, all.len() as int) <= u64::MAX,
            cells == cells_in(all, i as int),
            value == value_in(all, i as int),
        decreases maps@.len() - i,
    {
        proof {
            lemma_totals_grow(all, i + 1, all.len() as int);
            assert(all[i as int] == maps@[i as int]@);
        }
        cells = cells + maps[i].len() as u64;
        value = value + map_value(&maps[i]);
        i = i + 1;
    }
    (cells, value)
}

proof fn lemma_totals_grow(maps: Seq<Map<u64, Cell>>, n: int, m: int)
    requires
        0 <= n <= m <= maps.len(),
    ensures
        0 <= cells_in(maps, n) <= cells_in(maps, m),
        0 <= value_in(maps, n) <= value_in(maps, m),
    decreases m,
{
    if n < m {
        lemma_totals_grow(maps, n, m - 1);
    } else if n > 0 {
        lemma_totals_grow(maps, n - 1, m - 1);
    }
}

/// The value of the cells of one shard.
pub fn map_value(m: &HashMap<u64, Cell>) -> (r: u128)
    requires
        ordmap::weight(m@, perf002::cell_value()) <= u128::MAX,
    ensures
        r == ordmap::weight(m@, perf002::cell_value()),
{
    let mut value: u128 = 0;
    let ghost mut left: Map<u64, Cell> = m@;
    for entry in walk: m.iter()
        invariant
            ordmap::weight(m@, perf002::cell_value()) <= u128::MAX,
            value + ordmap::weight(left, perf002::cell_value()) == ordmap::weight(
                m@,
                perf002::cell_value(),
            ),
            left.dom().finite(),
            left.submap_of(m@),
            walk.seq().no_duplicates(),
            forall|i: int|
                0 <= i < walk.seq().len() ==> m@.contains_key(*(#[trigger] walk.seq()[i]).0)
                    && m@[*walk.seq()[i].0] == *walk.seq()[i].1,
            forall|i: int|
                walk.index() <= i < walk.seq().len() ==> left.contains_key(
                    *(#[trigger] walk.seq()[i]).0,
                ),
            forall|k: u64| #[trigger]
                left.contains_key(k) ==> exists|i: int|
                    walk.index() <= i < walk.seq().len() && *(#[trigger] walk.seq()[i]).0 == k,
    {
        let ghost id = *entry.0;
        proof {
            ordmap::lemma_weight_remove(left, perf002::cell_value(), id);
        }
        value = value + entry.1.value as u128;
        proof {
            left = left.remove(id);
        }
    }
    proof {
        perf002::lemma_weight_empty();
        assert(left =~= Map::<u64, Cell>::empty());
    }
    value
}

// ---------------------------------------------------------------------------
// A run.
// ---------------------------------------------------------------------------

/// Where a run stands after some transactions in order.
#[verifier::ext_equal]
pub struct BundleRun {
    pub maps: Seq<Map<u64, Cell>>,
    pub committed: int,
    pub checksum: u64,
}

/// A run after the first `n` transactions.
pub open spec fn bundle_run(l: Layout, n: int) -> BundleRun
    decreases n,
{
    if n <= 0 {
        BundleRun { maps: filled(l, inputs_total(l)), committed: 0, checksum: 0 }
    } else {
        let before = bundle_run(l, n - 1);
        let tx = (n - 1) as u64;
        if all_there(l, before.maps, tx) {
            BundleRun {
                maps: after_bundle(l, before.maps, tx),
                committed: before.committed + 1,
                checksum: before.checksum ^ (references_checksum(l, tx, l.arity as int)
                    ^ output_checksum(l, tx)),
            }
        } else {
            before
        }
    }
}

/// The transactions below `n`.
pub open spec fn below(n: int) -> Set<u64> {
    Set::new(|t: u64| t < n)
}

proof fn lemma_bundle_run(l: Layout, n: int)
    requires
        layout_ok(l),
        outputs_apart(l),
        0 <= n <= l.txs,
    ensures
        bundles_ok(l, bundle_run(l, n).maps, below(n), bundle_run(l, n).committed),
        0 <= bundle_run(l, n).committed <= n,
    decreases n,
{
    if n <= 0 {
        law_bundles_start(l);
        assert(below(n) =~= Set::empty());
    } else {
        lemma_bundle_run(l, n - 1);
        let before = bundle_run(l, n - 1);
        let tx = (n - 1) as u64;
        law_bundle_conserves_value(l, before.maps, below(n - 1), before.committed, tx);
        assert(below(n - 1).insert(tx) =~= below(n));
    }
}

/// What a run gives.
#[derive(Clone, Copy, Debug, PartialEq, Eq, Structural)]
pub struct BundleTotals {
    pub committed: u64,
    pub aborted: u64,
    pub checksum: u64,
    pub final_cells: u64,
    pub total_value: u128,
}

/// Runs all transactions in order. Every one is made or not made; in the end there
/// is one cell for each that was made and for each input that is left, and the
/// value is what it was.
pub fn run_bundles(l: &Layout) -> (r: BundleTotals)
    requires
        layout_ok(*l),
        outputs_apart(*l),
    ensures
        r.committed == bundle_run(*l, l.txs as int).committed,
        r.committed + r.aborted == l.txs,
        r.checksum == bundle_run(*l, l.txs as int).checksum,
        r.final_cells == inputs_total(*l) - r.committed * l.arity + r.committed,
        r.total_value == inputs_total(*l) * VALUE,
{
    let mut maps: Vec<HashMap<u64, Cell>> = new_state(l);
    proof {
        lemma_filled(*l, inputs_total(*l));
    }
    let mut committed: u64 = 0;
    let mut aborted: u64 = 0;
    let mut checksum: u64 = 0;
    let mut tx: u64 = 0;
    while tx < l.txs
        invariant
            layout_ok(*l),
            outputs_apart(*l),
            tx <= l.txs,
            maps@.len() == l.shards,
            shard_maps(maps@) == bundle_run(*l, tx as int).maps,
            committed == bundle_run(*l, tx as int).committed,
            committed + aborted == tx,
            checksum == bundle_run(*l, tx as int).checksum,
        decreases l.txs - tx,
    {
        proof {
            lemma_bundle_run(*l, tx as int);
        }
        match bundle_step(l, &mut maps, tx) {
            Some(share) => {
                committed = committed + 1;
                checksum = checksum ^ share;
            },
            None => {
                aborted = aborted + 1;
            },
        }
        tx = tx + 1;
    }
    proof {
        lemma_bundle_run(*l, l.txs as int);
        assert(committed * l.arity >= committed) by (nonlinear_arith)
            requires
                l.arity >= 1,
                committed >= 0,
        ;
    }
    let (final_cells, total_value): (u64, u128) = count_state(&maps);
    BundleTotals { committed, aborted, checksum, final_cells, total_value }
}

/// Without conflicts every transaction of a run is made.
pub proof fn law_no_conflict_commits_all(l: Layout, n: int)
    requires
        layout_ok(l),
        outputs_apart(l),
        l.conflict_pct == 0,
        0 <= n <= l.txs,
    ensures
        bundle_run(l, n).committed == n,
        inputs_there(l, bundle_run(l, n).maps, n * l.arity, inputs_total(l)),
    decreases n,
{
    if n <= 0 {
        lemma_filled(l, inputs_total(l));
        assert(0 * l.arity == 0) by (nonlinear_arith);
    } else {
        law_no_conflict_commits_all(l, n - 1);
        lemma_bundle_run(l, n - 1);
        let tx = (n - 1) as u64;
        let before = bundle_run(l, n - 1);
        let start = (n - 1) * l.arity;
        assert(n * l.arity == start + l.arity) by (nonlinear_arith)
            requires
                start == (n - 1) * l.arity,
        ;
        assert forall|k: int| 0 <= k < l.arity implies #[trigger] reference_there(
            l,
            before.maps,
            tx,
            k,
        ) by {
            lemma_serial(l, tx, k);
            assert(referenced(l, tx, k) == start + k);
        }
        assert(all_there(l, before.maps, tx));
        lemma_output_place(l, tx);
        lemma_untouched(l, before.maps, tx, l.arity as int);
        let left = without_references(l, before.maps, tx, l.arity as int);
        lemma_without_references(l, before.maps, tx, l.arity as int);
        assert forall|s: u64| n * l.arity <= s < inputs_total(l) implies bundle_run(
            l,
            n,
        ).maps[(#[trigger] input_place(l, s)).0 as int].contains_key(input_place(l, s).1) by {
            lemma_places(l, s);
            assert(left[input_place(l, s).0 as int].contains_key(input_place(l, s).1));
        }
    }
}

/// Without conflicts a transaction takes its own inputs only.
proof fn lemma_untouched(l: Layout, maps: Seq<Map<u64, Cell>>, tx: u64, n: int)
    requires
        layout_ok(l),
        l.conflict_pct == 0,
        tx < l.txs,
        0 <= n <= l.arity,
        maps.len() == l.shards,
        inputs_there(l, maps, tx * l.arity, inputs_total(l)),
    ensures
        without_references(l, maps, tx, n).len() == maps.len(),
        inputs_there(
            l,
            without_references(l, maps, tx, n),
            tx * l.arity + n,
            inputs_total(l),
        ),
    decreases n,
{
    if n > 0 {
        lemma_untouched(l, maps, tx, n - 1);
        let before = without_references(l, maps, tx, n - 1);
        let after = without_references(l, maps, tx, n);
        lemma_serial(l, tx, n - 1);
        let gone = referenced(l, tx, n - 1);
        lemma_places(l, gone);
        assert forall|s: u64| tx * l.arity + n <= s < inputs_total(l) implies after[(
        #[trigger] input_place(l, s)).0 as int].contains_key(input_place(l, s).1) by {
            lemma_places(l, s);
            if input_place(l, s) == input_place(l, gone) {
                law_inputs_are_apart(l, s, gone);
            }
        }
    }
}

// ---------------------------------------------------------------------------
// Locks.
// ---------------------------------------------------------------------------

/// The shards that the first `n` inputs of a transaction are in.
pub open spec fn input_shards(l: Layout, tx: u64, n: int) -> Set<u64>
    decreases n,
{
    if n <= 0 {
        Set::empty()
    } else {
        input_shards(l, tx, n - 1).insert(reference(l, tx, n - 1).0 as u64)
    }
}

/// The shards that a transaction touches.
pub open spec fn touched_shards(l: Layout, tx: u64) -> Set<u64> {
    input_shards(l, tx, l.arity as int).insert(output_place(l, tx).0 as u64)
}

/// The shards that a transaction touches, each once and in ascending order: who
/// locks them in this order cannot wait in a circle.
pub fn lock_order(l: &Layout, tx: u64) -> (r: Vec<u64>)
    requires
        layout_ok(*l),
        tx < l.txs,
    ensures
        r@ == ordmap::members(touched_shards(*l, tx)),
        forall|i: int, j: int| 0 <= i < j < r@.len() ==> r@[i] < r@[j],
{
    let mut shards: OrdSet<u64> = OrdSet::new();
    let mut k: u64 = 0;
    while k < l.arity
        invariant
            layout_ok(*l),
            tx < l.txs,
            k <= l.arity,
            shards@ == input_shards(*l, tx, k as int),
        decreases l.arity - k,
    {
        let serial: u64 = referenced_serial(l, tx, k);
        shards.insert(input_shard(l, serial) as u64);
        k = k + 1;
    }
    shards.insert(output_shard(l, tx) as u64);
    set_list(&shards)
}

fn set_list(shards: &OrdSet<u64>) -> (r: Vec<u64>)
    ensures
        r@ == ordmap::members(shards@),
        forall|i: int, j: int| 0 <= i < j < r@.len() ==> r@[i] < r@[j],
{
    let n: usize = shards.len();
    let ghost all = ordmap::members(shards@);
    proof {
        assert forall|a: int, b: int| 0 <= a < b < all.len() implies #[trigger] all[a]
            < #[trigger] all[b] by {
            assert(Ordered::lt(all[a], all[b]));
        }
    }
    let mut out: Vec<u64> = Vec::new();
    let mut i: usize = 0;
    while i < n
        invariant
            i <= n,
            all == ordmap::members(shards@),
            n == all.len(),
            forall|a: int, b: int| 0 <= a < b < all.len() ==> #[trigger] all[a] < #[trigger] all[b],
            out@ == ordmap::members(shards@).take(i as int),
            forall|a: int, b: int| 0 <= a < b < out@.len() ==> out@[a] < out@[b],
        decreases n - i,
    {
        let next: u64 = shards.at(i);
        proof {
            assert(next == ordmap::members(shards@)[i as int]);
        }
        out.push(next);
        i = i + 1;
        assert(out@ =~= ordmap::members(shards@).take(i as int));
    }
    assert(ordmap::members(shards@).take(n as int) =~= ordmap::members(shards@));
    out
}

/// The share of conflicts says how many transactions reach for an input of the one before
/// them: each has a number of its own, and the remainder of it by a hundred decides, the more
/// of them the larger the share. What such a transaction reaches for is the first input of
/// the one before it. All its other inputs are its own, and so are all of one that does not
/// conflict, and of the very first.
pub proof fn law_share_decides_who_conflicts(salt: u64) -> (number: spec_fn(u64) -> u64)
    ensures
        forall|a: u64, b: u64| #[trigger] number(a) == #[trigger] number(b) ==> a == b,
        forall|l: Layout, tx: u64, k: int|
            l.conflict_salt == salt ==> #[trigger] referenced(l, tx, k) == if k == 0 && tx > 0
                && number(tx) % 100 < l.conflict_pct {
                ((tx - 1) * l.arity) as u64
            } else {
                (tx * l.arity + k) as u64
            },
{
    let number = |tx: u64| engine::mixed(tx ^ salt);
    assert forall|a: u64, b: u64| #[trigger] number(a) == #[trigger] number(b) implies a == b by {
        engine::law_mixing_is_one_to_one(a ^ salt, b ^ salt);
        assert(a == b) by (bit_vector)
            requires
                a ^ salt == b ^ salt,
        ;
    }
    number
}

proof fn lemma_left(l: Layout, maps: Seq<Map<u64, Cell>>, tx: u64, n: int, s: u64)
    requires
        layout_ok(l),
        tx < l.txs,
        maps.len() == l.shards,
        s < inputs_total(l),
        0 <= n <= l.arity,
    ensures
        without_references(l, maps, tx, n).len() == maps.len(),
        without_references(l, maps, tx, n)[input_place(l, s).0 as int].contains_key(
            input_place(l, s).1,
        ) <==> maps[input_place(l, s).0 as int].contains_key(input_place(l, s).1) && forall|
            k: int,
        |
            0 <= k < n ==> #[trigger] referenced(l, tx, k) != s,
    decreases n,
{
    lemma_places(l, s);
    if n > 0 {
        let m = n - 1;
        lemma_left(l, maps, tx, m, s);
        lemma_serial(l, tx, m);
        lemma_places(l, referenced(l, tx, m));
        if reference(l, tx, m) == input_place(l, s) {
            law_inputs_are_apart(l, referenced(l, tx, m), s);
        }
        if (forall|k: int| 0 <= k < m ==> #[trigger] referenced(l, tx, k) != s) && referenced(
            l,
            tx,
            m,
        ) != s {
            assert(forall|k: int| 0 <= k < n ==> #[trigger] referenced(l, tx, k) != s);
        }
    }
}

/// The transaction reaches for an input that is not its own.
pub open spec fn conflicts(l: Layout, tx: int) -> bool {
    0 < tx && referenced(l, tx as u64, 0) != tx * l.arity
}

/// Whether the input with this number is still there.
pub open spec fn unspent(l: Layout, maps: Seq<Map<u64, Cell>>, s: int) -> bool {
    maps[input_place(l, s as u64).0 as int].contains_key(input_place(l, s as u64).1)
}

proof fn lemma_next_bundle(l: Layout, n: int)
    requires
        layout_ok(l),
        outputs_apart(l),
        0 <= n < l.txs,
        forall|s: int|
            n * l.arity <= s < inputs_total(l) ==> #[trigger] unspent(l, bundle_run(l, n).maps, s),
        0 < n ==> (unspent(l, bundle_run(l, n).maps, (n - 1) * l.arity) <==> conflicts(l, n - 1)),
    ensures
        all_there(l, bundle_run(l, n).maps, n as u64) <==> !(conflicts(l, n) && !conflicts(l, n - 1)),
        forall|s: int|
            (n + 1) * l.arity <= s < inputs_total(l) ==> #[trigger] unspent(
                l,
                bundle_run(l, n + 1).maps,
                s,
            ),
        unspent(l, bundle_run(l, n + 1).maps, n * l.arity) <==> conflicts(l, n),
{
    let tx = n as u64;
    let before = bundle_run(l, n);
    let own = n * l.arity;
    lemma_bundle_run(l, n);
    assert((n + 1) * l.arity == own + l.arity && (n + 1) * l.arity <= inputs_total(l) && 0 <= own)
        by (nonlinear_arith)
        requires
            own == n * l.arity,
            0 <= n,
            n + 1 <= l.txs,
            inputs_total(l) == l.txs * l.arity,
    ;
    assert((n - 1) * l.arity == own - l.arity) by (nonlinear_arith)
        requires
            own == n * l.arity,
    ;
    assert forall|k: int| 0 <= k < l.arity implies {
        &&& #[trigger] referenced(l, tx, k) == if k == 0 && conflicts(l, n) {
            own - l.arity
        } else {
            own + k
        }
    } by {
        lemma_serial(l, tx, k);
    }
    assert forall|k: int| 0 <= k < l.arity implies #[trigger] reference_there(
        l,
        before.maps,
        tx,
        k,
    ) == (k != 0 || !conflicts(l, n) || conflicts(l, n - 1)) by {
        assert(referenced(l, tx, k) == if k == 0 && conflicts(l, n) {
            own - l.arity
        } else {
            own + k
        });
        if k == 0 && conflicts(l, n) {
            assert(unspent(l, before.maps, (n - 1) * l.arity) <==> conflicts(l, n - 1));
        } else {
            assert(unspent(l, before.maps, own + k));
        }
    }
    if conflicts(l, n) && !conflicts(l, n - 1) {
        assert(!reference_there(l, before.maps, tx, 0));
        assert(unspent(l, before.maps, own));
        assert forall|s: int| own + l.arity <= s < inputs_total(l) implies #[trigger] unspent(
            l,
            bundle_run(l, n + 1).maps,
            s,
        ) by {
            assert(unspent(l, before.maps, s));
        }
    } else {
        assert(all_there(l, before.maps, tx));
        let left = without_references(l, before.maps, tx, l.arity as int);
        let after = bundle_run(l, n + 1).maps;
        lemma_output_place(l, tx);
        assert forall|s: int| own <= s < inputs_total(l) implies #[trigger] unspent(l, after, s) == (
        s >= own + l.arity || s == own && conflicts(l, n)) by {
            lemma_left(l, before.maps, tx, l.arity as int, s as u64);
            lemma_places(l, s as u64);
            law_outputs_are_no_inputs(l, tx, s as u64);
            assert(unspent(l, before.maps, s));
            if own <= s < own + l.arity && !(s == own && conflicts(l, n)) {
                assert(referenced(l, tx, s - own) == s);
            } else {
                assert forall|k: int| 0 <= k < l.arity implies #[trigger] referenced(l, tx, k)
                    != s by {}
            }
        }
    }
}

/// Which transactions are committed: all but those that reach for the first input of the
/// one before them where that one took it itself. So two in a row that both conflict do not
/// hinder each other.
pub proof fn law_who_commits(l: Layout, n: int)
    requires
        layout_ok(l),
        outputs_apart(l),
        0 <= n < l.txs,
    ensures
        bundle_run(l, n + 1).committed == bundle_run(l, n).committed + if conflicts(l, n)
            && !conflicts(l, n - 1) {
            0int
        } else {
            1
        },
        forall|s: int|
            (n + 1) * l.arity <= s < inputs_total(l) ==> #[trigger] unspent(
                l,
                bundle_run(l, n + 1).maps,
                s,
            ),
        unspent(l, bundle_run(l, n + 1).maps, n * l.arity) <==> conflicts(l, n),
    decreases n,
{
    if n > 0 {
        law_who_commits(l, n - 1);
    } else {
        lemma_filled(l, inputs_total(l));
        assert(0 * l.arity == 0) by (nonlinear_arith);
        assert forall|s: int| 0 <= s < inputs_total(l) implies #[trigger] unspent(
            l,
            bundle_run(l, 0).maps,
            s,
        ) by {
            assert(bundle_run(l, 0).maps[input_place(l, s as u64).0 as int].contains_key(
                input_place(l, s as u64).1,
            ));
        }
    }
    lemma_next_bundle(l, n);
}

proof fn lemma_input_shards(l: Layout, tx: u64, n: int, sid: u64)
    requires
        0 <= n,
    ensures
        input_shards(l, tx, n).contains(sid) <==> exists|k: int|
            0 <= k < n && (#[trigger] reference(l, tx, k)).0 as u64 == sid,
    decreases n,
{
    if n > 0 {
        let m = n - 1;
        lemma_input_shards(l, tx, m, sid);
        if input_shards(l, tx, m).contains(sid) {
            let k = choose|k: int| 0 <= k < m && (#[trigger] reference(l, tx, k)).0 as u64 == sid;
            assert(0 <= k < n && reference(l, tx, k).0 as u64 == sid);
        }
        if reference(l, tx, m).0 as u64 == sid {
            assert(0 <= m < n && reference(l, tx, m).0 as u64 == sid);
        }
        if exists|k: int| 0 <= k < n && (#[trigger] reference(l, tx, k)).0 as u64 == sid {
            let k = choose|k: int| 0 <= k < n && (#[trigger] reference(l, tx, k)).0 as u64 == sid;
            if k != m {
                assert(0 <= k < m && reference(l, tx, k).0 as u64 == sid);
            }
        }
    }
}

/// A transaction locks the shards that its inputs and its output are in, and no others.
pub proof fn law_touched_shards_are_locked(l: Layout, tx: u64, sid: u64)
    ensures
        touched_shards(l, tx).contains(sid) <==> output_place(l, tx).0 as u64 == sid || exists|
            k: int,
        |
            0 <= k < l.arity && (#[trigger] input_place(l, referenced(l, tx, k))).0 as u64 == sid,
{
    lemma_input_shards(l, tx, l.arity as int, sid);
    if input_shards(l, tx, l.arity as int).contains(sid) {
        let k = choose|k: int|
            0 <= k < l.arity && (#[trigger] reference(l, tx, k)).0 as u64 == sid;
        assert(input_place(l, referenced(l, tx, k)).0 as u64 == sid);
    }
    if exists|k: int|
        0 <= k < l.arity && (#[trigger] input_place(l, referenced(l, tx, k))).0 as u64 == sid {
        let k = choose|k: int|
            0 <= k < l.arity && (#[trigger] input_place(l, referenced(l, tx, k))).0 as u64 == sid;
        assert(reference(l, tx, k).0 as u64 == sid);
    }
}

} // verus!
