//! One shard at a time: every cell of a shard is replaced by its successor, which
//! stays in the shard.
use crate::engine;
use crate::engine::{
    make_id, mix64, stream_count, successor_id, Cell, VALUE,
};
use crate::ordmap;
use crate::text::text;
use std::collections::HashMap;
use vstd::prelude::*;

verus! {

/// A shard of a run: which serial numbers it holds, and which of their numbers
/// enters the successor's identifier.
#[derive(Clone, Copy, Debug)]
pub struct ShardPlan {
    pub total: u64,
    pub shards: usize,
    pub bits: u32,
    pub shard: usize,
    /// The number in the run enters the identifier, not the number in the shard.
    pub global: bool,
}

/// How many cells the shard holds.
pub open spec fn plan_size(p: ShardPlan) -> int {
    engine::dealt(p.total as int, p.shards as int, p.shard as int)
}

/// The shard exists, and its cells can all be told apart.
pub open spec fn plan_ok(p: ShardPlan) -> bool {
    &&& engine::shard_bits_ok(p.shards, p.bits)
    &&& p.shard < p.shards
    &&& plan_size(p) <= u64::MAX
    &&& engine::narrow(plan_size(p) as u64, p.bits)
}

/// The number in the run of the cell number `j` of the shard.
pub open spec fn run_serial(p: ShardPlan, j: int) -> int {
    p.shard + j * p.shards
}

/// The cell number `j` of the shard at the start.
pub open spec fn first_cell(p: ShardPlan, j: int) -> Cell {
    Cell { id: engine::id_at((j + 1) as u64, p.shard, p.bits), value: VALUE, generation: 0 }
}

/// The number that enters the identifier of the successor.
pub open spec fn plan_serial(p: ShardPlan, j: int) -> u64 {
    if p.global {
        run_serial(p, j) as u64
    } else {
        j as u64
    }
}

/// The successor of the cell number `j`.
pub open spec fn next_cell(p: ShardPlan, j: int) -> Cell {
    let cell = first_cell(p, j);
    Cell {
        id: engine::successor(cell, plan_serial(p, j), p.bits, engine::mask_of(p.shards)),
        value: VALUE,
        generation: 1,
    }
}

/// The shard with its first `n` cells.
pub open spec fn seeded(p: ShardPlan, n: int) -> Map<u64, Cell>
    decreases n,
{
    if n <= 0 {
        Map::empty()
    } else {
        seeded(p, n - 1).insert(first_cell(p, n - 1).id, first_cell(p, n - 1))
    }
}

/// The shard after its first `n` cells were replaced, unless an identifier came up
/// that was taken.
pub open spec fn replaced(p: ShardPlan, n: int) -> Option<Map<u64, Cell>>
    decreases n,
{
    if n <= 0 {
        Some(seeded(p, plan_size(p)))
    } else {
        match replaced(p, n - 1) {
            None => None,
            Some(cells) => {
                let left = cells.remove(first_cell(p, n - 1).id);
                if left.contains_key(next_cell(p, n - 1).id) {
                    None
                } else {
                    Some(left.insert(next_cell(p, n - 1).id, next_cell(p, n - 1)))
                }
            },
        }
    }
}

/// The first `n` successors.
pub open spec fn successors(p: ShardPlan, n: nat) -> Seq<Cell> {
    Seq::new(n, |j: int| next_cell(p, j))
}

proof fn lemma_first_ids(p: ShardPlan, i: int, j: int)
    requires
        plan_ok(p),
        0 <= i < plan_size(p),
        0 <= j < plan_size(p),
        first_cell(p, i).id == first_cell(p, j).id,
    ensures
        i == j,
{
    engine::lemma_narrow((i + 1) as u64, plan_size(p) as u64, p.bits);
    engine::lemma_narrow((j + 1) as u64, plan_size(p) as u64, p.bits);
    engine::law_ids_are_distinct(
        (i + 1) as u64,
        p.shard,
        (j + 1) as u64,
        p.shard,
        p.shards,
        p.bits,
    );
}

proof fn lemma_seeded(p: ShardPlan, n: int)
    requires
        plan_ok(p),
        0 <= n <= plan_size(p),
    ensures
        seeded(p, n).dom().finite(),
        seeded(p, n).len() == n,
        forall|j: int|
            0 <= j < n ==> seeded(p, n).contains_key(#[trigger] first_cell(p, j).id)
                && seeded(p, n)[first_cell(p, j).id] == first_cell(p, j),
        forall|id: u64| #[trigger]
            seeded(p, n).contains_key(id) ==> exists|j: int|
                0 <= j < n && id == #[trigger] first_cell(p, j).id,
        ordmap::weight(seeded(p, n), cell_value()) == n * VALUE,
    decreases n,
{
    if n > 0 {
        lemma_seeded(p, n - 1);
        let before = seeded(p, n - 1);
        let cell = first_cell(p, n - 1);
        if before.contains_key(cell.id) {
            let j = choose|j: int| 0 <= j < n - 1 && cell.id == #[trigger] first_cell(p, j).id;
            lemma_first_ids(p, j, n - 1);
        }
        ordmap::lemma_weight_insert(before, cell_value(), cell.id, cell);
        assert forall|j: int| 0 <= j < n implies seeded(p, n).contains_key(
            #[trigger] first_cell(p, j).id,
        ) && seeded(p, n)[first_cell(p, j).id] == first_cell(p, j) by {
            if j < n - 1 && first_cell(p, j).id == cell.id {
                lemma_first_ids(p, j, n - 1);
            }
        }
        assert forall|id: u64| #[trigger] seeded(p, n).contains_key(id) implies exists|j: int|
            0 <= j < n && id == #[trigger] first_cell(p, j).id by {
            if id == cell.id {
                assert(id == first_cell(p, n - 1).id);
            } else {
                let j = choose|j: int| 0 <= j < n - 1 && id == #[trigger] first_cell(p, j).id;
                assert(id == first_cell(p, j).id);
            }
        }
    } else {
        lemma_weight_empty();
    }
}

/// The value of a cell.
pub open spec fn cell_value() -> spec_fn(Cell) -> nat {
    |c: Cell| c.value as nat
}

pub proof fn lemma_weight_empty()
    ensures
        ordmap::weight(Map::<u64, Cell>::empty(), cell_value()) == 0,
{
    ordmap::lemma_map_of_size(Seq::<(u64, Cell)>::empty());
    assert(ordmap::map_of(Seq::<(u64, Cell)>::empty()) =~= Map::<u64, Cell>::empty());
    ordmap::lemma_listed(Seq::<(u64, Cell)>::empty());
}

/// What holds after the first `n` cells were replaced: the others are untouched,
/// and the number and the value of the cells are what they were.
proof fn lemma_replaced(p: ShardPlan, n: int)
    requires
        plan_ok(p),
        0 <= n <= plan_size(p),
        replaced(p, n) is Some,
    ensures
        replaced(p, n)->Some_0.dom().finite(),
        replaced(p, n)->Some_0.len() == plan_size(p),
        ordmap::weight(replaced(p, n)->Some_0, cell_value()) == plan_size(p) * VALUE,
        forall|j: int|
            n <= j < plan_size(p) ==> replaced(p, n)->Some_0.contains_key(
                #[trigger] first_cell(p, j).id,
            ) && replaced(p, n)->Some_0[first_cell(p, j).id] == first_cell(p, j),
    decreases n,
{
    if n <= 0 {
        lemma_seeded(p, plan_size(p));
    } else {
        lemma_replaced(p, n - 1);
        let cells = replaced(p, n - 1)->Some_0;
        let old_cell = first_cell(p, n - 1);
        let left = cells.remove(old_cell.id);
        let new_cell = next_cell(p, n - 1);
        ordmap::lemma_weight_remove(cells, cell_value(), old_cell.id);
        ordmap::lemma_weight_insert(left, cell_value(), new_cell.id, new_cell);
        assert forall|j: int| n <= j < plan_size(p) implies replaced(
            p,
            n,
        )->Some_0.contains_key(#[trigger] first_cell(p, j).id) && replaced(
            p,
            n,
        )->Some_0[first_cell(p, j).id] == first_cell(p, j) by {
            if first_cell(p, j).id == old_cell.id {
                lemma_first_ids(p, j, n - 1);
            }
            assert(left.contains_key(first_cell(p, j).id));
        }
    }
}

/// A pass over a shard that goes through keeps the number of its cells and their
/// value.
pub proof fn law_pass_keeps_cells_and_value(p: ShardPlan)
    requires
        plan_ok(p),
        replaced(p, plan_size(p)) is Some,
    ensures
        replaced(p, plan_size(p))->Some_0.len() == plan_size(p),
        ordmap::weight(replaced(p, plan_size(p))->Some_0, cell_value()) == plan_size(p) * VALUE,
{
    lemma_replaced(p, plan_size(p));
}

/// Every successor is in the shard of the cell that it replaces.
pub proof fn law_pass_stays_in_its_shard(p: ShardPlan, j: int)
    requires
        plan_ok(p),
        0 <= j < plan_size(p),
    ensures
        engine::shard_in(next_cell(p, j).id, engine::mask_of(p.shards)) == p.shard,
{
    engine::law_id_names_its_shard((j + 1) as u64, p.shard, p.shards, p.bits);
    engine::law_shard_is_preserved(first_cell(p, j), plan_serial(p, j), p.shards, p.bits);
}

proof fn lemma_replaced_fails(p: ShardPlan, n: int, m: int)
    requires
        0 <= n <= m,
        replaced(p, n) is None,
    ensures
        replaced(p, m) is None,
    decreases m,
{
    if n < m {
        lemma_replaced_fails(p, n, m - 1);
    }
}

fn seed_shard(p: &ShardPlan, count: u64) -> (r: HashMap<u64, Cell>)
    requires
        plan_ok(*p),
        count == plan_size(*p),
    ensures
        r@ == seeded(*p, count as int),
{
    let mut cells: HashMap<u64, Cell> = HashMap::new();
    let mut j: u64 = 0;
    while j < count
        invariant
            plan_ok(*p),
            j <= count,
            count == plan_size(*p),
            cells@ == seeded(*p, j as int),
        decreases count - j,
    {
        let id: u64 = make_id(j + 1, p.shard, p.bits);
        cells.insert(id, Cell { id, value: VALUE, generation: 0 });
        j = j + 1;
    }
    cells
}

/// What a pass over a shard gives.
#[derive(Debug)]
pub struct ShardPass {
    pub cells: HashMap<u64, Cell>,
    pub next: Vec<Cell>,
}

/// The serial numbers of a shard fit, as they are below the total.
pub proof fn lemma_serials_fit(p: ShardPlan)
    requires
        p.shards > 0,
        p.shard < p.shards,
    ensures
        forall|j: int|
            0 <= j < plan_size(p) ==> 0 <= #[trigger] run_serial(p, j) < p.total,
{
    let (t, s, r) = (p.total as int, p.shards as int, p.shard as int);
    vstd::arithmetic::div_mod::lemma_fundamental_div_mod(t, s);
    assert forall|j: int| 0 <= j < plan_size(p) implies 0 <= #[trigger] run_serial(p, j)
        < p.total by {
        let q = t / s;
        let m = t % s;
        if r < m {
            assert(j <= q);
            assert(r + j * s < t) by (nonlinear_arith)
                requires
                    t == s * q + m,
                    0 <= j <= q,
                    r < m,
                    0 < s,
            ;
        } else {
            assert(j <= q - 1);
            assert(r + j * s < t) by (nonlinear_arith)
                requires
                    t == s * q + m,
                    0 <= j <= q - 1,
                    r < s,
                    0 <= m,
                    0 < s,
            ;
        }
        assert(0 <= j * s) by (nonlinear_arith)
            requires
                0 <= j,
                0 < s,
        ;
    }
}

/// Replaces every cell of a shard by its successor.
pub fn advance_shard(p: &ShardPlan) -> (r: Result<ShardPass, String>)
    requires
        plan_ok(*p),
    ensures
        match replaced(*p, plan_size(*p)) {
            None => r is Err && r->Err_0@ == "unexpected successor collision"@,
            Some(cells) => r is Ok && r->Ok_0.cells@ == cells && r->Ok_0.next@ == successors(
                *p,
                plan_size(*p) as nat,
            ),
        },
{
    let count: u64 = stream_count(p.total, p.shards, p.shard);
    let mut cells: HashMap<u64, Cell> = seed_shard(p, count);
    let mut next: Vec<Cell> = Vec::new();
    let mut j: u64 = 0;
    let mut serial: u64 = p.shard as u64;
    proof {
        lemma_serials_fit(*p);
        assert(0 * p.shards == 0) by (nonlinear_arith);
        assert(next@ =~= successors(*p, 0));
    }
    while j < count
        invariant
            plan_ok(*p),
            j <= count,
            count == plan_size(*p),
            j < count ==> serial == run_serial(*p, j as int),
            forall|i: int|
                0 <= i < plan_size(*p) ==> 0 <= #[trigger] run_serial(*p, i) < p.total,
            replaced(*p, j as int) == Some(cells@),
            next@ == successors(*p, j as nat),
        decreases count - j,
    {
        proof {
            lemma_replaced(*p, j as int);
        }
        let id: u64 = make_id(j + 1, p.shard, p.bits);
        assert(id == first_cell(*p, j as int).id);
        let old_cell: Cell = Cell { id, value: VALUE, generation: 0 };
        let entering: u64 = if p.global {
            serial
        } else {
            j
        };
        cells.remove(&id);
        let new_cell: Cell = Cell {
            id: successor_id(old_cell, entering, p.bits, p.shards as u64 - 1),
            value: old_cell.value,
            generation: old_cell.generation + 1,
        };
        if cells.contains_key(&new_cell.id) {
            proof {
                lemma_replaced_fails(*p, j + 1, count as int);
            }
            return Err(text("unexpected successor collision"));
        }
        cells.insert(new_cell.id, new_cell);
        next.push(new_cell);
        j = j + 1;
        proof {
            assert(next@ =~= successors(*p, j as nat));
            if j < count {
                assert(run_serial(*p, j as int) == run_serial(*p, j - 1) + p.shards)
                    by (nonlinear_arith)
                    requires
                        run_serial(*p, j as int) == p.shard + j * p.shards,
                        run_serial(*p, j - 1) == p.shard + (j - 1) * p.shards,
                ;
            }
        }
        if j < count {
            serial = serial + p.shards as u64;
        }
    }
    Ok(ShardPass { cells, next })
}

/// The checksum of the first `n` cells.
pub open spec fn cells_checksum(next: Seq<Cell>, n: int) -> u64
    decreases n,
{
    if n <= 0 || n > next.len() {
        0
    } else {
        cells_checksum(next, n - 1) ^ engine::mixed(
            next[n - 1].id ^ next[n - 1].generation ^ next[n - 1].value,
        )
    }
}

/// What a run has seen: the checksum, the cells processed and the cells there are.
#[derive(Clone, Copy, Debug, PartialEq, Eq, Structural)]
pub struct RunTotals {
    pub checksum: u64,
    pub processed: u64,
    pub final_cells: u64,
}

pub fn checksum_of(next: &Vec<Cell>) -> (r: u64)
    ensures
        r == cells_checksum(next@, next@.len() as int),
{
    let mut checksum: u64 = 0;
    let mut i: usize = 0;
    while i < next.len()
        invariant
            i <= next@.len(),
            checksum == cells_checksum(next@, i as int),
        decreases next@.len() - i,
    {
        checksum = checksum ^ mix64(next[i].id ^ next[i].generation ^ next[i].value);
        i = i + 1;
    }
    checksum
}

/// The plan of a shard.
pub open spec fn plain_plan(total: u64, shards: usize, bits: u32, shard: int) -> ShardPlan {
    ShardPlan { total, shards, bits, shard: shard as usize, global: false }
}

/// The totals of the first `n` shards, unless an identifier came up that was
/// taken.
pub open spec fn run_totals(total: u64, shards: usize, bits: u32, n: int) -> Option<RunTotals>
    decreases n,
{
    if n <= 0 {
        Some(RunTotals { checksum: 0, processed: 0, final_cells: 0 })
    } else {
        let p = plain_plan(total, shards, bits, n - 1);
        match run_totals(total, shards, bits, n - 1) {
            None => None,
            Some(before) => match replaced(p, plan_size(p)) {
                None => None,
                Some(cells) => Some(
                    RunTotals {
                        checksum: before.checksum ^ cells_checksum(
                            successors(p, plan_size(p) as nat),
                            plan_size(p),
                        ),
                        processed: (before.processed + plan_size(p)) as u64,
                        final_cells: (before.final_cells + cells.len()) as u64,
                    },
                ),
            },
        }
    }
}

proof fn lemma_run_totals(total: u64, shards: usize, bits: u32, n: int)
    requires
        engine::shard_bits_ok(shards, bits),
        0 <= n <= shards,
        engine::narrow((total / (shards as u64) + 1) as u64, bits),
        total / (shards as u64) < u64::MAX,
        run_totals(total, shards, bits, n) is Some,
    ensures
        run_totals(total, shards, bits, n)->Some_0.processed == engine::dealt_sum(
            total as int,
            shards as int,
            n,
        ),
        run_totals(total, shards, bits, n)->Some_0.final_cells == engine::dealt_sum(
            total as int,
            shards as int,
            n,
        ),
        0 <= engine::dealt_sum(total as int, shards as int, n) <= total,
    decreases n,
{
    lemma_dealt_grows(total as int, shards as int, n, shards as int);
    engine::law_streams_cover_all(total as int, shards as int);
    if n > 0 {
        lemma_run_totals(total, shards, bits, n - 1);
        let p = plain_plan(total, shards, bits, n - 1);
        lemma_plan_ok(total, shards, bits, n - 1);
        lemma_replaced(p, plan_size(p));
    }
}

pub proof fn lemma_dealt_grows(total: int, streams: int, n: int, m: int)
    requires
        0 <= total,
        0 < streams,
        0 <= n <= m,
    ensures
        0 <= engine::dealt_sum(total, streams, n) <= engine::dealt_sum(total, streams, m),
    decreases m,
{
    assert(total / streams >= 0) by (nonlinear_arith)
        requires
            0 <= total,
            0 < streams,
    ;
    if n < m {
        lemma_dealt_grows(total, streams, n, m - 1);
    } else if n > 0 {
        lemma_dealt_grows(total, streams, n - 1, m - 1);
    }
}

proof fn lemma_plan_ok(total: u64, shards: usize, bits: u32, shard: int)
    requires
        engine::shard_bits_ok(shards, bits),
        0 <= shard < shards,
        engine::narrow((total / (shards as u64) + 1) as u64, bits),
        total / (shards as u64) < u64::MAX,
    ensures
        plan_ok(plain_plan(total, shards, bits, shard)),
        plan_size(plain_plan(total, shards, bits, shard)) <= total / (shards as u64) + 1,
{
    let p = plain_plan(total, shards, bits, shard);
    engine::lemma_narrow(plan_size(p) as u64, (total / (shards as u64) + 1) as u64, bits);
}

/// Replaces every cell of a run, shard by shard.
pub fn run_case(total: u64, shards: usize, bits: u32) -> (r: Result<RunTotals, String>)
    requires
        engine::shard_bits_ok(shards, bits),
        engine::narrow((total / (shards as u64) + 1) as u64, bits),
        total / (shards as u64) < u64::MAX,
    ensures
        match run_totals(total, shards, bits, shards as int) {
            None => r is Err && r->Err_0@ == "unexpected successor collision"@,
            Some(totals) => r == Ok::<RunTotals, String>(totals) && totals.processed == total
                && totals.final_cells == total,
        },
{
    let mut totals: RunTotals = RunTotals { checksum: 0, processed: 0, final_cells: 0 };
    let mut shard: usize = 0;
    while shard < shards
        invariant
            shard <= shards,
            engine::shard_bits_ok(shards, bits),
            engine::narrow((total / (shards as u64) + 1) as u64, bits),
            total / (shards as u64) < u64::MAX,
            run_totals(total, shards, bits, shard as int) == Some(totals),
        decreases shards - shard,
    {
        let p: ShardPlan = ShardPlan { total, shards, bits, shard, global: false };
        proof {
            lemma_plan_ok(total, shards, bits, shard as int);
            lemma_run_totals(total, shards, bits, shard as int);
            lemma_dealt_grows(total as int, shards as int, shard + 1, shards as int);
            engine::law_streams_cover_all(total as int, shards as int);
            if replaced(p, plan_size(p)) is Some {
                lemma_replaced(p, plan_size(p));
            } else {
                lemma_totals_fail(total, shards, bits, shard + 1, shards as int);
            }
        }
        let pass: ShardPass = advance_shard(&p)?;
        let checksum: u64 = checksum_of(&pass.next);
        totals = RunTotals {
            checksum: totals.checksum ^ checksum,
            processed: totals.processed + pass.next.len() as u64,
            final_cells: totals.final_cells + pass.cells.len() as u64,
        };
        shard = shard + 1;
    }
    proof {
        lemma_run_totals(total, shards, bits, shards as int);
        engine::law_streams_cover_all(total as int, shards as int);
    }
    Ok(totals)
}

proof fn lemma_totals_fail(total: u64, shards: usize, bits: u32, n: int, m: int)
    requires
        0 <= n <= m,
        run_totals(total, shards, bits, n) is None,
    ensures
        run_totals(total, shards, bits, m) is None,
    decreases m,
{
    if n < m {
        lemma_totals_fail(total, shards, bits, n, m - 1);
    }
}

/// A run comes to its totals exactly if in each of its shards every cell could be replaced.
pub proof fn law_run_succeeds_if(total: u64, shards: usize, bits: u32, n: int)
    requires
        0 <= n <= shards,
    ensures
        run_totals(total, shards, bits, n) is Some <==> forall|i: int|
            0 <= i < n ==> {
                let p = #[trigger] plain_plan(total, shards, bits, i);
                replaced(p, plan_size(p)) is Some
            },
    decreases n,
{
    if n > 0 {
        law_run_succeeds_if(total, shards, bits, n - 1);
        let p = plain_plan(total, shards, bits, n - 1);
        assert(replaced(p, plan_size(p)) is Some || replaced(p, plan_size(p)) is None);
    }
}

} // verus!
