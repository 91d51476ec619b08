//! Batches: the owners of the shards first reserve the inputs of all transactions
//! of a batch; a transaction is made if all its inputs were reserved, and what was
//! reserved for the others is put back.
use crate::bundle;
use crate::bundle::{
    count_state, input_id, input_shard, map_value, new_state, output_id, output_shard, put_cell, referenced_serial,
    take_cell, Layout, OUTPUT_BASE,
};
use crate::engine;
use crate::engine::{mix64, Cell, VALUE};
use crate::ordmap;
use crate::perf002;
use std::collections::HashMap;
use vstd::prelude::*;

verus! {

/// A reference to an input that the owner of a shard works off.
#[derive(Clone, Copy, Debug, PartialEq, Eq, Structural)]
pub struct WorkItem {
    pub tx: u64,
    pub slot: usize,
    pub id: u64,
}

/// A cell that was taken out for a transaction.
#[derive(Clone, Copy, Debug, PartialEq, Eq, Structural)]
pub struct Reserved {
    pub slot: usize,
    pub tx: u64,
    pub cell: Cell,
}

// ---------------------------------------------------------------------------
// Reserving.
// ---------------------------------------------------------------------------

/// The shards, and what was reserved, after the first `n` references.
pub open spec fn reserved_from(maps: Seq<Map<u64, Cell>>, items: Seq<WorkItem>, n: int) -> (
    Seq<Map<u64, Cell>>,
    Seq<Reserved>,
)
    decreases n,
{
    if n <= 0 || n > items.len() {
        (maps, Seq::empty())
    } else {
        let (left, done) = reserved_from(maps, items, n - 1);
        let item = items[n - 1];
        if left[item.slot as int].contains_key(item.id) {
            (
                bundle::without_cell(left, item.slot as int, item.id),
                done.push(
                    Reserved {
                        slot: item.slot,
                        tx: item.tx,
                        cell: left[item.slot as int][item.id],
                    },
                ),
            )
        } else {
            (left, done)
        }
    }
}

/// The references name shards that there are.
pub open spec fn items_ok(items: Seq<WorkItem>, shards: int) -> bool {
    forall|i: int| 0 <= i < items.len() ==> (#[trigger] items[i]).slot < shards
}

/// Each cell is under its identifier.
pub open spec fn keyed(maps: Seq<Map<u64, Cell>>) -> bool {
    forall|i: int, id: u64|
        0 <= i < maps.len() && #[trigger] maps[i].contains_key(id) ==> maps[i][id].id == id
}

/// What was reserved can be put back: the places are free, and no two are the
/// same.
pub open spec fn restorable(maps: Seq<Map<u64, Cell>>, done: Seq<Reserved>) -> bool {
    &&& forall|i: int|
        0 <= i < done.len() ==> (#[trigger] done[i]).slot < maps.len()
            && !maps[done[i].slot as int].contains_key(done[i].cell.id)
    &&& forall|i: int, j: int|
        0 <= i < j < done.len() ==> !((#[trigger] done[i]).slot == (#[trigger] done[j]).slot
            && done[i].cell.id == done[j].cell.id)
}

pub proof fn lemma_reserved(maps: Seq<Map<u64, Cell>>, items: Seq<WorkItem>, n: int)
    requires
        0 <= n <= items.len(),
        items_ok(items, maps.len() as int),
        keyed(maps),
        bundle::shards_finite(maps),
    ensures
        ({
            let (left, done) = reserved_from(maps, items, n);
            &&& left.len() == maps.len()
            &&& keyed(left)
            &&& bundle::shards_finite(left)
            &&& restorable(left, done)
            &&& done.len() <= n
            &&& bundle::cells_in(left, maps.len() as int) == bundle::cells_in(maps, maps.len() as int)
                - done.len()
            &&& forall|i: int, id: u64|
                0 <= i < maps.len() && #[trigger] left[i].contains_key(id)
                    ==> maps[i].contains_key(id) && left[i][id] == maps[i][id]
            &&& forall|i: int|
                0 <= i < done.len() ==> maps[(#[trigger] done[i]).slot as int].contains_key(
                    done[i].cell.id,
                ) && maps[done[i].slot as int][done[i].cell.id] == done[i].cell
            &&& forall|i: int|
                0 <= i < done.len() ==> exists|j: int|
                    0 <= j < n && (#[trigger] items[j]).tx == (#[trigger] done[i]).tx
        }),
    decreases n,
{
    if n > 0 {
        lemma_reserved(maps, items, n - 1);
        let (before, kept) = reserved_from(maps, items, n - 1);
        let (left, done) = reserved_from(maps, items, n);
        let item = items[n - 1];
        assert(item.slot < maps.len());
        if before[item.slot as int].contains_key(item.id) {
            bundle::lemma_without_cell(before, item.slot as int, item.id);
            assert forall|i: int| 0 <= i < done.len() implies exists|j: int|
                0 <= j < n && (#[trigger] items[j]).tx == (#[trigger] done[i]).tx by {
                if i < kept.len() {
                    let j = choose|j: int|
                        0 <= j < n - 1 && (#[trigger] items[j]).tx == kept[i].tx;
                    assert(items[j].tx == done[i].tx);
                } else {
                    assert(items[n - 1].tx == done[i].tx);
                }
            }
        } else {
            assert forall|i: int| 0 <= i < done.len() implies exists|j: int|
                0 <= j < n && (#[trigger] items[j]).tx == (#[trigger] done[i]).tx by {
                let j = choose|j: int| 0 <= j < n - 1 && (#[trigger] items[j]).tx == kept[i].tx;
                assert(items[j].tx == done[i].tx);
            }
        }
    }
}

/// What was reserved can always be put back.
pub proof fn law_reserved_can_be_restored(maps: Seq<Map<u64, Cell>>, items: Seq<WorkItem>)
    requires
        items_ok(items, maps.len() as int),
        keyed(maps),
        bundle::shards_finite(maps),
    ensures
        restorable(
            reserved_from(maps, items, items.len() as int).0,
            reserved_from(maps, items, items.len() as int).1,
        ),
{
    lemma_reserved(maps, items, items.len() as int);
}

/// Works off references: takes out each cell that is there.
pub fn reserve(maps: &mut Vec<HashMap<u64, Cell>>, items: &Vec<WorkItem>) -> (r: Vec<Reserved>)
    requires
        items_ok(items@, old(maps)@.len() as int),
    ensures
        final(maps)@.len() == old(maps)@.len(),
        (bundle::shard_maps(final(maps)@), r@) == reserved_from(
            bundle::shard_maps(old(maps)@),
            items@,
            items@.len() as int,
        ),
{
    let ghost before = bundle::shard_maps(maps@);
    let mut done: Vec<Reserved> = Vec::new();
    let mut i: usize = 0;
    while i < items.len()
        invariant
            i <= items@.len(),
            maps@.len() == old(maps)@.len(),
            before == bundle::shard_maps(old(maps)@),
            items_ok(items@, maps@.len() as int),
            (bundle::shard_maps(maps@), done@) == reserved_from(before, items@, i as int),
        decreases items@.len() - i,
    {
        let item: WorkItem = items[i];
        let ghost left = bundle::shard_maps(maps@);
        let taken: Option<Cell> = take_cell(maps, item.slot, item.id);
        match taken {
            Some(cell) => {
                done.push(Reserved { slot: item.slot, tx: item.tx, cell });
            },
            None => {
                assert(left[item.slot as int].remove(item.id) =~= left[item.slot as int]);
                assert(bundle::shard_maps(maps@) =~= left);
            },
        }
        i = i + 1;
    }
    done
}

// ---------------------------------------------------------------------------
// Deciding.
// ---------------------------------------------------------------------------

/// How many reservations, and of what value, each transaction has after the first
/// `n`.
pub open spec fn tallied(
    counts: Seq<u64>,
    values: Seq<u64>,
    done: Seq<Reserved>,
    n: int,
) -> (Seq<u64>, Seq<u64>)
    decreases n,
{
    if n <= 0 || n > done.len() {
        (counts, values)
    } else {
        let (c, v) = tallied(counts, values, done, n - 1);
        let tx = done[n - 1].tx as int;
        (
            c.update(tx, (c[tx] + 1) as u64),
            v.update(tx, v[tx].wrapping_add(done[n - 1].cell.value)),
        )
    }
}

/// The transactions of reservations are among so many.
pub open spec fn txs_ok(done: Seq<Reserved>, txs: int) -> bool {
    forall|i: int| 0 <= i < done.len() ==> (#[trigger] done[i]).tx < txs
}

/// The counts leave room for so many more.
pub open spec fn counts_fit(counts: Seq<u64>, more: int) -> bool {
    forall|t: int| 0 <= t < counts.len() ==> (#[trigger] counts[t]) + more <= u64::MAX
}

proof fn lemma_tallied_lengths(
    counts: Seq<u64>,
    values: Seq<u64>,
    done: Seq<Reserved>,
    n: int,
)
    requires
        0 <= n <= done.len(),
        counts.len() == values.len(),
        txs_ok(done, counts.len() as int),
        counts_fit(counts, n),
    ensures
        tallied(counts, values, done, n).0.len() == counts.len(),
        tallied(counts, values, done, n).1.len() == values.len(),
        forall|t: int|
            0 <= t < counts.len() ==> (#[trigger] tallied(counts, values, done, n).0[t])
                <= counts[t] + n,
    decreases n,
{
    if n > 0 {
        assert forall|t: int| 0 <= t < counts.len() implies (#[trigger] counts[t]) + (n - 1)
            <= u64::MAX by {
            assert(counts[t] + n <= u64::MAX);
        }
        lemma_tallied_lengths(counts, values, done, n - 1);
        let c = tallied(counts, values, done, n - 1).0;
        let tx = done[n - 1].tx as int;
        assert(c[tx] <= counts[tx] + n - 1);
        assert(counts[tx] + n <= u64::MAX);
    }
}

/// Counts reservations.
pub fn tally(counts: &mut Vec<u64>, values: &mut Vec<u64>, done: &Vec<Reserved>)
    requires
        old(counts)@.len() == old(values)@.len(),
        txs_ok(done@, old(counts)@.len() as int),
        counts_fit(old(counts)@, done@.len() as int),
    ensures
        (final(counts)@, final(values)@) == tallied(
            old(counts)@,
            old(values)@,
            done@,
            done@.len() as int,
        ),
{
    let ghost (c, v) = (counts@, values@);
    let size: usize = counts.len();
    let mut i: usize = 0;
    while i < done.len()
        invariant
            i <= done@.len(),
            c == old(counts)@,
            size == c.len(),
            v == old(values)@,
            c.len() == v.len(),
            txs_ok(done@, c.len() as int),
            counts_fit(c, done@.len() as int),
            (counts@, values@) == tallied(c, v, done@, i as int),
        decreases done@.len() - i,
    {
        proof {
            assert forall|t: int| 0 <= t < c.len() implies (#[trigger] c[t]) + (i + 1)
                <= u64::MAX by {
                assert(c[t] + done@.len() <= u64::MAX);
            }
            lemma_tallied_lengths(c, v, done@, i + 1);
            assert forall|t: int| 0 <= t < c.len() implies (#[trigger] c[t]) + i <= u64::MAX by {
                assert(c[t] + done@.len() <= u64::MAX);
            }
            lemma_tallied_lengths(c, v, done@, i as int);
            assert(done@[i as int].tx < c.len());
            assert(counts@[done@[i as int].tx as int] <= c[done@[i as int].tx as int] + i);
        }
        let tx: usize = done[i].tx as usize;
        let count: u64 = counts[tx] + 1;
        counts.set(tx, count);
        let value: u64 = values[tx].wrapping_add(done[i].cell.value);
        values.set(tx, value);
        i = i + 1;
    }
}

/// All inputs of a transaction were reserved.
pub open spec fn eligible(counts: Seq<u64>, arity: u64, tx: u64) -> bool {
    counts[tx as int] == arity
}

/// The shards, and the checksum, after the first `n` reservations were settled.
pub open spec fn settled(
    maps: Seq<Map<u64, Cell>>,
    done: Seq<Reserved>,
    counts: Seq<u64>,
    arity: u64,
    n: int,
) -> (Seq<Map<u64, Cell>>, u64)
    decreases n,
{
    if n <= 0 || n > done.len() {
        (maps, 0)
    } else {
        let (before, checksum) = settled(maps, done, counts, arity, n - 1);
        let one = done[n - 1];
        if eligible(counts, arity, one.tx) {
            (before, checksum ^ engine::mixed(one.cell.id ^ one.cell.generation ^ one.cell.value))
        } else {
            (bundle::with_cell(before, one.slot as int, one.cell), checksum)
        }
    }
}

/// How many of the first `n` reservations are of transactions that are made.
pub open spec fn kept_count(done: Seq<Reserved>, counts: Seq<u64>, arity: u64, n: int) -> int
    decreases n,
{
    if n <= 0 || n > done.len() {
        0
    } else {
        kept_count(done, counts, arity, n - 1) + if eligible(counts, arity, done[n - 1].tx) {
            1int
        } else {
            0
        }
    }
}

pub proof fn lemma_settled(
    maps: Seq<Map<u64, Cell>>,
    done: Seq<Reserved>,
    counts: Seq<u64>,
    arity: u64,
    n: int,
)
    requires
        0 <= n <= done.len(),
        bundle::shards_finite(maps),
        restorable(maps, done),
    ensures
        ({
            let (after, _) = settled(maps, done, counts, arity, n);
            &&& after.len() == maps.len()
            &&& bundle::shards_finite(after)
            &&& forall|i: int|
                n <= i < done.len() ==> !after[(#[trigger] done[i]).slot as int].contains_key(
                    done[i].cell.id,
                )
            &&& bundle::cells_in(after, maps.len() as int) == bundle::cells_in(maps, maps.len() as int) + n
                - kept_count(done, counts, arity, n)
            &&& forall|i: int, id: u64|
                0 <= i < maps.len() && #[trigger] after[i].contains_key(id) ==> (
                maps[i].contains_key(id) && after[i][id] == maps[i][id]) || exists|j: int|
                    0 <= j < n && (#[trigger] done[j]).slot == i && done[j].cell.id == id
                        && after[i][id] == done[j].cell
            &&& forall|i: int, id: u64|
                0 <= i < maps.len() && #[trigger] maps[i].contains_key(id)
                    ==> after[i].contains_key(id) && after[i][id] == maps[i][id]
            &&& forall|j: int|
                0 <= j < n && !eligible(counts, arity, (#[trigger] done[j]).tx)
                    ==> after[done[j].slot as int].contains_key(done[j].cell.id)
        }),
    decreases n,
{
    if n > 0 {
        lemma_settled(maps, done, counts, arity, n - 1);
        let (before, _) = settled(maps, done, counts, arity, n - 1);
        let (after, _) = settled(maps, done, counts, arity, n);
        let one = done[n - 1];
        assert(one.slot < maps.len());
        if !eligible(counts, arity, one.tx) {
            assert(!before[one.slot as int].contains_key(one.cell.id));
            bundle::lemma_with_cell(before, one.slot as int, one.cell);
            assert forall|i: int, id: u64|
                0 <= i < maps.len() && #[trigger] after[i].contains_key(id) implies (
            maps[i].contains_key(id) && after[i][id] == maps[i][id]) || exists|j: int|
                0 <= j < n && (#[trigger] done[j]).slot == i && done[j].cell.id == id
                    && after[i][id] == done[j].cell by {
                if i == one.slot && id == one.cell.id {
                    assert(done[n - 1].slot == i);
                } else {
                    assert(before[i].contains_key(id));
                    if !(maps[i].contains_key(id) && before[i][id] == maps[i][id]) {
                        let j = choose|j: int|
                            0 <= j < n - 1 && (#[trigger] done[j]).slot == i && done[j].cell.id
                                == id && before[i][id] == done[j].cell;
                        assert(done[j].slot == i);
                    }
                }
            }
        } else {
            assert forall|i: int, id: u64|
                0 <= i < maps.len() && #[trigger] after[i].contains_key(id) implies (
            maps[i].contains_key(id) && after[i][id] == maps[i][id]) || exists|j: int|
                0 <= j < n && (#[trigger] done[j]).slot == i && done[j].cell.id == id
                    && after[i][id] == done[j].cell by {
                if !(maps[i].contains_key(id) && before[i][id] == maps[i][id]) {
                    let j = choose|j: int|
                        0 <= j < n - 1 && (#[trigger] done[j]).slot == i && done[j].cell.id == id
                            && before[i][id] == done[j].cell;
                    assert(done[j].slot == i);
                }
            }
        }
    }
}

/// Settles reservations: those of a transaction that is made enter the checksum,
/// and the others are put back.
pub fn settle(
    maps: &mut Vec<HashMap<u64, Cell>>,
    done: &Vec<Reserved>,
    counts: &Vec<u64>,
    arity: u64,
) -> (r: u64)
    requires
        txs_ok(done@, counts@.len() as int),
        bundle::shards_finite(bundle::shard_maps(old(maps)@)),
        restorable(bundle::shard_maps(old(maps)@), done@),
    ensures
        final(maps)@.len() == old(maps)@.len(),
        (bundle::shard_maps(final(maps)@), r) == settled(
            bundle::shard_maps(old(maps)@),
            done@,
            counts@,
            arity,
            done@.len() as int,
        ),
{
    let ghost before = bundle::shard_maps(maps@);
    let size: usize = counts.len();
    let mut checksum: u64 = 0;
    let mut i: usize = 0;
    while i < done.len()
        invariant
            i <= done@.len(),
            maps@.len() == old(maps)@.len(),
            before == bundle::shard_maps(old(maps)@),
            size == counts@.len(),
            txs_ok(done@, counts@.len() as int),
            restorable(before, done@),
            (bundle::shard_maps(maps@), checksum) == settled(before, done@, counts@, arity, i as int),
        decreases done@.len() - i,
    {
        let one: Reserved = done[i];
        assert(one.tx < counts@.len());
        if counts[one.tx as usize] == arity {
            checksum = checksum ^ mix64(one.cell.id ^ one.cell.generation ^ one.cell.value);
        } else {
            assert(one.slot < before.len());
            put_cell(maps, one.slot, one.cell);
        }
        i = i + 1;
    }
    checksum
}

// ---------------------------------------------------------------------------
// Outputs.
// ---------------------------------------------------------------------------

/// What making outputs gives.
#[verifier::ext_equal]
pub struct Emitted {
    pub outputs: Map<u64, Cell>,
    pub committed: int,
    pub aborted: int,
    pub checksum: u64,
}

/// What the transactions from `first` on, in strides and below `end`, give.
pub open spec fn emitted(
    l: Layout,
    counts: Seq<u64>,
    start: Emitted,
    tx: int,
    end: int,
    stride: int,
) -> Emitted
    decreases
            (if tx < end {
                end - tx
            } else {
                0
            }),
{
    if tx >= end || stride <= 0 {
        start
    } else {
        let cell = bundle::bundle_output(l, tx as u64);
        emitted(
            l,
            counts,
            if eligible(counts, l.arity, tx as u64) {
                Emitted {
                    outputs: start.outputs.insert(cell.id, cell),
                    committed: start.committed + 1,
                    checksum: start.checksum ^ bundle::output_checksum(l, tx as u64),
                    ..start
                }
            } else {
                Emitted { aborted: start.aborted + 1, ..start }
            },
            tx + stride,
            end,
            stride,
        )
    }
}

/// The values of the transactions that are made are those of their inputs.
pub open spec fn values_ok(
    l: Layout,
    counts: Seq<u64>,
    values: Seq<u64>,
    first: int,
    end: int,
) -> bool {
    forall|t: int|
        first <= t < end && eligible(counts, l.arity, t as u64) ==> #[trigger] values[t] == l.arity
            * VALUE
}

/// No transaction from `first` on has an output yet.
pub open spec fn outputs_free(l: Layout, outputs: Map<u64, Cell>, first: int) -> bool {
    forall|t: u64|
        first <= t < l.txs ==> !outputs.contains_key((#[trigger] bundle::bundle_output(l, t)).id)
}

/// What a worker has made.
#[derive(Clone, Copy, Debug, PartialEq, Eq, Structural)]
pub struct EmitTotals {
    pub committed: u64,
    pub aborted: u64,
    pub checksum: u64,
}

/// Makes the outputs of the transactions from `first` on, in strides and below
/// `end`.
pub fn emit(
    l: &Layout,
    counts: &Vec<u64>,
    values: &Vec<u64>,
    first: u64,
    end: u64,
    stride: u64,
    outputs: &mut HashMap<u64, Cell>,
) -> (r: EmitTotals)
    requires
        bundle::layout_ok(*l),
        end <= l.txs,
        stride > 0,
        l.txs + stride <= u64::MAX,
        counts@.len() == l.txs,
        values@.len() == l.txs,
        values_ok(*l, counts@, values@, first as int, end as int),
        outputs_free(*l, old(outputs)@, first as int),
    ensures
        ({
            let done = emitted(
                *l,
                counts@,
                Emitted { outputs: old(outputs)@, committed: 0, aborted: 0, checksum: 0 },
                first as int,
                end as int,
                stride as int,
            );
            &&& final(outputs)@ == done.outputs
            &&& r.committed == done.committed
            &&& r.aborted == done.aborted
            &&& r.checksum == done.checksum
        }),
{
    let ghost before = Emitted { outputs: outputs@, committed: 0, aborted: 0, checksum: 0 };
    let mut totals: EmitTotals = EmitTotals { committed: 0, aborted: 0, checksum: 0 };
    let size: usize = counts.len();
    let mut tx: u64 = first;
    while tx < end
        invariant
            bundle::layout_ok(*l),
            end <= l.txs,
            stride > 0,
            l.txs + stride <= u64::MAX,
            size == counts@.len(),
            counts@.len() == l.txs,
            values@.len() == l.txs,
            values_ok(*l, counts@, values@, first as int, end as int),
            before.outputs == old(outputs)@,
            totals.committed <= tx,
            totals.aborted <= tx,
            first <= tx,
            tx <= l.txs + stride || tx == first,
            emitted(*l, counts@, before, first as int, end as int, stride as int) == emitted(
                *l,
                counts@,
                Emitted {
                    outputs: outputs@,
                    committed: totals.committed as int,
                    aborted: totals.aborted as int,
                    checksum: totals.checksum,
                },
                tx as int,
                end as int,
                stride as int,
            ),
            before == (Emitted {
                outputs: old(outputs)@,
                committed: 0,
                aborted: 0,
                checksum: 0,
            }),
        decreases
                (if tx < end {
                    end - tx
                } else {
                    0
                }),
    {
        if counts[tx as usize] == l.arity {
            assert(eligible(counts@, l.arity, tx));
            assert(values@[tx as int] == l.arity * VALUE);
            let value: u64 = values[tx as usize];
            proof {
                lemma_tx_small(*l);
            }
            let sid: usize = output_shard(l, tx);
            let id: u64 = output_id(l, tx, sid);
            let next: Cell = Cell { id, value, generation: 1 };
            outputs.insert(id, next);
            totals = EmitTotals {
                committed: totals.committed + 1,
                aborted: totals.aborted,
                checksum: totals.checksum ^ mix64(next.id ^ next.value ^ next.generation),
            };
        } else {
            totals = EmitTotals {
                committed: totals.committed,
                aborted: totals.aborted + 1,
                checksum: totals.checksum,
            };
        }
        tx = tx + stride;
    }
    totals
}

proof fn lemma_tx_small(l: Layout)
    requires
        bundle::layout_ok(l),
    ensures
        l.txs < OUTPUT_BASE,
{
    assert(l.txs <= l.txs * l.arity) by (nonlinear_arith)
        requires
            l.arity >= 1,
    ;
}

// ---------------------------------------------------------------------------
// The references of a batch.
// ---------------------------------------------------------------------------

/// The reference number `k` of a transaction.
pub open spec fn item_of(l: Layout, tx: u64, k: int) -> WorkItem {
    WorkItem { tx, slot: bundle::reference(l, tx, k).0, id: bundle::reference(l, tx, k).1 }
}

/// The first `n` references of a transaction.
pub open spec fn tx_items(l: Layout, tx: u64, n: nat) -> Seq<WorkItem> {
    Seq::new(n, |k: int| item_of(l, tx, k))
}

/// The references of the transactions from `start` up to `end`.
pub open spec fn items_of(l: Layout, start: int, end: int) -> Seq<WorkItem>
    decreases end - start,
{
    if end <= start {
        Seq::empty()
    } else {
        items_of(l, start, end - 1) + tx_items(l, (end - 1) as u64, l.arity as nat)
    }
}

/// Lists the references of some transactions.
pub fn batch_items(l: &Layout, start: u64, end: u64) -> (r: Vec<WorkItem>)
    requires
        bundle::layout_ok(*l),
        start <= end <= l.txs,
    ensures
        r@ == items_of(*l, start as int, end as int),
        items_ok(r@, l.shards as int),
{
    let mut items: Vec<WorkItem> = Vec::new();
    let mut tx: u64 = start;
    while tx < end
        invariant
            bundle::layout_ok(*l),
            start <= tx <= end <= l.txs,
            items@ == items_of(*l, start as int, tx as int),
            items_ok(items@, l.shards as int),
        decreases end - tx,
    {
        let ghost before = items@;
        let mut k: u64 = 0;
        assert(items@ =~= before + tx_items(*l, tx, 0));
        while k < l.arity
            invariant
                bundle::layout_ok(*l),
                tx < l.txs,
                k <= l.arity,
                items@ == before + tx_items(*l, tx, k as nat),
                items_ok(items@, l.shards as int),
            decreases l.arity - k,
        {
            let serial: u64 = referenced_serial(l, tx, k);
            let sid: usize = input_shard(l, serial);
            let id: u64 = input_id(l, serial);
            items.push(WorkItem { tx, slot: sid, id });
            k = k + 1;
            assert(items@ =~= before + tx_items(*l, tx, k as nat));
        }
        tx = tx + 1;
    }
    items
}

/// How many references of a list are of a transaction.
pub open spec fn item_count(items: Seq<WorkItem>, t: u64) -> int
    decreases items.len(),
{
    if items.len() == 0 {
        0
    } else {
        item_count(items.drop_last(), t) + if items.last().tx == t {
            1int
        } else {
            0
        }
    }
}

pub proof fn lemma_item_count_concat(a: Seq<WorkItem>, b: Seq<WorkItem>, t: u64)
    ensures
        item_count(a + b, t) == item_count(a, t) + item_count(b, t),
    decreases b.len(),
{
    if b.len() == 0 {
        assert(a + b =~= a);
    } else {
        lemma_item_count_concat(a, b.drop_last(), t);
        assert((a + b).drop_last() =~= a + b.drop_last());
    }
}

pub proof fn lemma_tx_items(l: Layout, tx: u64, n: nat, t: u64)
    ensures
        item_count(tx_items(l, tx, n), t) == if t == tx {
            n as int
        } else {
            0
        },
    decreases n,
{
    if n > 0 {
        lemma_tx_items(l, tx, (n - 1) as nat, t);
        assert(tx_items(l, tx, n).drop_last() =~= tx_items(l, tx, (n - 1) as nat));
    }
}

proof fn lemma_items_of(l: Layout, start: int, end: int)
    requires
        bundle::layout_ok(l),
        0 <= start <= end <= l.txs,
    ensures
        forall|t: u64| #[trigger]
            item_count(items_of(l, start, end), t) == if start <= t < end {
                l.arity as int
            } else {
                0
            },
        items_of(l, start, end).len() == (end - start) * l.arity,
        forall|i: int|
            0 <= i < items_of(l, start, end).len() ==> start <= (#[trigger] items_of(
                l,
                start,
                end,
            )[i]).tx < end,
    decreases end - start,
{
    if end <= start {
        assert((end - start) * l.arity == 0) by (nonlinear_arith)
            requires
                end - start == 0,
        ;
    } else {
        lemma_items_of(l, start, end - 1);
        let a = items_of(l, start, end - 1);
        let b = tx_items(l, (end - 1) as u64, l.arity as nat);
        assert forall|t: u64| #[trigger] item_count(items_of(l, start, end), t) == if start <= t
            < end {
            l.arity as int
        } else {
            0
        } by {
            lemma_item_count_concat(a, b, t);
            lemma_tx_items(l, (end - 1) as u64, l.arity as nat, t);
            assert(item_count(a, t) == if start <= t < end - 1 {
                l.arity as int
            } else {
                0
            });
        }
        assert((end - 1 - start) * l.arity + l.arity == (end - start) * l.arity)
            by (nonlinear_arith);
    }
}

/// A reference is one of those of a transaction from `start` up to `end`.
pub open spec fn refers(l: Layout, item: WorkItem, start: int, end: int) -> bool {
    &&& start <= item.tx < end
    &&& exists|k: int| 0 <= k < l.arity && #[trigger] item_of(l, item.tx, k) == item
}

/// The references of the transactions from `start` up to `end`, each once, in any
/// order.
pub open spec fn work_of(l: Layout, items: Seq<WorkItem>, start: int, end: int) -> bool {
    &&& items.len() < OUTPUT_BASE
    &&& items.no_duplicates()
    &&& forall|i: int| 0 <= i < items.len() ==> refers(l, #[trigger] items[i], start, end)
    &&& forall|t: u64| start <= t < end ==> #[trigger] item_count(items, t) == l.arity
}

/// No reference of a transaction occurs twice.
pub proof fn lemma_references_differ(l: Layout, tx: u64, j: int, k: int)
    requires
        bundle::layout_ok(l),
        tx < l.txs,
        0 <= j < l.arity,
        0 <= k < l.arity,
        item_of(l, tx, j) == item_of(l, tx, k),
    ensures
        j == k,
{
    bundle::lemma_serial(l, tx, j);
    bundle::lemma_serial(l, tx, k);
    assert(bundle::reference(l, tx, j) == bundle::reference(l, tx, k));
    bundle::law_inputs_are_apart(l, bundle::referenced(l, tx, j), bundle::referenced(l, tx, k));
    if j < k {
        bundle::law_references_are_apart(l, tx, j, k);
    } else if k < j {
        bundle::law_references_are_apart(l, tx, k, j);
    }
}

/// The references of one transaction are all different.
pub proof fn lemma_tx_items_differ(l: Layout, tx: u64)
    requires
        bundle::layout_ok(l),
        tx < l.txs,
    ensures
        tx_items(l, tx, l.arity as nat).no_duplicates(),
        forall|i: int|
            0 <= i < l.arity ==> refers(
                l,
                #[trigger] tx_items(l, tx, l.arity as nat)[i],
                tx as int,
                tx + 1,
            ),
{
    let own = tx_items(l, tx, l.arity as nat);
    assert forall|i: int, j: int| 0 <= i < own.len() && 0 <= j < own.len() && i != j implies own[i]
        != own[j] by {
        assert(own[i] == item_of(l, tx, i));
        assert(own[j] == item_of(l, tx, j));
        if own[i] == own[j] {
            lemma_references_differ(l, tx, i, j);
        }
    }
    assert forall|i: int| 0 <= i < l.arity implies refers(l, #[trigger] own[i], tx as int, tx + 1) by {
        assert(own[i] == item_of(l, tx, i));
    }
}

/// The references in order are all the references.
pub proof fn lemma_work_items(l: Layout, start: int, end: int)
    requires
        bundle::layout_ok(l),
        0 <= start <= end <= l.txs,
    ensures
        work_of(l, items_of(l, start, end), start, end),
    decreases end - start,
{
    lemma_items_of(l, start, end);
    let all = items_of(l, start, end);
    assert((end - start) * l.arity <= l.txs * l.arity) by (nonlinear_arith)
        requires
            0 <= end - start <= l.txs,
            l.arity >= 0,
    ;
    if start < end {
        lemma_work_items(l, start, end - 1);
        let tx = (end - 1) as u64;
        lemma_tx_items_differ(l, tx);
        let a = items_of(l, start, end - 1);
        let b = tx_items(l, tx, l.arity as nat);
        assert forall|i: int| 0 <= i < all.len() implies refers(l, #[trigger] all[i], start, end) by {
            if i < a.len() {
                assert(all[i] == a[i]);
                assert(refers(l, a[i], start, end - 1));
            } else {
                assert(all[i] == b[i - a.len()]);
                assert(refers(l, b[i - a.len()], tx as int, tx + 1));
            }
        }
        assert forall|i: int, j: int|
            0 <= i < all.len() && 0 <= j < all.len() && i != j implies all[i] != all[j] by {
            if i < a.len() {
                assert(refers(l, a[i], start, end - 1));
            }
            if j < a.len() {
                assert(refers(l, a[j], start, end - 1));
            }
        }
    }
}

/// How many references of a list are of the transactions from `start` up to `end`.
pub open spec fn counts_sum(items: Seq<WorkItem>, start: int, end: int) -> int
    decreases end - start,
{
    if end <= start {
        0
    } else {
        counts_sum(items, start, end - 1) + item_count(items, (end - 1) as u64)
    }
}

proof fn lemma_counts_sum_step(items: Seq<WorkItem>, start: int, end: int)
    requires
        items.len() > 0,
        0 <= start,
        end <= u64::MAX,
    ensures
        counts_sum(items, start, end) == counts_sum(items.drop_last(), start, end) + if start
            <= items.last().tx < end {
            1int
        } else {
            0
        },
    decreases end - start,
{
    if end > start {
        lemma_counts_sum_step(items, start, end - 1);
    }
}

proof fn lemma_counts_sum_none(start: int, end: int)
    ensures
        counts_sum(Seq::empty(), start, end) == 0,
    decreases end - start,
{
    if end > start {
        lemma_counts_sum_none(start, end - 1);
    }
}

proof fn lemma_counts_sum_all(items: Seq<WorkItem>, start: int, end: int)
    requires
        0 <= start,
        end <= u64::MAX,
        forall|i: int| 0 <= i < items.len() ==> start <= (#[trigger] items[i]).tx < end,
    ensures
        counts_sum(items, start, end) == items.len(),
    decreases items.len(),
{
    if items.len() == 0 {
        assert(items =~= Seq::empty());
        lemma_counts_sum_none(start, end);
    } else {
        lemma_counts_sum_step(items, start, end);
        lemma_counts_sum_all(items.drop_last(), start, end);
    }
}

proof fn lemma_counts_sum_even(items: Seq<WorkItem>, start: int, end: int, each: int)
    requires
        0 <= start <= end <= u64::MAX,
        forall|t: u64| start <= t < end ==> #[trigger] item_count(items, t) == each,
    ensures
        counts_sum(items, start, end) == (end - start) * each,
    decreases end - start,
{
    if end > start {
        lemma_counts_sum_even(items, start, end - 1, each);
        assert(item_count(items, (end - 1) as u64) == each);
        assert((end - 1 - start) * each + each == (end - start) * each) by (nonlinear_arith);
    } else {
        assert((end - start) * each == 0) by (nonlinear_arith)
            requires
                end == start,
        ;
    }
}

/// Every reference of a stretch of transactions is in its list, in whatever order.
pub proof fn law_work_is_complete(l: Layout, items: Seq<WorkItem>, start: int, end: int)
    requires
        bundle::layout_ok(l),
        0 <= start <= end <= l.txs,
        forall|i: int| 0 <= i < items.len() ==> refers(l, #[trigger] items[i], start, end),
        forall|t: u64| start <= t < end ==> #[trigger] item_count(items, t) == l.arity,
    ensures
        items.len() == (end - start) * l.arity,
        items.len() < OUTPUT_BASE,
{
    assert forall|i: int| 0 <= i < items.len() implies start <= (#[trigger] items[i]).tx < end by {
        assert(refers(l, items[i], start, end));
    }
    lemma_counts_sum_all(items, start, end);
    lemma_counts_sum_even(items, start, end, l.arity as int);
    assert((end - start) * l.arity <= l.txs * l.arity) by (nonlinear_arith)
        requires
            0 <= end - start <= l.txs,
            l.arity >= 0,
    ;
}

/// All references name shards that there are.
pub proof fn lemma_work_shards(l: Layout, items: Seq<WorkItem>, start: int, end: int)
    requires
        bundle::layout_ok(l),
        0 <= start <= end <= l.txs,
        forall|i: int| 0 <= i < items.len() ==> refers(l, #[trigger] items[i], start, end),
    ensures
        items_ok(items, l.shards as int),
{
    assert forall|i: int| 0 <= i < items.len() implies (#[trigger] items[i]).slot < l.shards by {
        assert(refers(l, items[i], start, end));
        let k = choose|k: int|
            0 <= k < l.arity && #[trigger] item_of(l, items[i].tx, k) == items[i];
        bundle::lemma_serial(l, items[i].tx, k);
        engine::lemma_shard_for(bundle::referenced(l, items[i].tx, k), l.input_salt, l.shards);
    }
}

// ---------------------------------------------------------------------------
// Counting.
// ---------------------------------------------------------------------------

/// How many of the first `n` reservations are of a transaction.
pub open spec fn occurrences(done: Seq<Reserved>, t: int, n: int) -> int
    decreases n,
{
    if n <= 0 || n > done.len() {
        0
    } else {
        occurrences(done, t, n - 1) + if done[n - 1].tx == t {
            1int
        } else {
            0
        }
    }
}

proof fn lemma_occurrences_bound(done: Seq<Reserved>, t: int, n: int)
    requires
        0 <= n <= done.len(),
    ensures
        0 <= occurrences(done, t, n) <= n,
    decreases n,
{
    if n > 0 {
        lemma_occurrences_bound(done, t, n - 1);
    }
}

proof fn lemma_tallied(
    counts: Seq<u64>,
    values: Seq<u64>,
    done: Seq<Reserved>,
    start: int,
    n: int,
)
    requires
        0 <= n <= done.len() < OUTPUT_BASE,
        counts.len() == values.len(),
        txs_ok(done, counts.len() as int),
        0 <= start,
        forall|t: int|
            start <= t < counts.len() ==> (#[trigger] counts[t]) == 0 && values[t] == 0,
        forall|i: int|
            0 <= i < done.len() ==> start <= (#[trigger] done[i]).tx && done[i].cell.value
                == VALUE,
    ensures
        tallied(counts, values, done, n).0.len() == counts.len(),
        tallied(counts, values, done, n).1.len() == counts.len(),
        forall|t: int|
            start <= t < counts.len() ==> (#[trigger] tallied(counts, values, done, n).0[t])
                == occurrences(done, t, n),
        forall|t: int|
            start <= t < counts.len() ==> (#[trigger] tallied(counts, values, done, n).1[t])
                == occurrences(done, t, n) * VALUE,
        forall|t: int|
            0 <= t < start && t < counts.len() ==> (#[trigger] tallied(
                counts,
                values,
                done,
                n,
            ).0[t]) == counts[t],
        forall|t: int|
            0 <= t < start && t < counts.len() ==> (#[trigger] tallied(
                counts,
                values,
                done,
                n,
            ).1[t]) == values[t],
    decreases n,
{
    if n > 0 {
        lemma_tallied(counts, values, done, start, n - 1);
        let (c, v) = tallied(counts, values, done, n - 1);
        let tx = done[n - 1].tx as int;
        lemma_occurrences_bound(done, tx, n - 1);
        assert(c[tx] == occurrences(done, tx, n - 1));
        assert(v[tx] == occurrences(done, tx, n - 1) * VALUE);
        assert forall|t: int| start <= t < counts.len() implies (#[trigger] tallied(
            counts,
            values,
            done,
            n,
        ).1[t]) == occurrences(done, t, n) * VALUE by {
            assert(v[t] == occurrences(done, t, n - 1) * VALUE);
        }
        assert forall|t: int| start <= t < counts.len() implies (#[trigger] tallied(
            counts,
            values,
            done,
            n,
        ).0[t]) == occurrences(done, t, n) by {
            assert(c[t] == occurrences(done, t, n - 1));
        }
    } else {
        assert forall|t: int| start <= t < counts.len() implies (#[trigger] values[t]) == 0 by {
            assert(counts[t] == 0);
        }
    }
}

/// How many transactions from `start` up to `end` are made.
pub open spec fn made_count(counts: Seq<u64>, arity: u64, start: int, end: int) -> int
    decreases end - start,
{
    if end <= start {
        0
    } else {
        made_count(counts, arity, start, end - 1) + if counts[end - 1] == arity {
            1int
        } else {
            0
        }
    }
}

/// The reservations, among the first `n`, of the transactions from `start` up to
/// `end` that are made.
spec fn made_occurrences(
    done: Seq<Reserved>,
    counts: Seq<u64>,
    arity: u64,
    start: int,
    end: int,
    n: int,
) -> int
    decreases end - start,
{
    if end <= start {
        0
    } else {
        made_occurrences(done, counts, arity, start, end - 1, n) + if counts[end - 1] == arity {
            occurrences(done, end - 1, n)
        } else {
            0
        }
    }
}

proof fn lemma_made_step(
    done: Seq<Reserved>,
    counts: Seq<u64>,
    arity: u64,
    start: int,
    end: int,
    n: int,
)
    requires
        0 < n <= done.len(),
        0 <= start,
    ensures
        made_occurrences(done, counts, arity, start, end, n) == made_occurrences(
            done,
            counts,
            arity,
            start,
            end,
            n - 1,
        ) + if start <= done[n - 1].tx < end && counts[done[n - 1].tx as int] == arity {
            1int
        } else {
            0
        },
    decreases end - start,
{
    if end > start {
        lemma_made_step(done, counts, arity, start, end - 1, n);
    }
}

proof fn lemma_made_none(
    done: Seq<Reserved>,
    counts: Seq<u64>,
    arity: u64,
    start: int,
    end: int,
)
    ensures
        made_occurrences(done, counts, arity, start, end, 0) == 0,
    decreases end - start,
{
    if end > start {
        lemma_made_none(done, counts, arity, start, end - 1);
    }
}

proof fn lemma_kept_is_made(
    done: Seq<Reserved>,
    counts: Seq<u64>,
    arity: u64,
    start: int,
    end: int,
    n: int,
)
    requires
        0 <= n <= done.len(),
        0 <= start,
        forall|i: int| 0 <= i < done.len() ==> start <= (#[trigger] done[i]).tx < end,
    ensures
        kept_count(done, counts, arity, n) == made_occurrences(
            done,
            counts,
            arity,
            start,
            end,
            n,
        ),
    decreases n,
{
    if n <= 0 {
        lemma_made_none(done, counts, arity, start, end);
    } else {
        lemma_kept_is_made(done, counts, arity, start, end, n - 1);
        lemma_made_step(done, counts, arity, start, end, n);
    }
}

proof fn lemma_made_total(
    done: Seq<Reserved>,
    counts: Seq<u64>,
    arity: u64,
    start: int,
    end: int,
)
    requires
        0 <= start,
        forall|t: int|
            start <= t < end ==> (#[trigger] counts[t]) == occurrences(
                done,
                t,
                done.len() as int,
            ),
    ensures
        made_occurrences(done, counts, arity, start, end, done.len() as int) == made_count(
            counts,
            arity,
            start,
            end,
        ) * arity,
        end > start ==> 0 <= made_count(counts, arity, start, end) <= end - start,
    decreases end - start,
{
    if end > start {
        lemma_made_total(done, counts, arity, start, end - 1);
        let before = made_count(counts, arity, start, end - 1);
        assert((before + 1) * arity == before * arity + arity) by (nonlinear_arith);
    } else {
        assert(0 * arity == 0) by (nonlinear_arith);
    }
}

/// The outputs of a batch, counted.
pub proof fn lemma_emitted(
    l: Layout,
    counts: Seq<u64>,
    start: Emitted,
    tx: int,
    end: int,
)
    requires
        bundle::layout_ok(l),
        0 <= tx <= end <= l.txs,
        start.outputs.dom().finite(),
        outputs_free(l, start.outputs, tx),
    ensures
        ({
            let done = emitted(l, counts, start, tx, end, 1);
            &&& done.outputs.dom().finite()
            &&& done.committed == start.committed + made_count(counts, l.arity, tx, end)
            &&& done.committed + done.aborted == start.committed + start.aborted + end - tx
            &&& done.outputs.len() == start.outputs.len() + made_count(counts, l.arity, tx, end)
            &&& ordmap::weight(done.outputs, perf002::cell_value()) == ordmap::weight(start.outputs, perf002::cell_value())
                + made_count(counts, l.arity, tx, end) * (l.arity * VALUE)
            &&& outputs_free(l, done.outputs, end)
        }),
    decreases end - tx,
{
    if tx < end {
        let cell = bundle::bundle_output(l, tx as u64);
        let made = eligible(counts, l.arity, tx as u64);
        let next = if made {
            Emitted {
                outputs: start.outputs.insert(cell.id, cell),
                committed: start.committed + 1,
                checksum: start.checksum ^ bundle::output_checksum(l, tx as u64),
                ..start
            }
        } else {
            Emitted { aborted: start.aborted + 1, ..start }
        };
        assert(!start.outputs.contains_key(bundle::bundle_output(l, tx as u64).id));
        ordmap::lemma_weight_insert(start.outputs, perf002::cell_value(), cell.id, cell);
        assert forall|t: u64| tx + 1 <= t < l.txs implies !next.outputs.contains_key(
            (#[trigger] bundle::bundle_output(l, t)).id,
        ) by {
            if bundle::bundle_output(l, t).id == cell.id {
                bundle::law_outputs_are_apart(l, t, tx as u64);
            }
        }
        lemma_emitted(l, counts, next, tx + 1, end);
        lemma_made_first(counts, l.arity, tx, end);
        let rest = made_count(counts, l.arity, tx + 1, end);
        assert((rest + 1) * (l.arity * VALUE) == rest * (l.arity * VALUE) + l.arity * VALUE)
            by (nonlinear_arith);
    } else {
        assert(0 * (l.arity * VALUE) == 0) by (nonlinear_arith);
    }
}

proof fn lemma_made_first(counts: Seq<u64>, arity: u64, start: int, end: int)
    requires
        start < end,
    ensures
        made_count(counts, arity, start, end) == made_count(counts, arity, start + 1, end)
            + if counts[start] == arity {
            1int
        } else {
            0
        },
    decreases end - start,
{
    if start + 1 < end {
        lemma_made_first(counts, arity, start, end - 1);
    } else {
        assert(made_count(counts, arity, start, end - 1) == 0);
    }
}

// ---------------------------------------------------------------------------
// A run.
// ---------------------------------------------------------------------------

/// Where a run stands between two batches.
#[verifier::ext_equal]
pub struct BatchState {
    pub maps: Seq<Map<u64, Cell>>,
    pub counts: Seq<u64>,
    pub values: Seq<u64>,
    pub outputs: Map<u64, Cell>,
    pub committed: int,
    pub aborted: int,
    pub checksum: u64,
}

/// A run before its first batch.
pub open spec fn batch_start(l: Layout) -> BatchState {
    BatchState {
        maps: bundle::filled(l, bundle::inputs_total(l)),
        counts: Seq::new(l.txs as nat, |t: int| 0u64),
        values: Seq::new(l.txs as nat, |t: int| 0u64),
        outputs: Map::empty(),
        committed: 0,
        aborted: 0,
        checksum: 0,
    }
}

/// A run after the batch of the transactions from `start` up to `end`, worked off
/// in the order of `items`.
pub open spec fn after_work(
    l: Layout,
    s: BatchState,
    items: Seq<WorkItem>,
    start: int,
    end: int,
) -> BatchState {
    let (left, done) = reserved_from(s.maps, items, items.len() as int);
    let (counts, values) = tallied(s.counts, s.values, done, done.len() as int);
    let (maps, kept) = settled(left, done, counts, l.arity, done.len() as int);
    let made = emitted(
        l,
        counts,
        Emitted { outputs: s.outputs, committed: 0, aborted: 0, checksum: 0 },
        start,
        end,
        1,
    );
    BatchState {
        maps,
        counts,
        values,
        outputs: made.outputs,
        committed: s.committed + made.committed,
        aborted: s.aborted + made.aborted,
        checksum: s.checksum ^ kept ^ made.checksum,
    }
}

/// A run after the batch of the transactions from `start` up to `end`, worked off
/// in their order.
pub open spec fn after_batch(l: Layout, s: BatchState, start: int, end: int) -> BatchState {
    after_work(l, s, items_of(l, start, end), start, end)
}

/// A run after the transactions below `n`, in batches of `size` of which the last
/// may be smaller.
pub open spec fn batch_run(l: Layout, size: int, n: int) -> BatchState
    decreases n,
{
    if n <= 0 || size <= 0 {
        batch_start(l)
    } else {
        let start = batch_first(size, n);
        if start < 0 || start >= n {
            batch_start(l)
        } else {
            after_batch(l, batch_run(l, size, start), start, n)
        }
    }
}

/// The first transaction of the batch that ends before `n`.
pub open spec fn batch_first(size: int, n: int) -> int {
    ((n - 1) / size) * size
}

/// What holds between two batches: all cells of the shards are inputs as they were
/// made, the outputs are of transactions below `n`, and the cells and their value
/// add up.
pub open spec fn batches_ok(l: Layout, s: BatchState, n: int) -> bool {
    &&& s.maps.len() == l.shards
    &&& bundle::shards_finite(s.maps)
    &&& bundle::inputs_plain(l, s.maps)
    &&& bundle::inputs_below(l, s.maps, bundle::inputs_total(l))
    &&& s.counts.len() == l.txs
    &&& s.values.len() == l.txs
    &&& forall|t: int| n <= t < l.txs ==> (#[trigger] s.counts[t]) == 0 && s.values[t] == 0
    &&& forall|t: int| 0 <= t < l.txs ==> (#[trigger] s.counts[t]) <= OUTPUT_BASE
    &&& s.outputs.dom().finite()
    &&& outputs_free(l, s.outputs, n)
    &&& s.committed + s.aborted == n
    &&& 0 <= s.committed
    &&& 0 <= s.aborted
    &&& s.outputs.len() == s.committed
    &&& ordmap::weight(s.outputs, perf002::cell_value()) == s.committed * (l.arity * VALUE)
    &&& bundle::cells_in(s.maps, l.shards as int) == bundle::inputs_total(l) - s.committed * l.arity
}

pub proof fn lemma_keyed(l: Layout, maps: Seq<Map<u64, Cell>>)
    requires
        bundle::layout_ok(l),
        maps.len() == l.shards,
        bundle::inputs_plain(l, maps),
        bundle::inputs_below(l, maps, bundle::inputs_total(l)),
    ensures
        keyed(maps),
        forall|i: int, id: u64|
            0 <= i < maps.len() && #[trigger] maps[i].contains_key(id) ==> maps[i][id].value
                == VALUE,
{
    assert forall|i: int, id: u64|
        0 <= i < maps.len() && #[trigger] maps[i].contains_key(id) implies maps[i][id].id == id
        && maps[i][id].value == VALUE by {
        let s = choose|s: u64|
            s < bundle::inputs_total(l) && #[trigger] bundle::input_place(l, s) == (i as usize, id);
        assert(maps[i][id] == bundle::input_cell(l, s));
    }
}

/// What one batch does, step by step: the facts that its parts rest on.
pub proof fn lemma_batch_parts(
    l: Layout,
    s: BatchState,
    items: Seq<WorkItem>,
    start: int,
    end: int,
)
    requires
        bundle::layout_ok(l),
        0 <= start < end <= l.txs,
        work_of(l, items, start, end),
        batches_ok(l, s, start),
    ensures
        ({
            let (left, done) = reserved_from(s.maps, items, items.len() as int);
            let (counts, values) = tallied(s.counts, s.values, done, done.len() as int);
            &&& items_ok(items, l.shards as int)
            &&& left.len() == l.shards
            &&& bundle::shards_finite(left)
            &&& restorable(left, done)
            &&& txs_ok(done, l.txs as int)
            &&& counts_fit(s.counts, done.len() as int)
            &&& done.len() <= items.len() < OUTPUT_BASE
            &&& forall|i: int|
                0 <= i < done.len() ==> start <= (#[trigger] done[i]).tx < end
                    && done[i].cell.value == VALUE
            &&& counts.len() == l.txs
            &&& values.len() == l.txs
            &&& forall|t: int|
                start <= t < l.txs ==> (#[trigger] counts[t]) == occurrences(
                    done,
                    t,
                    done.len() as int,
                ) && values[t] == occurrences(done, t, done.len() as int) * VALUE
            &&& forall|t: int| 0 <= t < start ==> (#[trigger] counts[t]) == s.counts[t]
            &&& forall|t: int| 0 <= t < start ==> (#[trigger] values[t]) == s.values[t]
            &&& bundle::cells_in(left, l.shards as int) == bundle::cells_in(s.maps, l.shards as int) - done.len()
        }),
{
    lemma_work_shards(l, items, start, end);
    lemma_keyed(l, s.maps);
    lemma_reserved(s.maps, items, items.len() as int);
    let (left, done) = reserved_from(s.maps, items, items.len() as int);
    assert forall|i: int| 0 <= i < done.len() implies start <= (#[trigger] done[i]).tx < end
        && done[i].cell.value == VALUE by {
        let j = choose|j: int|
            0 <= j < items.len() && (#[trigger] items[j]).tx == done[i].tx;
        assert(items[j].tx == done[i].tx);
        assert(refers(l, items[j], start, end));
        assert(s.maps[done[i].slot as int].contains_key(done[i].cell.id));
    }
    lemma_tallied(s.counts, s.values, done, start, done.len() as int);
    let (counts, values) = tallied(s.counts, s.values, done, done.len() as int);
    assert forall|t: int| start <= t < l.txs implies (#[trigger] counts[t]) == occurrences(
        done,
        t,
        done.len() as int,
    ) && values[t] == occurrences(done, t, done.len() as int) * VALUE by {
        assert(values[t] == occurrences(done, t, done.len() as int) * VALUE);
    }
}

/// Value is conserved: a batch keeps everything in order, in whatever order it is
/// worked off and whichever of its transactions are made.
pub proof fn law_batch_conserves_value(
    l: Layout,
    s: BatchState,
    items: Seq<WorkItem>,
    start: int,
    end: int,
)
    requires
        bundle::layout_ok(l),
        0 <= start < end <= l.txs,
        work_of(l, items, start, end),
        batches_ok(l, s, start),
    ensures
        batches_ok(l, after_work(l, s, items, start, end), end),
{
    lemma_batch_parts(l, s, items, start, end);
    let (left, done) = reserved_from(s.maps, items, items.len() as int);
    let (counts, values) = tallied(s.counts, s.values, done, done.len() as int);
    let (maps, kept) = settled(left, done, counts, l.arity, done.len() as int);
    lemma_keyed(l, s.maps);
    lemma_reserved(s.maps, items, items.len() as int);
    lemma_settled(left, done, counts, l.arity, done.len() as int);
    lemma_kept_is_made(done, counts, l.arity, start, end, done.len() as int);
    lemma_made_total(done, counts, l.arity, start, end);
    let before = Emitted { outputs: s.outputs, committed: 0, aborted: 0, checksum: 0 };
    lemma_emitted(l, counts, before, start, end);
    let made = made_count(counts, l.arity, start, end);
    let after = after_work(l, s, items, start, end);
    assert((s.committed + made) * l.arity == s.committed * l.arity + made * l.arity)
        by (nonlinear_arith);
    assert((s.committed + made) * (l.arity * VALUE) == s.committed * (l.arity * VALUE) + made
        * (l.arity * VALUE)) by (nonlinear_arith);
    assert(bundle::inputs_below(l, maps, bundle::inputs_total(l)) && bundle::inputs_plain(l, maps)) by {
        lemma_settled_inputs(l, s.maps, left, done, counts);
    }
    assert forall|t: int| 0 <= t < l.txs implies (#[trigger] after.counts[t])
        <= OUTPUT_BASE by {
        if t >= start {
            lemma_occurrences_bound(done, t, done.len() as int);
            assert(counts[t] == occurrences(done, t, done.len() as int));
        } else {
            assert(counts[t] == s.counts[t]);
        }
    }
    assert forall|t: int| end <= t < l.txs implies (#[trigger] after.counts[t]) == 0
        && after.values[t] == 0 by {
        lemma_no_occurrence(done, t, done.len() as int);
        assert(counts[t] == occurrences(done, t, done.len() as int));
    }
}

proof fn lemma_no_occurrence(done: Seq<Reserved>, t: int, n: int)
    requires
        0 <= n <= done.len(),
        forall|i: int| 0 <= i < done.len() ==> (#[trigger] done[i]).tx != t,
    ensures
        occurrences(done, t, n) == 0,
    decreases n,
{
    if n > 0 {
        lemma_no_occurrence(done, t, n - 1);
    }
}

proof fn lemma_settled_inputs(
    l: Layout,
    maps: Seq<Map<u64, Cell>>,
    left: Seq<Map<u64, Cell>>,
    done: Seq<Reserved>,
    counts: Seq<u64>,
)
    requires
        bundle::layout_ok(l),
        maps.len() == l.shards,
        left.len() == maps.len(),
        bundle::shards_finite(left),
        restorable(left, done),
        bundle::inputs_plain(l, maps),
        bundle::inputs_below(l, maps, bundle::inputs_total(l)),
        forall|i: int, id: u64|
            0 <= i < maps.len() && #[trigger] left[i].contains_key(id) ==> maps[i].contains_key(
                id,
            ) && left[i][id] == maps[i][id],
        forall|i: int|
            0 <= i < done.len() ==> maps[(#[trigger] done[i]).slot as int].contains_key(
                done[i].cell.id,
            ) && maps[done[i].slot as int][done[i].cell.id] == done[i].cell,
    ensures
        bundle::inputs_plain(l, settled(left, done, counts, l.arity, done.len() as int).0),
        bundle::inputs_below(
            l,
            settled(left, done, counts, l.arity, done.len() as int).0,
            bundle::inputs_total(l),
        ),
{
    let after = settled(left, done, counts, l.arity, done.len() as int).0;
    lemma_settled(left, done, counts, l.arity, done.len() as int);
    assert forall|i: int, id: u64|
        0 <= i < maps.len() && #[trigger] after[i].contains_key(id) implies maps[i].contains_key(
        id,
    ) && after[i][id] == maps[i][id] by {
        if !(left[i].contains_key(id) && after[i][id] == left[i][id]) {
            let j = choose|j: int|
                0 <= j < done.len() && (#[trigger] done[j]).slot == i && done[j].cell.id == id
                    && after[i][id] == done[j].cell;
            assert(maps[done[j].slot as int].contains_key(done[j].cell.id));
        }
    }
    assert forall|s: u64|
        s < bundle::inputs_total(l) && after[(#[trigger] bundle::input_place(l, s)).0 as int].contains_key(
            bundle::input_place(l, s).1,
        ) implies after[bundle::input_place(l, s).0 as int][bundle::input_place(l, s).1] == bundle::input_cell(l, s) by {
        engine::lemma_shard_for(s, l.input_salt, l.shards);
    }
    assert forall|i: int, id: u64|
        0 <= i < after.len() && #[trigger] after[i].contains_key(id) implies exists|s: u64|
        s < bundle::inputs_total(l) && #[trigger] bundle::input_place(l, s) == (i as usize, id) by {
        assert(maps[i].contains_key(id));
    }
}

/// A run starts in order.
pub proof fn law_batches_start(l: Layout)
    requires
        bundle::layout_ok(l),
    ensures
        batches_ok(l, batch_start(l), 0),
{
    bundle::lemma_filled(l, bundle::inputs_total(l));
    perf002::lemma_weight_empty();
    assert(0 * (l.arity * VALUE) == 0) by (nonlinear_arith);
    assert(0 * l.arity == 0) by (nonlinear_arith);
}

pub proof fn lemma_batch_first(size: int, n: int)
    requires
        size > 0,
        n > 0,
    ensures
        0 <= batch_first(size, n) < n,
        n <= batch_first(size, n) + size,
{
    let q = (n - 1) / size;
    vstd::arithmetic::div_mod::lemma_fundamental_div_mod(n - 1, size);
    vstd::arithmetic::div_mod::lemma_mod_bound(n - 1, size);
    vstd::arithmetic::div_mod::lemma_div_pos_is_pos(n - 1, size);
    assert(0 <= q * size) by (nonlinear_arith)
        requires
            q >= 0,
            size > 0,
    ;
    assert(size * q == q * size) by (nonlinear_arith);
}

/// Value is conserved over a whole run: at every point between two batches the
/// inputs that are left and the outputs are worth what all inputs were.
pub proof fn law_run_conserves_value(l: Layout, size: int, n: int)
    requires
        bundle::layout_ok(l),
        size > 0,
        0 <= n <= l.txs,
    ensures
        batches_ok(l, batch_run(l, size, n), n),
        bundle::value_in(batch_run(l, size, n).maps, l.shards as int) + ordmap::weight(
            batch_run(l, size, n).outputs,
            perf002::cell_value(),
        ) == bundle::inputs_total(l) * VALUE,
    decreases n,
{
    if n <= 0 {
        law_batches_start(l);
    } else {
        lemma_batch_first(size, n);
        let start = batch_first(size, n);
        law_run_conserves_value(l, size, start);
        lemma_work_items(l, start, n);
        law_batch_conserves_value(
            l,
            batch_run(l, size, start),
            items_of(l, start, n),
            start,
            n,
        );
    }
    lemma_state_value(l, batch_run(l, size, n), n);
}

/// Where the cells add up, so does their value.
pub proof fn lemma_state_value(l: Layout, s: BatchState, n: int)
    requires
        bundle::layout_ok(l),
        batches_ok(l, s, n),
    ensures
        bundle::value_in(s.maps, l.shards as int) + ordmap::weight(
            s.outputs,
            perf002::cell_value(),
        ) == bundle::inputs_total(l) * VALUE,
{
    lemma_plain_value(l, s.maps, l.shards as int);
    assert(s.committed * (l.arity * VALUE) == (s.committed * l.arity) * VALUE) by (nonlinear_arith);
}

proof fn lemma_plain_value(l: Layout, maps: Seq<Map<u64, Cell>>, n: int)
    requires
        bundle::layout_ok(l),
        maps.len() == l.shards,
        bundle::shards_finite(maps),
        bundle::inputs_plain(l, maps),
        bundle::inputs_below(l, maps, bundle::inputs_total(l)),
        0 <= n <= maps.len(),
    ensures
        bundle::value_in(maps, n) == bundle::cells_in(maps, n) * VALUE,
    decreases n,
{
    if n > 0 {
        lemma_plain_value(l, maps, n - 1);
        lemma_keyed(l, maps);
        let m = maps[n - 1];
        assert(maps[n - 1].dom().finite());
        assert forall|id: u64| #[trigger] m.contains_key(id) implies m[id].value == VALUE by {
            assert(maps[n - 1].contains_key(id));
        }
        lemma_even_weight(m);
    }
}

proof fn lemma_even_weight(m: Map<u64, Cell>)
    requires
        m.dom().finite(),
        forall|id: u64| #[trigger] m.contains_key(id) ==> m[id].value == VALUE,
    ensures
        ordmap::weight(m, perf002::cell_value()) == m.len() * VALUE,
    decreases m.len(),
{
    if m.len() == 0 {
        assert(m =~= Map::empty());
        perf002::lemma_weight_empty();
    } else {
        let id = m.dom().choose();
        assert(m.contains_key(id));
        ordmap::lemma_weight_remove(m, perf002::cell_value(), id);
        lemma_even_weight(m.remove(id));
    }
}

/// Without conflicts a reference is to an input of its own transaction.
proof fn lemma_own_input(l: Layout, item: WorkItem, start: int, end: int) -> (serial: u64)
    requires
        bundle::layout_ok(l),
        l.conflict_pct == 0,
        0 <= start <= end <= l.txs,
        refers(l, item, start, end),
    ensures
        start * l.arity <= serial < end * l.arity,
        end * l.arity <= bundle::inputs_total(l),
        (item.slot, item.id) == bundle::input_place(l, serial),
        serial < bundle::inputs_total(l),
        serial == item.tx * l.arity + serial as int % l.arity as int,
        item == item_of(l, item.tx, serial as int % l.arity as int),
{
    let k = choose|k: int| 0 <= k < l.arity && #[trigger] item_of(l, item.tx, k) == item;
    bundle::lemma_serial(l, item.tx, k);
    let (tx, a) = (item.tx as int, l.arity as int);
    assert(start * a <= tx * a && tx * a + k < end * a && end * a <= l.txs * a) by (nonlinear_arith)
        requires
            start <= tx < end <= l.txs,
            0 <= k < a,
    ;
    vstd::arithmetic::div_mod::lemma_fundamental_div_mod_converse(tx * a + k, a, tx, k);
    (tx * a + k) as u64
}

/// Without conflicts all inputs of a batch are still there when their turn comes.
proof fn lemma_all_reserved(
    l: Layout,
    maps: Seq<Map<u64, Cell>>,
    items: Seq<WorkItem>,
    start: int,
    end: int,
    n: int,
)
    requires
        bundle::layout_ok(l),
        l.conflict_pct == 0,
        0 <= start <= end <= l.txs,
        work_of(l, items, start, end),
        0 <= n <= items.len(),
        maps.len() == l.shards,
        bundle::inputs_there(l, maps, start * l.arity, bundle::inputs_total(l)),
    ensures
        ({
            let (left, done) = reserved_from(maps, items, n);
            &&& left.len() == maps.len()
            &&& done.len() == n
            &&& forall|s: u64|
                start * l.arity <= s < bundle::inputs_total(l) && (forall|j: int|
                    0 <= j < n ==> ((#[trigger] items[j]).slot, items[j].id)
                        != bundle::input_place(l, s)) ==> left[(#[trigger] bundle::input_place(
                    l,
                    s,
                )).0 as int].contains_key(bundle::input_place(l, s).1)
            &&& forall|i: int| 0 <= i < n ==> (#[trigger] done[i]).tx == items[i].tx
        }),
    decreases n,
{
    if n > 0 {
        lemma_all_reserved(l, maps, items, start, end, n - 1);
        let (before, kept) = reserved_from(maps, items, n - 1);
        let (left, done) = reserved_from(maps, items, n);
        let item = items[n - 1];
        assert(refers(l, item, start, end));
        let own = lemma_own_input(l, item, start, end);
        engine::lemma_shard_for(own, l.input_salt, l.shards);
        assert forall|j: int| 0 <= j < n - 1 implies ((#[trigger] items[j]).slot, items[j].id)
            != bundle::input_place(l, own) by {
            assert(refers(l, items[j], start, end));
            let other = lemma_own_input(l, items[j], start, end);
            if bundle::input_place(l, other) == bundle::input_place(l, own) {
                if other != own {
                    bundle::law_inputs_are_apart(l, other, own);
                }
                lemma_same_owner(l.arity as int, items[j].tx as int, item.tx as int, own as int);
                assert(items[j] == item);
            }
        }
        assert(before[bundle::input_place(l, own).0 as int].contains_key(
            bundle::input_place(l, own).1,
        ));
        assert forall|s: u64|
            start * l.arity <= s < bundle::inputs_total(l) && (forall|j: int|
                0 <= j < n ==> ((#[trigger] items[j]).slot, items[j].id) != bundle::input_place(
                    l,
                    s,
                )) implies left[(#[trigger] bundle::input_place(l, s)).0 as int].contains_key(
            bundle::input_place(l, s).1,
        ) by {
            engine::lemma_shard_for(s, l.input_salt, l.shards);
            assert((items[n - 1].slot, items[n - 1].id) != bundle::input_place(l, s));
        }
    }
}

proof fn lemma_same_owner(arity: int, a: int, b: int, serial: int)
    requires
        arity > 0,
        serial == a * arity + serial % arity,
        serial == b * arity + serial % arity,
    ensures
        a == b,
{
    assert(a == b) by (nonlinear_arith)
        requires
            arity > 0,
            a * arity == b * arity,
    ;
}

proof fn lemma_same_counts(done: Seq<Reserved>, items: Seq<WorkItem>, t: u64, n: int)
    requires
        0 <= n <= done.len(),
        done.len() == items.len(),
        forall|i: int| 0 <= i < done.len() ==> (#[trigger] done[i]).tx == items[i].tx,
    ensures
        occurrences(done, t as int, n) == item_count(items.take(n), t),
    decreases n,
{
    if n > 0 {
        lemma_same_counts(done, items, t, n - 1);
        assert(items.take(n).drop_last() =~= items.take(n - 1));
        assert(done[n - 1].tx == items[n - 1].tx);
    }
}

proof fn lemma_nothing_restored(
    maps: Seq<Map<u64, Cell>>,
    done: Seq<Reserved>,
    counts: Seq<u64>,
    arity: u64,
    n: int,
)
    requires
        0 <= n <= done.len(),
        forall|i: int| 0 <= i < done.len() ==> eligible(counts, arity, (#[trigger] done[i]).tx),
    ensures
        settled(maps, done, counts, arity, n).0 == maps,
    decreases n,
{
    if n > 0 {
        lemma_nothing_restored(maps, done, counts, arity, n - 1);
    }
}

proof fn lemma_all_made(counts: Seq<u64>, arity: u64, start: int, end: int)
    requires
        start <= end,
        forall|t: int| start <= t < end ==> (#[trigger] counts[t]) == arity,
    ensures
        made_count(counts, arity, start, end) == end - start,
    decreases end - start,
{
    if start < end {
        lemma_all_made(counts, arity, start, end - 1);
    }
}

/// Without conflicts a batch makes all its transactions, in whatever order it is
/// worked off.
pub proof fn law_plain_batch_commits(
    l: Layout,
    s: BatchState,
    items: Seq<WorkItem>,
    start: int,
    end: int,
)
    requires
        bundle::layout_ok(l),
        l.conflict_pct == 0,
        0 <= start < end <= l.txs,
        work_of(l, items, start, end),
        batches_ok(l, s, start),
        bundle::inputs_there(l, s.maps, start * l.arity, bundle::inputs_total(l)),
    ensures
        after_work(l, s, items, start, end).committed == s.committed + (end - start),
        after_work(l, s, items, start, end).aborted == s.aborted,
        bundle::inputs_there(
            l,
            after_work(l, s, items, start, end).maps,
            end * l.arity,
            bundle::inputs_total(l),
        ),
{
    let (left, done) = reserved_from(s.maps, items, items.len() as int);
    let (counts, values) = tallied(s.counts, s.values, done, done.len() as int);
    lemma_batch_parts(l, s, items, start, end);
    lemma_all_reserved(l, s.maps, items, start, end, items.len() as int);
    assert forall|t: int| start <= t < end implies (#[trigger] counts[t]) == l.arity by {
        lemma_same_counts(done, items, t as u64, done.len() as int);
        assert(items.take(done.len() as int) =~= items);
        assert(item_count(items, t as u64) == l.arity);
    }
    assert forall|i: int| 0 <= i < done.len() implies eligible(
        counts,
        l.arity,
        (#[trigger] done[i]).tx,
    ) by {
        assert(start <= done[i].tx < end);
        assert(counts[done[i].tx as int] == l.arity);
    }
    lemma_nothing_restored(left, done, counts, l.arity, done.len() as int);
    lemma_all_made(counts, l.arity, start, end);
    let before = Emitted { outputs: s.outputs, committed: 0, aborted: 0, checksum: 0 };
    lemma_emitted(l, counts, before, start, end);
    assert(start * l.arity <= end * l.arity) by (nonlinear_arith)
        requires
            start <= end,
            0 <= l.arity,
    ;
    assert forall|serial: u64|
        end * l.arity <= serial < bundle::inputs_total(l) implies left[(
    #[trigger] bundle::input_place(l, serial)).0 as int].contains_key(
        bundle::input_place(l, serial).1,
    ) by {
        assert forall|j: int| 0 <= j < items.len() implies ((#[trigger] items[j]).slot, items[j].id)
            != bundle::input_place(l, serial) by {
            assert(refers(l, items[j], start, end));
            let own = lemma_own_input(l, items[j], start, end);
            if bundle::input_place(l, own) == bundle::input_place(l, serial) {
                bundle::law_inputs_are_apart(l, own, serial);
            }
        }
    }
}

/// Without conflicts every transaction is made, whatever the size of the batches.
pub proof fn law_batches_commit_all(l: Layout, size: int, n: int)
    requires
        bundle::layout_ok(l),
        l.conflict_pct == 0,
        size > 0,
        0 <= n <= l.txs,
    ensures
        batch_run(l, size, n).committed == n,
        batch_run(l, size, n).aborted == 0,
        bundle::inputs_there(l, batch_run(l, size, n).maps, n * l.arity, bundle::inputs_total(l)),
    decreases n,
{
    law_run_conserves_value(l, size, n);
    if n <= 0 {
        bundle::lemma_filled(l, bundle::inputs_total(l));
        assert(0 * l.arity == 0) by (nonlinear_arith);
    } else {
        lemma_batch_first(size, n);
        let start = batch_first(size, n);
        law_batches_commit_all(l, size, start);
        law_run_conserves_value(l, size, start);
        lemma_work_items(l, start, n);
        law_plain_batch_commits(l, batch_run(l, size, start), items_of(l, start, n), start, n);
    }
}

/// A transaction that is not made leaves nothing behind: what was reserved for it
/// is in its place again.
pub proof fn law_refused_transaction_is_rolled_back(
    l: Layout,
    s: BatchState,
    items: Seq<WorkItem>,
    start: int,
    end: int,
    i: int,
)
    requires
        bundle::layout_ok(l),
        0 <= start < end <= l.txs,
        work_of(l, items, start, end),
        batches_ok(l, s, start),
    ensures
        ({
            let (left, done) = reserved_from(s.maps, items, items.len() as int);
            let after = after_work(l, s, items, start, end);
            0 <= i < done.len() && !eligible(after.counts, l.arity, done[i].tx)
                ==> after.maps[done[i].slot as int].contains_key(done[i].cell.id)
        }),
{
    lemma_batch_parts(l, s, items, start, end);
    let (left, done) = reserved_from(s.maps, items, items.len() as int);
    let counts = tallied(s.counts, s.values, done, done.len() as int).0;
    lemma_settled(left, done, counts, l.arity, done.len() as int);
}

/// What a run gives.
#[derive(Clone, Copy, Debug, PartialEq, Eq, Structural)]
pub struct BatchTotals {
    pub committed: u64,
    pub aborted: u64,
    pub checksum: u64,
    pub final_cells: u64,
    pub total_value: u128,
}

fn zero_list(n: u64) -> (r: Vec<u64>)
    ensures
        r@ == Seq::new(n as nat, |t: int| 0u64),
{
    let mut out: Vec<u64> = Vec::new();
    let mut i: u64 = 0;
    while i < n
        invariant
            i <= n,
            out@ == Seq::new(i as nat, |t: int| 0u64),
        decreases n - i,
    {
        out.push(0);
        i = i + 1;
        assert(out@ =~= Seq::new(i as nat, |t: int| 0u64));
    }
    out
}

/// The state of a run.
#[derive(Debug)]
pub struct BatchEngine {
    pub maps: Vec<HashMap<u64, Cell>>,
    pub counts: Vec<u64>,
    pub values: Vec<u64>,
    pub outputs: HashMap<u64, Cell>,
    pub committed: u64,
    pub aborted: u64,
    pub checksum: u64,
}

impl View for BatchEngine {
    type V = BatchState;

    open spec fn view(&self) -> BatchState {
        BatchState {
            maps: bundle::shard_maps(self.maps@),
            counts: self.counts@,
            values: self.values@,
            outputs: self.outputs@,
            committed: self.committed as int,
            aborted: self.aborted as int,
            checksum: self.checksum,
        }
    }
}

impl BatchEngine {
    pub fn new(l: &Layout) -> (r: Self)
        requires
            bundle::layout_ok(*l),
        ensures
            r@ == batch_start(*l),
            batches_ok(*l, r@, 0),
    {
        proof {
            law_batches_start(*l);
        }
        BatchEngine {
            maps: new_state(l),
            counts: zero_list(l.txs),
            values: zero_list(l.txs),
            outputs: HashMap::new(),
            committed: 0,
            aborted: 0,
            checksum: 0,
        }
    }

    /// Works off the batch of the transactions from `start` up to `end`, in their
    /// order.
    pub fn run_batch(&mut self, l: &Layout, start: u64, end: u64)
        requires
            bundle::layout_ok(*l),
            start < end <= l.txs,
            batches_ok(*l, old(self)@, start as int),
        ensures
            final(self)@ == after_batch(*l, old(self)@, start as int, end as int),
            batches_ok(*l, final(self)@, end as int),
    {
        let items: Vec<WorkItem> = batch_items(l, start, end);
        proof {
            lemma_work_items(*l, start as int, end as int);
        }
        self.run_work(l, &items, start, end);
    }

    /// Works off the batch of the transactions from `start` up to `end`, in the
    /// order of `items`.
    pub fn run_work(&mut self, l: &Layout, items: &Vec<WorkItem>, start: u64, end: u64)
        requires
            bundle::layout_ok(*l),
            start < end <= l.txs,
            work_of(*l, items@, start as int, end as int),
            batches_ok(*l, old(self)@, start as int),
        ensures
            final(self)@ == after_work(*l, old(self)@, items@, start as int, end as int),
            batches_ok(*l, final(self)@, end as int),
    {
        let ghost before = self@;
        proof {
            lemma_batch_parts(*l, before, items@, start as int, end as int);
            law_batch_conserves_value(*l, before, items@, start as int, end as int);
            lemma_tx_small(*l);
            assert(before.maps.len() == self.maps@.len());
        }
        let done: Vec<Reserved> = reserve(&mut self.maps, items);
        tally(&mut self.counts, &mut self.values, &done);
        let kept: u64 = settle(&mut self.maps, &done, &self.counts, l.arity);
        assert(values_ok(*l, self.counts@, self.values@, start as int, end as int)) by {
            assert forall|t: int|
                start <= t < end && eligible(self.counts@, l.arity, t as u64) implies #[trigger] self.values@[t]
                == l.arity * VALUE by {
                assert(self.counts@[t] == occurrences(done@, t, done@.len() as int));
            }
        }
        let made: EmitTotals = emit(
            l,
            &self.counts,
            &self.values,
            start,
            end,
            1,
            &mut self.outputs,
        );
        self.committed = self.committed + made.committed;
        self.aborted = self.aborted + made.aborted;
        self.checksum = self.checksum ^ kept ^ made.checksum;
    }

    /// What a run has given when it is over.
    pub fn totals(&self, l: &Layout) -> (r: BatchTotals)
        requires
            bundle::layout_ok(*l),
            batches_ok(*l, self@, l.txs as int),
        ensures
            r.committed == self@.committed,
            r.aborted == self@.aborted,
            r.committed + r.aborted == l.txs,
            r.checksum == self@.checksum,
            r.final_cells == bundle::inputs_total(*l) - r.committed * l.arity + r.committed,
            r.total_value == bundle::inputs_total(*l) * VALUE,
    {
        proof {
            lemma_state_value(*l, self@, l.txs as int);
            assert(self.committed * l.arity >= self.committed) by (nonlinear_arith)
                requires
                    l.arity >= 1,
                    self.committed >= 0,
            ;
            assert(self@.maps.len() == self.maps@.len());
        }
        let (left_cells, left_value): (u64, u128) = count_state(&self.maps);
        let out_cells: u64 = self.outputs.len() as u64;
        let out_value: u128 = map_value(&self.outputs);
        BatchTotals {
            committed: self.committed,
            aborted: self.aborted,
            checksum: self.checksum,
            final_cells: left_cells + out_cells,
            total_value: left_value + out_value,
        }
    }
}

/// The next batch of a run.
pub proof fn lemma_batch_step(size: int, q: int, start: int, end: int)
    requires
        size > 0,
        q >= 0,
        start == q * size,
        start < end <= start + size,
    ensures
        batch_first(size, end) == start,
        (q + 1) * size == start + size,
{
    let r = end - 1 - start;
    vstd::arithmetic::div_mod::lemma_fundamental_div_mod_converse(end - 1, size, q, r);
    assert((q + 1) * size == q * size + size) by (nonlinear_arith);
}

/// Runs all transactions in batches. Every one is made or not made; in the end
/// there is one cell for each that was made and for each input that is left, and
/// the value is what it was.
pub fn run_batches(l: &Layout, batch_size: u64) -> (r: BatchTotals)
    requires
        bundle::layout_ok(*l),
        batch_size > 0,
    ensures
        r.committed == batch_run(*l, batch_size as int, l.txs as int).committed,
        r.committed + r.aborted == l.txs,
        r.checksum == batch_run(*l, batch_size as int, l.txs as int).checksum,
        r.final_cells == bundle::inputs_total(*l) - r.committed * l.arity + r.committed,
        r.total_value == bundle::inputs_total(*l) * VALUE,
        l.conflict_pct == 0 ==> r.aborted == 0,
{
    let mut engine: BatchEngine = BatchEngine::new(l);
    let mut start: u64 = 0;
    let ghost mut q: int = 0;
    assert(0 * batch_size == 0) by (nonlinear_arith);
    while start < l.txs
        invariant
            bundle::layout_ok(*l),
            batch_size > 0,
            start <= l.txs,
            start < l.txs ==> start == q * batch_size,
            0 <= q,
            engine@ == batch_run(*l, batch_size as int, start as int),
            batches_ok(*l, engine@, start as int),
        decreases l.txs - start,
    {
        let end: u64 = if l.txs - start > batch_size {
            start + batch_size
        } else {
            l.txs
        };
        proof {
            lemma_batch_step(batch_size as int, q, start as int, end as int);
            q = q + 1;
        }
        engine.run_batch(l, start, end);
        start = end;
    }
    proof {
        law_run_conserves_value(*l, batch_size as int, l.txs as int);
        if l.conflict_pct == 0 {
            law_batches_commit_all(*l, batch_size as int, l.txs as int);
        }
    }
    engine.totals(l)
}

} // verus!
