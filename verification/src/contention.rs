//! Who gets a contested input: one transaction at a time or batch by batch, it is the same.
use crate::batch;
use crate::batch::{Emitted, Reserved};
use crate::bundle;
use crate::bundle::Layout;
use crate::engine::Cell;
use vstd::prelude::*;

verus! {

/// A transaction gets all its inputs: it reaches for none of another's, or for one that its
/// owner left.
pub open spec fn gets_all(l: Layout, tx: int) -> bool {
    !(bundle::conflicts(l, tx) && !bundle::conflicts(l, tx - 1))
}

/// The inputs of the transactions from number `t` on are all there, and the first one of the
/// transaction before them is exactly if that left it.
pub open spec fn in_turn(l: Layout, maps: Seq<Map<u64, Cell>>, t: int) -> bool {
    &&& forall|s: int|
        t * l.arity <= s < bundle::inputs_total(l) ==> #[trigger] bundle::unspent(l, maps, s)
    &&& 0 < t ==> (bundle::unspent(l, maps, (t - 1) * l.arity) <==> bundle::conflicts(l, t - 1))
}

proof fn lemma_items(l: Layout, start: int, end: int, t: int, k: int)
    requires
        0 <= start <= t < end,
        0 <= k < l.arity,
    ensures
        batch::items_of(l, start, end).len() == (end - start) * l.arity,
        0 <= (t - start) * l.arity + k < (end - start) * l.arity,
        batch::items_of(l, start, end)[(t - start) * l.arity + k] == batch::item_of(l, t as u64, k),
    decreases end - start,
{
    let a = l.arity as int;
    assert((end - start) * a == (end - 1 - start) * a + a) by (nonlinear_arith);
    assert(0 <= (t - start) * a && (t - start) * a + k < (end - start) * a) by (nonlinear_arith)
        requires
            start <= t < end,
            0 <= k < a,
    ;
    if t == end - 1 {
        if start < end - 1 {
            lemma_items(l, start, end - 1, start, 0);
        } else {
            assert((end - 1 - start) * a == 0) by (nonlinear_arith)
                requires
                    end - 1 == start,
            ;
        }
    } else {
        lemma_items(l, start, end - 1, t, k);
    }
}

proof fn lemma_occurrences_pushed(done: Seq<Reserved>, one: Reserved, t: int, n: int)
    requires
        0 <= n <= done.len(),
    ensures
        batch::occurrences(done.push(one), t, n) == batch::occurrences(done, t, n),
    decreases n,
{
    if n > 0 {
        lemma_occurrences_pushed(done, one, t, n - 1);
    }
}

/// What was reserved is an input that its transaction refers to.
spec fn referred(l: Layout, d: Reserved, start: int, end: int) -> bool {
    &&& start <= d.tx < end
    &&& exists|k: int|
        0 <= k < l.arity && #[trigger] bundle::reference(l, d.tx, k) == (d.slot, d.cell.id)
}

/// Where a reservation stands after the first `k` inputs of transaction `t`.
spec fn midway(
    l: Layout,
    left: Seq<Map<u64, Cell>>,
    done: Seq<Reserved>,
    start: int,
    end: int,
    t: int,
    k: int,
) -> bool {
    let own = t * l.arity;
    &&& left.len() == l.shards
    &&& forall|s: int|
        own <= s < bundle::inputs_total(l) ==> (#[trigger] bundle::unspent(l, left, s) <==> s >= own
            + k || s == own && bundle::conflicts(l, t))
    &&& k == 0 && 0 < t ==> (bundle::unspent(l, left, (t - 1) * l.arity) <==> bundle::conflicts(
        l,
        t - 1,
    ))
    &&& batch::occurrences(done, t, done.len() as int) == if k == 0 {
        0
    } else if gets_all(l, t) {
        k
    } else {
        k - 1
    }
    &&& forall|u: int|
        start <= u < t ==> (#[trigger] batch::occurrences(done, u, done.len() as int)) == if gets_all(
            l,
            u,
        ) {
            l.arity as int
        } else {
            l.arity - 1
        }
    &&& forall|u: int| t < u ==> (#[trigger] batch::occurrences(done, u, done.len() as int)) == 0
    &&& forall|i: int| 0 <= i < done.len() ==> #[trigger] referred(l, done[i], start, end)
}

proof fn lemma_next_input(
    l: Layout,
    left: Seq<Map<u64, Cell>>,
    done: Seq<Reserved>,
    start: int,
    end: int,
    t: int,
    k: int,
    cell: Cell,
)
    requires
        bundle::layout_ok(l),
        0 <= start <= t < end <= l.txs,
        0 <= k < l.arity,
        midway(l, left, done, start, end, t, k),
        cell.id == batch::item_of(l, t as u64, k).id,
    ensures
        ({
            let item = batch::item_of(l, t as u64, k);
            let one = Reserved { slot: item.slot, tx: item.tx, cell };
            &&& left[item.slot as int].contains_key(item.id) <==> k > 0 || gets_all(l, t)
            &&& k > 0 || gets_all(l, t) ==> midway(
                l,
                bundle::without_cell(left, item.slot as int, item.id),
                done.push(one),
                start,
                end,
                t,
                k + 1,
            )
            &&& !(k > 0 || gets_all(l, t)) ==> midway(l, left, done, start, end, t, k + 1)
        }),
{
    let tx = t as u64;
    let a = l.arity as int;
    let own = t * l.arity;
    let total = bundle::inputs_total(l);
    let item = batch::item_of(l, tx, k);
    let one = Reserved { slot: item.slot, tx: item.tx, cell };
    bundle::lemma_serial(l, tx, k);
    let serial = bundle::referenced(l, tx, k);
    assert(own + a <= total && 0 <= own && (t - 1) * l.arity == own - a) by (nonlinear_arith)
        requires
            own == t * l.arity,
            a == l.arity,
            0 <= t,
            t + 1 <= l.txs,
            total == l.txs * l.arity,
    ;
    assert(serial == if k == 0 && bundle::conflicts(l, t) {
        own - a
    } else {
        own + k
    });
    bundle::lemma_places(l, serial);
    if k == 0 && bundle::conflicts(l, t) {
        assert(bundle::unspent(l, left, (t - 1) * l.arity) <==> bundle::conflicts(l, t - 1));
    } else {
        assert(bundle::unspent(l, left, own + k));
    }
    if k > 0 || gets_all(l, t) {
        let after = bundle::without_cell(left, item.slot as int, item.id);
        let more = done.push(one);
        assert forall|s: int| own <= s < total implies (#[trigger] bundle::unspent(l, after, s)
            <==> s >= own + k + 1 || s == own && bundle::conflicts(l, t)) by {
            assert(bundle::unspent(l, left, s) <==> s >= own + k || s == own && bundle::conflicts(
                l,
                t,
            ));
            bundle::lemma_places(l, s as u64);
            if bundle::input_place(l, s as u64) == bundle::input_place(l, serial) {
                bundle::law_inputs_are_apart(l, s as u64, serial);
            }
        }
        assert forall|u: int| #[trigger]
            batch::occurrences(more, u, more.len() as int) == batch::occurrences(
                done,
                u,
                done.len() as int,
            ) + if u == t {
                1int
            } else {
                0
            } by {
            lemma_occurrences_pushed(done, one, u, done.len() as int);
        }
        assert forall|i: int| 0 <= i < more.len() implies #[trigger] referred(
            l,
            more[i],
            start,
            end,
        ) by {
            if i < done.len() {
                assert(referred(l, done[i], start, end));
                assert(more[i] == done[i]);
            } else {
                assert(bundle::reference(l, one.tx, k) == (one.slot, one.cell.id));
            }
        }
    } else {
        assert forall|s: int| own <= s < total implies (#[trigger] bundle::unspent(l, left, s) <==> s
            >= own + k + 1 || s == own && bundle::conflicts(l, t)) by {}
    }
}

proof fn lemma_reservation(
    l: Layout,
    maps: Seq<Map<u64, Cell>>,
    start: int,
    end: int,
    t: int,
    k: int,
)
    requires
        bundle::layout_ok(l),
        0 <= start <= t < end <= l.txs,
        0 <= k <= l.arity,
        maps.len() == l.shards,
        batch::keyed(maps),
        bundle::shards_finite(maps),
        in_turn(l, maps, start),
    ensures
        ({
            let n = (t - start) * l.arity + k;
            let (left, done) = batch::reserved_from(maps, batch::items_of(l, start, end), n);
            &&& 0 <= n <= batch::items_of(l, start, end).len()
            &&& midway(l, left, done, start, end, t, k)
        }),
    decreases t, k,
{
    let items = batch::items_of(l, start, end);
    let n = (t - start) * l.arity + k;
    lemma_items(l, start, end, t, 0);
    assert(n <= (end - start) * l.arity) by (nonlinear_arith)
        requires
            n == (t - start) * l.arity + k,
            k <= l.arity,
            t + 1 <= end,
    ;
    if k > 0 {
        lemma_items(l, start, end, t, k - 1);
        lemma_reservation(l, maps, start, end, t, k - 1);
        let m = n - 1;
        let (left, done) = batch::reserved_from(maps, items, m);
        let item = items[m];
        batch::lemma_work_items(l, start, end);
        batch::lemma_work_shards(l, items, start, end);
        batch::lemma_reserved(maps, items, m);
        let cell = if left[item.slot as int].contains_key(item.id) {
            left[item.slot as int][item.id]
        } else {
            Cell { id: item.id, value: 0, generation: 0 }
        };
        lemma_next_input(l, left, done, start, end, t, k - 1, cell);
    } else if t > start {
        lemma_reservation(l, maps, start, end, t - 1, l.arity as int);
        assert((t - 1 - start) * l.arity + l.arity == n && (t - 1) * l.arity + l.arity == t
            * l.arity) by (nonlinear_arith)
            requires
                n == (t - start) * l.arity,
        ;
        let (left, done) = batch::reserved_from(maps, items, n);
        let before = (t - 1) * l.arity;
        assert((t - 1) * l.arity < bundle::inputs_total(l)) by (nonlinear_arith)
            requires
                t < l.txs,
                0 < l.arity,
                bundle::inputs_total(l) == l.txs * l.arity,
        ;
        assert forall|s: int|
            t * l.arity <= s < bundle::inputs_total(l) implies #[trigger] bundle::unspent(
            l,
            left,
            s,
        ) by {
            assert(s >= before + l.arity);
        }
        assert(bundle::unspent(l, left, before) <==> bundle::conflicts(l, t - 1));
    } else {
        assert(n == 0) by (nonlinear_arith)
            requires
                n == (t - start) * l.arity,
                t == start,
        ;
    }
}

proof fn lemma_restored(
    maps: Seq<Map<u64, Cell>>,
    done: Seq<Reserved>,
    counts: Seq<u64>,
    arity: u64,
    n: int,
    i: int,
    id: u64,
)
    requires
        0 <= n <= done.len(),
        0 <= i < maps.len(),
        forall|j: int| 0 <= j < done.len() ==> (#[trigger] done[j]).slot < maps.len(),
        !maps[i].contains_key(id),
        forall|j: int|
            0 <= j < done.len() && (#[trigger] done[j]).slot == i && done[j].cell.id == id
                ==> batch::eligible(counts, arity, done[j].tx),
    ensures
        batch::settled(maps, done, counts, arity, n).0.len() == maps.len(),
        !batch::settled(maps, done, counts, arity, n).0[i].contains_key(id),
    decreases n,
{
    if n > 0 {
        lemma_restored(maps, done, counts, arity, n - 1, i, id);
        let one = done[n - 1];
        if !batch::eligible(counts, arity, one.tx) {
            assert(!(one.slot == i && one.cell.id == id));
        }
    }
}

/// How many of the transactions from `start` to `end` get all their inputs.
pub open spec fn served(l: Layout, start: int, end: int) -> int
    decreases end - start,
{
    if end <= start {
        0
    } else {
        served(l, start, end - 1) + if gets_all(l, end - 1) {
            1int
        } else {
            0
        }
    }
}

proof fn lemma_made(l: Layout, counts: Seq<u64>, start: int, end: int)
    requires
        forall|u: int|
            start <= u < end ==> (#[trigger] counts[u] == l.arity <==> gets_all(l, u)),
    ensures
        batch::made_count(counts, l.arity, start, end) == served(l, start, end),
    decreases end - start,
{
    if start < end {
        lemma_made(l, counts, start, end - 1);
        assert(counts[end - 1] == l.arity <==> gets_all(l, end - 1));
    }
}

/// A batch commits exactly the transactions that get all their inputs when they come one
/// after the other.
proof fn lemma_batch_serves(l: Layout, s: batch::BatchState, start: int, end: int)
    requires
        bundle::layout_ok(l),
        0 <= start < end <= l.txs,
        batch::batches_ok(l, s, start),
        in_turn(l, s.maps, start),
    ensures
        batch::after_batch(l, s, start, end).committed == s.committed + served(l, start, end),
        in_turn(l, batch::after_batch(l, s, start, end).maps, end),
{
    let items = batch::items_of(l, start, end);
    let a = l.arity as int;
    batch::lemma_work_items(l, start, end);
    batch::lemma_batch_parts(l, s, items, start, end);
    batch::lemma_keyed(l, s.maps);
    lemma_reservation(l, s.maps, start, end, end - 1, a);
    lemma_items(l, start, end, end - 1, 0);
    assert((end - 1 - start) * l.arity + a == (end - start) * l.arity) by (nonlinear_arith)
        requires
            a == l.arity,
    ;
    let (left, done) = batch::reserved_from(s.maps, items, items.len() as int);
    let (counts, values) = batch::tallied(s.counts, s.values, done, done.len() as int);
    assert(midway(l, left, done, start, end, end - 1, a));
    assert forall|u: int| start <= u < end implies (#[trigger] counts[u] == l.arity <==> gets_all(
        l,
        u,
    )) by {
        assert(counts[u] == batch::occurrences(done, u, done.len() as int));
    }
    lemma_made(l, counts, start, end);
    let before = Emitted { outputs: s.outputs, committed: 0, aborted: 0, checksum: 0 };
    batch::lemma_emitted(l, counts, before, start, end);
    batch::lemma_settled(left, done, counts, l.arity, done.len() as int);
    let maps = batch::settled(left, done, counts, l.arity, done.len() as int).0;
    let own = (end - 1) * l.arity;
    assert(end * l.arity == own + a && 0 <= own && own + a <= bundle::inputs_total(l))
        by (nonlinear_arith)
        requires
            own == (end - 1) * l.arity,
            a == l.arity,
            1 <= end <= l.txs,
            bundle::inputs_total(l) == l.txs * l.arity,
    ;
    assert forall|x: int|
        end * l.arity <= x < bundle::inputs_total(l) implies #[trigger] bundle::unspent(
        l,
        maps,
        x,
    ) by {
        assert(bundle::unspent(l, left, x));
        bundle::lemma_places(l, x as u64);
    }
    bundle::lemma_places(l, own as u64);
    assert(bundle::unspent(l, left, own) <==> bundle::conflicts(l, end - 1));
    if !bundle::conflicts(l, end - 1) {
        let (sid, id) = bundle::input_place(l, own as u64);
        assert forall|j: int|
            0 <= j < done.len() && (#[trigger] done[j]).slot == sid && done[j].cell.id
                == id implies batch::eligible(counts, l.arity, done[j].tx) by {
            assert(referred(l, done[j], start, end));
            let tx = done[j].tx;
            let k = choose|k: int|
                0 <= k < l.arity && #[trigger] bundle::reference(l, tx, k) == (
                    done[j].slot,
                    done[j].cell.id,
                );
            bundle::lemma_serial(l, tx, k);
            bundle::law_inputs_are_apart(l, bundle::referenced(l, tx, k), own as u64);
            lemma_whose_input(l, tx, k, end);
            assert(counts[end - 1] == l.arity <==> gets_all(l, end - 1));
        }
        lemma_restored(left, done, counts, l.arity, done.len() as int, sid as int, id);
    }
}

/// Of the transactions before number `end`, only the last refers to its own first input.
proof fn lemma_whose_input(l: Layout, tx: u64, k: int, end: int)
    requires
        bundle::layout_ok(l),
        tx < end <= l.txs,
        0 <= k < l.arity,
        bundle::referenced(l, tx, k) == (end - 1) * l.arity,
    ensures
        tx == end - 1,
{
    bundle::lemma_serial(l, tx, k);
    let r = bundle::referenced(l, tx, k);
    assert(r <= tx * l.arity + k);
    if tx < end - 1 {
        assert(tx * l.arity + k < (end - 1) * l.arity) by (nonlinear_arith)
            requires
                tx + 1 <= end - 1,
                k < l.arity,
        ;
    }
}

proof fn lemma_bundles_serve(l: Layout, start: int, end: int)
    requires
        bundle::layout_ok(l),
        bundle::outputs_apart(l),
        0 <= start <= end <= l.txs,
    ensures
        bundle::bundle_run(l, end).committed == bundle::bundle_run(l, start).committed + served(
            l,
            start,
            end,
        ),
    decreases end - start,
{
    if start < end {
        lemma_bundles_serve(l, start, end - 1);
        bundle::law_who_commits(l, end - 1);
    }
}

/// It makes no difference to what is committed whether the transactions come one at a time
/// or in batches, nor how large the batches are.
pub proof fn law_batches_commit_what_bundles_do(l: Layout, size: int, n: int)
    requires
        bundle::layout_ok(l),
        bundle::outputs_apart(l),
        size > 0,
        0 <= n <= l.txs,
    ensures
        batch::batch_run(l, size, n).committed == bundle::bundle_run(l, n).committed,
        in_turn(l, batch::batch_run(l, size, n).maps, n),
    decreases n,
{
    batch::law_run_conserves_value(l, size, n);
    if n <= 0 {
        bundle::lemma_filled(l, bundle::inputs_total(l));
        assert(0 * l.arity == 0) by (nonlinear_arith);
        let maps = batch::batch_run(l, size, n).maps;
        assert forall|s: int| 0 <= s < bundle::inputs_total(l) implies #[trigger] bundle::unspent(
            l,
            maps,
            s,
        ) by {
            assert(maps[bundle::input_place(l, s as u64).0 as int].contains_key(
                bundle::input_place(l, s as u64).1,
            ));
        }
    } else {
        batch::lemma_batch_first(size, n);
        let start = batch::batch_first(size, n);
        law_batches_commit_what_bundles_do(l, size, start);
        batch::law_run_conserves_value(l, size, start);
        lemma_batch_serves(l, batch::batch_run(l, size, start), start, n);
        lemma_bundles_serve(l, start, n);
    }
}

} // verus!
