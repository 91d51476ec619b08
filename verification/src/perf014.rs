//! Lanes: every stream hands each worker its references through a list of their
//! own, which is written once and read batch by batch.
use crate::auth;
use crate::batch;
use crate::batch::{BatchEngine, BatchState, WorkItem};
use crate::bundle;
use crate::bundle::{input_shard, referenced_serial, Layout};
use crate::engine::VALUE;
use crate::envelope;
use crate::envelope::{route_inputs, tag_record, RecordFault, MAX_ARITY, MIN_RECORD};
use crate::ordmap;
use crate::perf002;
use crate::perf010;
use crate::perf010::{pass_record, WireTotals};
use crate::streams;
use crate::streams::batch_total;
use crate::text::text;
use vstd::prelude::*;

verus! {

pub const MAGIC: u64 = 0xCA11_BAEE_0000_0014;

pub const INPUT_SALT: u64 = 0xA11C_E001_5EED_0014;

pub const CONFLICT_SALT: u64 = 0xC0AF_11C7_0000_0014;

pub const OUTPUT_SALT: u64 = 0x0A7B_17A5_F00D_0014;

/// What a run works on.
pub open spec fn lane_layout(
    txs: u64,
    arity: u64,
    shards: usize,
    bits: u32,
    conflict_pct: u32,
) -> Layout {
    Layout {
        txs,
        arity,
        shards,
        bits,
        conflict_pct,
        input_salt: INPUT_SALT,
        conflict_salt: CONFLICT_SALT,
        output_salt: OUTPUT_SALT,
    }
}

pub fn layout(txs: u64, arity: u64, shards: usize, bits: u32, conflict_pct: u32) -> (r: Layout)
    ensures
        r == lane_layout(txs, arity, shards, bits, conflict_pct),
{
    Layout {
        txs,
        arity,
        shards,
        bits,
        conflict_pct,
        input_salt: INPUT_SALT,
        conflict_salt: CONFLICT_SALT,
        output_salt: OUTPUT_SALT,
    }
}

pub fn wire_tag(tx: u64, arity: usize, value: u64, inputs: &[u64]) -> (r: u64)
    requires
        arity <= inputs@.len(),
        arity <= MAX_ARITY,
    ensures
        r == envelope::tag_after(MAGIC, tx, arity as u64, value, inputs@, arity as int),
{
    tag_record(MAGIC, tx, arity, value, inputs)
}

/// The words for a refused record.
pub open spec fn lane_fault_words(fault: RecordFault) -> Seq<char> {
    match fault {
        RecordFault::Order => "PERF-014 wire tx ordering mismatch"@,
        RecordFault::Arity => "PERF-014 wire arity mismatch"@,
        RecordFault::Value => "PERF-014 declared value mismatch"@,
        RecordFault::Integrity => "PERF-014 integrity mismatch"@,
    }
}

pub fn lane_fault_text(fault: RecordFault) -> (r: String)
    ensures
        r@ == lane_fault_words(fault),
{
    match fault {
        RecordFault::Order => text("PERF-014 wire tx ordering mismatch"),
        RecordFault::Arity => text("PERF-014 wire arity mismatch"),
        RecordFault::Value => text("PERF-014 declared value mismatch"),
        RecordFault::Integrity => text("PERF-014 integrity mismatch"),
    }
}

// ---------------------------------------------------------------------------
// Lanes.
// ---------------------------------------------------------------------------

/// So many zeros.
pub open spec fn no_marks(n: int) -> Seq<usize> {
    Seq::new(n as nat, |i: int| 0usize)
}

/// What one stream has for one worker.
#[derive(Debug)]
pub struct Lane {
    pub slots: Vec<Option<WorkItem>>,
    pub starts: Vec<usize>,
    pub ends: Vec<usize>,
}

impl Lane {
    /// There is a start and an end for each batch.
    pub open spec fn well_formed(&self, batches: int) -> bool {
        self.starts@.len() == batches && self.ends@.len() == batches
    }

    pub fn new(capacity: usize, batches: usize) -> (r: Self)
        ensures
            r.slots@ == Seq::new(capacity as nat, |i: int| None::<WorkItem>),
            r.starts@ == no_marks(batches as int),
            r.ends@ == no_marks(batches as int),
            r.well_formed(batches as int),
    {
        let mut slots: Vec<Option<WorkItem>> = Vec::new();
        while slots.len() < capacity
            invariant
                slots@.len() <= capacity,
                slots@ == Seq::new(slots@.len(), |i: int| None::<WorkItem>),
            decreases capacity - slots@.len(),
        {
            slots.push(None);
            assert(slots@ =~= Seq::new(slots@.len(), |i: int| None::<WorkItem>));
        }
        let mut starts: Vec<usize> = Vec::new();
        let mut ends: Vec<usize> = Vec::new();
        while starts.len() < batches
            invariant
                starts@.len() <= batches,
                ends@.len() == starts@.len(),
                starts@ == no_marks(starts@.len() as int),
                ends@ == no_marks(starts@.len() as int),
            decreases batches - starts@.len(),
        {
            starts.push(0);
            ends.push(0);
            assert(starts@ =~= no_marks(starts@.len() as int));
            assert(ends@ =~= no_marks(starts@.len() as int));
        }
        Lane { slots, starts, ends }
    }

    pub fn write(&mut self, index: usize, item: WorkItem)
        requires
            index < old(self).slots@.len(),
        ensures
            final(self).slots@ == old(self).slots@.update(index as int, Some(item)),
            final(self).starts@ == old(self).starts@,
            final(self).ends@ == old(self).ends@,
    {
        self.slots.set(index, Some(item));
    }

    pub fn publish(&mut self, batch: usize, start: usize, end: usize)
        requires
            batch < old(self).starts@.len(),
            batch < old(self).ends@.len(),
        ensures
            final(self).slots@ == old(self).slots@,
            final(self).starts@ == old(self).starts@.update(batch as int, start),
            final(self).ends@ == old(self).ends@.update(batch as int, end),
    {
        self.starts.set(batch, start);
        self.ends.set(batch, end);
    }

    pub fn range(&self, batch: usize) -> (r: (usize, usize))
        requires
            batch < self.starts@.len(),
            batch < self.ends@.len(),
        ensures
            r == (self.starts@[batch as int], self.ends@[batch as int]),
    {
        (self.starts[batch], self.ends[batch])
    }

    /// What was written at an index.
    pub fn read(&self, index: usize) -> (r: WorkItem)
        requires
            index < self.slots@.len(),
            self.slots@[index as int] is Some,
        ensures
            self.slots@[index as int] == Some(r),
    {
        match self.slots[index] {
            Some(item) => item,
            None => WorkItem { tx: 0, slot: 0, id: 0 },
        }
    }
}

/// The stretch that a lane has for a batch has been written.
pub open spec fn lane_ready(lane: Lane, batch: int) -> bool {
    let (start, end) = (lane.starts@[batch], lane.ends@[batch]);
    &&& start <= end <= lane.slots@.len()
    &&& forall|i: int| start <= i < end ==> (#[trigger] lane.slots@[i]) is Some
}

/// What a lane has for a batch.
pub open spec fn lane_items_of(lane: Lane, batch: int) -> Seq<WorkItem> {
    let (start, end) = (lane.starts@[batch], lane.ends@[batch]);
    Seq::new((end - start) as nat, |i: int| lane.slots@[start + i]->Some_0)
}

/// Appends what a lane has for a batch.
pub fn read_batch(lane: &Lane, batch: usize, items: &mut Vec<WorkItem>)
    requires
        batch < lane.starts@.len(),
        batch < lane.ends@.len(),
        lane_ready(*lane, batch as int),
    ensures
        final(items)@ == old(items)@ + lane_items_of(*lane, batch as int),
{
    let (start, end): (usize, usize) = lane.range(batch);
    let ghost before = items@;
    let ghost held = lane_items_of(*lane, batch as int);
    let mut index: usize = start;
    assert(items@ =~= before + held.take(0));
    while index < end
        invariant
            start == lane.starts@[batch as int],
            end == lane.ends@[batch as int],
            start <= index <= end,
            lane_ready(*lane, batch as int),
            held == lane_items_of(*lane, batch as int),
            items@ == before + held.take(index - start),
        decreases end - index,
    {
        items.push(lane.read(index));
        index = index + 1;
        assert(items@ =~= before + held.take(index - start));
    }
    assert(held.take(held.len() as int) =~= held);
}

// ---------------------------------------------------------------------------
// The order in which lanes hand out references.
// ---------------------------------------------------------------------------

/// The references of one stream's transactions from `start` up to `end`.
pub open spec fn stream_items(l: Layout, start: int, end: int, streams: int, s: int) -> Seq<
    WorkItem,
>
    decreases end - start,
{
    if end <= start {
        Seq::empty()
    } else if (end - 1) % streams == s {
        stream_items(l, start, end - 1, streams, s) + batch::tx_items(
            l,
            (end - 1) as u64,
            l.arity as nat,
        )
    } else {
        stream_items(l, start, end - 1, streams, s)
    }
}

/// Those references of a list that a worker owns.
pub open spec fn owned_part(items: Seq<WorkItem>, workers: int, w: int) -> Seq<WorkItem>
    decreases items.len(),
{
    if items.len() == 0 {
        Seq::empty()
    } else if items.last().slot as int % workers == w {
        owned_part(items.drop_last(), workers, w).push(items.last())
    } else {
        owned_part(items.drop_last(), workers, w)
    }
}

/// What a worker gets of the first `n` streams.
pub open spec fn worker_items(
    l: Layout,
    start: int,
    end: int,
    streams: int,
    workers: int,
    w: int,
    n: int,
) -> Seq<WorkItem>
    decreases n,
{
    if n <= 0 {
        Seq::empty()
    } else {
        worker_items(l, start, end, streams, workers, w, n - 1) + owned_part(
            stream_items(l, start, end, streams, n - 1),
            workers,
            w,
        )
    }
}

/// What the first `n` workers get, one after the other.
pub open spec fn lane_order(
    l: Layout,
    start: int,
    end: int,
    streams: int,
    workers: int,
    n: int,
) -> Seq<WorkItem>
    decreases n,
{
    if n <= 0 {
        Seq::empty()
    } else {
        lane_order(l, start, end, streams, workers, n - 1) + worker_items(
            l,
            start,
            end,
            streams,
            workers,
            n - 1,
            streams,
        )
    }
}

proof fn lemma_owned_concat(a: Seq<WorkItem>, b: Seq<WorkItem>, workers: int, w: int)
    ensures
        owned_part(a + b, workers, w) == owned_part(a, workers, w) + owned_part(b, workers, w),
    decreases b.len(),
{
    if b.len() == 0 {
        assert(a + b =~= a);
        assert(owned_part(a, workers, w) + owned_part(b, workers, w) =~= owned_part(a, workers, w));
    } else {
        lemma_owned_concat(a, b.drop_last(), workers, w);
        assert((a + b).drop_last() =~= a + b.drop_last());
        assert(owned_part(a + b, workers, w) =~= owned_part(a, workers, w) + owned_part(
            b,
            workers,
            w,
        ));
    }
}

proof fn lemma_owned_members(items: Seq<WorkItem>, workers: int, w: int)
    ensures
        ({
            let own = owned_part(items, workers, w);
            &&& own.len() <= items.len()
            &&& forall|i: int|
                0 <= i < own.len() ==> items.contains(#[trigger] own[i]) && own[i].slot as int
                    % workers == w
            &&& items.no_duplicates() ==> own.no_duplicates()
        }),
    decreases items.len(),
{
    if items.len() > 0 {
        let less = items.drop_last();
        lemma_owned_members(less, workers, w);
        let before = owned_part(less, workers, w);
        let own = owned_part(items, workers, w);
        assert forall|i: int| 0 <= i < own.len() implies items.contains(#[trigger] own[i])
            && own[i].slot as int % workers == w by {
            if i < before.len() {
                assert(own[i] == before[i]);
                let j = choose|j: int| 0 <= j < less.len() && less[j] == before[i];
                assert(items[j] == own[i]);
            } else {
                assert(items[items.len() - 1] == own[i]);
            }
        }
        if items.no_duplicates() {
            assert(less.no_duplicates());
            assert forall|i: int, j: int|
                0 <= i < own.len() && 0 <= j < own.len() && i != j implies own[i] != own[j] by {
                if i < before.len() {
                    let p = choose|p: int| 0 <= p < less.len() && less[p] == before[i];
                    assert(items[p] == own[i]);
                }
                if j < before.len() {
                    let p = choose|p: int| 0 <= p < less.len() && less[p] == before[j];
                    assert(items[p] == own[j]);
                }
            }
        }
    }
}

proof fn lemma_owned_count(items: Seq<WorkItem>, workers: int, w: int, t: u64)
    ensures
        0 <= batch::item_count(owned_part(items, workers, w), t) <= batch::item_count(items, t),
    decreases items.len(),
{
    if items.len() > 0 {
        lemma_owned_count(items.drop_last(), workers, w, t);
        let before = owned_part(items.drop_last(), workers, w);
        assert(before.push(items.last()).drop_last() =~= before);
    }
}

/// How many references of a transaction the first `n` workers own.
spec fn count_below(items: Seq<WorkItem>, t: u64, workers: int, n: int) -> int
    decreases items.len(),
{
    if items.len() == 0 {
        0
    } else {
        count_below(items.drop_last(), t, workers, n) + if items.last().tx == t
            && items.last().slot as int % workers < n {
            1int
        } else {
            0
        }
    }
}

proof fn lemma_count_below(items: Seq<WorkItem>, t: u64, workers: int, n: int)
    requires
        workers > 0,
        n >= 0,
    ensures
        count_below(items, t, workers, 0) == 0,
        count_below(items, t, workers, n + 1) == count_below(items, t, workers, n) + batch::item_count(
            owned_part(items, workers, n),
            t,
        ),
        n >= workers ==> count_below(items, t, workers, n) == batch::item_count(items, t),
    decreases items.len(),
{
    if items.len() > 0 {
        lemma_count_below(items.drop_last(), t, workers, n);
        let before = owned_part(items.drop_last(), workers, n);
        assert(before.push(items.last()).drop_last() =~= before);
        vstd::arithmetic::div_mod::lemma_mod_bound(items.last().slot as int, workers);
    }
}

proof fn lemma_stream_items(l: Layout, start: int, end: int, streams: int, s: int)
    requires
        bundle::layout_ok(l),
        0 <= start,
        end <= l.txs,
        streams > 0,
    ensures
        ({
            let all = stream_items(l, start, end, streams, s);
            &&& all.no_duplicates()
            &&& forall|i: int|
                0 <= i < all.len() ==> batch::refers(l, #[trigger] all[i], start, end)
                    && all[i].tx as int % streams == s
            &&& forall|t: u64| #[trigger]
                batch::item_count(all, t) == if start <= t < end && t as int % streams == s {
                    l.arity as int
                } else {
                    0
                }
        }),
    decreases end - start,
{
    if end > start {
        lemma_stream_items(l, start, end - 1, streams, s);
        let a = stream_items(l, start, end - 1, streams, s);
        let all = stream_items(l, start, end, streams, s);
        let tx = (end - 1) as u64;
        if (end - 1) % streams == s {
            batch::lemma_tx_items_differ(l, tx);
            let b = batch::tx_items(l, tx, l.arity as nat);
            assert forall|i: int| 0 <= i < all.len() implies batch::refers(l, #[trigger] all[i], start, end)
                && all[i].tx as int % streams == s by {
                if i < a.len() {
                    assert(all[i] == a[i]);
                    assert(batch::refers(l, a[i], start, end - 1));
                } else {
                    assert(all[i] == b[i - a.len()]);
                    assert(batch::refers(l, b[i - a.len()], tx as int, tx + 1));
                }
            }
            assert forall|i: int, j: int|
                0 <= i < all.len() && 0 <= j < all.len() && i != j implies all[i] != all[j] by {
                if i < a.len() {
                    assert(batch::refers(l, a[i], start, end - 1));
                }
                if j < a.len() {
                    assert(batch::refers(l, a[j], start, end - 1));
                }
            }
            assert forall|t: u64| #[trigger]
                batch::item_count(all, t) == if start <= t < end && t as int % streams == s {
                    l.arity as int
                } else {
                    0
                } by {
                batch::lemma_item_count_concat(a, b, t);
                batch::lemma_tx_items(l, tx, l.arity as nat, t);
                assert(batch::item_count(a, t) == if start <= t < end - 1 && t as int % streams == s {
                    l.arity as int
                } else {
                    0
                });
            }
        } else {
            assert forall|i: int| 0 <= i < all.len() implies batch::refers(l, #[trigger] all[i], start, end)
                && all[i].tx as int % streams == s by {
                assert(batch::refers(l, a[i], start, end - 1));
            }
            assert forall|t: u64| #[trigger]
                batch::item_count(all, t) == if start <= t < end && t as int % streams == s {
                    l.arity as int
                } else {
                    0
                } by {
                assert(batch::item_count(a, t) == if start <= t < end - 1 && t as int % streams == s {
                    l.arity as int
                } else {
                    0
                });
            }
        }
    }
}

proof fn lemma_worker_items(
    l: Layout,
    start: int,
    end: int,
    streams: int,
    workers: int,
    w: int,
    n: int,
)
    requires
        bundle::layout_ok(l),
        0 <= start,
        end <= l.txs,
        streams > 0,
        workers > 0,
        n >= 0,
    ensures
        ({
            let all = worker_items(l, start, end, streams, workers, w, n);
            &&& all.no_duplicates()
            &&& forall|i: int|
                0 <= i < all.len() ==> batch::refers(l, #[trigger] all[i], start, end)
                    && all[i].tx as int % streams < n && all[i].slot as int % workers == w
            &&& forall|t: u64| #[trigger]
                batch::item_count(all, t) == if t as int % streams < n {
                    batch::item_count(
                        owned_part(
                            stream_items(l, start, end, streams, t as int % streams),
                            workers,
                            w,
                        ),
                        t,
                    )
                } else {
                    0
                }
        }),
    decreases n,
{
    if n > 0 {
        lemma_worker_items(l, start, end, streams, workers, w, n - 1);
        lemma_stream_items(l, start, end, streams, n - 1);
        let a = worker_items(l, start, end, streams, workers, w, n - 1);
        let source = stream_items(l, start, end, streams, n - 1);
        let b = owned_part(source, workers, w);
        let all = worker_items(l, start, end, streams, workers, w, n);
        lemma_owned_members(source, workers, w);
        assert forall|i: int| 0 <= i < b.len() implies batch::refers(l, #[trigger] b[i], start, end)
            && b[i].tx as int % streams == n - 1 && b[i].slot as int % workers == w by {
            let j = choose|j: int| 0 <= j < source.len() && source[j] == b[i];
            assert(batch::refers(l, source[j], start, end));
        }
        assert forall|i: int| 0 <= i < all.len() implies batch::refers(l, #[trigger] all[i], start, end)
            && all[i].tx as int % streams < n && all[i].slot as int % workers == w by {
            if i < a.len() {
                assert(all[i] == a[i]);
            } else {
                assert(all[i] == b[i - a.len()]);
            }
        }
        assert forall|i: int, j: int|
            0 <= i < all.len() && 0 <= j < all.len() && i != j implies all[i] != all[j] by {
            if i < a.len() {
                assert(batch::refers(l, a[i], start, end));
            } else {
                assert(batch::refers(l, b[i - a.len()], start, end));
            }
            if j < a.len() {
                assert(batch::refers(l, a[j], start, end));
            } else {
                assert(batch::refers(l, b[j - a.len()], start, end));
            }
        }
        assert forall|t: u64| #[trigger]
            batch::item_count(all, t) == if t as int % streams < n {
                batch::item_count(
                    owned_part(
                        stream_items(l, start, end, streams, t as int % streams),
                        workers,
                        w,
                    ),
                    t,
                )
            } else {
                0
            } by {
            batch::lemma_item_count_concat(a, b, t);
            lemma_owned_count(source, workers, w, t);
            assert(batch::item_count(source, t) == if start <= t < end && t as int % streams == n - 1 {
                l.arity as int
            } else {
                0
            });
            assert(batch::item_count(a, t) == if t as int % streams < n - 1 {
                batch::item_count(
                    owned_part(
                        stream_items(l, start, end, streams, t as int % streams),
                        workers,
                        w,
                    ),
                    t,
                )
            } else {
                0
            });
        }
    } else {
        assert forall|t: u64| !(#[trigger] (t as int % streams) < 0) by {
            vstd::arithmetic::div_mod::lemma_mod_bound(t as int, streams);
        }
    }
}

proof fn lemma_lane_order(l: Layout, start: int, end: int, streams: int, workers: int, n: int)
    requires
        bundle::layout_ok(l),
        0 <= start,
        end <= l.txs,
        streams > 0,
        workers > 0,
        n >= 0,
    ensures
        ({
            let all = lane_order(l, start, end, streams, workers, n);
            &&& all.no_duplicates()
            &&& forall|i: int|
                0 <= i < all.len() ==> batch::refers(l, #[trigger] all[i], start, end)
                    && all[i].slot as int % workers < n
            &&& forall|t: u64| #[trigger]
                batch::item_count(all, t) == count_below(
                    stream_items(l, start, end, streams, t as int % streams),
                    t,
                    workers,
                    n,
                )
        }),
    decreases n,
{
    if n > 0 {
        lemma_lane_order(l, start, end, streams, workers, n - 1);
        lemma_worker_items(l, start, end, streams, workers, n - 1, streams);
        let a = lane_order(l, start, end, streams, workers, n - 1);
        let b = worker_items(l, start, end, streams, workers, n - 1, streams);
        let all = lane_order(l, start, end, streams, workers, n);
        assert forall|i: int| 0 <= i < all.len() implies batch::refers(l, #[trigger] all[i], start, end)
            && all[i].slot as int % workers < n by {
            if i < a.len() {
                assert(all[i] == a[i]);
            } else {
                assert(all[i] == b[i - a.len()]);
            }
        }
        assert forall|i: int, j: int|
            0 <= i < all.len() && 0 <= j < all.len() && i != j implies all[i] != all[j] by {
            if i < a.len() {
                assert(batch::refers(l, a[i], start, end));
            } else {
                assert(batch::refers(l, b[i - a.len()], start, end));
            }
            if j < a.len() {
                assert(batch::refers(l, a[j], start, end));
            } else {
                assert(batch::refers(l, b[j - a.len()], start, end));
            }
        }
        assert forall|t: u64| #[trigger]
            batch::item_count(all, t) == count_below(
                stream_items(l, start, end, streams, t as int % streams),
                t,
                workers,
                n,
            ) by {
            batch::lemma_item_count_concat(a, b, t);
            vstd::arithmetic::div_mod::lemma_mod_bound(t as int, streams);
            let source = stream_items(l, start, end, streams, t as int % streams);
            lemma_count_below(source, t, workers, n - 1);
            assert(batch::item_count(a, t) == count_below(source, t, workers, n - 1));
            assert(batch::item_count(b, t) == batch::item_count(owned_part(source, workers, n - 1), t));
        }
    } else {
        assert forall|t: u64|
            batch::item_count(lane_order(l, start, end, streams, workers, n), t) == #[trigger] count_below(
                stream_items(l, start, end, streams, t as int % streams),
                t,
                workers,
                n,
            ) by {
            lemma_count_below(
                stream_items(l, start, end, streams, t as int % streams),
                t,
                workers,
                0,
            );
        }
    }
}

/// Lanes lose nothing and repeat nothing: together they hand out every reference
/// of a batch, each once.
pub proof fn law_lanes_carry_all_work(
    l: Layout,
    start: int,
    end: int,
    streams: int,
    workers: int,
)
    requires
        bundle::layout_ok(l),
        0 <= start <= end <= l.txs,
        streams > 0,
        workers > 0,
    ensures
        batch::work_of(l, lane_order(l, start, end, streams, workers, workers), start, end),
        lane_order(l, start, end, streams, workers, workers).len() == (end - start) * l.arity,
{
    let all = lane_order(l, start, end, streams, workers, workers);
    lemma_lane_order(l, start, end, streams, workers, workers);
    assert forall|t: u64| start <= t < end implies #[trigger] batch::item_count(all, t) == l.arity by {
        let source = stream_items(l, start, end, streams, t as int % streams);
        lemma_count_below(source, t, workers, workers);
        lemma_stream_items(l, start, end, streams, t as int % streams);
        assert(batch::item_count(source, t) == l.arity);
    }
    batch::law_work_is_complete(l, all, start, end);
}

// ---------------------------------------------------------------------------
// Receivers.
// ---------------------------------------------------------------------------

/// How many references each lane of a stream will hold.
pub fn lane_capacities(l: &Layout, streams: u64, s: u64, workers: usize) -> (r: Vec<usize>)
    requires
        bundle::layout_ok(*l),
        bundle::inputs_total(*l) <= usize::MAX,
        streams > 0,
        workers > 0,
    ensures
        r@.len() == workers,
        forall|w: int|
            0 <= w < workers ==> (#[trigger] r@[w]) == owned_part(
                stream_items(*l, 0, l.txs as int, streams as int, s as int),
                workers as int,
                w,
            ).len(),
{
    let mut caps: Vec<usize> = Vec::new();
    while caps.len() < workers
        invariant
            caps@.len() <= workers,
            forall|w: int| 0 <= w < caps@.len() ==> (#[trigger] caps@[w]) == 0,
        decreases workers - caps@.len(),
    {
        caps.push(0);
    }
    let mut tx: u64 = 0;
    while tx < l.txs
        invariant
            bundle::layout_ok(*l),
            bundle::inputs_total(*l) <= usize::MAX,
            streams > 0,
            workers > 0,
            tx <= l.txs,
            caps@.len() == workers,
            forall|w: int|
                0 <= w < workers ==> (#[trigger] caps@[w]) == owned_part(
                    stream_items(*l, 0, tx as int, streams as int, s as int),
                    workers as int,
                    w,
                ).len(),
        decreases l.txs - tx,
    {
        if tx % streams == s {
            count_owned(l, tx, streams, s, workers, &mut caps);
        }
        tx = tx + 1;
    }
    caps
}

/// Counts the references of one transaction.
fn count_owned(l: &Layout, tx: u64, streams: u64, s: u64, workers: usize, caps: &mut Vec<usize>)
    requires
        bundle::layout_ok(*l),
        bundle::inputs_total(*l) <= usize::MAX,
        streams > 0,
        workers > 0,
        tx < l.txs,
        tx % streams == s,
        old(caps)@.len() == workers,
        forall|w: int|
            0 <= w < workers ==> (#[trigger] old(caps)@[w]) == owned_part(
                stream_items(*l, 0, tx as int, streams as int, s as int),
                workers as int,
                w,
            ).len(),
    ensures
        final(caps)@.len() == workers,
        forall|w: int|
            0 <= w < workers ==> (#[trigger] final(caps)@[w]) == owned_part(
                stream_items(*l, 0, tx + 1, streams as int, s as int),
                workers as int,
                w,
            ).len(),
{
    let ghost source = stream_items(*l, 0, tx as int, streams as int, s as int);
    let ghost own = batch::tx_items(*l, tx, l.arity as nat);
    assert(source + own.take(0) =~= source);
    let mut k: u64 = 0;
    while k < l.arity
        invariant
            bundle::layout_ok(*l),
            bundle::inputs_total(*l) <= usize::MAX,
            workers > 0,
            streams > 0,
            tx < l.txs,
            k <= l.arity,
            source == stream_items(*l, 0, tx as int, streams as int, s as int),
            own == batch::tx_items(*l, tx, l.arity as nat),
            caps@.len() == workers,
            forall|w: int|
                0 <= w < workers ==> (#[trigger] caps@[w]) == owned_part(
                    source + own.take(k as int),
                    workers as int,
                    w,
                ).len(),
        decreases l.arity - k,
    {
        let serial: u64 = referenced_serial(l, tx, k);
        let owner: usize = input_shard(l, serial) % workers;
        let ghost before = source + own.take(k as int);
        let ghost after = source + own.take(k + 1);
        proof {
            lemma_stream_len(*l, tx as int, streams as int, s as int);
            lemma_owned_members(before, workers as int, owner as int);
            bundle::lemma_serial(*l, tx, k as int);
            assert(tx * l.arity + k < bundle::inputs_total(*l));
            assert(after.drop_last() =~= before);
            assert(after.last() == batch::item_of(*l, tx, k as int));
        }
        let count: usize = caps[owner];
        caps.set(owner, count + 1);
        k = k + 1;
        assert(own.take(k as int) == own.take(k - 1).push(own[k - 1]));
    }
    assert(own.take(l.arity as int) =~= own);
}

proof fn lemma_stream_len(l: Layout, end: int, streams: int, s: int)
    requires
        bundle::layout_ok(l),
        0 <= end <= l.txs,
        streams > 0,
    ensures
        stream_items(l, 0, end, streams, s).len() <= end * l.arity,
    decreases end,
{
    if end > 0 {
        lemma_stream_len(l, end - 1, streams, s);
        assert((end - 1) * l.arity + l.arity == end * l.arity) by (nonlinear_arith);
    } else {
        assert(0 * l.arity == 0) by (nonlinear_arith);
    }
}

/// What a stream has received, sorted by worker.
#[derive(Debug)]
pub struct StreamReceiver {
    pub lanes: Vec<Lane>,
    pub cursors: Vec<usize>,
    pub batch_starts: Vec<usize>,
    pub batches: usize,
}

/// What has been written to a lane.
pub open spec fn written(rx: StreamReceiver, w: int) -> Seq<WorkItem> {
    Seq::new(rx.cursors@[w] as nat, |i: int| rx.lanes@[w].slots@[i]->Some_0)
}

/// A lane after more has been written to it and nothing published.
pub open spec fn lane_grown(a: StreamReceiver, b: StreamReceiver, w: int) -> bool {
    &&& b.lanes@[w].starts@ == a.lanes@[w].starts@
    &&& b.lanes@[w].ends@ == a.lanes@[w].ends@
    &&& b.lanes@[w].slots@.len() == a.lanes@[w].slots@.len()
    &&& a.cursors@[w] <= b.cursors@[w]
    &&& forall|i: int|
        0 <= i < a.cursors@[w] ==> (#[trigger] b.lanes@[w].slots@[i]) == a.lanes@[w].slots@[i]
}

/// A receiver after it has written more and published nothing.
pub open spec fn grown(a: StreamReceiver, b: StreamReceiver) -> bool {
    &&& b.lanes@.len() == a.lanes@.len()
    &&& b.batches == a.batches
    &&& b.batch_starts@ == a.batch_starts@
    &&& forall|w: int| 0 <= w < a.lanes@.len() ==> #[trigger] lane_grown(a, b, w)
}

proof fn lemma_grown(a: StreamReceiver, b: StreamReceiver, c: StreamReceiver)
    requires
        grown(a, b),
        grown(b, c),
    ensures
        grown(a, c),
{
    assert forall|w: int| 0 <= w < a.lanes@.len() implies #[trigger] lane_grown(a, c, w) by {
        assert(lane_grown(a, b, w));
        assert(lane_grown(b, c, w));
        assert forall|i: int| 0 <= i < a.cursors@[w] implies (#[trigger] c.lanes@[w].slots@[i])
            == a.lanes@[w].slots@[i] by {
            assert(b.lanes@[w].slots@[i] == a.lanes@[w].slots@[i]);
        }
    }
}

impl StreamReceiver {
    /// A lane has its marks, and everything below its cursor has been written.
    pub open spec fn lane_fine(&self, w: int) -> bool {
        &&& self.lanes@[w].well_formed(self.batches as int)
        &&& self.batch_starts@[w] <= self.cursors@[w] <= self.lanes@[w].slots@.len()
        &&& forall|i: int|
            0 <= i < self.cursors@[w] ==> (#[trigger] self.lanes@[w].slots@[i]) is Some
    }

    /// The lists agree in length, and the lanes are in order.
    pub open spec fn well_formed(&self) -> bool {
        &&& self.cursors@.len() == self.lanes@.len()
        &&& self.batch_starts@.len() == self.lanes@.len()
        &&& forall|w: int| 0 <= w < self.lanes@.len() ==> #[trigger] self.lane_fine(w)
    }

    /// A lane is of a size, and nothing has been written to it or published.
    pub open spec fn fresh(&self, w: int, capacity: usize) -> bool {
        &&& self.lanes@[w].slots@.len() == capacity
        &&& self.cursors@[w] == 0
        &&& self.batch_starts@[w] == 0
        &&& self.lanes@[w].starts@ == no_marks(self.batches as int)
        &&& self.lanes@[w].ends@ == no_marks(self.batches as int)
    }

    pub fn new(caps: &Vec<usize>, batches: usize) -> (r: Self)
        ensures
            r.well_formed(),
            r.batches == batches,
            r.lanes@.len() == caps@.len(),
            forall|w: int| 0 <= w < caps@.len() ==> r.fresh(w, #[trigger] caps@[w]),
    {
        let mut r = StreamReceiver {
            lanes: Vec::new(),
            cursors: Vec::new(),
            batch_starts: Vec::new(),
            batches,
        };
        let mut w: usize = 0;
        while w < caps.len()
            invariant
                w <= caps@.len(),
                r.batches == batches,
                r.lanes@.len() == w,
                r.well_formed(),
                forall|i: int| 0 <= i < w ==> r.fresh(i, #[trigger] caps@[i]),
            decreases caps@.len() - w,
        {
            let ghost before = r;
            r.lanes.push(Lane::new(caps[w], batches));
            r.cursors.push(0);
            r.batch_starts.push(0);
            proof {
                assert forall|i: int| 0 <= i <= w implies r.fresh(i, #[trigger] caps@[i]) by {
                    if i < w {
                        assert(before.fresh(i, caps@[i]));
                    }
                }
                assert forall|i: int| 0 <= i < r.lanes@.len() implies #[trigger] r.lane_fine(i) by {
                    if i < w {
                        assert(before.lane_fine(i));
                    }
                }
            }
            w = w + 1;
        }
        r
    }

    /// Writes a reference to the lane of its owner.
    pub fn append(&mut self, owner: usize, item: WorkItem)
        requires
            old(self).well_formed(),
            owner < old(self).lanes@.len(),
            old(self).cursors@[owner as int] < old(self).lanes@[owner as int].slots@.len(),
        ensures
            final(self).well_formed(),
            grown(*old(self), *final(self)),
            written(*final(self), owner as int) == written(*old(self), owner as int).push(item),
            forall|w: int|
                0 <= w < old(self).lanes@.len() && w != owner ==> #[trigger] written(
                    *final(self),
                    w,
                ) == written(*old(self), w),
    {
        let ghost before = *self;
        let index: usize = self.cursors[owner];
        assert(before.lane_fine(owner as int));
        assert(index < before.lanes@[owner as int].slots.len());
        self.lanes[owner].write(index, item);
        self.cursors.set(owner, index + 1);
        proof {
            assert forall|w: int| 0 <= w < before.lanes@.len() implies #[trigger] lane_grown(
                before,
                *self,
                w,
            ) && self.lane_fine(w) && (w != owner ==> written(*self, w) == written(before, w)) by {
                assert(before.lane_fine(w));
                if w != owner {
                    assert(self.lanes@[w] == before.lanes@[w]);
                    assert(written(*self, w) =~= written(before, w));
                } else {
                    assert forall|i: int| 0 <= i < self.cursors@[w] implies (
                    #[trigger] self.lanes@[w].slots@[i]) is Some by {
                        if i < index {
                            assert(before.lanes@[w].slots@[i] is Some);
                        }
                    }
                }
            }
            assert forall|w: int| 0 <= w < self.lanes@.len() implies #[trigger] self.lane_fine(
                w,
            ) by {
                assert(lane_grown(before, *self, w));
            }
            assert forall|w: int|
                0 <= w < before.lanes@.len() && w != owner implies #[trigger] written(*self, w)
                == written(before, w) by {
                assert(lane_grown(before, *self, w));
            }
            assert(written(*self, owner as int) =~= written(before, owner as int).push(item));
        }
    }

    /// Publishes a batch: for each lane, what was written since the last one.
    pub fn flush(&mut self, batch: usize)
        requires
            old(self).well_formed(),
            batch < old(self).batches,
        ensures
            final(self).well_formed(),
            final(self).batches == old(self).batches,
            final(self).cursors@ == old(self).cursors@,
            final(self).batch_starts@ == old(self).cursors@,
            final(self).lanes@.len() == old(self).lanes@.len(),
            forall|w: int|
                0 <= w < old(self).lanes@.len() ==> {
                    &&& (#[trigger] final(self).lanes@[w]).slots@ == old(self).lanes@[w].slots@
                    &&& final(self).lanes@[w].starts@ == old(self).lanes@[w].starts@.update(
                        batch as int,
                        old(self).batch_starts@[w],
                    )
                    &&& final(self).lanes@[w].ends@ == old(self).lanes@[w].ends@.update(
                        batch as int,
                        old(self).cursors@[w],
                    )
                },
    {
        let ghost before = *self;
        let mut w: usize = 0;
        while w < self.lanes.len()
            invariant
                before.well_formed(),
                batch < before.batches,
                self.batches == before.batches,
                self.lanes@.len() == before.lanes@.len(),
                self.cursors@ == before.cursors@,
                self.batch_starts@.len() == before.batch_starts@.len(),
                w <= self.lanes@.len(),
                forall|i: int|
                    0 <= i < w ==> {
                        &&& (#[trigger] self.lanes@[i]).slots@ == before.lanes@[i].slots@
                        &&& self.lanes@[i].starts@ == before.lanes@[i].starts@.update(
                            batch as int,
                            before.batch_starts@[i],
                        )
                        &&& self.lanes@[i].ends@ == before.lanes@[i].ends@.update(
                            batch as int,
                            before.cursors@[i],
                        )
                        &&& self.batch_starts@[i] == before.cursors@[i]
                    },
                forall|i: int|
                    w <= i < self.lanes@.len() ==> (#[trigger] self.lanes@[i]) == before.lanes@[i]
                        && self.batch_starts@[i] == before.batch_starts@[i],
            decreases before.lanes@.len() - w,
        {
            let start: usize = self.batch_starts[w];
            let end: usize = self.cursors[w];
            assert(before.lane_fine(w as int));
            assert(self.lanes@[w as int] == before.lanes@[w as int]);
            let ghost so_far = *self;
            self.lanes[w].publish(batch, start, end);
            self.batch_starts.set(w, end);
            proof {
                assert forall|i: int| w < i < self.lanes@.len() implies (
                #[trigger] self.lanes@[i]) == before.lanes@[i] && self.batch_starts@[i]
                    == before.batch_starts@[i] by {
                    assert(self.lanes@[i] == so_far.lanes@[i]);
                }
                assert forall|i: int| 0 <= i <= w implies {
                    &&& (#[trigger] self.lanes@[i]).slots@ == before.lanes@[i].slots@
                    &&& self.lanes@[i].starts@ == before.lanes@[i].starts@.update(
                        batch as int,
                        before.batch_starts@[i],
                    )
                    &&& self.lanes@[i].ends@ == before.lanes@[i].ends@.update(
                        batch as int,
                        before.cursors@[i],
                    )
                    &&& self.batch_starts@[i] == before.cursors@[i]
                } by {
                    if i < w {
                        assert(self.lanes@[i] == so_far.lanes@[i]);
                    }
                }
            }
            w = w + 1;
        }
        proof {
            assert forall|w: int| 0 <= w < self.lanes@.len() implies self.batch_starts@[w]
                == before.cursors@[w] by {
                assert(self.lanes@[w].slots@ == before.lanes@[w].slots@);
            }
            assert(self.batch_starts@ =~= before.cursors@);
            assert forall|w: int| 0 <= w < self.lanes@.len() implies #[trigger] self.lane_fine(
                w,
            ) by {
                assert(before.lane_fine(w));
                assert(self.lanes@[w].slots@ == before.lanes@[w].slots@);
                assert forall|i: int| 0 <= i < self.cursors@[w] implies (
                #[trigger] self.lanes@[w].slots@[i]) is Some by {
                    assert(before.lanes@[w].slots@[i] is Some);
                }
            }
        }
    }
}

// ---------------------------------------------------------------------------
// A stream from end to end.
// ---------------------------------------------------------------------------

/// The checksum of one stream's records from `start` up to `end`.
pub open spec fn stream_sum(
    l: Layout,
    size: int,
    start: int,
    end: int,
    streams: int,
    s: int,
) -> u64
    decreases end - start,
{
    if end <= start {
        0
    } else if (end - 1) % streams == s {
        let tx = (end - 1) as u64;
        stream_sum(l, size, start, end - 1, streams, s) ^ envelope::record_sum(
            envelope::full_record(MAGIC, tx, envelope::tx_serials(l, tx), size),
        )
    } else {
        stream_sum(l, size, start, end - 1, streams, s)
    }
}

/// Between two transactions of a stream there is none of it.
proof fn lemma_gap(tx: int, streams: int, s: int, t: int)
    requires
        streams > 0,
        tx % streams == s,
        tx < t < tx + streams,
    ensures
        t % streams != s,
{
    if t % streams == s {
        vstd::arithmetic::div_mod::lemma_fundamental_div_mod(tx, streams);
        vstd::arithmetic::div_mod::lemma_fundamental_div_mod(t, streams);
        let (a, b) = (tx / streams, t / streams);
        assert(false) by (nonlinear_arith)
            requires
                streams > 0,
                tx == streams * a + s,
                t == streams * b + s,
                tx < t < tx + streams,
        ;
    }
}

proof fn lemma_skip(l: Layout, size: int, start: int, a: int, b: int, streams: int, s: int)
    requires
        a <= b,
        forall|t: int| a <= t < b ==> #[trigger] (t % streams) != s,
    ensures
        stream_items(l, start, a, streams, s) == stream_items(l, start, b, streams, s),
        stream_sum(l, size, start, a, streams, s) == stream_sum(l, size, start, b, streams, s),
    decreases b - a,
{
    if a < b {
        lemma_skip(l, size, start, a, b - 1, streams, s);
        assert((b - 1) % streams != s);
    }
}

proof fn lemma_split(l: Layout, start: int, mid: int, end: int, streams: int, s: int)
    requires
        start <= mid <= end,
    ensures
        stream_items(l, start, end, streams, s) == stream_items(l, start, mid, streams, s)
            + stream_items(l, mid, end, streams, s),
    decreases end - mid,
{
    if mid < end {
        lemma_split(l, start, mid, end - 1, streams, s);
        assert(stream_items(l, start, end, streams, s) =~= stream_items(l, start, mid, streams, s)
            + stream_items(l, mid, end, streams, s));
    } else {
        assert(stream_items(l, start, end, streams, s) =~= stream_items(l, start, mid, streams, s)
            + stream_items(l, mid, end, streams, s));
    }
}

/// What has been written is what the workers own of a list.
spec fn holds(rx: StreamReceiver, items: Seq<WorkItem>, workers: int) -> bool {
    forall|w: int| 0 <= w < workers ==> #[trigger] written(rx, w) == owned_part(items, workers, w)
}

/// The lanes are as large as what a stream will write.
spec fn sized(l: Layout, rx: StreamReceiver, streams: int, s: int, workers: int) -> bool {
    forall|w: int|
        0 <= w < workers ==> (#[trigger] rx.lanes@[w]).slots@.len() == owned_part(
            stream_items(l, 0, l.txs as int, streams, s),
            workers,
            w,
        ).len()
}

/// A lane has for a batch what its worker owns of it.
pub open spec fn batch_received(
    l: Layout,
    rx: StreamReceiver,
    size: int,
    streams: int,
    s: int,
    b: int,
    w: int,
) -> bool {
    &&& lane_ready(rx.lanes@[w], b)
    &&& rx.lanes@[w].ends@[b] <= rx.cursors@[w]
    &&& lane_items_of(rx.lanes@[w], b) == owned_part(
        stream_items(l, b * size, streams::batch_end(l.txs as int, size, b), streams, s),
        rx.lanes@.len() as int,
        w,
    )
}

/// The first `n` batches have been received, and no other has been published.
pub open spec fn batches_received(
    l: Layout,
    rx: StreamReceiver,
    size: int,
    streams: int,
    s: int,
    n: int,
) -> bool {
    &&& forall|b: int, w: int|
        0 <= b < n && 0 <= w < rx.lanes@.len() ==> #[trigger] batch_received(
            l,
            rx,
            size,
            streams,
            s,
            b,
            w,
        )
    &&& forall|b: int, w: int|
        n <= b < rx.batches && 0 <= w < rx.lanes@.len() ==> (#[trigger] rx.lanes@[w].starts@[b])
            == 0 && rx.lanes@[w].ends@[b] == 0
}

proof fn lemma_received_kept(
    l: Layout,
    a: StreamReceiver,
    b: StreamReceiver,
    size: int,
    streams: int,
    s: int,
    n: int,
)
    requires
        a.well_formed(),
        b.well_formed(),
        grown(a, b),
        0 <= n <= a.batches,
        batches_received(l, a, size, streams, s, n),
    ensures
        batches_received(l, b, size, streams, s, n),
{
    assert forall|q: int, w: int| 0 <= q < n && 0 <= w < b.lanes@.len() implies #[trigger] batch_received(
        l,
        b,
        size,
        streams,
        s,
        q,
        w,
    ) by {
        assert(batch_received(l, a, size, streams, s, q, w));
        assert(lane_grown(a, b, w));
        assert forall|i: int|
            b.lanes@[w].starts@[q] <= i < b.lanes@[w].ends@[q] implies (
        #[trigger] b.lanes@[w].slots@[i]) is Some by {
            assert(a.lanes@[w].slots@[i] is Some);
        }
        assert(lane_items_of(b.lanes@[w], q) =~= lane_items_of(a.lanes@[w], q));
    }
    assert forall|q: int, w: int| n <= q < b.batches && 0 <= w < b.lanes@.len() implies (
    #[trigger] b.lanes@[w].starts@[q]) == 0 && b.lanes@[w].ends@[q] == 0 by {
        assert(lane_grown(a, b, w));
        assert(a.lanes@[w].starts@[q] == 0);
    }
}

/// The lanes have room for a list of references.
pub open spec fn has_room_for(rx: StreamReceiver, items: Seq<WorkItem>) -> bool {
    forall|w: int|
        0 <= w < rx.lanes@.len() ==> rx.cursors@[w] + owned_part(
            items,
            rx.lanes@.len() as int,
            w,
        ).len() <= (#[trigger] rx.lanes@[w]).slots@.len()
}

/// A worker that owns none of the references gets none of them.
proof fn lemma_owned_none(items: Seq<WorkItem>, workers: int, w: int)
    requires
        forall|i: int| 0 <= i < items.len() ==> (#[trigger] items[i]).slot as int % workers != w,
    ensures
        owned_part(items, workers, w).len() == 0,
    decreases items.len(),
{
    if items.len() > 0 {
        assert(items.last() == items[items.len() - 1]);
        assert forall|i: int| 0 <= i < items.drop_last().len() implies (
        #[trigger] items.drop_last()[i]).slot as int % workers != w by {
            assert(items.drop_last()[i] == items[i]);
        }
        lemma_owned_none(items.drop_last(), workers, w);
    }
}

fn count_for(items: &Vec<WorkItem>, workers: usize, owner: usize) -> (r: usize)
    requires
        workers > 0,
    ensures
        r == owned_part(items@, workers as int, owner as int).len(),
{
    let mut found: usize = 0;
    let mut i: usize = 0;
    while i < items.len()
        invariant
            workers > 0,
            i <= items@.len(),
            found <= i,
            found == owned_part(items@.take(i as int), workers as int, owner as int).len(),
        decreases items@.len() - i,
    {
        proof {
            assert(items@.take(i + 1).drop_last() =~= items@.take(i as int));
            assert(items@.take(i + 1).last() == items@[i as int]);
        }
        if items[i].slot % workers == owner {
            found = found + 1;
        }
        i = i + 1;
    }
    assert(items@.take(i as int) =~= items@);
    found
}

impl StreamReceiver {
    fn can_take(&self, items: &Vec<WorkItem>) -> (r: bool)
        requires
            self.well_formed(),
            self.lanes@.len() > 0,
        ensures
            r == has_room_for(*self, items@),
    {
        let workers: usize = self.lanes.len();
        let mut i: usize = 0;
        while i < items.len()
            invariant
                self.well_formed(),
                workers == self.lanes@.len(),
                workers > 0,
                i <= items@.len(),
                forall|k: int|
                    0 <= k < i ==> {
                        let w = (#[trigger] items@[k]).slot as int % workers as int;
                        self.cursors@[w] + owned_part(items@, workers as int, w).len()
                            <= self.lanes@[w].slots@.len()
                    },
            decreases items@.len() - i,
        {
            let owner: usize = items[i].slot % workers;
            assert(self.lane_fine(owner as int));
            let room: usize = self.lanes[owner].slots.len() - self.cursors[owner];
            if count_for(items, workers, owner) > room {
                assert(self.lanes@[owner as int].slots@.len() < self.cursors@[owner as int]
                    + owned_part(items@, workers as int, owner as int).len());
                return false;
            }
            i = i + 1;
        }
        proof {
            assert forall|w: int| 0 <= w < self.lanes@.len() implies self.cursors@[w] + owned_part(
                items@,
                workers as int,
                w,
            ).len() <= (#[trigger] self.lanes@[w]).slots@.len() by {
                assert(self.lane_fine(w));
                if forall|k: int|
                    0 <= k < items@.len() ==> (#[trigger] items@[k]).slot as int % workers as int
                        != w {
                    lemma_owned_none(items@, workers as int, w);
                }
            }
        }
        true
    }

    /// Hands the references of a received record to the lanes of their owners, if
    /// these have room for all of them.
    pub fn place_items(&mut self, items: &Vec<WorkItem>) -> (r: bool)
        requires
            old(self).well_formed(),
            old(self).lanes@.len() > 0,
        ensures
            r == has_room_for(*old(self), items@),
            !r ==> *final(self) == *old(self),
            r ==> final(self).well_formed() && grown(*old(self), *final(self)),
            r ==> forall|w: int|
                0 <= w < old(self).lanes@.len() ==> #[trigger] written(*final(self), w) == written(
                    *old(self),
                    w,
                ) + owned_part(items@, old(self).lanes@.len() as int, w),
    {
        if !self.can_take(items) {
            return false;
        }
        let workers: usize = self.lanes.len();
        let ghost before = *self;
        let mut i: usize = 0;
        proof {
            assert forall|w: int| 0 <= w < workers implies #[trigger] written(*self, w) == written(
                before,
                w,
            ) + owned_part(items@.take(0), workers as int, w) by {
                assert(written(*self, w) =~= written(before, w) + owned_part(
                    items@.take(0),
                    workers as int,
                    w,
                ));
            }
        }
        while i < items.len()
            invariant
                workers == self.lanes@.len(),
                workers == before.lanes@.len(),
                workers > 0,
                i <= items@.len(),
                before.well_formed(),
                has_room_for(before, items@),
                self.well_formed(),
                grown(before, *self),
                forall|w: int|
                    0 <= w < workers ==> #[trigger] written(*self, w) == written(before, w)
                        + owned_part(items@.take(i as int), workers as int, w),
            decreases items@.len() - i,
        {
            let item: WorkItem = items[i];
            let owner: usize = item.slot % workers;
            let ghost so_far = *self;
            let ghost held = items@.take(i as int);
            let ghost more = items@.take(i + 1);
            proof {
                assert(more.drop_last() =~= held);
                assert(more.last() == item);
                assert(items@ =~= more + items@.skip(i + 1));
                lemma_owned_concat(more, items@.skip(i + 1), workers as int, owner as int);
                assert(lane_grown(before, so_far, owner as int));
                assert(written(so_far, owner as int).len() == written(before, owner as int).len()
                    + owned_part(held, workers as int, owner as int).len());
                assert(before.lanes@[owner as int].slots@.len() >= before.cursors@[owner as int]
                    + owned_part(items@, workers as int, owner as int).len());
            }
            self.append(owner, item);
            proof {
                lemma_grown(before, so_far, *self);
                assert forall|w: int| 0 <= w < workers implies #[trigger] written(*self, w)
                    == written(before, w) + owned_part(more, workers as int, w) by {
                    assert(written(so_far, w) == written(before, w) + owned_part(
                        held,
                        workers as int,
                        w,
                    ));
                    assert(written(*self, w) =~= written(before, w) + owned_part(
                        more,
                        workers as int,
                        w,
                    ));
                }
            }
            i = i + 1;
        }
        assert(items@.take(i as int) =~= items@);
        true
    }
}

/// Receives one transaction: its references go to the lanes of their owners.
fn take_items(
    rx: &mut StreamReceiver,
    l: &Layout,
    tx: u64,
    items: &Vec<WorkItem>,
    streams: u64,
    s: u64,
    workers: usize,
)
    requires
        bundle::layout_ok(*l),
        tx < l.txs,
        streams > 0,
        workers > 0,
        tx % streams == s,
        items@ == batch::tx_items(*l, tx, l.arity as nat),
        old(rx).well_formed(),
        old(rx).lanes@.len() == workers,
        sized(*l, *old(rx), streams as int, s as int, workers as int),
        holds(
            *old(rx),
            stream_items(*l, 0, tx as int, streams as int, s as int),
            workers as int,
        ),
    ensures
        final(rx).well_formed(),
        grown(*old(rx), *final(rx)),
        sized(*l, *final(rx), streams as int, s as int, workers as int),
        holds(
            *final(rx),
            stream_items(*l, 0, tx + 1, streams as int, s as int),
            workers as int,
        ),
{
    let ghost before = *rx;
    let ghost source = stream_items(*l, 0, tx as int, streams as int, s as int);
    let ghost whole = stream_items(*l, 0, l.txs as int, streams as int, s as int);
    let mut i: usize = 0;
    assert(source + items@.take(0) =~= source);
    while i < items.len()
        invariant
            workers > 0,
            i <= items@.len(),
            items@ == batch::tx_items(*l, tx, l.arity as nat),
            source == stream_items(*l, 0, tx as int, streams as int, s as int),
            whole == stream_items(*l, 0, l.txs as int, streams as int, s as int),
            tx < l.txs,
            streams > 0,
            tx % streams == s,
            rx.well_formed(),
            rx.lanes@.len() == workers,
            grown(before, *rx),
            sized(*l, *rx, streams as int, s as int, workers as int),
            holds(*rx, source + items@.take(i as int), workers as int),
        decreases items@.len() - i,
    {
        let item: WorkItem = items[i];
        let owner: usize = item.slot % workers;
        let ghost so_far = *rx;
        let ghost held = source + items@.take(i as int);
        let ghost more = source + items@.take(i + 1);
        proof {
            assert(more.drop_last() =~= held);
            assert(more.last() == item);
            lemma_split(*l, 0, tx + 1, l.txs as int, streams as int, s as int);
            let rest = items@.skip(i + 1) + stream_items(
                *l,
                tx + 1,
                l.txs as int,
                streams as int,
                s as int,
            );
            assert(whole =~= more + rest);
            lemma_owned_concat(more, rest, workers as int, owner as int);
            assert(written(so_far, owner as int) == owned_part(
                held,
                workers as int,
                owner as int,
            ));
            assert(so_far.lanes@[owner as int].slots@.len() == owned_part(
                whole,
                workers as int,
                owner as int,
            ).len());
        }
        rx.append(owner, item);
        proof {
            assert forall|w: int| 0 <= w < workers implies #[trigger] written(*rx, w)
                == owned_part(more, workers as int, w) by {
                assert(written(so_far, w) == owned_part(held, workers as int, w));
            }
            lemma_grown(before, so_far, *rx);
            assert forall|w: int| 0 <= w < workers implies (#[trigger] rx.lanes@[w]).slots@.len()
                == owned_part(whole, workers as int, w).len() by {
                assert(lane_grown(so_far, *rx, w));
                assert(so_far.lanes@[w].slots@.len() == owned_part(whole, workers as int, w).len());
            }
        }
        i = i + 1;
    }
    assert(items@.take(items@.len() as int) =~= items@);
}

/// Receives a stream's records of one batch, and publishes it if there were any.
fn receive_batch(
    rx: &mut StreamReceiver,
    l: &Layout,
    first: u64,
    end: u64,
    b: usize,
    streams: u64,
    s: u64,
    workers: usize,
    Ghost(size): Ghost<int>,
    record_size: usize,
) -> (r: Result<(u64, u64), RecordFault>)
    requires
        bundle::layout_ok(*l),
        l.arity <= MAX_ARITY,
        record_size >= MIN_RECORD,
        streams > 0,
        workers > 0,
        first % streams == s,
        l.txs + streams <= u64::MAX,
        size > 0,
        b < streams::batches(l.txs as int, size),
        end == streams::batch_end(l.txs as int, size, b as int),
        b * size <= first < b * size + streams,
        old(rx).well_formed(),
        old(rx).lanes@.len() == workers,
        old(rx).batches == streams::batches(l.txs as int, size),
        old(rx).batch_starts@ == old(rx).cursors@,
        sized(*l, *old(rx), streams as int, s as int, workers as int),
        holds(*old(rx), stream_items(*l, 0, b * size, streams as int, s as int), workers as int),
        batches_received(*l, *old(rx), size, streams as int, s as int, b as int),
    ensures
        final(rx).well_formed(),
        final(rx).lanes@.len() == workers,
        final(rx).batches == old(rx).batches,
        final(rx).batch_starts@ == final(rx).cursors@,
        sized(*l, *final(rx), streams as int, s as int, workers as int),
        holds(
            *final(rx),
            stream_items(*l, 0, end as int, streams as int, s as int),
            workers as int,
        ),
        batches_received(*l, *final(rx), size, streams as int, s as int, b + 1),
        r matches Ok(p) && p.0 % streams == s && end <= p.0 < end + streams && p.1 == stream_sum(
            *l,
            record_size as int,
            b * size,
            end as int,
            streams as int,
            s as int,
        ),
{
    let ghost before = *rx;
    let ghost start = b * size;
    let (m, own) = (Ghost(streams as int), Ghost(s as int));
    proof {
        streams::lemma_batches(l.txs as int, size, b as int);
        assert forall|t: int| start <= t < first implies #[trigger] (t % m@) != own@ by {
            if t % m@ == own@ {
                lemma_gap(t, m@, own@, first as int);
            }
        }
        let cap = if first < end { first as int } else { end as int };
        assert forall|t: int| start <= t < cap implies #[trigger] (t % m@) != own@ by {
            assert(t < first);
        }
        lemma_skip(*l, record_size as int, 0, start, cap, m@, own@);
        lemma_skip(*l, record_size as int, start, start, cap, m@, own@);
    }
    let mut tx: u64 = first;
    let mut sum: u64 = 0;
    let mut any: bool = false;
    while tx < end
        invariant
            bundle::layout_ok(*l),
            l.arity <= MAX_ARITY,
            record_size >= MIN_RECORD,
            streams > 0,
            m@ == streams,
            own@ == s,
            workers > 0,
            tx % streams == s,
            l.txs + streams <= u64::MAX,
            start == b * size,
            start < end <= l.txs,
            start <= tx < end + streams,
            before.well_formed(),
            before.lanes@.len() == workers,
            rx.well_formed(),
            rx.lanes@.len() == workers,
            grown(before, *rx),
            sized(*l, *rx, m@, own@, workers as int),
            !any ==> *rx == before && tx == first,
            holds(
                *rx,
                stream_items(
                    *l,
                    0,
                    if tx < end {
                        tx as int
                    } else {
                        end as int
                    },
                    m@,
                    own@,
                ),
                workers as int,
            ),
            sum == stream_sum(
                *l,
                record_size as int,
                start,
                if tx < end {
                    tx as int
                } else {
                    end as int
                },
                m@,
                own@,
            ),
        decreases end + streams - tx,
    {
        let (inputs, share): (Vec<u64>, u64) = match pass_record(MAGIC, l, tx, record_size) {
            Ok(p) => p,
            Err(fault) => return Err(fault),
        };
        proof {
            envelope::lemma_routed(*l, tx);
        }
        let mut items: Vec<WorkItem> = Vec::new();
        route_inputs(l, tx, &inputs, &mut items);
        assert(items@ =~= batch::tx_items(*l, tx, l.arity as nat));
        let ghost so_far = *rx;
        take_items(rx, l, tx, &items, streams, s, workers);
        sum = sum ^ share;
        any = true;
        let next: u64 = tx + streams;
        proof {
            lemma_grown(before, so_far, *rx);
            let cap = if next < end { next as int } else { end as int };
            assert forall|t: int| tx + 1 <= t < cap implies #[trigger] (t % m@) != own@ by {
                lemma_gap(tx as int, m@, own@, t);
            }
            lemma_skip(*l, record_size as int, 0, tx + 1, cap, m@, own@);
            lemma_skip(*l, record_size as int, start, tx + 1, cap, m@, own@);
            vstd::arithmetic::div_mod::lemma_mod_add_multiples_vanish(tx as int, m@);
        }
        tx = next;
    }
    let ghost full = *rx;
    if any {
        rx.flush(b);
    }
    proof {
        lemma_split(*l, 0, start, end as int, m@, own@);
        lemma_published(*l, before, full, *rx, any, size, m@, own@, b as int, start, end as int);
    }
    Ok((tx, sum))
}

proof fn lemma_published(
    l: Layout,
    before: StreamReceiver,
    full: StreamReceiver,
    after: StreamReceiver,
    any: bool,
    size: int,
    streams: int,
    s: int,
    b: int,
    start: int,
    end: int,
)
    requires
        before.well_formed(),
        full.well_formed(),
        after.well_formed(),
        grown(before, full),
        0 <= b < before.batches,
        start == b * size,
        end == streams::batch_end(l.txs as int, size, b),
        before.lanes@.len() > 0,
        before.batch_starts@ == before.cursors@,
        batches_received(l, before, size, streams, s, b),
        holds(before, stream_items(l, 0, start, streams, s), before.lanes@.len() as int),
        holds(
            full,
            stream_items(l, 0, start, streams, s) + stream_items(l, start, end, streams, s),
            before.lanes@.len() as int,
        ),
        !any ==> full == before && after == full,
        any ==> {
            &&& after.batches == full.batches
            &&& after.cursors@ == full.cursors@
            &&& after.lanes@.len() == full.lanes@.len()
            &&& forall|w: int|
                0 <= w < full.lanes@.len() ==> {
                    &&& (#[trigger] after.lanes@[w]).slots@ == full.lanes@[w].slots@
                    &&& after.lanes@[w].starts@ == full.lanes@[w].starts@.update(
                        b,
                        full.batch_starts@[w],
                    )
                    &&& after.lanes@[w].ends@ == full.lanes@[w].ends@.update(b, full.cursors@[w])
                }
        },
    ensures
        batches_received(l, after, size, streams, s, b + 1),
        holds(
            after,
            stream_items(l, 0, start, streams, s) + stream_items(l, start, end, streams, s),
            before.lanes@.len() as int,
        ),
{
    let n = before.lanes@.len() as int;
    let old_items = stream_items(l, 0, start, streams, s);
    let new_items = stream_items(l, start, end, streams, s);
    lemma_received_kept(l, before, full, size, streams, s, b);
    assert forall|w: int| 0 <= w < n implies #[trigger] written(after, w) == owned_part(
        old_items + new_items,
        n,
        w,
    ) by {
        assert(written(full, w) == owned_part(old_items + new_items, n, w));
        assert(after.lanes@[w].slots@ == full.lanes@[w].slots@);
        assert(written(after, w) =~= written(full, w));
    }
    assert forall|q: int, w: int| 0 <= q < b + 1 && 0 <= w < after.lanes@.len() implies #[trigger] batch_received(
        l,
        after,
        size,
        streams,
        s,
        q,
        w,
    ) by {
        assert(after.lanes@[w].slots@ == full.lanes@[w].slots@);
        assert(full.lane_fine(w));
        assert(after.lane_fine(w));
        assert(lane_grown(before, full, w));
        if q < b {
            assert(batch_received(l, full, size, streams, s, q, w));
            assert(lane_ready(after.lanes@[w], q)) by {
                assert forall|i: int|
                    after.lanes@[w].starts@[q] <= i < after.lanes@[w].ends@[q] implies (
                #[trigger] after.lanes@[w].slots@[i]) is Some by {
                    assert(full.lanes@[w].slots@[i] is Some);
                }
            }
            assert(lane_items_of(after.lanes@[w], q) =~= lane_items_of(full.lanes@[w], q));
        } else {
            lemma_owned_concat(old_items, new_items, n, w);
            let (a, c) = (owned_part(old_items, n, w), owned_part(new_items, n, w));
            assert(written(before, w) == a);
            assert(written(full, w) == a + c);
            if any {
                assert forall|i: int|
                    after.lanes@[w].starts@[q] <= i < after.lanes@[w].ends@[q] implies (
                #[trigger] after.lanes@[w].slots@[i]) is Some by {
                    assert(full.lanes@[w].slots@[i] is Some);
                }
                let got = lane_items_of(after.lanes@[w], q);
                assert(got.len() == c.len());
                assert forall|i: int| 0 <= i < c.len() implies got[i] == c[i] by {
                    assert((a + c)[a.len() + i] == c[i]);
                    assert(written(full, w)[a.len() + i] == c[i]);
                }
                assert(got =~= c);
            } else {
                assert(full.lanes@[w].starts@[q] == 0);
                assert(c.len() == 0);
                assert(lane_items_of(after.lanes@[w], q) =~= c);
            }
        }
    }
    assert forall|q: int, w: int| b + 1 <= q < after.batches && 0 <= w < after.lanes@.len() implies (
    #[trigger] after.lanes@[w].starts@[q]) == 0 && after.lanes@[w].ends@[q] == 0 by {
        assert(full.lane_fine(w));
        assert(full.lanes@[w].starts@[q] == 0);
        assert(after.lanes@[w].slots@ == full.lanes@[w].slots@);
    }
}

/// The sizes that a run can have.
pub open spec fn lane_sizes_ok(
    l: Layout,
    streams: u64,
    workers: usize,
    batch_size: u64,
    record_size: usize,
) -> bool {
    &&& bundle::layout_ok(l)
    &&& l.arity <= MAX_ARITY
    &&& bundle::inputs_total(l) <= usize::MAX
    &&& streams > 0
    &&& workers > 0
    &&& batch_size > 0
    &&& record_size >= MIN_RECORD
    &&& l.txs + streams <= u64::MAX
    &&& l.txs + batch_size <= u64::MAX
}

/// Sends and receives all records of one stream.
pub fn receive_stream(
    l: &Layout,
    streams: u64,
    s: u64,
    workers: usize,
    batch_size: u64,
    record_size: usize,
) -> (r: Result<(StreamReceiver, u64), RecordFault>)
    requires
        lane_sizes_ok(*l, streams, workers, batch_size, record_size),
        s < streams,
    ensures
        r matches Ok(p) && {
            &&& p.0.well_formed()
            &&& p.0.lanes@.len() == workers
            &&& p.0.batches == streams::batches(l.txs as int, batch_size as int)
            &&& batches_received(
                *l,
                p.0,
                batch_size as int,
                streams as int,
                s as int,
                p.0.batches as int,
            )
            &&& p.1 == stream_sum(
                *l,
                record_size as int,
                0,
                l.txs as int,
                streams as int,
                s as int,
            )
        },
{
    let total: u64 = batch_total(l.txs, batch_size);
    let (m, own, size) = (Ghost(streams as int), Ghost(s as int), Ghost(batch_size as int));
    proof {
        lemma_batch_count(*l, batch_size as int);
        vstd::arithmetic::div_mod::lemma_small_mod(s as nat, streams as nat);
        assert(0 * size@ == 0) by (nonlinear_arith);
    }
    let caps: Vec<usize> = lane_capacities(l, streams, s, workers);
    let mut rx: StreamReceiver = StreamReceiver::new(&caps, total as usize);
    let mut b: u64 = 0;
    let mut start: u64 = 0;
    let mut tx: u64 = s;
    let mut sum: u64 = 0;
    proof {
        assert forall|w: int| 0 <= w < workers implies #[trigger] written(rx, w) == owned_part(
            stream_items(*l, 0, 0, m@, own@),
            workers as int,
            w,
        ) by {
            assert(rx.fresh(w, caps@[w]));
            assert(written(rx, w) =~= Seq::empty());
        }
        assert forall|w: int| 0 <= w < workers implies (#[trigger] rx.lanes@[w]).slots@.len()
            == owned_part(
            stream_items(*l, 0, l.txs as int, m@, own@),
            workers as int,
            w,
        ).len() by {
            assert(rx.fresh(w, caps@[w]));
        }
        assert forall|q: int, w: int| 0 <= q < rx.batches && 0 <= w < rx.lanes@.len() implies (
        #[trigger] rx.lanes@[w].starts@[q]) == 0 && rx.lanes@[w].ends@[q] == 0 by {
            assert(rx.fresh(w, caps@[w]));
        }
        assert(rx.batch_starts@ =~= rx.cursors@) by {
            assert forall|w: int| 0 <= w < workers implies rx.batch_starts@[w] == rx.cursors@[w] by {
                assert(rx.fresh(w, caps@[w]));
            }
        }
    }
    while b < total
        invariant
            lane_sizes_ok(*l, streams, workers, batch_size, record_size),
            m@ == streams,
            own@ == s,
            size@ == batch_size,
            s < streams,
            total == streams::batches(l.txs as int, size@),
            total <= usize::MAX,
            b <= total,
            start <= l.txs,
            b < total ==> start == b * size@,
            b == total ==> start == l.txs,
            tx % streams == s,
            start <= tx < start + streams,
            rx.well_formed(),
            rx.lanes@.len() == workers,
            rx.batches == total,
            rx.batch_starts@ == rx.cursors@,
            sized(*l, rx, m@, own@, workers as int),
            holds(rx, stream_items(*l, 0, start as int, m@, own@), workers as int),
            batches_received(*l, rx, size@, m@, own@, b as int),
            sum == stream_sum(*l, record_size as int, 0, start as int, m@, own@),
        decreases total - b,
    {
        let end: u64 = if l.txs - start > batch_size {
            start + batch_size
        } else {
            l.txs
        };
        proof {
            streams::lemma_batches(l.txs as int, size@, b as int);
            streams::lemma_batches(l.txs as int, size@, b + 1);
            assert((b + 1) * size@ == b * size@ + size@) by (nonlinear_arith);
            lemma_stream_sum(
                *l,
                record_size as int,
                0,
                start as int,
                end as int,
                m@,
                own@,
            );
        }
        let (next, share): (u64, u64) = match receive_batch(
            &mut rx,
            l,
            tx,
            end,
            b as usize,
            streams,
            s,
            workers,
            size,
            record_size,
        ) {
            Ok(p) => p,
            Err(fault) => return Err(fault),
        };
        tx = next;
        sum = sum ^ share;
        start = end;
        b = b + 1;
    }
    Ok((rx, sum))
}

proof fn lemma_batch_count(l: Layout, size: int)
    requires
        bundle::layout_ok(l),
        size > 0,
        bundle::inputs_total(l) <= usize::MAX,
    ensures
        0 <= streams::batches(l.txs as int, size) <= l.txs <= usize::MAX,
        l.txs > 0 ==> streams::batches(l.txs as int, size) > 0,
        l.txs == 0 ==> streams::batches(l.txs as int, size) == 0,
{
    assert(l.txs <= l.txs * l.arity) by (nonlinear_arith)
        requires
            l.arity >= 1,
            l.txs >= 0,
    ;
    let n = streams::batches(l.txs as int, size);
    streams::lemma_batches(l.txs as int, size, 0);
    assert(0 * size == 0) by (nonlinear_arith);
    vstd::arithmetic::div_mod::lemma_div_pos_is_pos(l.txs + size - 1, size);
    if n > 0 {
        streams::lemma_batches(l.txs as int, size, n - 1);
        assert(n - 1 <= (n - 1) * size) by (nonlinear_arith)
            requires
                n - 1 >= 0,
                size >= 1,
        ;
    }
}

proof fn lemma_stream_sum(
    l: Layout,
    size: int,
    start: int,
    mid: int,
    end: int,
    streams: int,
    s: int,
)
    requires
        start <= mid <= end,
    ensures
        stream_sum(l, size, start, end, streams, s) == stream_sum(
            l,
            size,
            start,
            mid,
            streams,
            s,
        ) ^ stream_sum(l, size, mid, end, streams, s),
    decreases end - mid,
{
    let a = stream_sum(l, size, start, mid, streams, s);
    if mid == end {
        assert(a ^ 0u64 == a) by (bit_vector);
    } else {
        lemma_stream_sum(l, size, start, mid, end - 1, streams, s);
        let b = stream_sum(l, size, mid, end - 1, streams, s);
        let tx = (end - 1) as u64;
        let c = envelope::record_sum(envelope::full_record(MAGIC, tx, envelope::tx_serials(l, tx), size));
        assert((a ^ b) ^ c == a ^ (b ^ c)) by (bit_vector);
    }
}

// ---------------------------------------------------------------------------
// A run.
// ---------------------------------------------------------------------------

/// All streams have been received.
pub open spec fn all_received(
    l: Layout,
    rxs: Seq<StreamReceiver>,
    size: int,
    streams: int,
    workers: int,
    n: int,
) -> bool {
    &&& rxs.len() == n
    &&& forall|s: int|
        0 <= s < n ==> {
            &&& (#[trigger] rxs[s]).well_formed()
            &&& rxs[s].lanes@.len() == workers
            &&& rxs[s].batches == streams::batches(l.txs as int, size)
            &&& batches_received(l, rxs[s], size, streams, s, rxs[s].batches as int)
        }
}

/// Appends what one worker gets of a batch, stream by stream.
fn gather_worker(
    l: &Layout,
    rxs: &Vec<StreamReceiver>,
    b: usize,
    w: usize,
    items: &mut Vec<WorkItem>,
    Ghost(size): Ghost<int>,
    Ghost(workers): Ghost<int>,
)
    requires
        all_received(*l, rxs@, size, rxs@.len() as int, workers, rxs@.len() as int),
        b < streams::batches(l.txs as int, size),
        w < workers,
    ensures
        final(items)@ == old(items)@ + worker_items(
            *l,
            b * size,
            streams::batch_end(l.txs as int, size, b as int),
            rxs@.len() as int,
            workers,
            w as int,
            rxs@.len() as int,
        ),
{
    let ghost before = items@;
    let ghost streams = rxs@.len() as int;
    let ghost (start, end) = (b * size, streams::batch_end(l.txs as int, size, b as int));
    let mut s: usize = 0;
    assert(items@ =~= before + worker_items(*l, start, end, streams, workers, w as int, 0));
    while s < rxs.len()
        invariant
            all_received(*l, rxs@, size, streams, workers, streams),
            streams == rxs@.len(),
            b < streams::batches(l.txs as int, size),
            w < workers,
            start == b * size,
            end == streams::batch_end(l.txs as int, size, b as int),
            s <= rxs@.len(),
            items@ == before + worker_items(
                *l,
                start,
                end,
                streams,
                workers,
                w as int,
                s as int,
            ),
        decreases rxs@.len() - s,
    {
        proof {
            assert(rxs@[s as int].well_formed());
            assert(rxs@[s as int].lane_fine(w as int));
            assert(batch_received(
                *l,
                rxs@[s as int],
                size,
                streams,
                s as int,
                b as int,
                w as int,
            ));
        }
        read_batch(&rxs[s].lanes[w], b, items);
        s = s + 1;
        assert(items@ =~= before + worker_items(
            *l,
            start,
            end,
            streams,
            workers,
            w as int,
            s as int,
        ));
    }
}

/// What all workers get of a batch.
fn gather(
    l: &Layout,
    rxs: &Vec<StreamReceiver>,
    b: usize,
    workers: usize,
    size: Ghost<int>,
) -> (r: Vec<WorkItem>)
    requires
        all_received(*l, rxs@, size@, rxs@.len() as int, workers as int, rxs@.len() as int),
        b < streams::batches(l.txs as int, size@),
    ensures
        r@ == lane_order(
            *l,
            b * size@,
            streams::batch_end(l.txs as int, size@, b as int),
            rxs@.len() as int,
            workers as int,
            workers as int,
        ),
{
    let ghost streams = rxs@.len() as int;
    let ghost (start, end) = (b * size@, streams::batch_end(l.txs as int, size@, b as int));
    let mut items: Vec<WorkItem> = Vec::new();
    let mut w: usize = 0;
    while w < workers
        invariant
            all_received(*l, rxs@, size@, streams, workers as int, streams),
            streams == rxs@.len(),
            b < streams::batches(l.txs as int, size@),
            start == b * size@,
            end == streams::batch_end(l.txs as int, size@, b as int),
            w <= workers,
            items@ == lane_order(*l, start, end, streams, workers as int, w as int),
        decreases workers - w,
    {
        gather_worker(l, rxs, b, w, &mut items, size, Ghost(workers as int));
        w = w + 1;
    }
    items
}

/// A run after the transactions below `n`, in batches of `size` of which the last
/// may be smaller, each worked off in the order of the lanes.
pub open spec fn lane_run(l: Layout, size: int, streams: int, workers: int, n: int) -> BatchState
    decreases n,
{
    if n <= 0 || size <= 0 {
        batch::batch_start(l)
    } else {
        let start = batch::batch_first(size, n);
        if start < 0 || start >= n {
            batch::batch_start(l)
        } else {
            batch::after_work(
                l,
                lane_run(l, size, streams, workers, start),
                lane_order(l, start, n, streams, workers, workers),
                start,
                n,
            )
        }
    }
}

/// Value is conserved over a run with lanes.
pub proof fn law_lane_run_conserves_value(
    l: Layout,
    size: int,
    streams: int,
    workers: int,
    n: int,
)
    requires
        bundle::layout_ok(l),
        size > 0,
        streams > 0,
        workers > 0,
        0 <= n <= l.txs,
    ensures
        batch::batches_ok(l, lane_run(l, size, streams, workers, n), n),
        bundle::value_in(lane_run(l, size, streams, workers, n).maps, l.shards as int) + ordmap::weight(
            lane_run(l, size, streams, workers, n).outputs,
            perf002::cell_value(),
        ) == bundle::inputs_total(l) * VALUE,
    decreases n,
{
    if n <= 0 {
        batch::law_batches_start(l);
    } else {
        batch::lemma_batch_first(size, n);
        let start = batch::batch_first(size, n);
        law_lane_run_conserves_value(l, size, streams, workers, start);
        law_lanes_carry_all_work(l, start, n, streams, workers);
        batch::law_batch_conserves_value(
            l,
            lane_run(l, size, streams, workers, start),
            lane_order(l, start, n, streams, workers, workers),
            start,
            n,
        );
    }
    batch::lemma_state_value(l, lane_run(l, size, streams, workers, n), n);
}

/// Without conflicts every transaction is made, whatever the number of streams and
/// workers and the size of the batches.
pub proof fn law_lane_run_commits_all(l: Layout, size: int, streams: int, workers: int, n: int)
    requires
        bundle::layout_ok(l),
        l.conflict_pct == 0,
        size > 0,
        streams > 0,
        workers > 0,
        0 <= n <= l.txs,
    ensures
        lane_run(l, size, streams, workers, n).committed == n,
        lane_run(l, size, streams, workers, n).aborted == 0,
        bundle::inputs_there(
            l,
            lane_run(l, size, streams, workers, n).maps,
            n * l.arity,
            bundle::inputs_total(l),
        ),
    decreases n,
{
    if n <= 0 {
        bundle::lemma_filled(l, bundle::inputs_total(l));
        assert(0 * l.arity == 0) by (nonlinear_arith);
    } else {
        batch::lemma_batch_first(size, n);
        let start = batch::batch_first(size, n);
        law_lane_run_commits_all(l, size, streams, workers, start);
        law_lane_run_conserves_value(l, size, streams, workers, start);
        law_lanes_carry_all_work(l, start, n, streams, workers);
        batch::law_plain_batch_commits(
            l,
            lane_run(l, size, streams, workers, start),
            lane_order(l, start, n, streams, workers, workers),
            start,
            n,
        );
    }
}

/// The checksum of the records of the first `n` streams.
pub open spec fn lane_sum(l: Layout, size: int, streams: int, n: int) -> u64
    decreases n,
{
    if n <= 0 {
        0
    } else {
        lane_sum(l, size, streams, n - 1) ^ stream_sum(l, size, 0, l.txs as int, streams, n - 1)
    }
}

/// Sends, receives and runs all transactions, over several streams and in lanes.
pub fn run_case(
    l: &Layout,
    streams: u64,
    workers: usize,
    batch_size: u64,
    record_size: usize,
) -> (r: Result<WireTotals, RecordFault>)
    requires
        lane_sizes_ok(*l, streams, workers, batch_size, record_size),
        streams <= usize::MAX,
    ensures
        r matches Ok(t) && {
            let end = lane_run(
                *l,
                batch_size as int,
                streams as int,
                workers as int,
                l.txs as int,
            );
            &&& t.totals.committed == end.committed
            &&& t.totals.committed + t.totals.aborted == l.txs
            &&& t.totals.checksum == end.checksum
            &&& t.totals.final_cells == bundle::inputs_total(*l) - t.totals.committed * l.arity
                + t.totals.committed
            &&& t.totals.total_value == bundle::inputs_total(*l) * VALUE
            &&& l.conflict_pct == 0 ==> t.totals.aborted == 0
            &&& t.wire_checksum == lane_sum(
                *l,
                record_size as int,
                streams as int,
                streams as int,
            )
        },
{
    let size = Ghost(batch_size as int);
    let (m, n) = (Ghost(streams as int), Ghost(workers as int));
    let mut rxs: Vec<StreamReceiver> = Vec::new();
    let mut sum: u64 = 0;
    let mut s: u64 = 0;
    while s < streams
        invariant
            lane_sizes_ok(*l, streams, workers, batch_size, record_size),
            size@ == batch_size,
            m@ == streams,
            n@ == workers,
            s <= streams <= usize::MAX,
            all_received(*l, rxs@, size@, m@, n@, s as int),
            sum == lane_sum(*l, record_size as int, m@, s as int),
        decreases streams - s,
    {
        let (rx, share): (StreamReceiver, u64) = match receive_stream(
            l,
            streams,
            s,
            workers,
            batch_size,
            record_size,
        ) {
            Ok(p) => p,
            Err(fault) => return Err(fault),
        };
        let ghost before = rxs@;
        rxs.push(rx);
        sum = sum ^ share;
        s = s + 1;
        proof {
            assert forall|i: int| 0 <= i < s implies {
                &&& (#[trigger] rxs@[i]).well_formed()
                &&& rxs@[i].lanes@.len() == n@
                &&& rxs@[i].batches == streams::batches(l.txs as int, size@)
                &&& batches_received(*l, rxs@[i], size@, m@, i, rxs@[i].batches as int)
            } by {
                if i < s - 1 {
                    assert(rxs@[i] == before[i]);
                    assert(before[i].well_formed());
                }
            }
        }
    }
    let total: u64 = batch_total(l.txs, batch_size);
    proof {
        lemma_batch_count(*l, size@);
        assert(0 * size@ == 0) by (nonlinear_arith);
    }
    let mut engine: BatchEngine = BatchEngine::new(l);
    let mut b: u64 = 0;
    let mut start: u64 = 0;
    while b < total
        invariant
            lane_sizes_ok(*l, streams, workers, batch_size, record_size),
            size@ == batch_size,
            m@ == streams,
            n@ == workers,
            all_received(*l, rxs@, size@, m@, n@, m@),
            total == streams::batches(l.txs as int, size@),
            total <= usize::MAX,
            b <= total,
            start <= l.txs,
            b < total ==> start == b * size@,
            b == total ==> start == l.txs,
            engine@ == lane_run(*l, size@, m@, n@, start as int),
            batch::batches_ok(*l, engine@, start as int),
        decreases total - b,
    {
        let end: u64 = if l.txs - start > batch_size {
            start + batch_size
        } else {
            l.txs
        };
        proof {
            streams::lemma_batches(l.txs as int, size@, b as int);
            streams::lemma_batches(l.txs as int, size@, b + 1);
            assert((b + 1) * size@ == b * size@ + size@) by (nonlinear_arith);
            batch::lemma_batch_step(size@, b as int, start as int, end as int);
            law_lanes_carry_all_work(*l, start as int, end as int, m@, n@);
        }
        let items: Vec<WorkItem> = gather(l, &rxs, b as usize, workers, size);
        engine.run_work(l, &items, start, end);
        start = end;
        b = b + 1;
    }
    proof {
        if l.conflict_pct == 0 {
            law_lane_run_commits_all(*l, size@, m@, n@, l.txs as int);
        }
    }
    Ok(WireTotals { totals: engine.totals(l), wire_checksum: sum })
}

/// What each record of a run adds to the checksum of the wire.
spec fn wire_shares(l: Layout, size: int) -> Seq<u64> {
    Seq::new(
        l.txs as nat,
        |i: int|
            envelope::record_sum(
                envelope::full_record(
                    MAGIC,
                    i as u64,
                    envelope::tx_serials(l, i as u64),
                    size,
                ),
            ),
    )
}

proof fn lemma_stream_shares(l: Layout, size: int, n: int, streams: int, s: int)
    requires
        0 <= n <= l.txs,
    ensures
        stream_sum(l, size, 0, n, streams, s) == auth::stride_sum(
            wire_shares(l, size),
            streams,
            s,
            n,
        ),
    decreases n,
{
    if n > 0 {
        lemma_stream_shares(l, size, n - 1, streams, s);
    }
}

proof fn lemma_lane_sum(l: Layout, size: int, streams: int, n: int)
    ensures
        lane_sum(l, size, streams, n) == auth::strides_sum(wire_shares(l, size), streams, n),
    decreases n,
{
    if n > 0 {
        lemma_lane_sum(l, size, streams, n - 1);
        lemma_stream_shares(l, size, l.txs as int, streams, n - 1);
    }
}

proof fn lemma_wire_sum(l: Layout, size: int, n: int)
    requires
        0 <= n <= l.txs,
    ensures
        perf010::wire_sum(MAGIC, l, size, 0, n) == auth::range_sum(wire_shares(l, size), 0, n),
    decreases n,
{
    if n > 0 {
        lemma_wire_sum(l, size, n - 1);
    }
}

/// However many streams the records come in, the checksum of the wire is that of all the
/// records in their order.
pub proof fn law_streams_do_not_change_the_wire(l: Layout, size: int, streams: int)
    requires
        streams > 0,
    ensures
        lane_sum(l, size, streams, streams) == perf010::wire_sum(MAGIC, l, size, 0, l.txs as int),
{
    lemma_lane_sum(l, size, streams, streams);
    lemma_wire_sum(l, size, l.txs as int);
    auth::law_turns_cover_all(wire_shares(l, size), streams);
}

/// The part of the work that a worker owns is the work in the shards that fall to it, in the
/// order in which it came.
pub proof fn law_workers_part(items: Seq<WorkItem>, workers: int, w: int)
    ensures
        owned_part(items, workers, w) == items.filter(
            |item: WorkItem| item.slot as int % workers == w,
        ),
    decreases items.len(),
{
    reveal(Seq::filter);
    if items.len() > 0 {
        law_workers_part(items.drop_last(), workers, w);
    }
}

} // verus!
