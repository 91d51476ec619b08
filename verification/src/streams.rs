//! Batches that arrive over several streams at once.
use crate::engine;
use crate::engine::stream_has_range;
use vstd::prelude::*;

verus! {

/// How many batches there are.
pub open spec fn batches(txs: int, size: int) -> int {
    (txs + size - 1) / size
}

pub fn batch_total(txs: u64, batch_size: u64) -> (r: u64)
    requires
        batch_size > 0,
        txs + batch_size <= u64::MAX,
    ensures
        r == batches(txs as int, batch_size as int),
{
    (txs + batch_size - 1) / batch_size
}

/// The end of the batch number `b`.
pub open spec fn batch_end(txs: int, size: int, b: int) -> int {
    if (b + 1) * size < txs {
        (b + 1) * size
    } else {
        txs
    }
}

/// Every batch starts below the end, and the batch after the last does not.
pub proof fn lemma_batches(txs: int, size: int, b: int)
    requires
        size > 0,
        txs >= 0,
        b >= 0,
    ensures
        b < batches(txs, size) <==> b * size < txs,
        b < batches(txs, size) ==> b * size < batch_end(txs, size, b) <= txs,
        b < batches(txs, size) ==> batch_end(txs, size, b) <= b * size + size,
{
    let n = batches(txs, size);
    let r = (txs + size - 1) % size;
    vstd::arithmetic::div_mod::lemma_fundamental_div_mod(txs + size - 1, size);
    vstd::arithmetic::div_mod::lemma_mod_bound(txs + size - 1, size);
    assert((b + 1) * size == b * size + size) by (nonlinear_arith);
    assert(size * n == n * size) by (nonlinear_arith);
    if b < n {
        assert(b * size + size <= n * size) by (nonlinear_arith)
            requires
                b + 1 <= n,
                size > 0,
        ;
    } else {
        assert(n * size <= b * size) by (nonlinear_arith)
            requires
                n <= b,
                size > 0,
        ;
    }
}

/// How many of the first `n` streams carry a transaction from `start` up to `end`.
pub open spec fn streams_in(start: int, end: int, streams: int, n: int) -> int
    decreases n,
{
    if n <= 0 {
        0
    } else {
        streams_in(start, end, streams, n - 1) + if engine::stream_in_range(start, end, streams, n - 1) {
            1int
        } else {
            0
        }
    }
}

/// Counts the streams that carry a transaction of a batch.
pub fn streams_of_batch(start: u64, end: u64, streams: usize) -> (r: usize)
    requires
        streams > 0,
        start + streams <= u64::MAX,
    ensures
        r == streams_in(start as int, end as int, streams as int, streams as int),
        r <= streams,
{
    let mut s: usize = 0;
    let mut count: usize = 0;
    while s < streams
        invariant
            s <= streams,
            streams > 0,
            start + streams <= u64::MAX,
                count <= s,
            count == streams_in(start as int, end as int, streams as int, s as int),
        decreases streams - s,
    {
        proof {
            vstd::arithmetic::div_mod::lemma_small_mod(s as nat, streams as nat);
        }
        if stream_has_range(start, end, streams, s) {
            count = count + 1;
        }
        s = s + 1;
    }
    count
}

/// For each batch, how many streams it waits for.
pub fn expected_streams(txs: u64, batch_size: u64, streams: usize) -> (r: Vec<usize>)
    requires
        batch_size > 0,
        streams > 0,
        txs + batch_size <= u64::MAX,
        txs + streams <= u64::MAX,
    ensures
        r@.len() == batches(txs as int, batch_size as int),
        forall|b: int|
            0 <= b < r@.len() ==> (#[trigger] r@[b]) == streams_in(
                b * batch_size,
                batch_end(txs as int, batch_size as int, b),
                streams as int,
                streams as int,
            ),
{
    let total: u64 = batch_total(txs, batch_size);
    let mut out: Vec<usize> = Vec::new();
    let mut b: u64 = 0;
    let mut start: u64 = 0;
    assert(0 * batch_size == 0) by (nonlinear_arith);
    while b < total
        invariant
            batch_size > 0,
            streams > 0,
            txs + batch_size <= u64::MAX,
            txs + streams <= u64::MAX,
                total == batches(txs as int, batch_size as int),
            b <= total,
            b < total ==> start == b * batch_size,
            out@.len() == b,
            forall|i: int|
                0 <= i < out@.len() ==> (#[trigger] out@[i]) == streams_in(
                    i * batch_size,
                    batch_end(txs as int, batch_size as int, i),
                    streams as int,
                    streams as int,
                ),
        decreases total - b,
    {
        proof {
            lemma_batches(txs as int, batch_size as int, b as int);
            assert((b + 1) * batch_size == b * batch_size + batch_size) by (nonlinear_arith);
        }
        let end: u64 = if txs - start > batch_size {
            start + batch_size
        } else {
            txs
        };
        out.push(streams_of_batch(start, end, streams));
        b = b + 1;
        start = end;
        proof {
            lemma_batches(txs as int, batch_size as int, b as int);
        }
    }
    out
}

/// The batches that a stream has finished after the first `n` of its records: each
/// one when a record of another comes.
pub open spec fn finished_batches(entered: Seq<u64>, n: int) -> Seq<u64>
    decreases n,
{
    if n <= 1 {
        Seq::empty()
    } else if entered[n - 1] == entered[n - 2] {
        finished_batches(entered, n - 1)
    } else {
        finished_batches(entered, n - 1).push(entered[n - 2])
    }
}

/// The batches that a stream has finished at its end.
pub open spec fn all_finished(entered: Seq<u64>) -> Seq<u64> {
    if entered.len() == 0 {
        Seq::empty()
    } else {
        finished_batches(entered, entered.len() as int).push(entered.last())
    }
}

/// Follows which batch a stream is in.
#[derive(Clone, Copy, Debug, PartialEq, Eq, Structural)]
pub struct BatchCursor {
    pub current: Option<u64>,
}

impl BatchCursor {
    pub fn new() -> (r: Self)
        ensures
            r.current is None,
    {
        BatchCursor { current: None }
    }

    /// A record of a batch has come: the batch that it finishes, if any.
    pub fn enter(&mut self, batch: u64) -> (r: Option<u64>)
        ensures
            final(self).current == Some(batch),
            r == if old(self).current == Some(batch) {
                None::<u64>
            } else {
                old(self).current
            },
    {
        match self.current {
            Some(previous) => {
                if previous == batch {
                    None
                } else {
                    self.current = Some(batch);
                    Some(previous)
                }
            },
            None => {
                self.current = Some(batch);
                None
            },
        }
    }

    /// The stream is at its end: the batch that this finishes, if any.
    pub fn finish(&mut self) -> (r: Option<u64>)
        ensures
            final(self).current is None,
            r == old(self).current,
    {
        let last: Option<u64> = self.current;
        self.current = None;
        last
    }
}

proof fn lemma_finished(entered: Seq<u64>, n: int)
    requires
        1 <= n <= entered.len(),
        forall|i: int, j: int| 0 <= i <= j < entered.len() ==> entered[i] <= entered[j],
    ensures
        ({
            let f = finished_batches(entered, n);
            &&& forall|i: int, j: int| 0 <= i < j < f.len() ==> f[i] < f[j]
            &&& forall|i: int| 0 <= i < f.len() ==> (#[trigger] f[i]) < entered[n - 1]
            &&& forall|i: int| 0 <= i < f.len() ==> entered.contains(#[trigger] f[i])
            &&& forall|i: int|
                0 <= i < n ==> f.contains(#[trigger] entered[i]) || entered[i] == entered[n - 1]
        }),
    decreases n,
{
    if n > 1 {
        lemma_finished(entered, n - 1);
        let g = finished_batches(entered, n - 1);
        let f = finished_batches(entered, n);
        assert forall|i: int| 0 <= i < n implies f.contains(#[trigger] entered[i]) || entered[i]
            == entered[n - 1] by {
            if i < n - 1 {
                if g.contains(entered[i]) {
                    let j = choose|j: int| 0 <= j < g.len() && g[j] == entered[i];
                    assert(f[j] == entered[i]);
                } else if f != g {
                    assert(f[g.len() as int] == entered[i]);
                }
            }
        }
        assert forall|i: int| 0 <= i < f.len() implies entered.contains(#[trigger] f[i]) by {
            if i < g.len() {
                assert(f[i] == g[i]);
            } else {
                assert(f[i] == entered[n - 2]);
            }
        }
    }
}

/// A stream whose records come in the order of the batches finishes every batch
/// that it has a record of, each once and in order.
pub proof fn law_batches_finish_once(entered: Seq<u64>)
    requires
        forall|i: int, j: int| 0 <= i <= j < entered.len() ==> entered[i] <= entered[j],
    ensures
        forall|i: int, j: int|
            0 <= i < j < all_finished(entered).len() ==> all_finished(entered)[i] < all_finished(
                entered,
            )[j],
        forall|b: u64| #[trigger] all_finished(entered).contains(b) <==> entered.contains(b),
{
    if entered.len() > 0 {
        let n = entered.len() as int;
        lemma_finished(entered, n);
        let f = finished_batches(entered, n);
        let all = all_finished(entered);
        assert forall|b: u64| entered.contains(b) implies #[trigger] all.contains(b) by {
            let i = choose|i: int| 0 <= i < n && entered[i] == b;
            if f.contains(entered[i]) {
                let j = choose|j: int| 0 <= j < f.len() && f[j] == b;
                assert(all[j] == b);
            } else {
                assert(all[f.len() as int] == b);
            }
        }
        assert forall|b: u64| #[trigger] all.contains(b) implies entered.contains(b) by {
            let j = choose|j: int| 0 <= j < all.len() && all[j] == b;
            if j < f.len() {
                assert(entered.contains(f[j]));
            } else {
                assert(entered[n - 1] == b);
            }
        }
    }
}

/// The batches follow each other without a gap, none but the last smaller than the size,
/// and the last one ends with the transactions.
pub proof fn law_batches_cover_all(txs: int, size: int, b: int)
    requires
        0 < txs,
        0 < size,
        0 <= b < batches(txs, size),
    ensures
        b * size < batch_end(txs, size, b) <= txs,
        batch_end(txs, size, b) - b * size <= size,
        b + 1 < batches(txs, size) ==> batch_end(txs, size, b) == (b + 1) * size,
        b + 1 == batches(txs, size) ==> batch_end(txs, size, b) == txs,
{
    let n = batches(txs, size);
    let x = txs + size - 1;
    vstd::arithmetic::div_mod::lemma_fundamental_div_mod(x, size);
    assert(0 <= x % size < size && x == size * n + x % size);
    assert((b + 1) * size == b * size + size) by (nonlinear_arith);
    assert(b * size <= (n - 1) * size && (n - 1) * size == size * n - size) by (nonlinear_arith)
        requires
            b <= n - 1,
            0 < size,
    ;
    if b + 1 < n {
        assert((b + 1) * size <= (n - 1) * size) by (nonlinear_arith)
            requires
                b + 1 <= n - 1,
                0 < size,
        ;
    } else {
        assert((b + 1) * size == size * n) by (nonlinear_arith)
            requires
                b + 1 == n,
        ;
    }
}

proof fn lemma_one_more(start: int, end: int, streams: int, n: int)
    requires
        0 <= start <= end,
        end - start < streams,
        0 <= n <= streams,
    ensures
        streams_in(start, end + 1, streams, n) == streams_in(start, end, streams, n) + if end
            % streams < n {
            1int
        } else {
            0
        },
    decreases n,
{
    if n > 0 {
        let k = n - 1;
        lemma_one_more(start, end, streams, k);
        let last = end + 1;
        if engine::stream_in_range(start, end, streams, k) {
            let i = choose|i: int| start <= i < end && #[trigger] (i % streams) == k;
            assert(start <= i < last && i % streams == k);
            if end % streams == k {
                lemma_residues_differ(i, end, streams);
            }
        } else if engine::stream_in_range(start, last, streams, k) {
            let i = choose|i: int| start <= i < last && #[trigger] (i % streams) == k;
            if i != end {
                assert(start <= i < end && i % streams == k);
            }
        } else {
            assert(!(start <= end < last && end % streams == k));
        }
    }
}

proof fn lemma_residues_differ(i: int, j: int, streams: int)
    requires
        0 <= i < j < i + streams,
    ensures
        i % streams != j % streams,
{
    vstd::arithmetic::div_mod::lemma_fundamental_div_mod(i, streams);
    vstd::arithmetic::div_mod::lemma_fundamental_div_mod(j, streams);
    if i % streams == j % streams {
        let (a, b) = (i / streams, j / streams);
        assert(0 < streams * b - streams * a < streams);
        assert(false) by (nonlinear_arith)
            requires
                0 < streams * b - streams * a < streams,
        ;
    }
}

proof fn lemma_all_streams(start: int, end: int, streams: int, n: int)
    requires
        0 <= start,
        0 < streams <= end - start,
        0 <= n <= streams,
    ensures
        streams_in(start, end, streams, n) == n,
    decreases n,
{
    if n > 0 {
        let k = n - 1;
        lemma_all_streams(start, end, streams, k);
        let r = start % streams;
        let q = start / streams;
        vstd::arithmetic::div_mod::lemma_fundamental_div_mod(start, streams);
        let i = if k >= r {
            start + (k - r)
        } else {
            start + (k - r) + streams
        };
        let d = if k >= r {
            q
        } else {
            q + 1
        };
        assert(i == d * streams + k) by (nonlinear_arith)
            requires
                start == streams * q + r,
                i == start + (k - r) && d == q || i == start + (k - r) + streams && d == q + 1,
        ;
        vstd::arithmetic::div_mod::lemma_fundamental_div_mod_converse(i, streams, d, k);
        assert(start <= i < end && i % streams == k);
    }
}

/// A batch has transactions of as many streams as it has transactions, and of all streams
/// where it has as many or more.
pub proof fn law_streams_of_a_batch(start: int, end: int, streams: int)
    requires
        0 <= start <= end,
        0 < streams,
    ensures
        streams_in(start, end, streams, streams) == if end - start < streams {
            end - start
        } else {
            streams
        },
    decreases end - start,
{
    if end - start >= streams {
        lemma_all_streams(start, end, streams, streams);
    } else if start < end {
        law_streams_of_a_batch(start, end - 1, streams);
        lemma_one_more(start, end - 1, streams, streams);
        assert(0 <= (end - 1) % streams < streams) by (nonlinear_arith)
            requires
                0 < streams,
        ;
    } else {
        lemma_no_streams(start, streams, streams);
    }
}

proof fn lemma_no_streams(start: int, streams: int, n: int)
    ensures
        streams_in(start, start, streams, n) == 0,
    decreases n,
{
    if n > 0 {
        lemma_no_streams(start, streams, n - 1);
    }
}

} // verus!
