//! Counters, latency percentiles and the report of a run.
//!
//! The types here are plain values with `&mut self` methods. What shares them
//! between threads stands around the library.
use crate::ordmap;
use crate::ordmap::{Model, OrdMap, Ordered};
use crate::text;
use crate::text::{digit_char, push_dec, text};
use vstd::prelude::*;

verus! {

// ---------------------------------------------------------------------------
// Counters.
// ---------------------------------------------------------------------------

/// The larger values are cut off at the largest number.
pub open spec fn saturated(x: nat) -> u64 {
    if x > u64::MAX {
        u64::MAX
    } else {
        x as u64
    }
}

/// A point-in-time copy of the wire counters.
#[derive(Clone, Copy, Debug, PartialEq, Eq, Structural)]
pub struct WireSnapshot {
    pub requests: u64,
    pub bytes_sent: u64,
    pub bytes_received: u64,
}

impl Default for WireSnapshot {
    fn default() -> (r: Self)
        ensures
            r == no_traffic(),
    {
        WireSnapshot { requests: 0, bytes_sent: 0, bytes_received: 0 }
    }
}

/// The counters at the start.
pub open spec fn no_traffic() -> WireSnapshot {
    WireSnapshot { requests: 0, bytes_sent: 0, bytes_received: 0 }
}

/// The counters of two parts of a run, taken together.
pub open spec fn merged_wire(a: WireSnapshot, b: WireSnapshot) -> WireSnapshot {
    WireSnapshot {
        requests: saturated((a.requests + b.requests) as nat),
        bytes_sent: saturated((a.bytes_sent + b.bytes_sent) as nat),
        bytes_received: saturated((a.bytes_received + b.bytes_received) as nat),
    }
}

fn saturating_sum(a: u64, b: u64) -> (r: u64)
    ensures
        r == saturated((a + b) as nat),
{
    match a.checked_add(b) {
        Some(sum) => sum,
        None => u64::MAX,
    }
}

impl WireSnapshot {
    pub fn merge(&mut self, other: WireSnapshot)
        ensures
            *final(self) == merged_wire(*old(self), other),
    {
        self.requests = saturating_sum(self.requests, other.requests);
        self.bytes_sent = saturating_sum(self.bytes_sent, other.bytes_sent);
        self.bytes_received = saturating_sum(self.bytes_received, other.bytes_received);
    }
}

/// Counters for logical requests and application-level wire bytes. They stop at
/// the largest number instead of wrapping.
#[derive(Debug)]
pub struct WireCounters {
    counts: WireSnapshot,
}

impl View for WireCounters {
    type V = WireSnapshot;

    closed spec fn view(&self) -> WireSnapshot {
        self.counts
    }
}

impl Default for WireCounters {
    fn default() -> (r: Self)
        ensures
            r@ == no_traffic(),
    {
        WireCounters::new()
    }
}

impl WireCounters {
    pub fn new() -> (r: Self)
        ensures
            r@ == no_traffic(),
    {
        WireCounters { counts: WireSnapshot { requests: 0, bytes_sent: 0, bytes_received: 0 } }
    }

    pub fn record_request(&mut self, bytes_sent: u64, bytes_received: u64)
        ensures
            final(self)@ == merged_wire(
                old(self)@,
                (WireSnapshot { requests: 1, bytes_sent, bytes_received }),
            ),
    {
        self.counts.merge(WireSnapshot { requests: 1, bytes_sent, bytes_received });
    }

    pub fn increment_requests(&mut self)
        ensures
            final(self)@ == merged_wire(
                old(self)@,
                (WireSnapshot { requests: 1, bytes_sent: 0, bytes_received: 0 }),
            ),
    {
        self.counts.merge(WireSnapshot { requests: 1, bytes_sent: 0, bytes_received: 0 });
    }

    pub fn add_bytes_sent(&mut self, bytes: u64)
        ensures
            final(self)@ == merged_wire(
                old(self)@,
                (WireSnapshot { requests: 0, bytes_sent: bytes, bytes_received: 0 }),
            ),
    {
        self.counts.merge(WireSnapshot { requests: 0, bytes_sent: bytes, bytes_received: 0 });
    }

    pub fn add_bytes_received(&mut self, bytes: u64)
        ensures
            final(self)@ == merged_wire(
                old(self)@,
                (WireSnapshot { requests: 0, bytes_sent: 0, bytes_received: bytes }),
            ),
    {
        self.counts.merge(WireSnapshot { requests: 0, bytes_sent: 0, bytes_received: bytes });
    }

    pub fn snapshot(&self) -> (r: WireSnapshot)
        ensures
            r == self@,
    {
        self.counts
    }

    pub fn merge_snapshot(&mut self, snapshot: WireSnapshot)
        ensures
            final(self)@ == merged_wire(old(self)@, snapshot),
    {
        self.counts.merge(snapshot);
    }

    pub fn merge(&mut self, other: &WireCounters)
        ensures
            final(self)@ == merged_wire(old(self)@, other@),
    {
        self.merge_snapshot(other.snapshot());
    }
}

/// The order in which parts of a run are taken together does not matter.
pub proof fn law_merge_order(a: WireSnapshot, b: WireSnapshot, c: WireSnapshot)
    ensures
        merged_wire(a, b) == merged_wire(b, a),
        merged_wire(merged_wire(a, b), c) == merged_wire(a, merged_wire(b, c)),
        merged_wire(a, no_traffic()) == a,
{
}

// ---------------------------------------------------------------------------
// Latencies.
// ---------------------------------------------------------------------------

/// Finite-sample latency percentiles by nearest rank.
#[derive(Clone, Copy, Debug, PartialEq, Eq, Structural)]
pub struct LatencySummary {
    pub samples: u64,
    pub p50_us: u64,
    pub p95_us: u64,
    pub p99_us: u64,
    pub max_us: u64,
}

/// The order of numbers.
pub open spec fn at_most() -> spec_fn(u64, u64) -> bool {
    |a: u64, b: u64| a <= b
}

/// A list in ascending order.
pub open spec fn sorted(s: Seq<u64>) -> Seq<u64> {
    s.sort_by(at_most())
}

/// Numbers of machine size that are cut off at the largest one.
pub open spec fn cut(x: nat) -> nat {
    if x > usize::MAX {
        usize::MAX as nat
    } else {
        x
    }
}

/// The rank of a percentile among `count` samples, counted from one: the least
/// number of samples that is no less than that share of them.
pub open spec fn rank_of(count: nat, percentile: nat) -> nat {
    let rank = cut(cut(count * percentile) + 99) / 100;
    if rank < 1 {
        1
    } else if rank > count {
        count
    } else {
        rank
    }
}

/// The percentile of a list in ascending order.
pub open spec fn percentile_of(s: Seq<u64>, percentile: nat) -> u64 {
    s[rank_of(s.len(), percentile) - 1]
}

/// The summary of a list of samples.
pub open spec fn summary_of(samples: Seq<u64>) -> Option<LatencySummary> {
    if samples.len() == 0 {
        None
    } else {
        let s = sorted(samples);
        Some(
            LatencySummary {
                samples: s.len() as u64,
                p50_us: percentile_of(s, 50),
                p95_us: percentile_of(s, 95),
                p99_us: percentile_of(s, 99),
                max_us: s.last(),
            },
        )
    }
}

/// A copy of `samples` in ascending order.
pub fn sorted_copy(samples: &Vec<u64>) -> (r: Vec<u64>)
    ensures
        r@ == sorted(samples@),
        r@.len() == samples@.len(),
        forall|i: int, j: int| 0 <= i <= j < r@.len() ==> r@[i] <= r@[j],
        r@.to_multiset() == samples@.to_multiset(),
{
    let mut sorted_list: Vec<u64> = Vec::with_capacity(samples.len());
    let mut i: usize = 0;
    assert(samples@.subrange(0, 0) =~= Seq::<u64>::empty());
    while i < samples.len()
        invariant
            i <= samples@.len(),
            sorted_list@.len() == i,
            sorted_list@.to_multiset() == samples@.subrange(0, i as int).to_multiset(),
            forall|a: int, b: int|
                0 <= a <= b < sorted_list@.len() ==> sorted_list@[a] <= sorted_list@[b],
        decreases samples@.len() - i,
    {
        let value: u64 = samples[i];
        let mut pos: usize = i;
        while pos > 0 && sorted_list[pos - 1] > value
            invariant
                pos <= i,
                sorted_list@.len() == i,
                forall|k: int| pos <= k < i ==> sorted_list@[k] > value,
            decreases pos,
        {
            pos = pos - 1;
        }
        let ghost before = sorted_list@;
        sorted_list.insert(pos, value);
        proof {
            broadcast use vstd::seq_lib::group_to_multiset_ensures;

            assert(sorted_list@ =~= before.insert(pos as int, value));
            vstd::seq_lib::to_multiset_insert(before, pos as int, value);
            assert(samples@.subrange(0, i + 1) =~= samples@.subrange(0, i as int).push(value));
        }
        i = i + 1;
    }
    proof {
        assert(samples@.subrange(0, i as int) =~= samples@);
        assert(vstd::relations::total_ordering(at_most()));
        samples@.lemma_sort_by_ensures(at_most());
        vstd::seq_lib::lemma_sorted_unique(sorted_list@, sorted(samples@), at_most());
    }
    sorted_list
}

fn nearest_rank(sorted_list: &Vec<u64>, percentile: usize) -> (r: u64)
    requires
        sorted_list@.len() > 0,
        1 <= percentile <= 100,
    ensures
        r == percentile_of(sorted_list@, percentile as nat),
{
    let count: usize = sorted_list.len();
    let product: usize = match count.checked_mul(percentile) {
        Some(product) => product,
        None => usize::MAX,
    };
    let total: usize = match product.checked_add(99) {
        Some(total) => total,
        None => usize::MAX,
    };
    proof {
        assert(0 <= count * percentile) by (nonlinear_arith);
    }
    let rank: usize = total / 100;
    let rank: usize = if rank < 1 {
        1
    } else if rank > count {
        count
    } else {
        rank
    };
    sorted_list[rank - 1]
}

/// The percentiles p50, p95 and p99 and the maximum of samples in microseconds.
/// No samples have no summary.
pub fn summarize_latencies(samples_us: &Vec<u64>) -> (r: Option<LatencySummary>)
    ensures
        r == summary_of(samples_us@),
{
    if samples_us.len() == 0 {
        return None;
    }
    let sorted_list: Vec<u64> = sorted_copy(samples_us);
    Some(
        LatencySummary {
            samples: sorted_list.len() as u64,
            p50_us: nearest_rank(&sorted_list, 50),
            p95_us: nearest_rank(&sorted_list, 95),
            p99_us: nearest_rank(&sorted_list, 99),
            max_us: sorted_list[sorted_list.len() - 1],
        },
    )
}

/// The rank is the least one that covers the share: that many samples are no
/// less than `percentile` out of a hundred of them, and one sample fewer is.
pub proof fn law_nearest_rank(count: nat, percentile: nat)
    requires
        0 < count,
        1 <= percentile <= 100,
        count * percentile + 99 <= usize::MAX,
    ensures
        1 <= rank_of(count, percentile) <= count,
        rank_of(count, percentile) * 100 >= count * percentile,
        (rank_of(count, percentile) - 1) * 100 < count * percentile,
{
    assert(count <= count * percentile <= count * 100) by (nonlinear_arith)
        requires
            1 <= percentile <= 100,
            0 < count,
    ;
}

proof fn lemma_filter_multiset(s: Seq<u64>, f: spec_fn(u64) -> bool)
    ensures
        s.filter(f).to_multiset() =~= s.to_multiset().filter(f),
    decreases s.len(),
{
    broadcast use vstd::seq_lib::group_to_multiset_ensures;

    reveal(Seq::filter);
    if s.len() > 0 {
        let rest = s.drop_last();
        lemma_filter_multiset(rest, f);
        assert(s =~= rest.push(s.last()));
    }
}

/// As many samples pass a test in any order of them.
proof fn lemma_filter_order(s: Seq<u64>, t: Seq<u64>, f: spec_fn(u64) -> bool)
    requires
        s.to_multiset() == t.to_multiset(),
    ensures
        s.filter(f).len() == t.filter(f).len(),
{
    broadcast use vstd::seq_lib::group_to_multiset_ensures;

    lemma_filter_multiset(s, f);
    lemma_filter_multiset(t, f);
    assert(s.filter(f).to_multiset().len() == t.filter(f).to_multiset().len());
}

proof fn lemma_filter_all(s: Seq<u64>, f: spec_fn(u64) -> bool)
    requires
        forall|i: int| 0 <= i < s.len() ==> f(#[trigger] s[i]),
    ensures
        s.filter(f) == s,
    decreases s.len(),
{
    reveal(Seq::filter);
    if s.len() > 0 {
        lemma_filter_all(s.drop_last(), f);
        assert(s.drop_last().push(s.last()) =~= s);
    }
}

/// Where the first `k` items pass a test, at least `k` items pass it, and where no item
/// from the `k`th on passes it, at most `k` do.
proof fn lemma_filter_front(s: Seq<u64>, f: spec_fn(u64) -> bool, k: int)
    requires
        0 <= k <= s.len(),
    ensures
        (forall|i: int| 0 <= i < k ==> f(#[trigger] s[i])) ==> s.filter(f).len() >= k,
        (forall|i: int| k <= i < s.len() ==> !f(#[trigger] s[i])) ==> s.filter(f).len() <= k,
{
    let (a, b) = (s.take(k), s.skip(k));
    assert(a + b =~= s);
    Seq::filter_distributes_over_add(a, b, f);
    a.lemma_filter_len(f);
    if forall|i: int| 0 <= i < k ==> f(#[trigger] s[i]) {
        lemma_filter_all(a, f);
    }
    if forall|i: int| k <= i < s.len() ==> !f(#[trigger] s[i]) {
        assert forall|x: u64| b.contains(x) implies !f(x) by {
            let i = b.index_of(x);
            assert(s[k + i] == x);
        }
        b.lemma_all_neg_filter_empty(f);
    }
}

proof fn lemma_percentile(samples: Seq<u64>, percentile: nat)
    requires
        0 < samples.len(),
        1 <= percentile <= 100,
    ensures
        ({
            let x = percentile_of(sorted(samples), percentile);
            &&& samples.contains(x)
            &&& samples.len() * 100 + 99 <= usize::MAX ==> samples.filter(|v: u64| v <= x).len()
                * 100 >= samples.len() * percentile
            &&& samples.len() * 100 + 99 <= usize::MAX ==> samples.filter(|v: u64| v < x).len()
                * 100 < samples.len() * percentile
        }),
{
    broadcast use vstd::seq_lib::group_to_multiset_ensures;

    let s = sorted(samples);
    let n = samples.len();
    assert(vstd::relations::total_ordering(at_most()));
    samples.lemma_sort_by_ensures(at_most());
    let k = rank_of(n, percentile);
    assert(s.to_multiset().len() == samples.to_multiset().len());
    assert(1 <= k <= n);
    let x = s[k - 1];
    assert(s.contains(x));
    assert(samples.contains(x)) by {
        assert(s.to_multiset().count(x) > 0);
        assert(samples.to_multiset().count(x) > 0);
    }
    if n * 100 + 99 <= usize::MAX {
        assert(n * percentile <= n * 100) by (nonlinear_arith)
            requires
                percentile <= 100,
        ;
        law_nearest_rank(n, percentile);
        let low = |v: u64| v <= x;
        let below = |v: u64| v < x;
        lemma_filter_order(samples, s, low);
        lemma_filter_order(samples, s, below);
        assert forall|i: int, j: int| 0 <= i <= j < s.len() implies s[i] <= s[j] by {
            assert(at_most()(s[i], s[j]));
        }
        lemma_filter_front(s, low, k as int);
        lemma_filter_front(s, below, k - 1);
    }
}

/// What a percentile is: at least that share of the samples is no larger than it, and
/// less than that share is smaller. It is one of the samples, and so is the maximum,
/// which no sample exceeds. A larger share has no smaller percentile. Only an empty list
/// has no summary.
pub proof fn law_percentiles(samples: Seq<u64>)
    requires
        samples.len() <= u64::MAX,
    ensures
        summary_of(samples) is None <==> samples.len() == 0,
        summary_of(samples) matches Some(l) ==> {
            &&& l.samples == samples.len()
            &&& samples.contains(l.p50_us) && samples.contains(l.p95_us) && samples.contains(
                l.p99_us,
            ) && samples.contains(l.max_us)
            &&& l.p50_us <= l.p95_us <= l.p99_us <= l.max_us
            &&& forall|i: int| 0 <= i < samples.len() ==> #[trigger] samples[i] <= l.max_us
            &&& samples.len() * 100 + 99 <= usize::MAX ==> {
                &&& samples.filter(|v: u64| v <= l.p50_us).len() * 100 >= samples.len() * 50
                &&& samples.filter(|v: u64| v < l.p50_us).len() * 100 < samples.len() * 50
                &&& samples.filter(|v: u64| v <= l.p95_us).len() * 100 >= samples.len() * 95
                &&& samples.filter(|v: u64| v < l.p95_us).len() * 100 < samples.len() * 95
                &&& samples.filter(|v: u64| v <= l.p99_us).len() * 100 >= samples.len() * 99
                &&& samples.filter(|v: u64| v < l.p99_us).len() * 100 < samples.len() * 99
            }
        },
{
    broadcast use vstd::seq_lib::group_to_multiset_ensures;

    if samples.len() > 0 {
        let s = sorted(samples);
        let n = samples.len();
        lemma_percentile(samples, 50);
        lemma_percentile(samples, 95);
        lemma_percentile(samples, 99);
        assert(vstd::relations::total_ordering(at_most()));
        samples.lemma_sort_by_ensures(at_most());
        assert(s.to_multiset().len() == samples.to_multiset().len());
        assert forall|i: int, j: int| 0 <= i <= j < s.len() implies s[i] <= s[j] by {
            assert(at_most()(s[i], s[j]));
        }
        assert(rank_of(n, 50) <= rank_of(n, 95) <= rank_of(n, 99) <= n) by {
            assert(cut(cut(n * 50) + 99) <= cut(cut(n * 95) + 99) <= cut(cut(n * 99) + 99));
        }
        assert(samples.contains(s.last())) by {
            assert(s.contains(s.last()));
            assert(s.to_multiset().count(s.last()) > 0);
            assert(samples.to_multiset().count(s.last()) > 0);
        }
        assert forall|i: int| 0 <= i < samples.len() implies #[trigger] samples[i] <= s.last() by {
            assert(samples.contains(samples[i]));
            assert(samples.to_multiset().count(samples[i]) > 0);
            assert(s.to_multiset().count(samples[i]) > 0);
            let j = s.index_of(samples[i]);
            assert(s[j] <= s[s.len() - 1]);
        }
    }
}

/// A percentile is settled by the two shares: whatever one sample has at least a share of
/// the samples up to it and less than that share below it is the percentile.
pub proof fn law_percentile_is_settled(samples: Seq<u64>, share: nat, x: u64, y: u64)
    requires
        samples.filter(|v: u64| v <= x).len() * 100 >= samples.len() * share,
        samples.filter(|v: u64| v < x).len() * 100 < samples.len() * share,
        samples.filter(|v: u64| v <= y).len() * 100 >= samples.len() * share,
        samples.filter(|v: u64| v < y).len() * 100 < samples.len() * share,
    ensures
        x == y,
{
    if x < y {
        lemma_filter_weaker(samples, |v: u64| v <= x, |v: u64| v < y);
    } else if y < x {
        lemma_filter_weaker(samples, |v: u64| v <= y, |v: u64| v < x);
    }
}

proof fn lemma_filter_weaker(s: Seq<u64>, f: spec_fn(u64) -> bool, g: spec_fn(u64) -> bool)
    requires
        forall|x: u64| #[trigger] f(x) ==> g(x),
    ensures
        s.filter(f).len() <= s.filter(g).len(),
    decreases s.len(),
{
    reveal(Seq::filter);
    if s.len() > 0 {
        lemma_filter_weaker(s.drop_last(), f, g);
    }
}

// ---------------------------------------------------------------------------
// The metrics of a run.
// ---------------------------------------------------------------------------

/// The wire counters and the latency samples of a run, phase by phase.
#[verifier::ext_equal]
pub struct RunModel {
    pub wire: WireSnapshot,
    pub phases: Map<Seq<char>, Seq<u64>>,
}

#[derive(Debug)]
pub struct RunMetricsSnapshot {
    pub wire: WireSnapshot,
    pub phase_samples_us: OrdMap<String, Vec<u64>>,
}

impl View for RunMetricsSnapshot {
    type V = RunModel;

    open spec fn view(&self) -> RunModel {
        RunModel { wire: self.wire, phases: self.phase_samples_us@ }
    }
}

#[derive(Debug)]
pub struct RunMetrics {
    wire: WireCounters,
    phase_samples_us: OrdMap<String, Vec<u64>>,
}

impl View for RunMetrics {
    type V = RunModel;

    closed spec fn view(&self) -> RunModel {
        RunModel { wire: self.wire@, phases: self.phase_samples_us@ }
    }
}

/// The samples of a phase.
pub open spec fn samples_of(phases: Map<Seq<char>, Seq<u64>>, phase: Seq<char>) -> Seq<u64> {
    if phases.contains_key(phase) {
        phases[phase]
    } else {
        Seq::empty()
    }
}

/// The samples with more samples of a phase put behind those that it has.
pub open spec fn with_samples(
    phases: Map<Seq<char>, Seq<u64>>,
    phase: Seq<char>,
    more: Seq<u64>,
) -> Map<Seq<char>, Seq<u64>> {
    phases.insert(phase, samples_of(phases, phase) + more)
}

/// The samples of two parts of a run: those of the first `n` phases of the second
/// part put behind those of the first part.
pub open spec fn merged_phases(
    a: Map<Seq<char>, Seq<u64>>,
    b: Seq<(Seq<char>, Seq<u64>)>,
    n: int,
) -> Map<Seq<char>, Seq<u64>>
    decreases n,
{
    if n <= 0 || n > b.len() {
        a
    } else {
        with_samples(merged_phases(a, b, n - 1), b[n - 1].0, b[n - 1].1)
    }
}

/// Two parts of a run taken together.
pub open spec fn merged_run(a: RunModel, b: RunModel) -> RunModel {
    RunModel {
        wire: merged_wire(a.wire, b.wire),
        phases: merged_phases(a.phases, ordmap::listed(b.phases), ordmap::listed(b.phases).len() as int),
    }
}

/// Puts samples behind those of a phase.
fn extend_phase(phases: &mut OrdMap<String, Vec<u64>>, phase: &str, more: &Vec<u64>)
    ensures
        final(phases)@ == with_samples(old(phases)@, phase@, more@),
{
    let key: String = text(phase);
    let ghost before = phases@;
    let mut samples: Vec<u64> = match phases.remove(&key) {
        Some(samples) => samples,
        None => Vec::new(),
    };
    let mut i: usize = 0;
    let ghost start = samples@;
    while i < more.len()
        invariant
            i <= more@.len(),
            samples@ == start + more@.subrange(0, i as int),
        decreases more@.len() - i,
    {
        samples.push(more[i]);
        i = i + 1;
        assert(samples@ =~= start + more@.subrange(0, i as int));
    }
    phases.insert(key, samples);
    proof {
        assert(more@.subrange(0, i as int) =~= more@);
        assert(phases@ =~= with_samples(before, phase@, more@));
    }
}

impl Default for RunMetrics {
    fn default() -> (r: Self)
        ensures
            r@ == (RunModel { wire: no_traffic(), phases: Map::empty() }),
    {
        RunMetrics::new()
    }
}

impl RunMetrics {
    pub fn new() -> (r: Self)
        ensures
            r@ == (RunModel { wire: no_traffic(), phases: Map::empty() }),
    {
        RunMetrics { wire: WireCounters::new(), phase_samples_us: OrdMap::new() }
    }

    pub fn record_request(&mut self, bytes_sent: u64, bytes_received: u64)
        ensures
            final(self)@ == (RunModel {
                wire: merged_wire(
                    old(self)@.wire,
                    WireSnapshot { requests: 1, bytes_sent, bytes_received },
                ),
                ..old(self)@
            }),
    {
        self.wire.record_request(bytes_sent, bytes_received);
    }

    pub fn increment_requests(&mut self)
        ensures
            final(self)@ == (RunModel {
                wire: merged_wire(
                    old(self)@.wire,
                    WireSnapshot { requests: 1, bytes_sent: 0, bytes_received: 0 },
                ),
                ..old(self)@
            }),
    {
        self.wire.increment_requests();
    }

    pub fn add_bytes_sent(&mut self, bytes: u64)
        ensures
            final(self)@ == (RunModel {
                wire: merged_wire(
                    old(self)@.wire,
                    WireSnapshot { requests: 0, bytes_sent: bytes, bytes_received: 0 },
                ),
                ..old(self)@
            }),
    {
        self.wire.add_bytes_sent(bytes);
    }

    pub fn add_bytes_received(&mut self, bytes: u64)
        ensures
            final(self)@ == (RunModel {
                wire: merged_wire(
                    old(self)@.wire,
                    WireSnapshot { requests: 0, bytes_sent: 0, bytes_received: bytes },
                ),
                ..old(self)@
            }),
    {
        self.wire.add_bytes_received(bytes);
    }

    pub fn record_latency_us(&mut self, phase: &str, microseconds: u64)
        ensures
            final(self)@ == (RunModel {
                phases: with_samples(old(self)@.phases, phase@, seq![microseconds]),
                ..old(self)@
            }),
    {
        let mut one: Vec<u64> = Vec::new();
        one.push(microseconds);
        assert(one@ =~= seq![microseconds]);
        extend_phase(&mut self.phase_samples_us, phase, &one);
    }

    /// Records a latency that was measured in microseconds; what does not fit is
    /// cut off at the largest number.
    pub fn record_latency(&mut self, phase: &str, elapsed_micros: u128)
        ensures
            final(self)@ == (RunModel {
                phases: with_samples(
                    old(self)@.phases,
                    phase@,
                    seq![saturated(elapsed_micros as nat)],
                ),
                ..old(self)@
            }),
    {
        let microseconds: u64 = if elapsed_micros > u64::MAX as u128 {
            u64::MAX
        } else {
            elapsed_micros as u64
        };
        self.record_latency_us(phase, microseconds);
    }

    pub fn wire_snapshot(&self) -> (r: WireSnapshot)
        ensures
            r == self@.wire,
    {
        self.wire.snapshot()
    }

    pub fn phase_summary(&self, phase: &str) -> (r: Option<LatencySummary>)
        ensures
            r == summary_of(samples_of(self@.phases, phase@)),
    {
        let key: String = text(phase);
        match self.phase_samples_us.get(&key) {
            Some(samples) => summarize_latencies(samples),
            None => None,
        }
    }

    /// The summary of every phase that has samples, in ascending order of the
    /// names.
    pub fn phase_summaries(&self) -> (r: Vec<(String, LatencySummary)>)
        ensures
            shown_summaries(r@) == summaries_of(
                ordmap::listed(self@.phases),
                ordmap::listed(self@.phases).len() as int,
            ),
    {
        summaries(&self.phase_samples_us)
    }

    pub fn snapshot(&self) -> (r: RunMetricsSnapshot)
        ensures
            r@ == self@,
    {
        RunMetricsSnapshot {
            wire: self.wire.snapshot(),
            phase_samples_us: self.phase_samples_us.copy(),
        }
    }

    /// Takes the metrics of another part of the run in.
    pub fn merge(&mut self, other: &RunMetrics)
        ensures
            final(self)@ == merged_run(old(self)@, other@),
    {
        let snapshot: RunMetricsSnapshot = other.snapshot();
        self.merge_snapshot(&snapshot);
    }

    pub fn merge_snapshot(&mut self, snapshot: &RunMetricsSnapshot)
        ensures
            final(self)@ == merged_run(old(self)@, snapshot@),
    {
        self.wire.merge_snapshot(snapshot.wire);
        let count: usize = snapshot.phase_samples_us.len();
        let mut i: usize = 0;
        let ghost before = self.phase_samples_us@;
        let ghost entries = ordmap::listed(snapshot@.phases);
        while i < count
            invariant
                i <= count,
                count == entries.len(),
                entries == ordmap::listed(snapshot.phase_samples_us@),
                self.phase_samples_us@ == merged_phases(before, entries, i as int),
                self.wire@ == merged_wire(old(self)@.wire, snapshot@.wire),
            decreases count - i,
        {
            let phase: String = snapshot.phase_samples_us.key_at(i);
            let samples: &Vec<u64> = snapshot.phase_samples_us.value_at(i);
            extend_phase(&mut self.phase_samples_us, phase.as_str(), samples);
            i = i + 1;
        }
    }
}

/// A list of summaries with the contents of its names.
pub open spec fn shown_summaries(s: Seq<(String, LatencySummary)>) -> Seq<
    (Seq<char>, LatencySummary),
> {
    Seq::new(s.len(), |i: int| (s[i].0@, s[i].1))
}

/// The summaries of the first `n` phases, of those that have samples.
pub open spec fn summaries_of(entries: Seq<(Seq<char>, Seq<u64>)>, n: int) -> Seq<
    (Seq<char>, LatencySummary),
>
    decreases n,
{
    if n <= 0 || n > entries.len() {
        Seq::empty()
    } else {
        match summary_of(entries[n - 1].1) {
            Some(summary) => summaries_of(entries, n - 1).push((entries[n - 1].0, summary)),
            None => summaries_of(entries, n - 1),
        }
    }
}

fn summaries(phases: &OrdMap<String, Vec<u64>>) -> (r: Vec<(String, LatencySummary)>)
    ensures
        shown_summaries(r@) == summaries_of(ordmap::listed(phases@), ordmap::listed(phases@).len() as int),
{
    let count: usize = phases.len();
    let mut i: usize = 0;
    let mut result: Vec<(String, LatencySummary)> = Vec::new();
    assert(shown_summaries(result@) =~= Seq::empty());
    while i < count
        invariant
            i <= count,
            count == ordmap::listed(phases@).len(),
            shown_summaries(result@) == summaries_of(ordmap::listed(phases@), i as int),
        decreases count - i,
    {
        let ghost before = result@;
        if let Some(summary) = summarize_latencies(phases.value_at(i)) {
            let name: String = phases.key_at(i);
            result.push((name, summary));
            assert(shown_summaries(result@) =~= shown_summaries(before).push((name@, summary)));
        }
        i = i + 1;
    }
    result
}

// ---------------------------------------------------------------------------
// The report.
// ---------------------------------------------------------------------------

/// A character inside a JSON string.
pub open spec fn escaped_char(c: char) -> Seq<char> {
    if c == '"' {
        seq!['\\', '"']
    } else if c == '\\' {
        seq!['\\', '\\']
    } else if c == '\u{08}' {
        seq!['\\', 'b']
    } else if c == '\u{0c}' {
        seq!['\\', 'f']
    } else if c == '\n' {
        seq!['\\', 'n']
    } else if c == '\r' {
        seq!['\\', 'r']
    } else if c == '\t' {
        seq!['\\', 't']
    } else if c <= '\u{1f}' {
        seq!['\\', 'u', '0', '0', text::digit(c as int / 16), text::digit(c as int % 16)]
    } else {
        seq![c]
    }
}

/// A text inside a JSON string.
pub open spec fn escaped(s: Seq<char>) -> Seq<char>
    decreases s.len(),
{
    if s.len() == 0 {
        Seq::empty()
    } else {
        escaped(s.drop_last()) + escaped_char(s.last())
    }
}

fn push_escaped(out: &mut String, c: char)
    ensures
        final(out)@ == old(out)@ + escaped_char(c),
{
    let ghost before = out@;
    if c == '"' {
        out.push('\\');
        out.push('"');
    } else if c == '\\' {
        out.push('\\');
        out.push('\\');
    } else if c == '\u{08}' {
        out.push('\\');
        out.push('b');
    } else if c == '\u{0c}' {
        out.push('\\');
        out.push('f');
    } else if c == '\n' {
        out.push('\\');
        out.push('n');
    } else if c == '\r' {
        out.push('\\');
        out.push('r');
    } else if c == '\t' {
        out.push('\\');
        out.push('t');
    } else if (c as u32) <= 31 {
        let value: u64 = c as u64;
        out.push('\\');
        out.push('u');
        out.push('0');
        out.push('0');
        out.push(digit_char(value / 16));
        out.push(digit_char(value % 16));
    } else {
        out.push(c);
    }
    assert(out@ =~= before + escaped_char(c));
}

/// The contents of a JSON string, without the quotation marks around it.
pub fn json_escape(input: &str) -> (r: String)
    ensures
        r@ == escaped(input@),
{
    let mut out: String = text("");
    let count: usize = input.unicode_len();
    let mut i: usize = 0;
    proof {
        reveal_strlit("");
        assert(out@ =~= Seq::<char>::empty());
        assert(input@.subrange(0, 0) =~= Seq::<char>::empty());
    }
    while i < count
        invariant
            i <= count,
            count == input@.len(),
            out@ == escaped(input@.subrange(0, i as int)),
        decreases count - i,
    {
        let c: char = input.get_char(i);
        push_escaped(&mut out, c);
        proof {
            let s = input@.subrange(0, i + 1);
            assert(s.drop_last() =~= input@.subrange(0, i as int));
            assert(s.last() == c);
        }
        i = i + 1;
    }
    assert(input@.subrange(0, i as int) =~= input@);
    out
}

/// No character of an escaped text needs escaping as a control character.
pub proof fn law_escaped_is_printable(s: Seq<char>)
    ensures
        forall|i: int| 0 <= i < escaped(s).len() ==> #[trigger] escaped(s)[i] > '\u{1f}',
    decreases s.len(),
{
    if s.len() > 0 {
        law_escaped_is_printable(s.drop_last());
        let tail = escaped_char(s.last());
        assert forall|i: int| 0 <= i < tail.len() implies #[trigger] tail[i] > '\u{1f}' by {
            let c = s.last();
            lemma_digit_is_printable(c as int / 16);
            lemma_digit_is_printable(c as int % 16);
        }
        let head = escaped(s.drop_last());
        assert forall|i: int| 0 <= i < escaped(s).len() implies #[trigger] escaped(s)[i]
            > '\u{1f}' by {
            if i >= head.len() {
                assert(escaped(s)[i] == tail[i - head.len()]);
            }
        }
    }
}

proof fn lemma_digit_is_printable(d: int)
    ensures
        text::digit(d) > '\u{1f}',
{
}

/// A text that is escaped in two parts is escaped.
pub proof fn law_escaping_distributes(a: Seq<char>, b: Seq<char>)
    ensures
        escaped(a + b) == escaped(a) + escaped(b),
    decreases b.len(),
{
    if b.len() == 0 {
        assert(a + b =~= a);
        assert(escaped(a) + escaped(b) =~= escaped(a));
    } else {
        law_escaping_distributes(a, b.drop_last());
        assert((a + b).drop_last() =~= a + b.drop_last());
        assert(escaped(a + b) =~= escaped(a) + escaped(b));
    }
}

/// The value of a hexadecimal digit.
pub open spec fn hex_value(c: char) -> Option<int> {
    if '0' <= c && c <= '9' {
        Some(c as int - '0' as int)
    } else if 'a' <= c && c <= 'f' {
        Some(c as int - 'a' as int + 10)
    } else if 'A' <= c && c <= 'F' {
        Some(c as int - 'A' as int + 10)
    } else {
        None
    }
}

/// The character that four hexadecimal digits stand for, where they stand for one.
pub open spec fn hex_char(a: char, b: char, c: char, d: char) -> Option<char> {
    match (hex_value(a), hex_value(b), hex_value(c), hex_value(d)) {
        (Some(a), Some(b), Some(c), Some(d)) => {
            let code = 4096 * a + 256 * b + 16 * c + d;
            if 0xd800 <= code < 0xe000 {
                None
            } else {
                Some(code as char)
            }
        },
        _ => None,
    }
}

/// The character that a letter behind a backslash stands for.
pub open spec fn short_escape(c: char) -> Option<char> {
    if c == '"' || c == '\\' || c == '/' {
        Some(c)
    } else if c == 'b' {
        Some('\u{08}')
    } else if c == 'f' {
        Some('\u{0c}')
    } else if c == 'n' {
        Some('\n')
    } else if c == 'r' {
        Some('\r')
    } else if c == 't' {
        Some('\t')
    } else {
        None
    }
}

/// The first character of the inside of a JSON string, and how long its form is. There
/// is none where the string would end, or where the form is none of JSON.
pub open spec fn first_char(s: Seq<char>) -> Option<(char, int)> {
    if s.len() == 0 || s[0] == '"' || s[0] <= '\u{1f}' {
        None
    } else if s[0] != '\\' {
        Some((s[0], 1))
    } else if s.len() < 2 {
        None
    } else if s[1] != 'u' {
        match short_escape(s[1]) {
            Some(c) => Some((c, 2)),
            None => None,
        }
    } else if s.len() < 6 {
        None
    } else {
        match hex_char(s[2], s[3], s[4], s[5]) {
            Some(c) => Some((c, 6)),
            None => None,
        }
    }
}

/// The text that the inside of a JSON string stands for, where it stands for one.
pub open spec fn unescaped(s: Seq<char>) -> Option<Seq<char>>
    decreases s.len(),
{
    if s.len() == 0 {
        Some(Seq::empty())
    } else {
        match first_char(s) {
            None => None,
            Some((c, n)) => match unescaped(s.subrange(n, s.len() as int)) {
                None => None,
                Some(rest) => Some(seq![c] + rest),
            },
        }
    }
}

proof fn lemma_first_char(c: char, t: Seq<char>)
    ensures
        first_char(escaped_char(c) + t) == Some((c, escaped_char(c).len() as int)),
{
    let s = escaped_char(c) + t;
    if c <= '\u{1f}' {
        let h = c as int / 16;
        let l = c as int % 16;
        assert(hex_value('0') == Some(0int));
        assert(hex_value(text::digit(h)) == Some(h));
        assert(hex_value(text::digit(l)) == Some(l));
        assert(16 * h + l == c as int);
    }
}

/// Escaping can be undone: the inside of the JSON string of a text stands for that
/// text. So it holds no bare quote and no control character, and no two texts have one
/// escaped form.
pub proof fn law_escaping_can_be_undone(s: Seq<char>)
    ensures
        unescaped(escaped(s)) == Some(s),
    decreases s.len(),
{
    if s.len() > 0 {
        let first = s.subrange(0, 1);
        let rest = s.subrange(1, s.len() as int);
        assert(first + rest =~= s);
        law_escaping_distributes(first, rest);
        assert(first.drop_last() =~= Seq::<char>::empty());
        assert(escaped(first) =~= escaped_char(s[0])) by {
            assert(escaped(first.drop_last()) =~= Seq::<char>::empty());
            assert(first.last() == s[0]);
        }
        let all = escaped(s);
        let n = escaped_char(s[0]).len() as int;
        lemma_first_char(s[0], escaped(rest));
        assert(all.subrange(n, all.len() as int) =~= escaped(rest));
        law_escaping_can_be_undone(rest);
        assert(seq![s[0]] + rest =~= s);
        assert(all.len() > 0);
    }
}

/// Characters that are neither quotes, backslashes nor control characters are kept as
/// they are.
pub proof fn law_plain_text_is_kept(s: Seq<char>)
    requires
        forall|i: int|
            0 <= i < s.len() ==> (#[trigger] s[i]) > '\u{1f}' && s[i] != '"' && s[i] != '\\',
    ensures
        escaped(s) == s,
    decreases s.len(),
{
    if s.len() > 0 {
        assert forall|i: int| 0 <= i < s.drop_last().len() implies (#[trigger] s.drop_last()[i])
            > '\u{1f}' && s.drop_last()[i] != '"' && s.drop_last()[i] != '\\' by {
            assert(s.drop_last()[i] == s[i]);
        }
        law_plain_text_is_kept(s.drop_last());
        assert(s.last() == s[s.len() - 1]);
        assert(escaped(s) =~= s);
    }
}

/// A JSON string.
pub open spec fn quoted(s: Seq<char>) -> Seq<char> {
    seq!['"'] + escaped(s) + seq!['"']
}

/// Texts with a comma between each two.
pub open spec fn joined(parts: Seq<Seq<char>>) -> Seq<char>
    decreases parts.len(),
{
    if parts.len() == 0 {
        Seq::empty()
    } else if parts.len() == 1 {
        parts[0]
    } else {
        joined(parts.drop_last()) + seq![','] + parts.last()
    }
}

/// A named JSON object.
pub open spec fn object_text(name: Seq<char>, parts: Seq<Seq<char>>) -> Seq<char> {
    quoted(name) + ":{"@ + joined(parts) + "}"@
}

/// A list of named values as a map; of two values with one name the later one
/// counts.
pub open spec fn collected<V>(pairs: Seq<(Seq<char>, V)>, n: int) -> Map<Seq<char>, V>
    decreases n,
{
    if n <= 0 || n > pairs.len() {
        Map::empty()
    } else {
        collected(pairs, n - 1).insert(pairs[n - 1].0, pairs[n - 1].1)
    }
}

pub open spec fn named<V: Model>(pairs: Seq<(String, V)>) -> Seq<(Seq<char>, V::M)> {
    Seq::new(pairs.len(), |i: int| (pairs[i].0@, pairs[i].1.model()))
}

pub open spec fn string_parts(m: Map<Seq<char>, Seq<char>>) -> Seq<Seq<char>> {
    Seq::new(
        ordmap::listed(m).len(),
        |i: int| quoted(ordmap::listed(m)[i].0) + seq![':'] + quoted(ordmap::listed(m)[i].1),
    )
}

pub open spec fn bool_parts(m: Map<Seq<char>, bool>) -> Seq<Seq<char>> {
    Seq::new(
        ordmap::listed(m).len(),
        |i: int|
            quoted(ordmap::listed(m)[i].0) + seq![':'] + if ordmap::listed(m)[i].1 {
                "true"@
            } else {
                "false"@
            },
    )
}

pub open spec fn number_parts(m: Map<Seq<char>, Seq<char>>) -> Seq<Seq<char>> {
    Seq::new(ordmap::listed(m).len(), |i: int| quoted(ordmap::listed(m)[i].0) + seq![':'] + ordmap::listed(m)[i].1)
}

/// The latencies of a phase.
pub open spec fn latency_text(name: Seq<char>, l: LatencySummary) -> Seq<char> {
    quoted(name) + ":{\"samples\":"@ + text::dec(l.samples as nat) + ",\"p50\":"@ + text::dec(l.p50_us as nat)
        + ",\"p95\":"@ + text::dec(l.p95_us as nat) + ",\"p99\":"@ + text::dec(l.p99_us as nat) + ",\"max\":"@
        + text::dec(l.max_us as nat) + seq!['}']
}

pub open spec fn latency_parts(s: Seq<(Seq<char>, LatencySummary)>) -> Seq<Seq<char>> {
    Seq::new(s.len(), |i: int| latency_text(s[i].0, s[i].1))
}

/// The report of a run: one line of JSON, the names of each part in ascending
/// order. Numbers that are not whole come with their text.
pub open spec fn report_text(
    run: RunModel,
    metadata: Map<Seq<char>, Seq<char>>,
    gates: Map<Seq<char>, bool>,
    numbers: Map<Seq<char>, Seq<char>>,
) -> Seq<char> {
    seq!['{'] + object_text("metadata"@, string_parts(metadata)) + seq![','] + object_text(
        "gates"@,
        bool_parts(gates),
    ) + seq![','] + object_text("metrics"@, number_parts(numbers))
        + ",\"wire\":{\"requests\":"@ + text::dec(run.wire.requests as nat) + ",\"bytes_sent\":"@ + text::dec(
        run.wire.bytes_sent as nat,
    ) + ",\"bytes_received\":"@ + text::dec(run.wire.bytes_received as nat) + "},\"latency_us\":{"@
        + joined(
        latency_parts(summaries_of(ordmap::listed(run.phases), ordmap::listed(run.phases).len() as int)),
    ) + "}}"@
}

/// Of the values that a report is given under one name, the last one counts; and a
/// name that it is not given does not appear.
pub proof fn law_last_value_counts<V>(pairs: Seq<(Seq<char>, V)>, n: int, name: Seq<char>)
    requires
        0 <= n <= pairs.len(),
    ensures
        collected(pairs, n).dom().finite(),
        collected(pairs, n).contains_key(name) <==> exists|i: int|
            0 <= i < n && (#[trigger] pairs[i]).0 == name,
        forall|i: int|
            0 <= i < n && (#[trigger] pairs[i]).0 == name && (forall|j: int|
                i < j < n ==> (#[trigger] pairs[j]).0 != name) ==> collected(pairs, n)[name]
                == pairs[i].1,
    decreases n,
{
    if n > 0 {
        law_last_value_counts(pairs, n - 1, name);
        if pairs[n - 1].0 != name && collected(pairs, n).contains_key(name) {
            let i = choose|i: int| 0 <= i < n - 1 && (#[trigger] pairs[i]).0 == name;
            assert(0 <= i < n && pairs[i].0 == name);
        }
        if pairs[n - 1].0 == name {
            assert(0 <= n - 1 < n && pairs[n - 1].0 == name);
        }
    }
}

/// The names of a report stand in ascending order, each once.
pub proof fn law_names_are_sorted<V>(m: Map<Seq<char>, V>, i: int, j: int)
    requires
        m.dom().finite(),
        0 <= i < j < ordmap::listed(m).len(),
    ensures
        Ordered::lt(ordmap::listed(m)[i].0, ordmap::listed(m)[j].0),
{
    ordmap::lemma_listed_finite(m);
}

/// The order in which a report is given its values does not matter, as long as no name
/// comes twice.
pub proof fn law_order_of_values<V>(a: Seq<(Seq<char>, V)>, b: Seq<(Seq<char>, V)>)
    requires
        forall|i: int, j: int| 0 <= i < j < a.len() ==> (#[trigger] a[i]).0 != (#[trigger] a[j]).0,
        forall|i: int, j: int| 0 <= i < j < b.len() ==> (#[trigger] b[i]).0 != (#[trigger] b[j]).0,
        forall|e: (Seq<char>, V)| #[trigger] a.contains(e) <==> b.contains(e),
    ensures
        collected(a, a.len() as int) == collected(b, b.len() as int),
{
    let (x, y) = (collected(a, a.len() as int), collected(b, b.len() as int));
    lemma_values_within(a, b);
    lemma_values_within(b, a);
    assert(x =~= y);
}

proof fn lemma_values_within<V>(a: Seq<(Seq<char>, V)>, b: Seq<(Seq<char>, V)>)
    requires
        forall|i: int, j: int| 0 <= i < j < a.len() ==> (#[trigger] a[i]).0 != (#[trigger] a[j]).0,
        forall|i: int, j: int| 0 <= i < j < b.len() ==> (#[trigger] b[i]).0 != (#[trigger] b[j]).0,
        forall|e: (Seq<char>, V)| #[trigger] a.contains(e) <==> b.contains(e),
    ensures
        forall|name: Seq<char>| #[trigger]
            collected(a, a.len() as int).contains_key(name) ==> collected(
                b,
                b.len() as int,
            ).contains_key(name) && collected(b, b.len() as int)[name] == collected(
                a,
                a.len() as int,
            )[name],
{
    assert forall|name: Seq<char>| #[trigger]
        collected(a, a.len() as int).contains_key(name) implies collected(
        b,
        b.len() as int,
    ).contains_key(name) && collected(b, b.len() as int)[name] == collected(
        a,
        a.len() as int,
    )[name] by {
        law_last_value_counts(a, a.len() as int, name);
        law_last_value_counts(b, b.len() as int, name);
        let i = choose|i: int| 0 <= i < a.len() && (#[trigger] a[i]).0 == name;
        assert(a.contains(a[i]));
        let j = choose|j: int| 0 <= j < b.len() && b[j] == a[i];
        assert(b[j].0 == name);
    }
}

pub proof fn lemma_joined(parts: Seq<Seq<char>>, i: int)
    requires
        0 <= i < parts.len(),
    ensures
        joined(parts.subrange(0, i + 1)) == joined(parts.subrange(0, i)) + (if i > 0 {
            seq![',']
        } else {
            Seq::empty()
        }) + parts[i],
{
    let s = parts.subrange(0, i + 1);
    assert(s.drop_last() =~= parts.subrange(0, i));
    assert(s.last() == parts[i]);
    if i == 0 {
        assert(joined(parts.subrange(0, 0)) =~= Seq::<char>::empty());
        assert(joined(s) =~= parts[0]);
        assert(Seq::<char>::empty() + Seq::<char>::empty() + parts[0] =~= parts[0]);
    }
}

fn push_quoted(out: &mut String, value: &str)
    ensures
        final(out)@ == old(out)@ + quoted(value@),
{
    let ghost before = out@;
    out.push('"');
    out.append(json_escape(value).as_str());
    out.push('"');
    assert(out@ =~= before + quoted(value@));
}

fn push_comma(out: &mut String, i: usize)
    ensures
        final(out)@ == old(out)@ + (if i > 0 {
            seq![',']
        } else {
            Seq::empty()
        }),
{
    let ghost before = out@;
    if i > 0 {
        out.push(',');
        assert(out@ =~= before + seq![',']);
    } else {
        assert(out@ =~= before + Seq::<char>::empty());
    }
}

fn collect<V: Model>(pairs: &Vec<(String, V)>) -> (r: OrdMap<String, V>)
    ensures
        r@ == collected(named(pairs@), pairs@.len() as int),
{
    let mut map: OrdMap<String, V> = OrdMap::new();
    let mut i: usize = 0;
    while i < pairs.len()
        invariant
            i <= pairs@.len(),
            map@ == collected(named(pairs@), i as int),
        decreases pairs@.len() - i,
    {
        map.insert(text(pairs[i].0.as_str()), pairs[i].1.duplicate());
        i = i + 1;
    }
    map
}

fn push_string_map(out: &mut String, name: &str, values: &OrdMap<String, String>)
    ensures
        final(out)@ == old(out)@ + object_text(name@, string_parts(values@)),
{
    let ghost before = out@;
    push_quoted(out, name);
    out.append(":{");
    let ghost start = out@;
    let count: usize = values.len();
    let ghost parts = string_parts(values@);
    let mut i: usize = 0;
    assert(out@ =~= start + joined(parts.subrange(0, 0)));
    while i < count
        invariant
            i <= count,
            count == ordmap::listed(values@).len(),
            parts == string_parts(values@),
            out@ == start + joined(parts.subrange(0, i as int)),
        decreases count - i,
    {
        let ghost so_far = out@;
        push_comma(out, i);
        push_quoted(out, values.key_at(i).as_str());
        out.push(':');
        push_quoted(out, values.value_at(i).as_str());
        proof {
            lemma_joined(parts, i as int);
            assert(out@ =~= start + joined(parts.subrange(0, i + 1)));
        }
        i = i + 1;
    }
    out.append("}");
    proof {
        assert(parts.subrange(0, i as int) =~= parts);
        assert(out@ =~= before + object_text(name@, parts));
    }
}

fn push_bool_map(out: &mut String, name: &str, values: &OrdMap<String, bool>)
    ensures
        final(out)@ == old(out)@ + object_text(name@, bool_parts(values@)),
{
    let ghost before = out@;
    push_quoted(out, name);
    out.append(":{");
    let ghost start = out@;
    let count: usize = values.len();
    let ghost parts = bool_parts(values@);
    let mut i: usize = 0;
    assert(out@ =~= start + joined(parts.subrange(0, 0)));
    while i < count
        invariant
            i <= count,
            count == ordmap::listed(values@).len(),
            parts == bool_parts(values@),
            out@ == start + joined(parts.subrange(0, i as int)),
        decreases count - i,
    {
        push_comma(out, i);
        push_quoted(out, values.key_at(i).as_str());
        out.push(':');
        if *values.value_at(i) {
            out.append("true");
        } else {
            out.append("false");
        }
        proof {
            lemma_joined(parts, i as int);
            assert(out@ =~= start + joined(parts.subrange(0, i + 1)));
        }
        i = i + 1;
    }
    out.append("}");
    proof {
        assert(parts.subrange(0, i as int) =~= parts);
        assert(out@ =~= before + object_text(name@, parts));
    }
}

fn push_number_map(out: &mut String, name: &str, values: &OrdMap<String, String>)
    ensures
        final(out)@ == old(out)@ + object_text(name@, number_parts(values@)),
{
    let ghost before = out@;
    push_quoted(out, name);
    out.append(":{");
    let ghost start = out@;
    let count: usize = values.len();
    let ghost parts = number_parts(values@);
    let mut i: usize = 0;
    assert(out@ =~= start + joined(parts.subrange(0, 0)));
    while i < count
        invariant
            i <= count,
            count == ordmap::listed(values@).len(),
            parts == number_parts(values@),
            out@ == start + joined(parts.subrange(0, i as int)),
        decreases count - i,
    {
        push_comma(out, i);
        push_quoted(out, values.key_at(i).as_str());
        out.push(':');
        out.append(values.value_at(i).as_str());
        proof {
            lemma_joined(parts, i as int);
            assert(out@ =~= start + joined(parts.subrange(0, i + 1)));
        }
        i = i + 1;
    }
    out.append("}");
    proof {
        assert(parts.subrange(0, i as int) =~= parts);
        assert(out@ =~= before + object_text(name@, parts));
    }
}

fn push_latency(out: &mut String, name: &str, l: &LatencySummary)
    ensures
        final(out)@ == old(out)@ + latency_text(name@, *l),
{
    let ghost before = out@;
    push_quoted(out, name);
    out.append(":{\"samples\":");
    push_dec(out, l.samples);
    out.append(",\"p50\":");
    push_dec(out, l.p50_us);
    out.append(",\"p95\":");
    push_dec(out, l.p95_us);
    out.append(",\"p99\":");
    push_dec(out, l.p99_us);
    out.append(",\"max\":");
    push_dec(out, l.max_us);
    out.push('}');
    assert(out@ =~= before + latency_text(name@, *l));
}

fn push_latencies(out: &mut String, list: &Vec<(String, LatencySummary)>)
    ensures
        final(out)@ == old(out)@ + joined(latency_parts(shown_summaries(list@))),
{
    let ghost start = out@;
    let ghost parts = latency_parts(shown_summaries(list@));
    let mut i: usize = 0;
    assert(out@ =~= start + joined(parts.subrange(0, 0)));
    while i < list.len()
        invariant
            i <= list@.len(),
            parts == latency_parts(shown_summaries(list@)),
            out@ == start + joined(parts.subrange(0, i as int)),
        decreases list@.len() - i,
    {
        push_comma(out, i);
        push_latency(out, list[i].0.as_str(), &list[i].1);
        proof {
            lemma_joined(parts, i as int);
            assert(out@ =~= start + joined(parts.subrange(0, i + 1)));
        }
        i = i + 1;
    }
    assert(parts.subrange(0, i as int) =~= parts);
}

/// The report of a run. Of two values with one name the later one counts. The
/// numbers that are not whole come with their text.
pub fn json_report(
    run: &RunMetrics,
    metadata: &Vec<(String, String)>,
    gates: &Vec<(String, bool)>,
    numbers: &Vec<(String, String)>,
) -> (r: String)
    ensures
        r@ == report_text(
            run@,
            collected(named(metadata@), metadata@.len() as int),
            collected(named(gates@), gates@.len() as int),
            collected(named(numbers@), numbers@.len() as int),
        ),
{
    let metadata: OrdMap<String, String> = collect(metadata);
    let gates: OrdMap<String, bool> = collect(gates);
    let numbers: OrdMap<String, String> = collect(numbers);
    let mut out: String = text("");
    proof {
        reveal_strlit("");
    }
    out.push('{');
    push_string_map(&mut out, "metadata", &metadata);
    out.push(',');
    push_bool_map(&mut out, "gates", &gates);
    out.push(',');
    push_number_map(&mut out, "metrics", &numbers);
    out.append(",\"wire\":{\"requests\":");
    push_dec(&mut out, run.wire_snapshot().requests);
    out.append(",\"bytes_sent\":");
    push_dec(&mut out, run.wire_snapshot().bytes_sent);
    out.append(",\"bytes_received\":");
    push_dec(&mut out, run.wire_snapshot().bytes_received);
    out.append("},\"latency_us\":{");
    let list: Vec<(String, LatencySummary)> = run.phase_summaries();
    push_latencies(&mut out, &list);
    out.append("}}");
    assert(out@ =~= report_text(run@, metadata@, gates@, numbers@));
    out
}

// ---------------------------------------------------------------------------
// What runs add up to.
// ---------------------------------------------------------------------------

/// Counters add up: taken together, two parts of a run have the sum of each counter, as
/// far as the largest number goes.
pub proof fn law_counters_add_up(a: WireSnapshot, b: WireSnapshot)
    ensures
        a.requests + b.requests <= u64::MAX ==> merged_wire(a, b).requests == a.requests
            + b.requests,
        a.bytes_sent + b.bytes_sent <= u64::MAX ==> merged_wire(a, b).bytes_sent == a.bytes_sent
            + b.bytes_sent,
        a.bytes_received + b.bytes_received <= u64::MAX ==> merged_wire(a, b).bytes_received
            == a.bytes_received + b.bytes_received,
        a.requests + b.requests > u64::MAX ==> merged_wire(a, b).requests == u64::MAX,
        a.bytes_sent + b.bytes_sent > u64::MAX ==> merged_wire(a, b).bytes_sent == u64::MAX,
        a.bytes_received + b.bytes_received > u64::MAX ==> merged_wire(a, b).bytes_received
            == u64::MAX,
{
}

/// A sample goes to its phase, behind the samples that are there, and to no other phase.
pub proof fn law_sample_goes_to_its_phase(
    phases: Map<Seq<char>, Seq<u64>>,
    phase: Seq<char>,
    more: Seq<u64>,
    other: Seq<char>,
)
    ensures
        samples_of(with_samples(phases, phase, more), phase) == samples_of(phases, phase) + more,
        other != phase ==> samples_of(with_samples(phases, phase, more), other) == samples_of(
            phases,
            other,
        ),
{
}

proof fn lemma_merged_phases(
    a: Map<Seq<char>, Seq<u64>>,
    b: Seq<(Seq<char>, Seq<u64>)>,
    n: int,
    phase: Seq<char>,
)
    requires
        0 <= n <= b.len(),
        ordmap::ascending(b),
    ensures
        samples_of(merged_phases(a, b, n), phase) == samples_of(a, phase) + (if ordmap::has_entry(
            b.take(n),
            phase,
        ) {
            b[ordmap::entry_index(b.take(n), phase)].1
        } else {
            Seq::empty()
        }),
    decreases n,
{
    if n > 0 {
        lemma_merged_phases(a, b, n - 1, phase);
        let (before, now) = (b.take(n - 1), b.take(n));
        assert(now[n - 1] == b[n - 1]);
        assert forall|i: int| 0 <= i < n - 1 implies before[i] == #[trigger] now[i] by {}
        if b[n - 1].0 == phase {
            assert(!ordmap::has_entry(before, phase)) by {
                if ordmap::has_entry(before, phase) {
                    let i = ordmap::entry_index(before, phase);
                    assert(Ordered::lt(b[i].0, b[n - 1].0));
                    Ordered::lt_irreflexive(phase);
                }
            }
            assert(ordmap::has_entry(now, phase));
            let i = ordmap::entry_index(now, phase);
            if i < n - 1 {
                assert(before[i].0 == phase);
            }
            assert(samples_of(a, phase) + Seq::<u64>::empty() =~= samples_of(a, phase));
        } else {
            if ordmap::has_entry(now, phase) {
                let i = ordmap::entry_index(now, phase);
                assert(before[i].0 == phase);
                assert(ordmap::has_entry(before, phase));
                let j = ordmap::entry_index(before, phase);
                assert(now[j].0 == phase);
                if i < j {
                    assert(Ordered::lt(b[i].0, b[j].0));
                    Ordered::lt_irreflexive(phase);
                } else if j < i {
                    assert(Ordered::lt(b[j].0, b[i].0));
                    Ordered::lt_irreflexive(phase);
                }
            } else if ordmap::has_entry(before, phase) {
                let j = ordmap::entry_index(before, phase);
                assert(now[j].0 == phase);
            }
        }
    } else {
        assert(samples_of(a, phase) + Seq::<u64>::empty() =~= samples_of(a, phase));
    }
}

/// Two parts of a run, taken together, have in every phase the samples of the first part
/// and then those of the second.
pub proof fn law_merged_samples(a: RunModel, b: RunModel, phase: Seq<char>)
    requires
        b.phases.dom().finite(),
    ensures
        samples_of(merged_run(a, b).phases, phase) == samples_of(a.phases, phase) + samples_of(
            b.phases,
            phase,
        ),
        merged_run(a, b).wire == merged_wire(a.wire, b.wire),
{
    let l = ordmap::listed(b.phases);
    ordmap::lemma_listed_finite(b.phases);
    lemma_merged_phases(a.phases, l, l.len() as int, phase);
    assert(l.take(l.len() as int) =~= l);
    if ordmap::has_entry(l, phase) {
        ordmap::lemma_ascending_index(l, ordmap::entry_index(l, phase));
    }
    assert(b.phases.contains_key(phase) <==> ordmap::map_of(l).contains_key(phase));
}

/// The report names every phase that has samples, each once and in order, with the summary
/// of its samples.
pub proof fn law_summaries_name_every_phase(phases: Map<Seq<char>, Seq<u64>>, phase: Seq<char>)
    requires
        phases.dom().finite(),
    ensures
        ({
            let l = ordmap::listed(phases);
            let list = summaries_of(l, l.len() as int);
            &&& samples_of(phases, phase).len() > 0 <==> exists|i: int|
                0 <= i < list.len() && (#[trigger] list[i]).0 == phase
            &&& forall|i: int|
                0 <= i < list.len() && (#[trigger] list[i]).0 == phase ==> Some(list[i].1)
                    == summary_of(samples_of(phases, phase))
        }),
{
    let l = ordmap::listed(phases);
    ordmap::lemma_listed_finite(phases);
    lemma_summaries(l, l.len() as int, phase);
    if ordmap::has_entry(l, phase) {
        ordmap::lemma_ascending_index(l, ordmap::entry_index(l, phase));
    }
    assert(phases.contains_key(phase) <==> ordmap::map_of(l).contains_key(phase));
    let list = summaries_of(l, l.len() as int);
    assert forall|i: int| 0 <= i < list.len() && (#[trigger] list[i]).0 == phase implies Some(
        list[i].1,
    ) == summary_of(samples_of(phases, phase)) by {
        let k = choose|k: int| 0 <= k < l.len() && (#[trigger] l[k]).0 == phase && summary_of(
            l[k].1,
        ) == Some(list[i].1);
        ordmap::lemma_ascending_index(l, k);
    }
    if samples_of(phases, phase).len() > 0 {
        let k = ordmap::entry_index(l, phase);
        assert(l[k].0 == phase && l[k].1.len() > 0);
    }
    if exists|i: int| 0 <= i < list.len() && (#[trigger] list[i]).0 == phase {
        let i = choose|i: int| 0 <= i < list.len() && (#[trigger] list[i]).0 == phase;
        let k = choose|k: int| 0 <= k < l.len() && (#[trigger] l[k]).0 == phase && summary_of(
            l[k].1,
        ) == Some(list[i].1);
        ordmap::lemma_ascending_index(l, k);
    }
}

proof fn lemma_summaries(l: Seq<(Seq<char>, Seq<u64>)>, n: int, phase: Seq<char>)
    requires
        0 <= n <= l.len(),
    ensures
        forall|i: int|
            0 <= i < summaries_of(l, n).len() && (#[trigger] summaries_of(l, n)[i]).0 == phase
                ==> exists|k: int|
                0 <= k < n && (#[trigger] l[k]).0 == phase && summary_of(l[k].1) == Some(
                    summaries_of(l, n)[i].1,
                ),
        forall|k: int|
            0 <= k < n && (#[trigger] l[k]).0 == phase && l[k].1.len() > 0 ==> exists|i: int|
                0 <= i < summaries_of(l, n).len() && (#[trigger] summaries_of(l, n)[i]).0 == phase,
    decreases n,
{
    if n > 0 {
        lemma_summaries(l, n - 1, phase);
        let (before, now) = (summaries_of(l, n - 1), summaries_of(l, n));
        assert forall|i: int|
            0 <= i < now.len() && (#[trigger] now[i]).0 == phase implies exists|k: int|
            0 <= k < n && (#[trigger] l[k]).0 == phase && summary_of(l[k].1) == Some(now[i].1) by {
            if i < before.len() {
                assert(before[i] == now[i]);
            } else {
                assert(l[n - 1].0 == phase);
            }
        }
        assert forall|k: int|
            0 <= k < n && (#[trigger] l[k]).0 == phase && l[k].1.len() > 0 implies exists|i: int|
            0 <= i < now.len() && (#[trigger] now[i]).0 == phase by {
            if k < n - 1 {
                let i = choose|i: int| 0 <= i < before.len() && (#[trigger] before[i]).0 == phase;
                assert(now[i] == before[i]);
            } else {
                assert(now[before.len() as int].0 == phase);
            }
        }
    }
}

/// A latency is kept as it was measured, as far as it can be, and a longer one never as a
/// shorter one.
pub proof fn law_latency_is_kept(x: nat, y: nat)
    ensures
        x <= 0xffff_ffff_ffff_ffff ==> saturated(x) == x,
        x <= y ==> saturated(x) <= saturated(y) <= y,
{
}

} // verus!
