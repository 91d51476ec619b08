//! Receivers that many cells go to: one account that all share, or outputs of
//! their own.
use crate::engine;
use crate::engine::{find_flag_value, mix64, split_commas, Cell};
use crate::node;
use crate::perf002;
use crate::perf002::{advance_shard, ShardPass, ShardPlan};
use crate::text;
use crate::text::{chars_of, trim};
use vstd::prelude::*;

verus! {

pub const HOT_TAG: u64 = 0xC411_BAE5_0000_0001;

/// How a receiver takes cells.
#[derive(Clone, Copy, Debug, PartialEq, Eq, Structural)]
pub enum Mode {
    SharedAccount,
    IndependentReceive,
}

impl Mode {
    pub fn name(self) -> (r: &'static str)
        ensures
            r@ == mode_name(self),
    {
        match self {
            Mode::SharedAccount => "ACCOUNT",
            Mode::IndependentReceive => "OUTPUT",
        }
    }
}

pub open spec fn mode_name(mode: Mode) -> Seq<char> {
    match mode {
        Mode::SharedAccount => "ACCOUNT"@,
        Mode::IndependentReceive => "OUTPUT"@,
    }
}

/// An account that many cells go to.
#[derive(Clone, Copy, Debug, PartialEq, Eq, Structural)]
pub struct HotAccount {
    pub generation: u64,
    pub received: u64,
}

impl HotAccount {
    pub fn new() -> (r: Self)
        ensures
            r == (HotAccount { generation: 0, received: 0 }),
    {
        HotAccount { generation: 0, received: 0 }
    }

    /// Takes so many cells, one after the other.
    pub fn receive(&mut self, count: u64)
        ensures
            *final(self) == (HotAccount {
                generation: old(self).generation.wrapping_add(count),
                received: old(self).received.wrapping_add(count),
            }),
    {
        self.generation = self.generation.wrapping_add(count);
        self.received = self.received.wrapping_add(count);
    }
}

/// A cell goes to the common receiver.
pub open spec fn hot(serial: u64, hot_pct: u32) -> bool {
    hot_pct != 0 && engine::mixed(serial ^ 0x9e37_79b9_7f4a_7c15) % 100 < hot_pct
}

pub fn is_hot(serial: u64, hot_pct: u32) -> (r: bool)
    ensures
        r == hot(serial, hot_pct),
{
    if hot_pct == 0 {
        return false;
    }
    mix64(serial ^ 0x9e37_79b9_7f4a_7c15) % 100 < hot_pct as u64
}

/// The share decides who is hot: every serial number has one draw, a number below a
/// hundred that no share has a part in, and is hot exactly if its draw is below the
/// share. So no share is hot to nobody, all of it to everybody, and a larger share to
/// whoever was hot before. The draws are the remainders of numbers that are different for
/// different serial numbers, so that over all of them each draw comes up equally often.
pub proof fn law_share_decides_who_is_hot() -> (number: spec_fn(u64) -> u64)
    ensures
        forall|a: u64, b: u64| #[trigger] number(a) == #[trigger] number(b) ==> a == b,
        forall|serial: u64, hot_pct: u32| #[trigger]
            hot(serial, hot_pct) <==> number(serial) % 100 < hot_pct,
        forall|serial: u64| !#[trigger] hot(serial, 0),
        forall|serial: u64, hot_pct: u32|
            hot_pct >= 100 ==> #[trigger] hot(serial, hot_pct),
        forall|serial: u64, less: u32, more: u32|
            less <= more && #[trigger] hot(serial, less) ==> #[trigger] hot(serial, more),
{
    let number = |serial: u64| engine::mixed(serial ^ 0x9e37_79b9_7f4a_7c15);
    assert forall|a: u64, b: u64| #[trigger] number(a) == #[trigger] number(b) implies a == b by {
        engine::law_mixing_is_one_to_one(a ^ 0x9e37_79b9_7f4a_7c15, b ^ 0x9e37_79b9_7f4a_7c15);
        assert(a == b) by (bit_vector)
            requires
                a ^ 0x9e37_79b9_7f4a_7c15 == b ^ 0x9e37_79b9_7f4a_7c15,
        ;
    }
    number
}

/// The tag of a cell's receiver.
pub open spec fn recipient_tag(serial: u64, hot_pct: u32) -> u64 {
    if hot(serial, hot_pct) {
        HOT_TAG
    } else {
        engine::mixed(serial ^ 0xA11C_E001)
    }
}

/// What a cell adds to the checksum.
pub open spec fn hot_share(mode: Mode, cell: Cell, serial: u64, hot_pct: u32) -> u64 {
    let own = engine::mixed(cell.id ^ cell.generation ^ cell.value ^ recipient_tag(serial, hot_pct));
    if hot(serial, hot_pct) && mode == Mode::IndependentReceive {
        own ^ engine::mixed(serial ^ HOT_TAG ^ 0x0B1E_C700)
    } else {
        own
    }
}

/// What a pass over a shard gives: the checksum, the cells processed, and those
/// that went to the common receiver.
#[derive(Clone, Copy, Debug, PartialEq, Eq, Structural)]
pub struct HotPass {
    pub checksum: u64,
    pub processed: u64,
    pub hot_ops: u64,
}

/// What the first `n` cells of a shard give.
pub open spec fn hot_totals(mode: Mode, p: ShardPlan, hot_pct: u32, n: int) -> HotPass
    decreases n,
{
    if n <= 0 {
        HotPass { checksum: 0, processed: 0, hot_ops: 0 }
    } else {
        let before = hot_totals(mode, p, hot_pct, n - 1);
        let serial = perf002::run_serial(p, n - 1) as u64;
        HotPass {
            checksum: before.checksum ^ hot_share(mode, perf002::next_cell(p, n - 1), serial, hot_pct),
            processed: n as u64,
            hot_ops: if hot(serial, hot_pct) {
                (before.hot_ops + 1) as u64
            } else {
                before.hot_ops
            },
        }
    }
}

proof fn lemma_hot_totals(mode: Mode, p: ShardPlan, hot_pct: u32, n: int)
    requires
        0 <= n <= u64::MAX,
    ensures
        hot_totals(mode, p, hot_pct, n).hot_ops <= n,
        hot_totals(mode, p, hot_pct, n).processed == n,
    decreases n,
{
    if n > 0 {
        lemma_hot_totals(mode, p, hot_pct, n - 1);
    }
}

/// Replaces every cell of a shard and accounts for the common receiver.
pub fn hot_shard(mode: Mode, p: &ShardPlan, hot_pct: u32) -> (r: Result<HotPass, String>)
    requires
        perf002::plan_ok(*p),
        p.global,
    ensures
        match perf002::replaced(*p, perf002::plan_size(*p)) {
            None => r is Err && r->Err_0@ == "unexpected successor collision"@,
            Some(_) => r == Ok::<HotPass, String>(hot_totals(mode, *p, hot_pct, perf002::plan_size(*p))),
        },
{
    let pass: ShardPass = advance_shard(p)?;
    let count: usize = pass.next.len();
    let mut totals: HotPass = HotPass { checksum: 0, processed: 0, hot_ops: 0 };
    let mut serial: u64 = p.shard as u64;
    let mut j: usize = 0;
    proof {
        perf002::lemma_serials_fit(*p);
        assert(0 * p.shards == 0) by (nonlinear_arith);
    }
    while j < count
        invariant
            perf002::plan_ok(*p),
            j <= count,
            count == perf002::plan_size(*p),
            pass.next@ == perf002::successors(*p, perf002::plan_size(*p) as nat),
            j < count ==> serial == perf002::run_serial(*p, j as int),
            forall|i: int|
                0 <= i < perf002::plan_size(*p) ==> 0 <= #[trigger] perf002::run_serial(*p, i) < p.total,
            totals == hot_totals(mode, *p, hot_pct, j as int),
        decreases count - j,
    {
        proof {
            lemma_hot_totals(mode, *p, hot_pct, j as int);
        }
        let next: Cell = pass.next[j];
        let is_common: bool = is_hot(serial, hot_pct);
        let tag: u64 = if is_common {
            HOT_TAG
        } else {
            mix64(serial ^ 0xA11C_E001)
        };
        let mut share: u64 = mix64(next.id ^ next.generation ^ next.value ^ tag);
        if is_common && mode == Mode::IndependentReceive {
            share = share ^ mix64(serial ^ HOT_TAG ^ 0x0B1E_C700);
        }
        totals = HotPass {
            checksum: totals.checksum ^ share,
            processed: totals.processed + 1,
            hot_ops: if is_common {
                totals.hot_ops + 1
            } else {
                totals.hot_ops
            },
        };
        j = j + 1;
        proof {
            if j < count {
                assert(perf002::run_serial(*p, j as int) == perf002::run_serial(*p, j - 1) + p.shards)
                    by (nonlinear_arith)
                    requires
                        perf002::run_serial(*p, j as int) == p.shard + j * p.shards,
                        perf002::run_serial(*p, j - 1) == p.shard + (j - 1) * p.shards,
                ;
            }
        }
        if j < count {
            serial = serial + p.shards as u64;
        }
    }
    Ok(totals)
}

/// The plan of a shard.
pub open spec fn hot_plan(total: u64, shards: usize, bits: u32, shard: int) -> ShardPlan {
    ShardPlan { total, shards, bits, shard: shard as usize, global: true }
}

/// What the first `n` shards give, unless an identifier came up that was taken.
pub open spec fn hot_run(
    mode: Mode,
    total: u64,
    shards: usize,
    bits: u32,
    hot_pct: u32,
    n: int,
) -> Option<HotPass>
    decreases n,
{
    if n <= 0 {
        Some(HotPass { checksum: 0, processed: 0, hot_ops: 0 })
    } else {
        let p = hot_plan(total, shards, bits, n - 1);
        match hot_run(mode, total, shards, bits, hot_pct, n - 1) {
            None => None,
            Some(before) => match perf002::replaced(p, perf002::plan_size(p)) {
                None => None,
                Some(_) => {
                    let own = hot_totals(mode, p, hot_pct, perf002::plan_size(p));
                    Some(
                        HotPass {
                            checksum: before.checksum ^ own.checksum,
                            processed: (before.processed + own.processed) as u64,
                            hot_ops: (before.hot_ops + own.hot_ops) as u64,
                        },
                    )
                },
            },
        }
    }
}

proof fn lemma_hot_run(
    mode: Mode,
    total: u64,
    shards: usize,
    bits: u32,
    hot_pct: u32,
    n: int,
)
    requires
        shards > 0,
        0 <= n <= shards,
        hot_run(mode, total, shards, bits, hot_pct, n) is Some,
    ensures
        hot_run(mode, total, shards, bits, hot_pct, n)->Some_0.processed == engine::dealt_sum(
            total as int,
            shards as int,
            n,
        ),
        hot_run(mode, total, shards, bits, hot_pct, n)->Some_0.hot_ops <= engine::dealt_sum(
            total as int,
            shards as int,
            n,
        ) <= total,
    decreases n,
{
    perf002::lemma_dealt_grows(total as int, shards as int, n, shards as int);
    engine::law_streams_cover_all(total as int, shards as int);
    if n > 0 {
        perf002::lemma_dealt_grows(total as int, shards as int, n - 1, n);
        perf002::lemma_dealt_grows(total as int, shards as int, 0, n - 1);
        lemma_hot_run(mode, total, shards, bits, hot_pct, n - 1);
        let p = hot_plan(total, shards, bits, n - 1);
        lemma_hot_totals(mode, p, hot_pct, perf002::plan_size(p));
    }
}

proof fn lemma_hot_run_fails(
    mode: Mode,
    total: u64,
    shards: usize,
    bits: u32,
    hot_pct: u32,
    n: int,
    m: int,
)
    requires
        0 <= n <= m,
        hot_run(mode, total, shards, bits, hot_pct, n) is None,
    ensures
        hot_run(mode, total, shards, bits, hot_pct, m) is None,
    decreases m,
{
    if n < m {
        lemma_hot_run_fails(mode, total, shards, bits, hot_pct, n, m - 1);
    }
}

/// The hot serial numbers of a run in its first `n` shards.
spec fn hot_serials(total: u64, shards: usize, hot_pct: u32, n: int) -> Set<int> {
    Set::new(|s: int| 0 <= s < total && s % (shards as int) < n && hot(s as u64, hot_pct))
}

/// The hot serial numbers among the first `n` of a shard.
spec fn hot_members(p: ShardPlan, hot_pct: u32, n: int) -> Set<int> {
    Set::new(
        |s: int|
            exists|j: int|
                0 <= j < n && s == #[trigger] perf002::run_serial(p, j) && hot(s as u64, hot_pct),
    )
}

proof fn lemma_hot_members(mode: Mode, p: ShardPlan, hot_pct: u32, n: int)
    requires
        p.shards > 0,
        p.shard < p.shards,
        0 <= n <= perf002::plan_size(p),
    ensures
        hot_members(p, hot_pct, n).finite(),
        hot_members(p, hot_pct, n).len() == hot_totals(mode, p, hot_pct, n).hot_ops,
    decreases n,
{
    perf002::lemma_serials_fit(p);
    if n <= 0 {
        assert(hot_members(p, hot_pct, n) =~= Set::<int>::empty());
    } else {
        lemma_hot_members(mode, p, hot_pct, n - 1);
        assert(n <= u64::MAX) by {
            assert(0 <= perf002::run_serial(p, n - 1) < p.total);
            assert(n - 1 <= perf002::run_serial(p, n - 1)) by (nonlinear_arith)
                requires
                    perf002::run_serial(p, n - 1) == p.shard + (n - 1) * p.shards,
                    p.shards > 0,
                    n > 0,
            ;
        }
        lemma_hot_totals(mode, p, hot_pct, n - 1);
        let before = hot_members(p, hot_pct, n - 1);
        let x = perf002::run_serial(p, n - 1);
        assert(!before.contains(x)) by {
            if before.contains(x) {
                let j = choose|j: int|
                    0 <= j < n - 1 && x == #[trigger] perf002::run_serial(p, j) && hot(
                        x as u64,
                        hot_pct,
                    );
                assert(j == n - 1) by (nonlinear_arith)
                    requires
                        p.shard + j * p.shards == p.shard + (n - 1) * p.shards,
                        p.shards > 0,
                ;
            }
        }
        let after = hot_members(p, hot_pct, n);
        assert forall|s: int| after.contains(s) <==> before.contains(s) || s == x && hot(
            x as u64,
            hot_pct,
        ) by {
            if after.contains(s) {
                let j = choose|j: int|
                    0 <= j < n && s == #[trigger] perf002::run_serial(p, j) && hot(
                        s as u64,
                        hot_pct,
                    );
                if j < n - 1 {
                    assert(before.contains(s));
                }
            }
        }
        if hot(x as u64, hot_pct) {
            assert(after =~= before.insert(x));
        } else {
            assert(after =~= before);
        }
    }
}

/// The serial numbers of a shard are those below the total with its remainder.
proof fn lemma_members_are_the_remainders(p: ShardPlan, hot_pct: u32)
    requires
        p.shards > 0,
        p.shard < p.shards,
    ensures
        hot_members(p, hot_pct, perf002::plan_size(p)) == Set::new(
            |s: int|
                0 <= s < p.total && s % (p.shards as int) == p.shard && hot(s as u64, hot_pct),
        ),
{
    let all = hot_members(p, hot_pct, perf002::plan_size(p));
    let (t, k, r) = (p.total as int, p.shards as int, p.shard as int);
    perf002::lemma_serials_fit(p);
    vstd::arithmetic::div_mod::lemma_fundamental_div_mod(t, k);
    assert forall|s: int| all.contains(s) <==> 0 <= s < t && s % k == r && hot(
        s as u64,
        hot_pct,
    ) by {
        if all.contains(s) {
            let j = choose|j: int|
                0 <= j < perf002::plan_size(p) && s == #[trigger] perf002::run_serial(p, j) && hot(
                    s as u64,
                    hot_pct,
                );
            assert(s == k * j + r) by (nonlinear_arith)
                requires
                    s == r + j * k,
            ;
            vstd::arithmetic::div_mod::lemma_fundamental_div_mod_converse(s, k, j, r);
        }
        if 0 <= s < t && s % k == r && hot(s as u64, hot_pct) {
            let j = s / k;
            vstd::arithmetic::div_mod::lemma_fundamental_div_mod(s, k);
            assert(s == r + j * k) by (nonlinear_arith)
                requires
                    s == k * j + r,
            ;
            assert(j >= 0) by (nonlinear_arith)
                requires
                    s == r + j * k,
                    0 <= s,
                    r < k,
                    0 < k,
            ;
            let (q, m) = (t / k, t % k);
            if j >= perf002::plan_size(p) {
                if r < m {
                    assert(s >= t) by (nonlinear_arith)
                        requires
                            s == r + j * k,
                            j >= q + 1,
                            t == k * q + m,
                            m < k,
                            0 <= r,
                            0 < k,
                    ;
                } else {
                    assert(s >= t) by (nonlinear_arith)
                        requires
                            s == r + j * k,
                            j >= q,
                            t == k * q + m,
                            m <= r,
                            0 < k,
                    ;
                }
            }
            assert(s == perf002::run_serial(p, j));
        }
    }
    assert(all =~= Set::new(
        |s: int| 0 <= s < p.total && s % (p.shards as int) == p.shard && hot(s as u64, hot_pct),
    ));
}

proof fn lemma_hot_serials(
    mode: Mode,
    total: u64,
    shards: usize,
    bits: u32,
    hot_pct: u32,
    n: int,
)
    requires
        shards > 0,
        0 <= n <= shards,
        hot_run(mode, total, shards, bits, hot_pct, n) is Some,
    ensures
        hot_serials(total, shards, hot_pct, n).finite(),
        hot_serials(total, shards, hot_pct, n).len() == hot_run(
            mode,
            total,
            shards,
            bits,
            hot_pct,
            n,
        )->Some_0.hot_ops,
    decreases n,
{
    if n <= 0 {
        assert(hot_serials(total, shards, hot_pct, n) =~= Set::<int>::empty()) by {
            assert forall|s: int| 0 <= s implies #[trigger] (s % (shards as int)) >= 0 by {
                vstd::arithmetic::div_mod::lemma_mod_bound(s, shards as int);
            }
        }
    } else {
        let p = hot_plan(total, shards, bits, n - 1);
        lemma_hot_serials(mode, total, shards, bits, hot_pct, n - 1);
        lemma_hot_run(mode, total, shards, bits, hot_pct, n - 1);
        lemma_hot_run(mode, total, shards, bits, hot_pct, n);
        perf002::lemma_dealt_grows(total as int, shards as int, n, shards as int);
        engine::law_streams_cover_all(total as int, shards as int);
        lemma_hot_members(mode, p, hot_pct, perf002::plan_size(p));
        lemma_members_are_the_remainders(p, hot_pct);
        lemma_hot_totals(mode, p, hot_pct, perf002::plan_size(p));
        let before = hot_serials(total, shards, hot_pct, n - 1);
        let own = hot_members(p, hot_pct, perf002::plan_size(p));
        assert(hot_serials(total, shards, hot_pct, n) =~= before.union(own));
        assert(before.disjoint(own));
        vstd::set_lib::lemma_set_disjoint_lens(before, own);
    }
}

/// A run counts who is hot: as many cells go to the common receiver as there are hot
/// serial numbers below the total, whatever the mode and the number of shards.
pub proof fn law_run_counts_the_hot(
    mode: Mode,
    total: u64,
    shards: usize,
    bits: u32,
    hot_pct: u32,
)
    requires
        shards > 0,
        hot_run(mode, total, shards, bits, hot_pct, shards as int) is Some,
    ensures
        ({
            let totals = hot_run(mode, total, shards, bits, hot_pct, shards as int)->Some_0;
            let hot_ones = Set::new(|s: int| 0 <= s < total && hot(s as u64, hot_pct));
            &&& hot_ones.finite()
            &&& totals.hot_ops == hot_ones.len()
            &&& totals.processed == total
            &&& hot_pct >= 100 ==> totals.hot_ops == total
            &&& hot_pct == 0 ==> totals.hot_ops == 0
        }),
{
    let hot_ones = Set::new(|s: int| 0 <= s < total && hot(s as u64, hot_pct));
    let _ = law_share_decides_who_is_hot();
    lemma_hot_serials(mode, total, shards, bits, hot_pct, shards as int);
    lemma_hot_run(mode, total, shards, bits, hot_pct, shards as int);
    engine::law_streams_cover_all(total as int, shards as int);
    assert(hot_serials(total, shards, hot_pct, shards as int) =~= hot_ones) by {
        assert forall|s: int| 0 <= s implies #[trigger] (s % (shards as int)) < shards by {
            vstd::arithmetic::div_mod::lemma_mod_bound(s, shards as int);
        }
    }
    if hot_pct >= 100 {
        assert(hot_ones =~= vstd::set_lib::set_int_range(0, total as int));
        vstd::set_lib::lemma_int_range(0, total as int);
    }
    if hot_pct == 0 {
        assert(hot_ones =~= Set::<int>::empty());
    }
}

/// A larger share sends no fewer cells to the common receiver.
pub proof fn law_larger_share_is_hotter(
    mode: Mode,
    total: u64,
    shards: usize,
    bits: u32,
    less: u32,
    more: u32,
)
    requires
        shards > 0,
        less <= more,
        hot_run(mode, total, shards, bits, less, shards as int) is Some,
        hot_run(mode, total, shards, bits, more, shards as int) is Some,
    ensures
        hot_run(mode, total, shards, bits, less, shards as int)->Some_0.hot_ops <= hot_run(
            mode,
            total,
            shards,
            bits,
            more,
            shards as int,
        )->Some_0.hot_ops,
{
    let _ = law_share_decides_who_is_hot();
    law_run_counts_the_hot(mode, total, shards, bits, less);
    law_run_counts_the_hot(mode, total, shards, bits, more);
    let a = Set::new(|s: int| 0 <= s < total && hot(s as u64, less));
    let b = Set::new(|s: int| 0 <= s < total && hot(s as u64, more));
    assert(a.subset_of(b));
    vstd::set_lib::lemma_len_subset(a, b);
}

/// Neither the mode nor the share has a part in which cells a run replaces: whether it goes
/// through is the same for all of them.
pub proof fn law_receivers_do_not_collide(
    a: Mode,
    b: Mode,
    total: u64,
    shards: usize,
    bits: u32,
    less: u32,
    more: u32,
    n: int,
)
    ensures
        hot_run(a, total, shards, bits, less, n) is Some <==> hot_run(
            b,
            total,
            shards,
            bits,
            more,
            n,
        ) is Some,
    decreases n,
{
    if n > 0 {
        law_receivers_do_not_collide(a, b, total, shards, bits, less, more, n - 1);
    }
}

/// Replaces every cell of a run, shard by shard. In the mode with a shared account
/// the account has taken as many cells as went to the common receiver.
pub fn run_case(
    mode: Mode,
    total: u64,
    shards: usize,
    bits: u32,
    hot_pct: u32,
    account: &mut HotAccount,
) -> (r: Result<HotPass, String>)
    requires
        engine::shard_bits_ok(shards, bits),
        engine::narrow((total / (shards as u64) + 1) as u64, bits),
        total / (shards as u64) < u64::MAX,
    ensures
        match hot_run(mode, total, shards, bits, hot_pct, shards as int) {
            None => r is Err && r->Err_0@ == "unexpected successor collision"@ && *final(account)
                == *old(account),
            Some(totals) => r == Ok::<HotPass, String>(totals) && totals.processed == total
                && totals.hot_ops <= total && *final(account) == if mode
                == Mode::SharedAccount {
                HotAccount {
                    generation: old(account).generation.wrapping_add(totals.hot_ops),
                    received: old(account).received.wrapping_add(totals.hot_ops),
                }
            } else {
                *old(account)
            },
        },
{
    let mut totals: HotPass = HotPass { checksum: 0, processed: 0, hot_ops: 0 };
    let mut shard: usize = 0;
    while shard < shards
        invariant
            shard <= shards,
            engine::shard_bits_ok(shards, bits),
            engine::narrow((total / (shards as u64) + 1) as u64, bits),
            total / (shards as u64) < u64::MAX,
            *account == *old(account),
            hot_run(mode, total, shards, bits, hot_pct, shard as int) == Some(totals),
        decreases shards - shard,
    {
        let p: ShardPlan = ShardPlan { total, shards, bits, shard, global: true };
        proof {
            lemma_hot_plan_ok(total, shards, bits, shard as int);
            lemma_hot_run(mode, total, shards, bits, hot_pct, shard as int);
            perf002::lemma_dealt_grows(total as int, shards as int, shard + 1, shards as int);
            engine::law_streams_cover_all(total as int, shards as int);
            lemma_hot_totals(mode, p, hot_pct, perf002::plan_size(p));
            if perf002::replaced(p, perf002::plan_size(p)) is None {
                lemma_hot_run_fails(
                    mode,
                    total,
                    shards,
                    bits,
                    hot_pct,
                    shard + 1,
                    shards as int,
                );
            }
        }
        let own: HotPass = hot_shard(mode, &p, hot_pct)?;
        totals = HotPass {
            checksum: totals.checksum ^ own.checksum,
            processed: totals.processed + own.processed,
            hot_ops: totals.hot_ops + own.hot_ops,
        };
        shard = shard + 1;
    }
    if mode == Mode::SharedAccount {
        account.receive(totals.hot_ops);
    }
    proof {
        lemma_hot_run(mode, total, shards, bits, hot_pct, shards as int);
        engine::law_streams_cover_all(total as int, shards as int);
    }
    Ok(totals)
}

proof fn lemma_hot_plan_ok(total: u64, shards: usize, bits: u32, shard: int)
    requires
        engine::shard_bits_ok(shards, bits),
        0 <= shard < shards,
        engine::narrow((total / (shards as u64) + 1) as u64, bits),
        total / (shards as u64) < u64::MAX,
    ensures
        perf002::plan_ok(hot_plan(total, shards, bits, shard)),
{
    let p = hot_plan(total, shards, bits, shard);
    engine::lemma_narrow(perf002::plan_size(p) as u64, (total / (shards as u64) + 1) as u64, bits);
}

// ---------------------------------------------------------------------------
// Arguments.
// ---------------------------------------------------------------------------

/// A letter in lower case.
pub open spec fn lower(c: char) -> char {
    if 'A' <= c && c <= 'Z' {
        (c as u8 + 32) as char
    } else {
        c
    }
}

/// Two texts are the same but for the case of their letters, where the second is
/// in lower case.
pub open spec fn same_word(s: Seq<char>, word: Seq<char>) -> bool {
    s.len() == word.len() && forall|i: int| 0 <= i < s.len() ==> lower(#[trigger] s[i]) == word[i]
}

/// The mode that a piece names, as a list of one, or an empty list.
pub open spec fn piece_mode(piece: Seq<char>) -> Seq<Mode> {
    if same_word(text::trimmed(piece), "account"@) {
        seq![Mode::SharedAccount]
    } else if same_word(text::trimmed(piece), "output"@) {
        seq![Mode::IndependentReceive]
    } else {
        Seq::empty()
    }
}

/// The modes among the first `n` pieces; what names none is passed over.
pub open spec fn modes_among(parts: Seq<Seq<char>>, n: int) -> Seq<Mode>
    decreases n,
{
    if n <= 0 || n > parts.len() {
        Seq::empty()
    } else {
        modes_among(parts, n - 1) + piece_mode(parts[n - 1])
    }
}

/// The modes that the arguments name, or else both.
pub open spec fn mode_list(args: Seq<Seq<char>>) -> Seq<Mode> {
    let both = seq![Mode::SharedAccount, Mode::IndependentReceive];
    match engine::flag_value(args, "--modes"@) {
        None => both,
        Some(v) => {
            let out = modes_among(engine::pieces(v), engine::pieces(v).len() as int);
            if out.len() == 0 {
                both
            } else {
                out
            }
        },
    }
}

fn to_lower(c: char) -> (r: char)
    ensures
        r == lower(c),
{
    if 'A' <= c && c <= 'Z' {
        ((c as u8) + 32) as char
    } else {
        c
    }
}

fn is_word(s: &Vec<char>, word: &str) -> (r: bool)
    ensures
        r == same_word(s@, word@),
{
    let chars: Vec<char> = chars_of(word);
    if s.len() != chars.len() {
        return false;
    }
    let mut i: usize = 0;
    while i < s.len()
        invariant
            i <= s@.len() == chars@.len(),
            chars@ == word@,
            forall|k: int| 0 <= k < i ==> lower(#[trigger] s@[k]) == word@[k],
        decreases s@.len() - i,
    {
        if to_lower(s[i]) != chars[i] {
            assert(lower(s@[i as int]) != word@[i as int]);
            return false;
        }
        i = i + 1;
    }
    true
}

pub fn parse_modes(args: &Vec<String>) -> (r: Vec<Mode>)
    ensures
        r@ == mode_list(node::texts(args@)),
{
    let mut both: Vec<Mode> = Vec::new();
    both.push(Mode::SharedAccount);
    both.push(Mode::IndependentReceive);
    assert(both@ =~= seq![Mode::SharedAccount, Mode::IndependentReceive]);
    match find_flag_value(args, "--modes") {
        None => both,
        Some(v) => {
            let parts: Vec<Vec<char>> = split_commas(&v);
            let ghost all = engine::contents(parts@);
            let mut out: Vec<Mode> = Vec::new();
            let mut i: usize = 0;
            while i < parts.len()
                invariant
                    i <= parts@.len(),
                    all == engine::contents(parts@),
                    out@ == modes_among(all, i as int),
                decreases parts@.len() - i,
            {
                let piece: Vec<char> = trim(&parts[i]);
                assert(all[i as int] == parts@[i as int]@);
                let ghost before = out@;
                if is_word(&piece, "account") {
                    out.push(Mode::SharedAccount);
                } else if is_word(&piece, "output") {
                    out.push(Mode::IndependentReceive);
                }
                i = i + 1;
                assert(out@ =~= before + piece_mode(all[i - 1]));
            }
            if out.len() == 0 {
                both
            } else {
                out
            }
        },
    }
}

/// The modes that are asked for by name, in any case, come in the order of their names. What
/// is no mode is left out, and where none is left, or none was asked for, both are run.
pub proof fn law_modes_are_read(args: Seq<Seq<char>>, piece: Seq<char>)
    ensures
        engine::flag_value(args, "--modes"@) is None ==> mode_list(args) == seq![
            Mode::SharedAccount,
            Mode::IndependentReceive,
        ],
        engine::flag_value(args, "--modes"@) matches Some(v) ==> {
            let named = modes_among(engine::pieces(v), engine::pieces(v).len() as int);
            mode_list(args) == if named.len() == 0 {
                seq![Mode::SharedAccount, Mode::IndependentReceive]
            } else {
                named
            }
        },
        text::trimmed(piece) == "account"@ ==> piece_mode(piece) == seq![Mode::SharedAccount],
        text::trimmed(piece) == "ACCOUNT"@ ==> piece_mode(piece) == seq![Mode::SharedAccount],
        text::trimmed(piece) == "output"@ ==> piece_mode(piece) == seq![Mode::IndependentReceive],
        text::trimmed(piece) == "OUTPUT"@ ==> piece_mode(piece) == seq![Mode::IndependentReceive],
        text::trimmed(piece).len() != 7 && text::trimmed(piece).len() != 6 ==> piece_mode(piece)
            == Seq::<Mode>::empty(),
{
    reveal_strlit("account");
    reveal_strlit("ACCOUNT");
    reveal_strlit("output");
    reveal_strlit("OUTPUT");
}

} // verus!
