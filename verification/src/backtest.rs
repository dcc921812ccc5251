//! Deterministic backtest: integer ticks, a Lamport clock, exact PnL, a
//! rational Sharpe interval and an audit hash over the results.

use vstd::prelude::*;
use crate::bigint::{Int, int_text, trunc_div};
use crate::bignat::Nat;
use crate::bignat::push_char;
use crate::digest::{sha256_hex, sha256_hex_spec};
use crate::rational::{
    Rat, law_rat_canonical, lemma_rat_of_pair_canonical, rat_add, rat_div, rat_lt, rat_mul, rat_of_int, rat_of_pair, rat_sub, rat_text,
};

verus! {

/// Logical clock: Lamport ordering, no wall-time dependency.
#[derive(Clone, Debug, Default)]
pub struct LogicalClock {
    pub tick: u64,
}

impl LogicalClock {
    /// Moves the clock one tick forward.
    pub fn advance(&mut self)
        requires
            old(self).tick < u64::MAX,
        ensures
            final(self).tick == old(self).tick + 1,
    {
        self.tick = self.tick + 1;
    }
}

/// The outcome of a backtest, as text.
#[derive(Clone, Debug)]
pub struct BacktestResult {
    pub pnl: String,
    pub sharpe_low: String,
    pub sharpe_high: String,
    pub max_drawdown: String,
    pub total_trades: u64,
    pub audit_hash: String,
}

/// Tick-level market event: integer price, integer volume.
#[derive(Clone, Debug)]
pub struct Tick {
    pub price: Int,
    pub volume: Int,
    pub clock: u64,
}

/// Compiled factor signal: +1 long, -1 short, 0 flat.
pub type Signal = i8;

/// A backtest engine parameterised by its fee in basis points.
pub struct DeterministicBacktest {
    pub fee_bps: u64,
    pub clock: LogicalClock,
}

/// The running state of a backtest: PnL, its peak, the largest drawdown so
/// far, the net return of each trade and the number of trades.
pub struct BacktestState {
    pub pnl: int,
    pub peak: int,
    pub max_dd: int,
    pub trade_returns: Seq<(int, int)>,
    pub trades: nat,
}

/// The prices of a list of ticks.
pub open spec fn tick_prices(ticks: Seq<Tick>) -> Seq<int> {
    ticks.map_values(|t: Tick| t.price@)
}

/// The fee in basis points as the engine reads it: as a signed 64-bit number.
pub open spec fn fee_factor(fee_bps: u64) -> int {
    (fee_bps as i64) as int
}

/// The state after step `i`: flat signals only move the clock; otherwise the
/// trade earns pos * (p_{i+1} - p_i) less fee * p_i / 10000 (rounded toward zero).
pub open spec fn backtest_step(
    s: BacktestState,
    fee: int,
    prices: Seq<int>,
    signals: Seq<i8>,
    i: int,
) -> BacktestState {
    let pos = signals[i] as int;
    if pos == 0 {
        s
    } else {
        let gross = pos * (prices[i + 1] - prices[i]);
        let net = gross - trunc_div(fee * prices[i], 10000);
        let pnl = s.pnl + net;
        let peak = if pnl > s.peak {
            pnl
        } else {
            s.peak
        };
        let dd = peak - pnl;
        BacktestState {
            pnl,
            peak,
            max_dd: if dd > s.max_dd {
                dd
            } else {
                s.max_dd
            },
            trade_returns: s.trade_returns.push(rat_of_int(net)),
            trades: s.trades + 1,
        }
    }
}

/// The state after the first `k` steps.
pub open spec fn backtest_run(fee: int, prices: Seq<int>, signals: Seq<i8>, k: nat) -> BacktestState
    decreases k,
{
    if k == 0 {
        BacktestState { pnl: 0, peak: 0, max_dd: 0, trade_returns: seq![], trades: 0 }
    } else {
        backtest_step(backtest_run(fee, prices, signals, (k - 1) as nat), fee, prices, signals, k - 1)
    }
}

/// What step `i` adds to the PnL: nothing on a flat step (signal 0); else
/// pos (p_{i+1} - p_i) less the fee trunc(fee p_i / 10000).
pub open spec fn step_net(fee: int, prices: Seq<int>, signals: Seq<i8>, i: int) -> int {
    if signals[i] == 0 {
        0
    } else {
        (signals[i] as int) * (prices[i + 1] - prices[i]) - trunc_div(fee * prices[i], 10000)
    }
}

/// The PnL of the first `k` steps: the sum of their nets.
pub open spec fn net_total(fee: int, prices: Seq<int>, signals: Seq<i8>, k: nat) -> int
    decreases k,
{
    if k == 0 {
        0
    } else {
        net_total(fee, prices, signals, (k - 1) as nat) + step_net(fee, prices, signals, k - 1)
    }
}

/// The number of nonzero signals among the first `k`.
pub open spec fn trade_count(signals: Seq<i8>, k: nat) -> nat
    decreases k,
{
    if k == 0 {
        0
    } else {
        trade_count(signals, (k - 1) as nat) + (if signals[k - 1] != 0 {
            1nat
        } else {
            0nat
        })
    }
}

/// A flat step (signal 0) changes nothing: no PnL, no fee, no drawdown, no trade.
pub proof fn law_flat_step_changes_nothing(fee: int, prices: Seq<int>, signals: Seq<i8>, k: nat)
    requires
        signals[k as int] == 0,
    ensures
        backtest_run(fee, prices, signals, k + 1) == backtest_run(fee, prices, signals, k),
{
}

/// The PnL after `k` steps is the sum of the nets of the steps with a nonzero
/// signal, and the trade count is the number of those steps.
pub proof fn law_pnl_is_sum_of_trades(fee: int, prices: Seq<int>, signals: Seq<i8>, k: nat)
    ensures
        backtest_run(fee, prices, signals, k).pnl == net_total(fee, prices, signals, k),
        backtest_run(fee, prices, signals, k).trades == trade_count(signals, k),
        backtest_run(fee, prices, signals, k).trade_returns.len() == trade_count(signals, k),
    decreases k,
{
    if k > 0 {
        law_pnl_is_sum_of_trades(fee, prices, signals, (k - 1) as nat);
    }
}

/// All-flat signals give a flat backtest, whatever the fee and the prices:
/// PnL 0, drawdown 0, no trades.
pub proof fn law_all_flat_is_flat(fee_bps: u64, ticks: Seq<Tick>, signals: Seq<i8>)
    requires
        signals.len() == ticks.len(),
        forall|i: int| 0 <= i < signals.len() ==> #[trigger] signals[i] == 0,
    ensures
        backtest_final(fee_bps, ticks, signals).pnl == 0,
        backtest_final(fee_bps, ticks, signals).max_dd == 0,
        backtest_final(fee_bps, ticks, signals).trades == 0,
        backtest_final(fee_bps, ticks, signals).trade_returns.len() == 0,
{
    lemma_flat_run(fee_factor(fee_bps), tick_prices(ticks), signals, step_count(ticks.len()));
}

proof fn lemma_flat_run(fee: int, prices: Seq<int>, signals: Seq<i8>, k: nat)
    requires
        k <= signals.len(),
        forall|i: int| 0 <= i < signals.len() ==> #[trigger] signals[i] == 0,
    ensures
        backtest_run(fee, prices, signals, k).pnl == 0,
        backtest_run(fee, prices, signals, k).peak == 0,
        backtest_run(fee, prices, signals, k).max_dd == 0,
        backtest_run(fee, prices, signals, k).trades == 0,
        backtest_run(fee, prices, signals, k).trade_returns.len() == 0,
    decreases k,
{
    if k > 0 {
        lemma_flat_run(fee, prices, signals, (k - 1) as nat);
        assert(signals[k - 1] == 0);
    }
}

/// The number of steps of a backtest over `len` ticks.
pub open spec fn step_count(len: nat) -> nat {
    if len == 0 {
        0
    } else {
        (len - 1) as nat
    }
}

/// The sum of the first `k` rationals, added left to right from zero.
pub open spec fn rat_sum(rs: Seq<(int, int)>, k: nat) -> (int, int)
    decreases k,
{
    if k == 0 {
        rat_of_int(0)
    } else {
        rat_add(rat_sum(rs, (k - 1) as nat), rs[k - 1])
    }
}

/// The sum of the squared deviations of the first `k` rationals from `mean`.
pub open spec fn sq_dev_sum(rs: Seq<(int, int)>, mean: (int, int), k: nat) -> (int, int)
    decreases k,
{
    if k == 0 {
        rat_of_int(0)
    } else {
        let d = rat_sub(rs[k - 1], mean);
        rat_add(sq_dev_sum(rs, mean, (k - 1) as nat), rat_mul(d, d))
    }
}

/// The mean of the trade_returns.
pub open spec fn returns_mean(rs: Seq<(int, int)>) -> (int, int) {
    rat_div(rat_sum(rs, rs.len()), rat_of_int(rs.len() as int))
}

/// The (population) variance of the trade_returns.
pub open spec fn returns_variance(rs: Seq<(int, int)>) -> (int, int) {
    rat_div(sq_dev_sum(rs, returns_mean(rs), rs.len()), rat_of_int(rs.len() as int))
}

/// The least k >= `from` with (k / 1000)^2 >= v for a variance v = v.0 / v.1
/// with a positive denominator.
pub open spec fn root_search(v: (int, int), from: nat) -> nat
    decreases 1_000_000 * v.0 - from,
{
    if v.1 <= 0 || from * from * v.1 >= 1_000_000 * v.0 {
        from
    } else {
        proof {
            assert(from < 1_000_000 * v.0) by (nonlinear_arith)
                requires
                    v.1 >= 1,
                    from * from * v.1 < 1_000_000 * v.0,
            ;
        }
        root_search(v, from + 1)
    }
}

/// The standard deviation sqrt(v) rounded up to thousandths, in thousandths:
/// the least k with (k / 1000)^2 >= v.
pub open spec fn sd_thousandths(v: (int, int)) -> nat {
    root_search(v, 0)
}

/// The Sharpe interval for a mean `m` and a positive variance `v`. With the
/// standard deviation rounded up to s = k / 1000, so that s - 1/1000 < sd <= s,
/// it is [m / (s + 1/1000), m / (s - 1/1000)]: for m >= 0 it contains the
/// Sharpe ratio m / sd.
pub open spec fn sharpe_bounds(m: (int, int), v: (int, int)) -> ((int, int), (int, int)) {
    let k = sd_thousandths(v);
    (
        rat_div(m, rat_of_pair(k + 1int, 1000)),
        rat_div(m, rat_of_pair(k - 1, 1000)),
    )
}

/// The Sharpe interval of the trade_returns (`sharpe_bounds` of their mean and
/// population variance), or [0, 0] without trade_returns or without positive variance.
pub open spec fn sharpe_interval_spec(rs: Seq<(int, int)>) -> ((int, int), (int, int)) {
    if rs.len() == 0 {
        (rat_of_int(0), rat_of_int(0))
    } else if !rat_lt(rat_of_int(0), returns_variance(rs)) {
        (rat_of_int(0), rat_of_int(0))
    } else {
        sharpe_bounds(returns_mean(rs), returns_variance(rs))
    }
}

/// The trade_returns on which the Sharpe interval divides by zero: a positive
/// variance of at most 1/10^6, whose standard deviation rounds up to 1/1000.
pub open spec fn sharpe_degenerate(rs: Seq<(int, int)>) -> bool {
    rs.len() > 0 && rat_lt(rat_of_int(0), returns_variance(rs)) && sd_thousandths(
        returns_variance(rs),
    ) == 1
}

/// The rounded-up root found by `root_search` from 0: it meets the bound, and
/// the number just below it does not.
pub proof fn lemma_root_search(v: (int, int), from: nat)
    requires
        v.1 > 0,
        v.0 > 0,
    ensures
        root_search(v, from) >= from,
        root_search(v, from) * root_search(v, from) * v.1 >= 1_000_000 * v.0,
        root_search(v, from) > from ==> (root_search(v, from) - 1) * (root_search(v, from) - 1) * v.1
            < 1_000_000 * v.0,
    decreases 1_000_000 * v.0 - from,
{
    if from * from * v.1 < 1_000_000 * v.0 {
        assert(from < 1_000_000 * v.0) by (nonlinear_arith)
            requires
                v.1 >= 1,
                from * from * v.1 < 1_000_000 * v.0,
        ;
        lemma_root_search(v, from + 1);
    }
}

/// Any k >= 1 that meets the bound while k - 1 does not is the rounded-up root.
pub proof fn lemma_sd_thousandths_unique(v: (int, int), k: nat)
    requires
        v.1 > 0,
        v.0 > 0,
        k >= 1,
        k * k * v.1 >= 1_000_000 * v.0,
        (k - 1) * (k - 1) * v.1 < 1_000_000 * v.0,
    ensures
        sd_thousandths(v) == k,
{
    lemma_root_search(v, 0);
    let r = sd_thousandths(v);
    assert(0 * 0 * v.1 == 0) by (nonlinear_arith);
    assert(r > 0);
    if r < k {
        assert(r * r * v.1 <= (k - 1) * (k - 1) * v.1) by (nonlinear_arith)
            requires
                0 <= r <= k - 1,
                v.1 > 0,
        ;
    } else if r > k {
        assert(k * k * v.1 <= (r - 1) * (r - 1) * v.1) by (nonlinear_arith)
            requires
                0 <= k <= r - 1,
                v.1 > 0,
        ;
    }
}

/// The Sharpe interval brackets the Sharpe ratio m / sd of a mean m and a
/// positive variance v (whose standard deviation is at least 1/1000):
/// low^2 v <= m^2 <= high^2 v, and low and high have the sign of m, so that
/// low <= m / sd <= high for m >= 0 and high <= m / sd <= low for m < 0.
pub proof fn law_sharpe_bounds_bracket_ratio(m: (int, int), v: (int, int))
    requires
        m.1 > 0,
        v.1 > 0,
        v.0 > 0,
        sd_thousandths(v) != 1,
    ensures
        ({
            let (low, high) = sharpe_bounds(m, v);
            &&& low.1 > 0
            &&& high.1 > 0
            &&& low.0 * low.0 * v.0 * (m.1 * m.1) <= m.0 * m.0 * (low.1 * low.1 * v.1)
            &&& m.0 * m.0 * (high.1 * high.1 * v.1) <= high.0 * high.0 * v.0 * (m.1 * m.1)
            &&& m.0 >= 0 ==> low.0 >= 0 && high.0 >= 0
            &&& m.0 <= 0 ==> low.0 <= 0 && high.0 <= 0
        }),
{
    let k = sd_thousandths(v);
    lemma_root_search(v, 0);
    assert(0 * 0 * v.1 == 0) by (nonlinear_arith);
    assert(k >= 2);
    let big = 1_000_000 * v.0;
    // the upper end of the rounding: (k + 1)^2 v.1 >= 10^6 v.0
    assert((k + 1) * (k + 1) * v.1 >= big) by (nonlinear_arith)
        requires
            k * k * v.1 >= big,
            k >= 0,
            v.1 > 0,
    ;
    let (low, high) = sharpe_bounds(m, v);
    lemma_fraction_bound(m, v, (k + 1) as int, low, true);
    lemma_fraction_bound(m, v, (k - 1) as int, high, false);
}

/// For c >= 1 and r = m / (c / 1000): when c^2 v.1 >= 10^6 v.0, r^2 v <= m^2;
/// when c^2 v.1 < 10^6 v.0, m^2 <= r^2 v; and r has the sign of m.
proof fn lemma_fraction_bound(m: (int, int), v: (int, int), c: int, r: (int, int), above: bool)
    requires
        m.1 > 0,
        v.1 > 0,
        c >= 1,
        r == rat_div(m, rat_of_pair(c, 1000)),
        above ==> c * c * v.1 >= 1_000_000 * v.0,
        !above ==> c * c * v.1 < 1_000_000 * v.0,
    ensures
        r.1 > 0,
        above ==> r.0 * r.0 * v.0 * (m.1 * m.1) <= m.0 * m.0 * (r.1 * r.1 * v.1),
        !above ==> m.0 * m.0 * (r.1 * r.1 * v.1) <= r.0 * r.0 * v.0 * (m.1 * m.1),
        m.0 >= 0 ==> r.0 >= 0,
        m.0 <= 0 ==> r.0 <= 0,
{
    let t = rat_of_pair(c, 1000);
    lemma_rat_of_pair_canonical(c, 1000);
    // t = c / 1000 exactly, with a positive numerator
    assert(t.0 > 0) by (nonlinear_arith)
        requires
            t.0 * 1000 == c * t.1,
            t.1 > 0,
            c >= 1,
    ;
    let n = m.0 * t.1;
    let d = m.1 * t.0;
    assert(d > 0) by (nonlinear_arith)
        requires
            m.1 > 0,
            t.0 > 0,
            d == m.1 * t.0,
    ;
    lemma_rat_of_pair_canonical(n, d);
    // r.0 * m.1 * t.0 == m.0 * t.1 * r.1
    let a = r.0;
    let b = r.1;
    assert(a * d == n * b);
    let x = m.0;
    let y = m.1;
    let p = t.0;
    let q = t.1;
    let v0 = v.0;
    let v1 = v.1;
    // squared: a^2 y^2 p^2 == x^2 b^2 q^2, and p^2 10^6 == c^2 q^2
    let lhs = a * (y * p);
    let rhs = (x * q) * b;
    assert(lhs * lhs == rhs * rhs);
    let a2 = a * a;
    let x2 = x * x;
    let y2 = y * y;
    let b2 = b * b;
    let p2 = p * p;
    let q2 = q * q;
    assert(lhs * lhs == (a2 * y2) * p2) by (nonlinear_arith)
        requires
            lhs == a * (y * p),
            a2 == a * a,
            y2 == y * y,
            p2 == p * p,
    ;
    assert(rhs * rhs == (x2 * b2) * q2) by (nonlinear_arith)
        requires
            rhs == (x * q) * b,
            x2 == x * x,
            b2 == b * b,
            q2 == q * q,
    ;
    let xb2 = x2 * b2;
    assert((a2 * y2) * p2 == xb2 * q2);
    assert(p2 * 1_000_000 == (c * c) * q2) by (nonlinear_arith)
        requires
            p * 1000 == c * q,
            p2 == p * p,
            q2 == q * q,
    ;
    assert(x2 >= 0 && b2 >= 0) by (nonlinear_arith)
        requires
            x2 == x * x,
            b2 == b * b,
    ;
    vstd::arithmetic::mul::lemma_mul_nonnegative(x2, b2);
    assert(p2 > 0 && q2 > 0) by (nonlinear_arith)
        requires
            p > 0,
            q > 0,
            p2 == p * p,
            q2 == q * q,
    ;
    if above {
        // 10^6 v0 q^2 <= c^2 v1 q^2 = 10^6 v1 p^2, so v0 q^2 <= v1 p^2
        assert(v0 * q2 <= v1 * p2) by (nonlinear_arith)
            requires
                c * c * v1 >= 1_000_000 * v0,
                p2 * 1_000_000 == (c * c) * q2,
                q2 > 0,
        ;
        assert(xb2 * (v0 * q2) <= xb2 * (v1 * p2)) by (nonlinear_arith)
            requires
                v0 * q2 <= v1 * p2,
                xb2 >= 0,
        ;
        assert((a2 * v0 * y2) * p2 == v0 * ((a2 * y2) * p2)) by (nonlinear_arith);
        assert(v0 * (xb2 * q2) == xb2 * (v0 * q2)) by (nonlinear_arith);
        assert((x2 * (b2 * v1)) * p2 == xb2 * (v1 * p2)) by (nonlinear_arith)
            requires
                xb2 == x2 * b2,
        ;
        assert((a2 * v0 * y2) * p2 <= (x2 * (b2 * v1)) * p2);
        assert(a2 * v0 * y2 <= x2 * (b2 * v1)) by (nonlinear_arith)
            requires
                (a2 * v0 * y2) * p2 <= (x2 * (b2 * v1)) * p2,
                p2 > 0,
        ;
    } else {
        assert(v1 * p2 <= v0 * q2) by (nonlinear_arith)
            requires
                c * c * v1 < 1_000_000 * v0,
                p2 * 1_000_000 == (c * c) * q2,
                q2 > 0,
        ;
        assert(xb2 * (v1 * p2) <= xb2 * (v0 * q2)) by (nonlinear_arith)
            requires
                v1 * p2 <= v0 * q2,
                xb2 >= 0,
        ;
        assert((a2 * v0 * y2) * p2 == v0 * ((a2 * y2) * p2)) by (nonlinear_arith);
        assert(v0 * (xb2 * q2) == xb2 * (v0 * q2)) by (nonlinear_arith);
        assert((x2 * (b2 * v1)) * p2 == xb2 * (v1 * p2)) by (nonlinear_arith)
            requires
                xb2 == x2 * b2,
        ;
        assert((x2 * (b2 * v1)) * p2 <= (a2 * v0 * y2) * p2);
        assert(x2 * (b2 * v1) <= a2 * v0 * y2) by (nonlinear_arith)
            requires
                (x2 * (b2 * v1)) * p2 <= (a2 * v0 * y2) * p2,
                p2 > 0,
        ;
    }
    assert(x >= 0 ==> a >= 0) by (nonlinear_arith)
        requires
            a * (y * p) == (x * q) * b,
            y > 0,
            p > 0,
            q > 0,
            b > 0,
    ;
    assert(x <= 0 ==> a <= 0) by (nonlinear_arith)
        requires
            a * (y * p) == (x * q) * b,
            y > 0,
            p > 0,
            q > 0,
            b > 0,
    ;
}

/// The audit hash: SHA-256 of `pnl|sharpe_low|sharpe_high`, in lowercase hex.
pub open spec fn audit_hash_spec(pnl: int, sl: (int, int), sh: (int, int)) -> Seq<char> {
    sha256_hex_spec(int_text(pnl) + seq!['|'] + rat_text(sl) + seq!['|'] + rat_text(sh))
}

/// The final state of a backtest of these ticks and signals.
pub open spec fn backtest_final(fee_bps: u64, ticks: Seq<Tick>, signals: Seq<i8>) -> BacktestState {
    backtest_run(fee_factor(fee_bps), tick_prices(ticks), signals, step_count(ticks.len()))
}

/// Every tick's price is in canonical form.
pub open spec fn ticks_wf(ticks: Seq<Tick>) -> bool {
    forall|i: int| 0 <= i < ticks.len() ==> #[trigger] ticks[i].price.wf()
}

/// The values of a list of rationals.
pub open spec fn rat_views(v: Seq<Rat>) -> Seq<(int, int)> {
    v.map_values(|x: Rat| x@)
}

impl DeterministicBacktest {
    /// A fresh engine whose clock stands at zero.
    pub fn new(fee_bps: u64) -> (r: Self)
        ensures
            r.fee_bps == fee_bps,
            r.clock.tick == 0,
    {
        DeterministicBacktest { fee_bps, clock: LogicalClock { tick: 0 } }
    }

    /// Runs the backtest over the ticks with one signal per tick.
    /// PnL = sum(pos_t * (price_{t+1} - price_t)) - fees, all in exact integers;
    /// the result depends on the fee, the ticks and the signals alone.
    pub fn run(&mut self, ticks: &[Tick], signals: &[Signal]) -> (r: BacktestResult)
        requires
            ticks.len() == signals.len(),
            ticks_wf(ticks@),
            old(self).clock.tick + step_count(ticks.len() as nat) <= u64::MAX,
            !sharpe_degenerate(backtest_final(old(self).fee_bps, ticks@, signals@).trade_returns),
        ensures
            final(self).fee_bps == old(self).fee_bps,
            final(self).clock.tick == old(self).clock.tick + step_count(ticks.len() as nat),
            result_matches(r, backtest_final(old(self).fee_bps, ticks@, signals@)),
            r.pnl@ == int_text(
                net_total(
                    fee_factor(old(self).fee_bps),
                    tick_prices(ticks@),
                    signals@,
                    step_count(ticks.len() as nat),
                ),
            ),
            r.total_trades == trade_count(signals@, step_count(ticks.len() as nat)),
    {
        proof {
            law_pnl_is_sum_of_trades(
                fee_factor(self.fee_bps),
                tick_prices(ticks@),
                signals@,
                step_count(ticks.len() as nat),
            );
        }
        let (pnl, max_dd, trade_returns, trades) = self.simulate(ticks, signals);
        finish(&pnl, &max_dd, &trade_returns, trades)
    }

    /// Runs the backtest as `run` does when its Sharpe interval is defined, and
    /// returns `None` when it is not: when the trades' variance is positive but
    /// at most 1/10^6, so that its upper end would divide by zero.
    /// The clock moves on by the same steps either way.
    pub fn run_checked(&mut self, ticks: &[Tick], signals: &[Signal]) -> (r: Option<BacktestResult>)
        requires
            ticks.len() == signals.len(),
            ticks_wf(ticks@),
            old(self).clock.tick + step_count(ticks.len() as nat) <= u64::MAX,
        ensures
            final(self).fee_bps == old(self).fee_bps,
            final(self).clock.tick == old(self).clock.tick + step_count(ticks.len() as nat),
            ({
                let st = backtest_final(old(self).fee_bps, ticks@, signals@);
                match r {
                    Some(res) => !sharpe_degenerate(st.trade_returns) && result_matches(res, st),
                    None => sharpe_degenerate(st.trade_returns),
                }
            }),
    {
        let (pnl, max_dd, trade_returns, trades) = self.simulate(ticks, signals);
        if sharpe_undefined(trade_returns.as_slice()) {
            None
        } else {
            Some(finish(&pnl, &max_dd, &trade_returns, trades))
        }
    }

    /// Steps through the ticks, moving the clock once per step, and gives the
    /// final PnL, largest drawdown, per-trade returns and number of trades.
    fn simulate(&mut self, ticks: &[Tick], signals: &[Signal]) -> (r: (Int, Int, Vec<Rat>, u64))
        requires
            ticks.len() == signals.len(),
            ticks_wf(ticks@),
            old(self).clock.tick + step_count(ticks.len() as nat) <= u64::MAX,
        ensures
            final(self).fee_bps == old(self).fee_bps,
            final(self).clock.tick == old(self).clock.tick + step_count(ticks.len() as nat),
            r.0.wf(),
            r.1.wf(),
            forall|j: int| 0 <= j < r.2.len() ==> #[trigger] r.2@[j].wf(),
            ({
                let st = backtest_final(old(self).fee_bps, ticks@, signals@);
                &&& r.0@ == st.pnl
                &&& r.1@ == st.max_dd
                &&& rat_views(r.2@) == st.trade_returns
                &&& r.3 == st.trades
            }),
    {
        let ghost fee = fee_factor(self.fee_bps);
        let ghost prices = tick_prices(ticks@);
        let steps: usize = if ticks.len() == 0 {
            0
        } else {
            ticks.len() - 1
        };
        let fee_int = Int::from_i64(self.fee_bps as i64);
        let ten_thousand = Int::from_u64(10000);
        let mut pnl = Int::zero();
        let mut peak = Int::zero();
        let mut max_dd = Int::zero();
        let mut trade_returns: Vec<Rat> = Vec::new();
        let mut trades: u64 = 0;
        let mut i: usize = 0;
        while i < steps
            invariant
                steps == step_count(ticks.len() as nat),
                ticks.len() == signals.len(),
                ticks_wf(ticks@),
                prices == tick_prices(ticks@),
                fee == fee_factor(self.fee_bps),
                fee_int@ == fee,
                fee_int.wf(),
                ten_thousand@ == 10000,
                ten_thousand.wf(),
                self.fee_bps == old(self).fee_bps,
                i <= steps,
                self.clock.tick == old(self).clock.tick + i,
                old(self).clock.tick + steps <= u64::MAX,
                pnl.wf(),
                peak.wf(),
                max_dd.wf(),
                forall|j: int| 0 <= j < trade_returns.len() ==> #[trigger] trade_returns@[j].wf(),
                trades <= i,
                ({
                    let st = backtest_run(fee, prices, signals@, i as nat);
                    &&& pnl@ == st.pnl
                    &&& peak@ == st.peak
                    &&& max_dd@ == st.max_dd
                    &&& rat_views(trade_returns@) == st.trade_returns
                    &&& trades == st.trades
                }),
            decreases steps - i,
        {
            self.clock.advance();
            let pos: i64 = signals[i] as i64;
            if pos != 0 {
                let p0 = &ticks[i].price;
                let p1 = &ticks[i + 1].price;
                proof {
                    assert(ticks@[i as int].price.wf());
                    assert(ticks@[i + 1].price.wf());
                    assert(prices[i as int] == p0@);
                    assert(prices[i + 1] == p1@);
                }
                let price_diff = p1.sub(p0);
                let gross = Int::from_i64(pos).mul(&price_diff);
                let fee_amt = fee_int.mul(p0).div_trunc(&ten_thousand);
                let net = gross.sub(&fee_amt);
                pnl = pnl.add(&net);
                if peak.lt(&pnl) {
                    peak = pnl.clone();
                }
                let dd = peak.sub(&pnl);
                if max_dd.lt(&dd) {
                    max_dd = dd;
                }
                let ghost before = trade_returns@;
                trade_returns.push(Rat::from_int(net));
                proof {
                    assert(rat_views(trade_returns@) =~= rat_views(before).push(trade_returns@[trade_returns.len() - 1]@));
                }
                trades = trades + 1;
            }
            i = i + 1;
        }
        (pnl, max_dd, trade_returns, trades)
    }
}

/// A result shows the final state `st` of a backtest: its PnL, Sharpe interval,
/// drawdown, trade count and audit hash.
pub open spec fn result_matches(r: BacktestResult, st: BacktestState) -> bool {
    let sharpe = sharpe_interval_spec(st.trade_returns);
    &&& r.pnl@ == int_text(st.pnl)
    &&& r.sharpe_low@ == rat_text(sharpe.0)
    &&& r.sharpe_high@ == rat_text(sharpe.1)
    &&& r.max_drawdown@ == int_text(st.max_dd)
    &&& r.total_trades == st.trades
    &&& r.audit_hash@ == audit_hash_spec(st.pnl, sharpe.0, sharpe.1)
}

/// The result of a finished backtest.
fn finish(pnl: &Int, max_dd: &Int, trade_returns: &Vec<Rat>, trades: u64) -> (r: BacktestResult)
    requires
        pnl.wf(),
        max_dd.wf(),
        forall|j: int| 0 <= j < trade_returns.len() ==> #[trigger] trade_returns@[j].wf(),
        !sharpe_degenerate(rat_views(trade_returns@)),
    ensures
        ({
            let sharpe = sharpe_interval_spec(rat_views(trade_returns@));
            &&& r.pnl@ == int_text(pnl@)
            &&& r.sharpe_low@ == rat_text(sharpe.0)
            &&& r.sharpe_high@ == rat_text(sharpe.1)
            &&& r.max_drawdown@ == int_text(max_dd@)
            &&& r.total_trades == trades
            &&& r.audit_hash@ == audit_hash_spec(pnl@, sharpe.0, sharpe.1)
        }),
{
    let (sharpe_low, sharpe_high) = sharpe_interval(trade_returns.as_slice());
    let audit = hash_result(pnl, &sharpe_low, &sharpe_high);
    BacktestResult {
        pnl: pnl.to_decimal(),
        sharpe_low: sharpe_low.to_text(),
        sharpe_high: sharpe_high.to_text(),
        max_drawdown: max_dd.to_decimal(),
        total_trades: trades,
        audit_hash: audit,
    }
}

/// The mean and the population variance of nonempty trade_returns.
fn mean_variance(trade_returns: &[Rat]) -> (r: (Rat, Rat))
    requires
        trade_returns.len() > 0,
        forall|j: int| 0 <= j < trade_returns.len() ==> #[trigger] trade_returns@[j].wf(),
    ensures
        r.0@ == returns_mean(rat_views(trade_returns@)),
        r.1@ == returns_variance(rat_views(trade_returns@)),
        r.0.wf(),
        r.1.wf(),
{
    let ghost rs = rat_views(trade_returns@);
    let n = Rat::from_int(Int::from_u64(trade_returns.len() as u64));
    let mut total = Rat::zero();
    let mut k: usize = 0;
    while k < trade_returns.len()
        invariant
            forall|j: int| 0 <= j < trade_returns.len() ==> #[trigger] trade_returns@[j].wf(),
            rs == rat_views(trade_returns@),
            k <= trade_returns.len(),
            total.wf(),
            total@ == rat_sum(rs, k as nat),
        decreases trade_returns.len() - k,
    {
        total = total.add(&trade_returns[k]);
        k = k + 1;
    }
    let mean = total.div(&n);
    let mut sq = Rat::zero();
    let mut k: usize = 0;
    while k < trade_returns.len()
        invariant
            forall|j: int| 0 <= j < trade_returns.len() ==> #[trigger] trade_returns@[j].wf(),
            rs == rat_views(trade_returns@),
            mean.wf(),
            mean@ == returns_mean(rs),
            k <= trade_returns.len(),
            sq.wf(),
            sq@ == sq_dev_sum(rs, mean@, k as nat),
        decreases trade_returns.len() - k,
    {
        let d = trade_returns[k].sub(&mean);
        sq = sq.add(&d.mul(&d));
        k = k + 1;
    }
    let variance = sq.div(&n);
    (mean, variance)
}

/// The standard deviation of a positive variance rounded up to thousandths,
/// counted in thousandths, found by bisection.
fn sd_thousandths_of(variance: &Rat) -> (k: Nat)
    requires
        variance.wf(),
        variance@.0 > 0,
    ensures
        k@ == sd_thousandths(variance@),
        k@ >= 1,
        k.wf(),
{
    proof {
        law_rat_canonical(variance);
    }
    let ghost v = variance@;
    let num = variance.numer().magnitude();
    let den = variance.denom().magnitude();
    let target = num.mul_small(1_000_000);
    let one = Nat::from_u64(1);
    let two = Nat::from_u64(2);
    let mut lo = Nat::zero();
    let mut hi = target.clone();
    proof {
        assert(num@ == v.0 && den@ == v.1);
        assert(lo@ * lo@ * den@ == 0) by (nonlinear_arith)
            requires
                lo@ == 0,
        ;
        assert(hi@ * hi@ * den@ >= target@) by (nonlinear_arith)
            requires
                hi@ == target@,
                target@ >= 1,
                den@ >= 1,
        ;
    }
    while lo.add(&one).lt(&hi)
        invariant
            lo.wf(),
            hi.wf(),
            den.wf(),
            target.wf(),
            one@ == 1,
            two@ == 2,
            den@ == v.1,
            target@ == 1_000_000 * v.0,
            v.0 > 0,
            v.1 > 0,
            lo@ < hi@,
            lo@ * lo@ * den@ < target@,
            hi@ * hi@ * den@ >= target@,
        decreases hi@ - lo@,
    {
        let (mid, _) = lo.add(&hi).divrem(&two);
        assert(lo@ < mid@ < hi@);
        let sq = mid.mul(&mid).mul(&den);
        if sq.lt(&target) {
            lo = mid;
        } else {
            hi = mid;
        }
    }
    proof {
        assert(hi@ == lo@ + 1);
        lemma_sd_thousandths_unique(v, hi@);
    }
    hi
}

/// Whether the Sharpe interval of these trade_returns is undefined: their
/// variance is positive but at most 1/10^6, so that the standard deviation
/// rounds up to 1/1000 and the upper end would divide by zero.
pub fn sharpe_undefined(trade_returns: &[Rat]) -> (b: bool)
    requires
        forall|j: int| 0 <= j < trade_returns.len() ==> #[trigger] trade_returns@[j].wf(),
    ensures
        b == sharpe_degenerate(rat_views(trade_returns@)),
{
    if trade_returns.len() == 0 {
        return false;
    }
    let (_, variance) = mean_variance(trade_returns);
    if variance.le(&Rat::zero()) {
        return false;
    }
    let k = sd_thousandths_of(&variance);
    k.equals(&Nat::from_u64(1))
}

/// The Sharpe interval of the trade_returns, in exact rationals.
fn sharpe_interval(trade_returns: &[Rat]) -> (r: (Rat, Rat))
    requires
        forall|j: int| 0 <= j < trade_returns.len() ==> #[trigger] trade_returns@[j].wf(),
        !sharpe_degenerate(rat_views(trade_returns@)),
    ensures
        r.0@ == sharpe_interval_spec(rat_views(trade_returns@)).0,
        r.1@ == sharpe_interval_spec(rat_views(trade_returns@)).1,
        r.0.wf(),
        r.1.wf(),
{
    if trade_returns.len() == 0 {
        return (Rat::zero(), Rat::zero());
    }
    let (mean, variance) = mean_variance(trade_returns);
    if variance.le(&Rat::zero()) {
        return (Rat::zero(), Rat::zero());
    }
    let k = sd_thousandths_of(&variance);
    let one = Nat::from_u64(1);
    let thousand = Int::from_u64(1000);
    let up = Rat::from_ints(&Int::from_nat(k.add(&one)), &thousand);
    let down = Rat::from_ints(&Int::from_nat(k.sub(&one)), &thousand);
    proof {
        lemma_rat_of_pair_canonical(k@ + 1int, 1000);
        lemma_rat_of_pair_canonical(k@ - 1, 1000);
        assert(k@ != 1);
        assert(up@.0 != 0) by (nonlinear_arith)
            requires
                up@.0 * 1000 == (k@ + 1) * up@.1,
                up@.1 > 0,
                k@ >= 1,
        ;
        assert(down@.0 != 0) by (nonlinear_arith)
            requires
                down@.0 * 1000 == (k@ - 1) * down@.1,
                down@.1 > 0,
                k@ >= 2,
        ;
    }
    let low = mean.div(&up);
    let high = mean.div(&down);
    (low, high)
}

/// The audit hash of a backtest's PnL and Sharpe interval.
fn hash_result(pnl: &Int, sl: &Rat, sh: &Rat) -> (r: String)
    requires
        pnl.wf(),
        sl.wf(),
        sh.wf(),
    ensures
        r@ == audit_hash_spec(pnl@, sl@, sh@),
{
    let mut content = pnl.to_decimal();
    push_char(&mut content, '|');
    content.append(sl.to_text().as_str());
    push_char(&mut content, '|');
    content.append(sh.to_text().as_str());
    proof {
        assert(content@ =~= int_text(pnl@) + seq!['|'] + rat_text(sl@) + seq!['|'] + rat_text(
            sh@,
        ));
    }
    sha256_hex(content.as_str())
}

/// A backtest depends on the fee, the prices and the signals alone: tick lists
/// that agree on their prices give the same outcome, whatever their volumes and
/// clocks, and so the same PnL, Sharpe interval and audit hash; the engine's
/// own logical clock enters nowhere, so two engines with the same fee agree.
pub proof fn law_backtest_deterministic(
    fee_bps: u64,
    ticks1: Seq<Tick>,
    ticks2: Seq<Tick>,
    signals: Seq<i8>,
)
    requires
        ticks1.len() == ticks2.len(),
        forall|i: int| 0 <= i < ticks1.len() ==> #[trigger] ticks1[i].price@ == ticks2[i].price@,
    ensures
        backtest_final(fee_bps, ticks1, signals) == backtest_final(fee_bps, ticks2, signals),
{
    assert(tick_prices(ticks1) =~= tick_prices(ticks2));
}

} // verus!
