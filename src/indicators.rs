//! Moving averages, RSI and MACD over integer price series.
//!
//! Every mean is rounded down. An EMA step moves from the previous value
//! towards the new price by `2 / (period + 1)` of the distance, rounded
//! towards the previous value.

use vstd::arithmetic::div_mod::{
    lemma_div_pos_is_pos, lemma_fundamental_div_mod, lemma_fundamental_div_mod_converse,
    lemma_mod_bound,
};
use vstd::prelude::*;

verus! {

/// Largest magnitude of a value that the indicator arithmetic accepts.
pub const MAX_MAGNITUDE: u64 = 0xffff_ffff_ffff_ffff;

// ---------------------------------------------------------------------------
// Mathematical definitions

/// A price series read as integers.
pub open spec fn prices_as_ints(s: Seq<u64>) -> Seq<int> {
    s.map_values(|p: u64| p as int)
}

/// A signed series read as integers.
pub open spec fn signed_as_ints(s: Seq<i128>) -> Seq<int> {
    s.map_values(|v: i128| v as int)
}

pub open spec fn sum(s: Seq<int>) -> int
    decreases s.len(),
{
    if s.len() == 0 {
        0
    } else {
        sum(s.drop_last()) + s.last()
    }
}

/// Simple moving average: element `i` is the mean of `s[i .. i + period]`.
pub open spec fn sma(s: Seq<int>, period: nat) -> Seq<int> {
    if period == 0 || s.len() < period {
        Seq::empty()
    } else {
        Seq::new(
            (s.len() - period + 1) as nat,
            |i: int| sum(s.subrange(i, i + period)) / (period as int),
        )
    }
}

/// One EMA step from `prev` towards `price`.
pub open spec fn ema_step(prev: int, price: int, period: nat) -> int {
    if price >= prev {
        prev + (price - prev) * 2 / (period + 1) as int
    } else {
        prev - (prev - price) * 2 / (period + 1) as int
    }
}

/// Exponential moving average, seeded with the mean of the first `period` values.
pub open spec fn ema(s: Seq<int>, period: nat) -> Seq<int>
    decreases s.len(),
{
    if period == 0 || s.len() < period {
        Seq::empty()
    } else if s.len() == period {
        seq![sum(s) / (period as int)]
    } else {
        let prev = ema(s.drop_last(), period);
        prev.push(ema_step(prev.last(), s.last(), period))
    }
}

/// Wilder's smoothed average: seeded with the mean of the first `period`
/// values, then `avg = (avg * (period - 1) + value) / period`.
pub open spec fn wilder(s: Seq<int>, period: nat) -> Seq<int>
    decreases s.len(),
{
    if period == 0 || s.len() < period {
        Seq::empty()
    } else if s.len() == period {
        seq![sum(s) / (period as int)]
    } else {
        let prev = wilder(s.drop_last(), period);
        prev.push((prev.last() * (period - 1) + s.last()) / (period as int))
    }
}

/// Upward moves between consecutive prices (zero for a fall).
pub open spec fn gains(s: Seq<int>) -> Seq<int> {
    Seq::new(
        (s.len() - 1) as nat,
        |i: int|
            if s[i + 1] > s[i] {
                s[i + 1] - s[i]
            } else {
                0
            },
    )
}

/// Downward moves between consecutive prices (zero for a rise).
pub open spec fn losses(s: Seq<int>) -> Seq<int> {
    Seq::new(
        (s.len() - 1) as nat,
        |i: int|
            if s[i + 1] < s[i] {
                s[i] - s[i + 1]
            } else {
                0
            },
    )
}

/// The reciprocal of the smallest average loss RSI divides by: an average
/// loss below one hundred-thousandth of a price unit counts as that much.
pub const LOSS_FLOOR_INVERSE: u64 = 100_000;

/// `100 - 100 / (1 + gain / max(loss, 1e-5))`, which equals
/// `100 * gain / (gain + max(loss, 1e-5))`, rounded down; both averages are
/// counted in hundred-thousandths of a price unit so that the floor is a
/// whole number.
pub open spec fn rsi_value(avg_gain: int, avg_loss: int) -> int {
    let gain = avg_gain * LOSS_FLOOR_INVERSE;
    let loss = if avg_loss > 0 {
        avg_loss * LOSS_FLOOR_INVERSE
    } else {
        1
    };
    100 * gain / (gain + loss)
}

pub open spec fn rsi_of_averages(avg_gains: Seq<int>, avg_losses: Seq<int>) -> Seq<int> {
    Seq::new(avg_gains.len(), |i: int| rsi_value(avg_gains[i], avg_losses[i]))
}

/// Relative strength index: one value per price after the first `period` changes.
pub open spec fn rsi(s: Seq<int>, period: nat) -> Seq<int> {
    if period == 0 || s.len() <= period {
        Seq::empty()
    } else {
        rsi_of_averages(wilder(gains(s), period), wilder(losses(s), period))
    }
}

/// `a - b` element by element over the last `min(a.len(), b.len())` entries of each.
pub open spec fn aligned_difference(a: Seq<int>, b: Seq<int>) -> Seq<int> {
    let n = if a.len() <= b.len() {
        a.len()
    } else {
        b.len()
    };
    Seq::new(n, |i: int| a[a.len() - n + i] - b[b.len() - n + i])
}

pub open spec fn macd_line(s: Seq<int>, fast: nat, slow: nat) -> Seq<int> {
    aligned_difference(ema(s, fast), ema(s, slow))
}

pub open spec fn macd_signal(s: Seq<int>, fast: nat, slow: nat, signal: nat) -> Seq<int> {
    ema(macd_line(s, fast, slow), signal)
}

pub open spec fn macd_histogram(s: Seq<int>, fast: nat, slow: nat, signal: nat) -> Seq<int> {
    aligned_difference(macd_line(s, fast, slow), macd_signal(s, fast, slow, signal))
}

// ---------------------------------------------------------------------------
// Lemmas

proof fn lemma_sum_push(s: Seq<int>, a: int, b: int)
    requires
        0 <= a <= b < s.len(),
    ensures
        sum(s.subrange(a, b + 1)) == sum(s.subrange(a, b)) + s[b],
{
    assert(s.subrange(a, b + 1).drop_last() =~= s.subrange(a, b));
}

proof fn lemma_sum_bounds(s: Seq<int>, lo: int, hi: int)
    requires
        forall|i: int| 0 <= i < s.len() ==> lo <= #[trigger] s[i] <= hi,
    ensures
        s.len() * lo <= sum(s) <= s.len() * hi,
    decreases s.len(),
{
    if s.len() > 0 {
        let t = s.drop_last();
        lemma_sum_bounds(t, lo, hi);
        assert(s.last() == s[s.len() - 1]);
        let n = t.len() as int;
        assert(n * lo + lo == (n + 1) * lo) by (nonlinear_arith);
        assert(n * hi + hi == (n + 1) * hi) by (nonlinear_arith);
    }
}

proof fn lemma_sum_nonnegative(s: Seq<int>)
    requires
        forall|i: int| 0 <= i < s.len() ==> 0 <= #[trigger] s[i],
    ensures
        0 <= sum(s),
    decreases s.len(),
{
    if s.len() > 0 {
        lemma_sum_nonnegative(s.drop_last());
        assert(s.last() == s[s.len() - 1]);
    }
}

proof fn lemma_mean_within(total: int, count: int, lo: int, hi: int)
    requires
        count > 0,
        count * lo <= total <= count * hi,
    ensures
        lo <= total / count <= hi,
{
    let q = total / count;
    let r = total % count;
    lemma_fundamental_div_mod(total, count);
    lemma_mod_bound(total, count);
    assert(total == q * count + r) by (nonlinear_arith)
        requires
            total == count * q + r,
    ;
    assert(lo <= q) by (nonlinear_arith)
        requires
            total == q * count + r,
            0 <= r < count,
            count * lo <= total,
    ;
    assert(q <= hi) by (nonlinear_arith)
        requires
            total == q * count + r,
            0 <= r,
            total <= count * hi,
            count > 0,
    ;
}

/// Rounding a negative quotient down is rounding its magnitude up.
proof fn lemma_floor_of_negative(y: int, c: int)
    requires
        y > 0,
        c > 0,
    ensures
        (-y) / c == -((y + c - 1) / c),
{
    let q = (y + c - 1) / c;
    let r = (y + c - 1) % c;
    lemma_fundamental_div_mod(y + c - 1, c);
    lemma_mod_bound(y + c - 1, c);
    assert(-y == (-q) * c + (c - 1 - r)) by (nonlinear_arith)
        requires
            y + c - 1 == c * q + r,
    ;
    lemma_fundamental_div_mod_converse(-y, c, -q, c - 1 - r);
}

/// An EMA step stays between the previous value and the price.
proof fn lemma_ema_step_between(prev: int, price: int, period: nat)
    requires
        period > 0,
    ensures
        prev <= price ==> prev <= ema_step(prev, price, period) <= price,
        price <= prev ==> price <= ema_step(prev, price, period) <= prev,
{
    let d = if price >= prev {
        price - prev
    } else {
        prev - price
    };
    let c = (period + 1) as int;
    assert(0 <= d * 2 <= c * d) by (nonlinear_arith)
        requires
            d >= 0,
            c >= 2,
    ;
    lemma_mean_within(d * 2, c, 0, d);
}

proof fn lemma_ema_len(s: Seq<int>, period: nat)
    ensures
        period == 0 || s.len() < period ==> ema(s, period).len() == 0,
        period > 0 && s.len() >= period ==> ema(s, period).len() == s.len() - period + 1,
    decreases s.len(),
{
    if period > 0 && s.len() > period {
        lemma_ema_len(s.drop_last(), period);
    }
}

proof fn lemma_wilder_len(s: Seq<int>, period: nat)
    ensures
        period == 0 || s.len() < period ==> wilder(s, period).len() == 0,
        period > 0 && s.len() >= period ==> wilder(s, period).len() == s.len() - period + 1,
    decreases s.len(),
{
    if period > 0 && s.len() > period {
        lemma_wilder_len(s.drop_last(), period);
    }
}

proof fn lemma_wilder_nonnegative(s: Seq<int>, period: nat)
    requires
        forall|i: int| 0 <= i < s.len() ==> 0 <= #[trigger] s[i],
    ensures
        forall|i: int| 0 <= i < wilder(s, period).len() ==> 0 <= #[trigger] wilder(s, period)[i],
    decreases s.len(),
{
    if period > 0 && s.len() >= period {
        if s.len() == period {
            lemma_sum_nonnegative(s);
            lemma_div_pos_is_pos(sum(s), period as int);
        } else {
            let t = s.drop_last();
            lemma_wilder_nonnegative(t, period);
            lemma_wilder_len(t, period);
            let prev = wilder(t, period);
            assert(prev[prev.len() - 1] >= 0);
            let total = prev.last() * (period - 1) + s.last();
            assert(s.last() == s[s.len() - 1]);
            assert(total >= 0) by (nonlinear_arith)
                requires
                    prev.last() >= 0,
                    period >= 1,
                    s.last() >= 0,
                    total == prev.last() * (period - 1) + s.last(),
            ;
            lemma_div_pos_is_pos(total, period as int);
            assert(wilder(s, period) == prev.push(total / (period as int)));
        }
    }
}

proof fn lemma_rsi_value_bounded(g: int, l: int)
    requires
        g >= 0,
    ensures
        0 <= rsi_value(g, l) <= 100,
{
    let gain = g * LOSS_FLOOR_INVERSE;
    let loss = if l > 0 {
        l * LOSS_FLOOR_INVERSE
    } else {
        1
    };
    assert(gain >= 0 && loss >= 1) by (nonlinear_arith)
        requires
            g >= 0,
            gain == g * 100_000,
            loss == (if l > 0 {
                l * 100_000
            } else {
                1
            }),
    ;
    let d = gain + loss;
    assert(0 <= 100 * gain <= d * 100) by (nonlinear_arith)
        requires
            gain >= 0,
            d >= gain,
    ;
    lemma_mean_within(100 * gain, d, 0, 100);
}

proof fn lemma_rsi_of_averages_push(g: Seq<int>, l: Seq<int>, a: int, b: int)
    requires
        g.len() == l.len(),
    ensures
        rsi_of_averages(g.push(a), l.push(b)) == rsi_of_averages(g, l).push(rsi_value(a, b)),
{
    assert(rsi_of_averages(g.push(a), l.push(b)) =~= rsi_of_averages(g, l).push(rsi_value(a, b)));
}

/// Every RSI value lies between 0 and 100, whatever the prices.
pub proof fn lemma_rsi_within_bounds(prices: Seq<int>, period: nat)
    ensures
        forall|i: int|
            0 <= i < rsi(prices, period).len() ==> 0 <= #[trigger] rsi(prices, period)[i] <= 100,
{
    if period > 0 && prices.len() > period {
        let g = gains(prices);
        let ag = wilder(g, period);
        assert forall|i: int| 0 <= i < g.len() implies 0 <= #[trigger] g[i] by {}
        lemma_wilder_nonnegative(g, period);
        assert forall|i: int| 0 <= i < rsi(prices, period).len() implies 0 <= #[trigger] rsi(
            prices,
            period,
        )[i] <= 100 by {
            assert(0 <= ag[i]);
            lemma_rsi_value_bounded(ag[i], wilder(losses(prices), period)[i]);
        }
    }
}

/// A series shorter than the period has no moving average, EMA or RSI.
pub proof fn lemma_short_series_have_no_values(prices: Seq<int>, period: nat)
    requires
        prices.len() < period,
    ensures
        sma(prices, period).len() == 0,
        ema(prices, period).len() == 0,
        rsi(prices, period).len() == 0,
{
}

/// The first EMA value is the simple average of the first `period` prices.
pub proof fn lemma_ema_seeded_by_sma(prices: Seq<int>, period: nat)
    requires
        period > 0,
        prices.len() >= period,
    ensures
        ema(prices, period).len() > 0,
        sma(prices.take(period as int), period).len() > 0,
        ema(prices, period)[0] == sma(prices.take(period as int), period)[0],
    decreases prices.len(),
{
    lemma_ema_len(prices, period);
    let first = prices.take(period as int);
    assert(first.subrange(0, period as int) =~= first);
    if prices.len() == period {
        assert(first =~= prices);
    } else {
        let t = prices.drop_last();
        lemma_ema_seeded_by_sma(t, period);
        assert(t.take(period as int) =~= first);
        lemma_ema_len(t, period);
    }
}

// ---------------------------------------------------------------------------
// Executable building blocks

/// Sum of `values[start .. end]`.
fn window_sum(values: &[u64], start: usize, end: usize) -> (r: u128)
    requires
        start <= end <= values.len(),
    ensures
        r == sum(prices_as_ints(values@).subrange(start as int, end as int)),
        r <= (end - start) * MAX_MAGNITUDE,
{
    let ghost s = prices_as_ints(values@);
    let mut acc: u128 = 0;
    let mut k: usize = start;
    while k < end
        invariant
            start <= k <= end <= values.len(),
            s == prices_as_ints(values@),
            acc == sum(s.subrange(start as int, k as int)),
            acc <= (k - start) * MAX_MAGNITUDE,
        decreases end - k,
    {
        proof {
            lemma_sum_push(s, start as int, k as int);
            let m = (k - start) as int;
            assert((m + 1) * MAX_MAGNITUDE == m * MAX_MAGNITUDE + MAX_MAGNITUDE) by (nonlinear_arith);
            assert((m + 1) * MAX_MAGNITUDE <= 0xffff_ffff_ffff_ffff_ffff_ffff_ffff_ffff) by (nonlinear_arith)
                requires
                    m + 1 <= 0xffff_ffff_ffff_ffff,
            ;
        }
        acc = acc + values[k] as u128;
        k = k + 1;
    }
    acc
}

/// Floor of the mean of the first `count` values.
fn prefix_mean(values: &[i128], count: usize, Ghost(lo): Ghost<int>, Ghost(hi): Ghost<int>) -> (m: i128)
    requires
        0 < count <= values.len(),
        -(MAX_MAGNITUDE as int) <= lo <= hi <= MAX_MAGNITUDE,
        forall|i: int| 0 <= i < values.len() ==> lo <= #[trigger] values[i] <= hi,
    ensures
        m == sum(signed_as_ints(values@).take(count as int)) / (count as int),
        lo <= m <= hi,
{
    let ghost s = signed_as_ints(values@);
    let mut pos: u128 = 0;
    let mut neg: u128 = 0;
    let mut k: usize = 0;
    while k < count
        invariant
            0 <= k <= count <= values.len(),
            s == signed_as_ints(values@),
            -(MAX_MAGNITUDE as int) <= lo <= hi <= MAX_MAGNITUDE,
            forall|i: int| 0 <= i < values.len() ==> lo <= #[trigger] values[i] <= hi,
            pos - neg == sum(s.subrange(0, k as int)),
            pos <= k * MAX_MAGNITUDE,
            neg <= k * MAX_MAGNITUDE,
        decreases count - k,
    {
        proof {
            lemma_sum_push(s, 0, k as int);
            let m = k as int;
            assert((m + 1) * MAX_MAGNITUDE == m * MAX_MAGNITUDE + MAX_MAGNITUDE) by (nonlinear_arith);
            assert((m + 1) * MAX_MAGNITUDE <= 0xffff_ffff_ffff_ffff_ffff_ffff_ffff_ffff) by (nonlinear_arith)
                requires
                    m + 1 <= 0xffff_ffff_ffff_ffff,
            ;
        }
        let v = values[k];
        if v >= 0 {
            pos = pos + v as u128;
        } else {
            neg = neg + (0 - v) as u128;
        }
        k = k + 1;
    }
    proof {
        assert(s.subrange(0, count as int) =~= s.take(count as int));
        assert forall|i: int| 0 <= i < s.take(count as int).len() implies lo <= #[trigger] s.take(
            count as int,
        )[i] <= hi by {
            assert(s.take(count as int)[i] == values[i] as int);
        }
        lemma_sum_bounds(s.take(count as int), lo, hi);
        lemma_mean_within(sum(s.take(count as int)), count as int, lo, hi);
    }
    if pos >= neg {
        ((pos - neg) / count as u128) as i128
    } else {
        let y = neg - pos;
        proof {
            lemma_floor_of_negative(y as int, count as int);
            assert(y + count - 1 <= count * 0x1_0000_0000_0000_0000int - 1) by (nonlinear_arith)
                requires
                    y <= count * MAX_MAGNITUDE,
            ;
            assert(count * 0x1_0000_0000_0000_0000int - 1 <= 0xffff_ffff_ffff_ffff_ffff_ffff_ffff_ffff)
                by (nonlinear_arith)
                requires
                    count <= 0xffff_ffff_ffff_ffff,
            ;
        }
        let q = (y + (count as u128 - 1)) / count as u128;
        0 - (q as i128)
    }
}

/// EMA of a signed series whose values lie in `[lo, hi]`; the result stays there too.
fn ema_series(values: &[i128], period: usize, Ghost(lo): Ghost<int>, Ghost(hi): Ghost<int>) -> (r: Vec<i128>)
    requires
        -(MAX_MAGNITUDE as int) <= lo <= hi <= MAX_MAGNITUDE,
        forall|i: int| 0 <= i < values.len() ==> lo <= #[trigger] values[i] <= hi,
    ensures
        signed_as_ints(r@) == ema(signed_as_ints(values@), period as nat),
        forall|i: int| 0 <= i < r.len() ==> lo <= #[trigger] r[i] <= hi,
{
    let ghost s = signed_as_ints(values@);
    let n = values.len();
    let mut result: Vec<i128> = Vec::new();
    if period == 0 || n < period {
        return result;
    }
    let seed = prefix_mean(values, period, Ghost(lo), Ghost(hi));
    result.push(seed);
    proof {
        assert(s.take(period as int).len() == period);
        assert(signed_as_ints(result@) =~= ema(s.take(period as int), period as nat));
    }
    let mut i: usize = period;
    while i < n
        invariant
            0 < period <= i <= n == values.len(),
            s == signed_as_ints(values@),
            -(MAX_MAGNITUDE as int) <= lo <= hi <= MAX_MAGNITUDE,
            forall|k: int| 0 <= k < values.len() ==> lo <= #[trigger] values[k] <= hi,
            signed_as_ints(result@) == ema(s.take(i as int), period as nat),
            result.len() > 0,
            forall|k: int| 0 <= k < result.len() ==> lo <= #[trigger] result[k] <= hi,
        decreases n - i,
    {
        let prev = result[result.len() - 1];
        let price = values[i];
        let next: i128;
        if price >= prev {
            let d = (price - prev) as u128;
            let step = d * 2 / (period as u128 + 1);
            proof {
                lemma_ema_step_between(prev as int, price as int, period as nat);
            }
            next = prev + step as i128;
        } else {
            let d = (prev - price) as u128;
            let step = d * 2 / (period as u128 + 1);
            proof {
                lemma_ema_step_between(prev as int, price as int, period as nat);
            }
            next = prev - step as i128;
        }
        proof {
            let t = s.take(i as int + 1);
            assert(t.drop_last() =~= s.take(i as int));
            assert(t.last() == price as int);
            let e = ema(s.take(i as int), period as nat);
            assert(e.last() == prev as int);
            assert(next as int == ema_step(prev as int, price as int, period as nat));
        }
        result.push(next);
        proof {
            let t = s.take(i as int + 1);
            assert(signed_as_ints(result@) =~= ema(t, period as nat));
        }
        i = i + 1;
    }
    proof {
        assert(s.take(n as int) =~= s);
    }
    result
}

/// The prices as a signed series, value for value.
pub fn widen(prices: &[u64]) -> (r: Vec<i128>)
    ensures
        signed_as_ints(r@) == prices_as_ints(prices@),
        forall|i: int| 0 <= i < r.len() ==> 0 <= #[trigger] r[i] <= MAX_MAGNITUDE,
{
    let mut r: Vec<i128> = Vec::new();
    let mut i: usize = 0;
    while i < prices.len()
        invariant
            i <= prices.len(),
            r.len() == i,
            forall|k: int| 0 <= k < i ==> #[trigger] r[k] == prices[k] as i128,
        decreases prices.len() - i,
    {
        r.push(prices[i] as i128);
        i = i + 1;
    }
    assert(signed_as_ints(r@) =~= prices_as_ints(prices@));
    r
}

/// Up and down moves between consecutive prices.
fn price_changes(prices: &[u64]) -> (r: (Vec<u64>, Vec<u64>))
    requires
        prices.len() > 0,
    ensures
        prices_as_ints(r.0@) == gains(prices_as_ints(prices@)),
        prices_as_ints(r.1@) == losses(prices_as_ints(prices@)),
{
    let ghost s = prices_as_ints(prices@);
    let mut up: Vec<u64> = Vec::new();
    let mut down: Vec<u64> = Vec::new();
    let mut i: usize = 1;
    while i < prices.len()
        invariant
            1 <= i <= prices.len(),
            s == prices_as_ints(prices@),
            up.len() == i - 1,
            down.len() == i - 1,
            forall|k: int| 0 <= k < i - 1 ==> #[trigger] up[k] == gains(s)[k],
            forall|k: int| 0 <= k < i - 1 ==> #[trigger] down[k] == losses(s)[k],
        decreases prices.len() - i,
    {
        let a = prices[i - 1];
        let b = prices[i];
        if b > a {
            up.push(b - a);
            down.push(0);
        } else if b < a {
            up.push(0);
            down.push(a - b);
        } else {
            up.push(0);
            down.push(0);
        }
        i = i + 1;
    }
    assert(prices_as_ints(up@) =~= gains(s));
    assert(prices_as_ints(down@) =~= losses(s));
    (up, down)
}

fn rsi_point(avg_gain: u64, avg_loss: u64) -> (r: u64)
    ensures
        r == rsi_value(avg_gain as int, avg_loss as int),
        r <= 100,
{
    proof {
        assert(avg_gain * LOSS_FLOOR_INVERSE <= 0xffff_ffff_ffff_ffff * 100_000) by (nonlinear_arith);
        assert(avg_loss * LOSS_FLOOR_INVERSE <= 0xffff_ffff_ffff_ffff * 100_000) by (nonlinear_arith);
        lemma_rsi_value_bounded(avg_gain as int, avg_loss as int);
    }
    let gain = avg_gain as u128 * LOSS_FLOOR_INVERSE as u128;
    let loss: u128 = if avg_loss > 0 {
        avg_loss as u128 * LOSS_FLOOR_INVERSE as u128
    } else {
        1
    };
    (100 * gain / (gain + loss)) as u64
}

fn wilder_step(avg: u64, value: u64, period: usize) -> (r: u64)
    requires
        period > 0,
    ensures
        r == (avg * (period - 1) + value) / (period as int),
{
    proof {
        let a = avg as int;
        let p = period as int;
        let m = MAX_MAGNITUDE as int;
        assert(a * (p - 1) + value <= p * m) by (nonlinear_arith)
            requires
                0 <= a <= m,
                0 <= value <= m,
                p >= 1,
        ;
        assert(p * m <= 0xffff_ffff_ffff_ffff_ffff_ffff_ffff_ffff) by (nonlinear_arith)
            requires
                p <= m,
                m == 0xffff_ffff_ffff_ffff,
        ;
        assert(0 <= a * (p - 1)) by (nonlinear_arith)
            requires
                a >= 0,
                p >= 1,
        ;
        lemma_mean_within(a * (p - 1) + value, p, 0, m);
    }
    let total = avg as u128 * (period as u128 - 1) + value as u128;
    (total / period as u128) as u64
}

// ---------------------------------------------------------------------------
// Public indicators

/// Simple and exponential moving averages.
#[derive(Debug)]
pub struct MovingAverageIndicator;

impl MovingAverageIndicator {
    pub fn new() -> (r: Self) {
        MovingAverageIndicator
    }

    /// Simple moving average over each window of `period` prices; none for
    /// a period of zero or a series shorter than the period.
    pub fn calculate_sma(&self, prices: &[u64], period: usize) -> (r: Vec<u64>)
        ensures
            prices_as_ints(r@) == sma(prices_as_ints(prices@), period as nat),
            prices.len() < period ==> r.len() == 0,
    {
        let ghost s = prices_as_ints(prices@);
        let n = prices.len();
        let mut result: Vec<u64> = Vec::new();
        if period == 0 || n < period {
            proof {
                assert(prices_as_ints(result@) =~= sma(s, period as nat));
            }
            return result;
        }
        let count = n - period + 1;
        let mut i: usize = 0;
        while i < count
            invariant
                0 < period <= n == prices.len(),
                count == n - period + 1,
                i <= count,
                s == prices_as_ints(prices@),
                result.len() == i,
                forall|j: int|
                    0 <= j < i ==> #[trigger] result[j] as int == sum(s.subrange(j, j + period))
                        / (period as int),
            decreases count - i,
        {
            let total = window_sum(prices, i, i + period);
            proof {
                lemma_mean_within(total as int, period as int, 0, MAX_MAGNITUDE as int);
            }
            let mean = total / period as u128;
            result.push(mean as u64);
            i = i + 1;
        }
        proof {
            assert(prices_as_ints(result@) =~= sma(s, period as nat));
        }
        result
    }

    /// Exponential moving average with multiplier `2 / (period + 1)`; none
    /// for a period of zero or a series shorter than the period.
    pub fn calculate_ema(&self, prices: &[u64], period: usize) -> (r: Vec<u64>)
        ensures
            prices_as_ints(r@) == ema(prices_as_ints(prices@), period as nat),
            prices.len() < period ==> r.len() == 0,
    {
        let wide = widen(prices);
        let values = ema_series(wide.as_slice(), period, Ghost(0), Ghost(MAX_MAGNITUDE as int));
        let mut r: Vec<u64> = Vec::new();
        let mut i: usize = 0;
        while i < values.len()
            invariant
                i <= values.len(),
                r.len() == i,
                forall|k: int| 0 <= k < values.len() ==> 0 <= #[trigger] values[k] <= MAX_MAGNITUDE,
                forall|k: int| 0 <= k < i ==> #[trigger] r[k] as int == values[k] as int,
            decreases values.len() - i,
        {
            r.push(values[i] as u64);
            i = i + 1;
        }
        proof {
            assert(prices_as_ints(r@) =~= signed_as_ints(values@));
            lemma_ema_len(prices_as_ints(prices@), period as nat);
        }
        r
    }
}

/// Relative strength index with Wilder smoothing.
#[derive(Debug)]
pub struct RSIIndicator;

impl RSIIndicator {
    pub fn new() -> (r: Self) {
        RSIIndicator
    }

    /// One RSI value per price after the first `period` price changes,
    /// each between 0 and 100 (see `rsi_value` for the floor of 1e-5 on the
    /// average loss).
    pub fn calculate(&self, prices: &[u64], period: usize) -> (r: Vec<u64>)
        ensures
            prices_as_ints(r@) == rsi(prices_as_ints(prices@), period as nat),
            prices.len() < period ==> r.len() == 0,
            forall|i: int| 0 <= i < r.len() ==> #[trigger] r[i] <= 100,
    {
        let ghost s = prices_as_ints(prices@);
        let n = prices.len();
        if period == 0 || n <= period {
            let r: Vec<u64> = Vec::new();
            proof {
                assert(prices_as_ints(r@) =~= rsi(s, period as nat));
            }
            return r;
        }
        let (up, down) = price_changes(prices);
        let ghost g = gains(s);
        let ghost l = losses(s);
        let m = n - 1;
        proof {
            assert(prices_as_ints(up@).len() == up.len());
            assert(prices_as_ints(down@).len() == down.len());
            assert forall|k: int| 0 <= k < g.len() implies 0 <= #[trigger] g[k] <= MAX_MAGNITUDE by {
                assert(g[k] == up[k] as int);
            }
            assert forall|k: int| 0 <= k < l.len() implies 0 <= #[trigger] l[k] <= MAX_MAGNITUDE by {
                assert(l[k] == down[k] as int);
            }
        }
        let gain_total = window_sum(up.as_slice(), 0, period);
        let loss_total = window_sum(down.as_slice(), 0, period);
        proof {
            lemma_mean_within(gain_total as int, period as int, 0, MAX_MAGNITUDE as int);
            lemma_mean_within(loss_total as int, period as int, 0, MAX_MAGNITUDE as int);
        }
        let mut avg_gain: u64 = (gain_total / period as u128) as u64;
        let mut avg_loss: u64 = (loss_total / period as u128) as u64;
        let mut result: Vec<u64> = Vec::new();
        result.push(rsi_point(avg_gain, avg_loss));
        proof {
            assert(g.subrange(0, period as int) =~= g.take(period as int));
            assert(l.subrange(0, period as int) =~= l.take(period as int));
            assert(wilder(g.take(period as int), period as nat) =~= seq![avg_gain as int]);
            assert(wilder(l.take(period as int), period as nat) =~= seq![avg_loss as int]);
            assert(prices_as_ints(result@) =~= rsi_of_averages(
                wilder(g.take(period as int), period as nat),
                wilder(l.take(period as int), period as nat),
            ));
        }
        let mut i: usize = period;
        while i < m
            invariant
                0 < period <= i <= m,
                m == n - 1,
                n == prices.len(),
                up.len() == m,
                down.len() == m,
                g == prices_as_ints(up@),
                l == prices_as_ints(down@),
                wilder(g.take(i as int), period as nat).last() == avg_gain,
                wilder(l.take(i as int), period as nat).last() == avg_loss,
                wilder(g.take(i as int), period as nat).len() == i - period + 1,
                wilder(l.take(i as int), period as nat).len() == i - period + 1,
                prices_as_ints(result@) == rsi_of_averages(
                    wilder(g.take(i as int), period as nat),
                    wilder(l.take(i as int), period as nat),
                ),
                forall|k: int| 0 <= k < result.len() ==> #[trigger] result[k] <= 100,
            decreases m - i,
        {
            let ghost wg = wilder(g.take(i as int), period as nat);
            let ghost wl = wilder(l.take(i as int), period as nat);
            let ghost before = result@;
            avg_gain = wilder_step(avg_gain, up[i], period);
            avg_loss = wilder_step(avg_loss, down[i], period);
            let point = rsi_point(avg_gain, avg_loss);
            result.push(point);
            proof {
                let tg = g.take(i as int + 1);
                let tl = l.take(i as int + 1);
                assert(tg.drop_last() =~= g.take(i as int));
                assert(tl.drop_last() =~= l.take(i as int));
                assert(wilder(tg, period as nat) == wg.push(avg_gain as int));
                assert(wilder(tl, period as nat) == wl.push(avg_loss as int));
                assert(prices_as_ints(result@) =~= prices_as_ints(before).push(point as int));
                lemma_rsi_of_averages_push(wg, wl, avg_gain as int, avg_loss as int);
            }
            i = i + 1;
        }
        proof {
            assert(g.take(m as int) =~= g);
            assert(l.take(m as int) =~= l);
        }
        result
    }
}

/// Moving average convergence/divergence.
#[derive(Debug)]
pub struct MACDIndicator;

impl MACDIndicator {
    pub fn new() -> (r: Self) {
        MACDIndicator
    }

    /// The MACD line (fast EMA minus slow EMA, aligned at their ends), the
    /// signal line (EMA of the MACD line) and the histogram (MACD line minus
    /// signal line, aligned at their ends).
    pub fn calculate(
        &self,
        prices: &[u64],
        fast_period: usize,
        slow_period: usize,
        signal_period: usize,
    ) -> (r: (Vec<i128>, Vec<i128>, Vec<i128>))
        ensures
            signed_as_ints(r.0@) == macd_line(
                prices_as_ints(prices@),
                fast_period as nat,
                slow_period as nat,
            ),
            signed_as_ints(r.1@) == macd_signal(
                prices_as_ints(prices@),
                fast_period as nat,
                slow_period as nat,
                signal_period as nat,
            ),
            signed_as_ints(r.2@) == macd_histogram(
                prices_as_ints(prices@),
                fast_period as nat,
                slow_period as nat,
                signal_period as nat,
            ),
    {
        let ghost s = prices_as_ints(prices@);
        let wide = widen(prices);
        let fast = ema_series(wide.as_slice(), fast_period, Ghost(0), Ghost(MAX_MAGNITUDE as int));
        let slow = ema_series(wide.as_slice(), slow_period, Ghost(0), Ghost(MAX_MAGNITUDE as int));
        let line = difference_at_ends(&fast, &slow);
        proof {
            assert forall|i: int| 0 <= i < line.len() implies -MAX_MAGNITUDE <= #[trigger] line[i]
                <= MAX_MAGNITUDE by {
                assert(0 <= fast[fast.len() - line.len() + i] <= MAX_MAGNITUDE);
                assert(0 <= slow[slow.len() - line.len() + i] <= MAX_MAGNITUDE);
            }
        }
        let signal = ema_series(
            line.as_slice(),
            signal_period,
            Ghost(-(MAX_MAGNITUDE as int)),
            Ghost(MAX_MAGNITUDE as int),
        );
        let histogram = difference_at_ends(&line, &signal);
        proof {
            assert(signed_as_ints(wide@) == s);
        }
        (line, signal, histogram)
    }
}

/// `a - b` over the last `min(a.len(), b.len())` entries of each.
fn difference_at_ends(a: &Vec<i128>, b: &Vec<i128>) -> (r: Vec<i128>)
    requires
        forall|i: int| 0 <= i < a.len() ==> -MAX_MAGNITUDE <= #[trigger] a[i] <= MAX_MAGNITUDE,
        forall|i: int| 0 <= i < b.len() ==> -MAX_MAGNITUDE <= #[trigger] b[i] <= MAX_MAGNITUDE,
    ensures
        signed_as_ints(r@) == aligned_difference(signed_as_ints(a@), signed_as_ints(b@)),
        r.len() <= a.len(),
        r.len() <= b.len(),
        forall|i: int|
            0 <= i < r.len() ==> #[trigger] r[i] == a[a.len() - r.len() + i] - b[b.len() - r.len()
                + i],
{
    let n = if a.len() <= b.len() {
        a.len()
    } else {
        b.len()
    };
    let a_off = a.len() - n;
    let b_off = b.len() - n;
    let mut r: Vec<i128> = Vec::new();
    let mut i: usize = 0;
    while i < n
        invariant
            i <= n,
            n <= a.len(),
            n <= b.len(),
            a_off == a.len() - n,
            b_off == b.len() - n,
            r.len() == i,
            forall|k: int| 0 <= k < a.len() ==> -MAX_MAGNITUDE <= #[trigger] a[k] <= MAX_MAGNITUDE,
            forall|k: int| 0 <= k < b.len() ==> -MAX_MAGNITUDE <= #[trigger] b[k] <= MAX_MAGNITUDE,
            forall|k: int| 0 <= k < i ==> #[trigger] r[k] == a[a_off + k] - b[b_off + k],
        decreases n - i,
    {
        r.push(a[a_off + i] - b[b_off + i]);
        i = i + 1;
    }
    assert(signed_as_ints(r@) =~= aligned_difference(signed_as_ints(a@), signed_as_ints(b@)));
    r
}

} // verus!
