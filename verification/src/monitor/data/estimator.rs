//! Rates and remaining times from a window of samples.
//!
//! A rate is kept as an exact fraction, so that nothing is lost to rounding
//! before a remaining time is taken from it.

use vstd::prelude::*;

verus! {

/// A rate of change: `amount` units, gained or lost, over `seconds` seconds.
///
/// A rate with `amount == 0` or `seconds == 0` is the zero rate.
#[derive(Clone, Copy, Debug, PartialEq, Eq, Structural)]
pub struct Rate {
    /// Whether the value grew over the window.
    pub rising: bool,
    /// By how much the value changed over the window.
    pub amount: u64,
    /// The length of the window in seconds.
    pub seconds: u128,
}

/// When a value is expected to reach its goal.
#[derive(Clone, Copy, Debug, PartialEq, Eq, Structural)]
pub enum Eta {
    /// In this many whole seconds.
    Seconds(u64),
    /// No projection can be made yet.
    Calculating,
    /// The goal has been reached.
    Complete,
}

/// A window drives a rate once it holds three samples taken at least a
/// second apart.
pub open spec fn meaningful(samples: nat, interval: nat) -> bool {
    samples >= 3 && interval >= 1
}

/// The distance between two values.
pub open spec fn distance(a: int, b: int) -> nat {
    if a <= b {
        (b - a) as nat
    } else {
        (a - b) as nat
    }
}

/// The rate between the oldest and the newest of `samples` samples taken
/// `interval` seconds apart.
pub open spec fn spec_window_rate(oldest: int, newest: int, samples: nat, interval: nat) -> Rate {
    if meaningful(samples, interval) && oldest != newest {
        Rate {
            rising: newest > oldest,
            amount: distance(oldest, newest) as u64,
            seconds: ((samples - 1) * interval) as u128,
        }
    } else {
        Rate::spec_zero()
    }
}

/// The rate of a series of signed samples, oldest first.
pub open spec fn spec_series_rate(series: Seq<i64>, interval: nat) -> Rate {
    if series.len() == 0 {
        Rate::spec_zero()
    } else {
        spec_window_rate(series.first() as int, series.last() as int, series.len(), interval)
    }
}

/// The rate of a series of counter readings, oldest first.
pub open spec fn spec_counter_rate(series: Seq<u64>, interval: nat) -> Rate {
    if series.len() == 0 {
        Rate::spec_zero()
    } else {
        spec_window_rate(series.first() as int, series.last() as int, series.len(), interval)
    }
}

/// Whole seconds that `remaining` units take at `amount` units per
/// `seconds` seconds, rounded down.
pub open spec fn whole_seconds(remaining: nat, amount: nat, seconds: nat) -> nat
    recommends
        amount > 0,
{
    (remaining * seconds) / amount
}

/// `n`, or the largest `u64` where `n` does not fit.
pub open spec fn clamped(n: nat) -> u64 {
    if n <= u64::MAX {
        n as u64
    } else {
        u64::MAX
    }
}

/// The remaining time of a value that is to fall to zero.
pub open spec fn spec_eta_to_zero(current: int, rate: Rate) -> Eta {
    if current <= 0 {
        Eta::Complete
    } else if rate.falls() {
        Eta::Seconds(
            clamped(whole_seconds(current as nat, rate.amount as nat, rate.seconds as nat)),
        )
    } else {
        Eta::Calculating
    }
}

/// The remaining time of a counter that is to rise to `goal`.
pub open spec fn spec_eta_to_goal(current: nat, goal: nat, rate: Rate) -> Option<u64> {
    if rate.rises() && current < goal {
        Some(
            clamped(
                whole_seconds((goal - current) as nat, rate.amount as nat, rate.seconds as nat),
            ),
        )
    } else {
        None
    }
}

impl Rate {
    /// The zero rate.
    pub open spec fn spec_zero() -> Rate {
        Rate { rising: false, amount: 0, seconds: 1 }
    }

    /// Whether this is a zero rate.
    pub open spec fn is_zero(self) -> bool {
        self.amount == 0 || self.seconds == 0
    }

    /// Whether the value is moving down.
    pub open spec fn falls(self) -> bool {
        !self.is_zero() && !self.rising
    }

    /// Whether the value is moving up.
    pub open spec fn rises(self) -> bool {
        !self.is_zero() && self.rising
    }

    /// The zero rate.
    #[verifier::when_used_as_spec(spec_zero)]
    pub fn zero() -> (rate: Rate)
        ensures
            rate == Rate::spec_zero(),
    {
        Rate { rising: false, amount: 0, seconds: 1 }
    }
}

/// The rate between the oldest and the newest of `samples` samples taken
/// `interval` seconds apart: zero unless the window is meaningful.
pub fn window_rate(oldest: i64, newest: i64, samples: usize, interval: u64) -> (rate: Rate)
    ensures
        rate == spec_window_rate(oldest as int, newest as int, samples as nat, interval as nat),
{
    if samples < 3 || interval < 1 || oldest == newest {
        return Rate::zero();
    }
    let steps: u128 = (samples - 1) as u128;
    assert(steps * (interval as u128) <= u128::MAX) by (nonlinear_arith)
        requires
            steps <= 0xffff_ffff_ffff_ffff,
            interval <= 0xffff_ffff_ffff_ffff,
    ;
    let seconds: u128 = steps * (interval as u128);
    let amount: u64 = if newest > oldest {
        (newest as i128 - oldest as i128) as u64
    } else {
        (oldest as i128 - newest as i128) as u64
    };
    Rate { rising: newest > oldest, amount, seconds }
}

/// The rate between the oldest and the newest of `samples` counter readings
/// taken `interval` seconds apart: zero unless the window is meaningful.
pub fn counter_window_rate(oldest: u64, newest: u64, samples: usize, interval: u64) -> (rate: Rate)
    ensures
        rate == spec_window_rate(oldest as int, newest as int, samples as nat, interval as nat),
{
    if samples < 3 || interval < 1 || oldest == newest {
        return Rate::zero();
    }
    let steps: u128 = (samples - 1) as u128;
    assert(steps * (interval as u128) <= u128::MAX) by (nonlinear_arith)
        requires
            steps <= 0xffff_ffff_ffff_ffff,
            interval <= 0xffff_ffff_ffff_ffff,
    ;
    let seconds: u128 = steps * (interval as u128);
    let amount: u64 = if newest > oldest {
        newest - oldest
    } else {
        oldest - newest
    };
    Rate { rising: newest > oldest, amount, seconds }
}

/// The rate of a series of signed samples, oldest first.
pub fn series_rate(series: &Vec<i64>, interval: u64) -> (rate: Rate)
    ensures
        rate == spec_series_rate(series@, interval as nat),
{
    let n: usize = series.len();
    if n == 0 {
        Rate::zero()
    } else {
        window_rate(series[0], series[n - 1], n, interval)
    }
}

/// The rate of a series of counter readings, oldest first.
pub fn counter_rate(series: &Vec<u64>, interval: u64) -> (rate: Rate)
    ensures
        rate == spec_counter_rate(series@, interval as nat),
{
    let n: usize = series.len();
    if n == 0 {
        Rate::zero()
    } else {
        counter_window_rate(series[0], series[n - 1], n, interval)
    }
}

/// Division distributes over a dividend split by the divisor.
proof fn lemma_split_quotient(remaining: nat, amount: nat, seconds: nat)
    requires
        amount > 0,
    ensures
        (remaining * seconds) / amount == remaining * (seconds / amount) + (remaining * (seconds
            % amount)) / amount,
{
    let q = seconds / amount;
    let r = seconds % amount;
    assert(seconds == q * amount + r) by {
        vstd::arithmetic::div_mod::lemma_fundamental_div_mod(seconds as int, amount as int);
    }
    assert(remaining * seconds == (remaining * q) * amount + remaining * r) by (nonlinear_arith)
        requires
            seconds == q * amount + r,
    ;
    vstd::arithmetic::div_mod::lemma_div_multiples_vanish_fancy(
        (remaining * q) as int,
        ((remaining * r) % amount) as int,
        amount as int,
    );
    vstd::arithmetic::div_mod::lemma_fundamental_div_mod((remaining * r) as int, amount as int);
    vstd::arithmetic::div_mod::lemma_hoist_over_denominator(
        (remaining * r) as int,
        (remaining * q) as int,
        amount,
    );
}

/// Whole seconds that `remaining` units take at `amount` units per
/// `seconds` seconds, rounded down and clamped.
fn remaining_seconds(remaining: u64, amount: u64, seconds: u128) -> (t: u64)
    requires
        amount > 0,
    ensures
        t == clamped(whole_seconds(remaining as nat, amount as nat, seconds as nat)),
{
    let q: u128 = seconds / (amount as u128);
    let r: u128 = seconds % (amount as u128);
    proof {
        lemma_split_quotient(remaining as nat, amount as nat, seconds as nat);
    }
    if remaining == 0 {
        assert(0 * (seconds as nat) == 0) by (nonlinear_arith);
        return 0;
    }
    if q > u64::MAX as u128 {
        assert((remaining as nat) * (q as nat) > u64::MAX) by (nonlinear_arith)
            requires
                remaining >= 1,
                q > u64::MAX,
        ;
        return u64::MAX;
    }
    assert((remaining as u128) * q <= 0xffff_ffff_ffff_ffff * 0xffff_ffff_ffff_ffff)
        by (nonlinear_arith)
        requires
            remaining <= 0xffff_ffff_ffff_ffff,
            q <= 0xffff_ffff_ffff_ffff,
    ;
    assert((remaining as u128) * r <= 0xffff_ffff_ffff_ffff * 0xffff_ffff_ffff_ffff)
        by (nonlinear_arith)
        requires
            remaining <= 0xffff_ffff_ffff_ffff,
            r <= 0xffff_ffff_ffff_ffff,
    ;
    let whole: u128 = (remaining as u128) * q;
    let part: u128 = ((remaining as u128) * r) / (amount as u128);
    assert(part <= remaining) by {
        assert((remaining as int) * (r as int) <= (remaining as int) * (amount as int))
            by (nonlinear_arith)
            requires
                r < amount,
                remaining >= 0,
        ;
        vstd::arithmetic::div_mod::lemma_div_is_ordered(
            (remaining as int) * (r as int),
            (remaining as int) * (amount as int),
            amount as int,
        );
        vstd::arithmetic::div_mod::lemma_div_multiples_vanish(remaining as int, amount as int);
    }
    let total: u128 = whole + part;
    if total > u64::MAX as u128 {
        u64::MAX
    } else {
        total as u64
    }
}

/// The remaining time of a value that is to fall to zero: complete at zero,
/// a number of seconds while the value falls, and no projection otherwise.
pub fn eta_to_zero(current: i64, rate: Rate) -> (eta: Eta)
    ensures
        eta == spec_eta_to_zero(current as int, rate),
{
    if current <= 0 {
        Eta::Complete
    } else if rate.amount > 0 && rate.seconds > 0 && !rate.rising {
        Eta::Seconds(remaining_seconds(current as u64, rate.amount, rate.seconds))
    } else {
        Eta::Calculating
    }
}

/// The remaining time of a counter that is to rise to `goal`: a number of
/// seconds while the counter rises and is short of the goal.
pub fn eta_to_goal(current: u64, goal: u64, rate: Rate) -> (eta: Option<u64>)
    ensures
        eta == spec_eta_to_goal(current as nat, goal as nat, rate),
{
    if rate.amount > 0 && rate.seconds > 0 && rate.rising && current < goal {
        Some(remaining_seconds(goal - current, rate.amount, rate.seconds))
    } else {
        None
    }
}

/// A series of fewer than three samples has the zero rate, whatever the
/// interval; its remaining time is complete where the current value is at or
/// below zero, and not yet known otherwise.
pub proof fn lemma_short_series_has_no_rate(series: Seq<i64>, interval: nat, current: int)
    requires
        series.len() < 3,
    ensures
        spec_series_rate(series, interval) == Rate::spec_zero(),
        spec_series_rate(series, interval).is_zero(),
        current <= 0 ==> spec_eta_to_zero(current, spec_series_rate(series, interval))
            == Eta::Complete,
        current > 0 ==> spec_eta_to_zero(current, spec_series_rate(series, interval))
            == Eta::Calculating,
{
}

/// The same holds of a series of fewer than three counter readings, and no
/// remaining time to a goal is projected from it.
pub proof fn lemma_short_counter_series_has_no_rate(
    series: Seq<u64>,
    interval: nat,
    current: nat,
    goal: nat,
)
    requires
        series.len() < 3,
    ensures
        spec_counter_rate(series, interval) == Rate::spec_zero(),
        spec_eta_to_goal(current, goal, spec_counter_rate(series, interval)) == None::<u64>,
{
}

/// A series of at least three samples that falls by `step` from each sample
/// to the next, taken `interval` seconds apart, has the rate `step` per
/// `interval` exactly, and a current value above zero is projected to reach
/// zero in `current * interval / step` seconds, rounded down.
pub proof fn lemma_constant_fall(series: Seq<i64>, interval: nat, step: nat)
    requires
        3 <= series.len() <= usize::MAX,
        1 <= interval <= u64::MAX,
        step >= 1,
        forall|i: int| 0 <= i < series.len() ==> #[trigger] series[i] == series[0] - i * step,
    ensures
        spec_series_rate(series, interval).falls(),
        spec_series_rate(series, interval).amount * interval == step * spec_series_rate(
            series,
            interval,
        ).seconds,
        series.last() > 0 ==> spec_eta_to_zero(
            series.last() as int,
            spec_series_rate(series, interval),
        ) == Eta::Seconds(clamped((series.last() as nat * interval) / step)),
{
    let n = series.len();
    let steps = (n - 1) as nat;
    let oldest = series[0] as int;
    let newest = series[n - 1] as int;
    assert(newest == oldest - steps * step);
    assert(steps * step >= 1) by (nonlinear_arith)
        requires
            steps >= 2,
            step >= 1,
    ;
    assert(1 <= steps * interval <= u128::MAX) by (nonlinear_arith)
        requires
            2 <= steps <= 0xffff_ffff_ffff_ffff,
            1 <= interval <= 0xffff_ffff_ffff_ffff,
    ;
    let rate = spec_series_rate(series, interval);
    assert(distance(oldest, newest) == steps * step);
    assert(rate.amount == steps * step);
    assert(rate.seconds == steps * interval);
    assert((steps * step) * interval == step * (steps * interval)) by (nonlinear_arith);
    if newest > 0 {
        let current = newest as nat;
        assert(current * (steps * interval) == steps * (current * interval)) by (nonlinear_arith);
        vstd::arithmetic::div_mod::lemma_div_multiples_vanish_quotient(
            steps as int,
            (current * interval) as int,
            step as int,
        );
        assert(whole_seconds(current, rate.amount as nat, rate.seconds as nat) == (current
            * interval) / step);
    }
}

/// A series of at least three counter readings that rises by `step` from
/// each reading to the next, taken `interval` seconds apart, has the rate
/// `step` per `interval` exactly, and a reading short of `goal` is projected
/// to reach it in `(goal - current) * interval / step` seconds, rounded down.
pub proof fn lemma_constant_rise(series: Seq<u64>, interval: nat, step: nat, goal: nat)
    requires
        3 <= series.len() <= usize::MAX,
        1 <= interval <= u64::MAX,
        step >= 1,
        forall|i: int| 0 <= i < series.len() ==> #[trigger] series[i] == series[0] + i * step,
    ensures
        spec_counter_rate(series, interval).rises(),
        spec_counter_rate(series, interval).amount * interval == step * spec_counter_rate(
            series,
            interval,
        ).seconds,
        series.last() < goal ==> spec_eta_to_goal(
            series.last() as nat,
            goal,
            spec_counter_rate(series, interval),
        ) == Some(clamped((((goal - series.last()) as nat) * interval) / step)),
{
    let n = series.len();
    let steps = (n - 1) as nat;
    let oldest = series[0] as int;
    let newest = series[n - 1] as int;
    assert(newest == oldest + steps * step);
    assert(steps * step >= 1) by (nonlinear_arith)
        requires
            steps >= 2,
            step >= 1,
    ;
    assert(1 <= steps * interval <= u128::MAX) by (nonlinear_arith)
        requires
            2 <= steps <= 0xffff_ffff_ffff_ffff,
            1 <= interval <= 0xffff_ffff_ffff_ffff,
    ;
    let rate = spec_counter_rate(series, interval);
    assert(distance(oldest, newest) == steps * step);
    assert(rate.amount == steps * step);
    assert(rate.seconds == steps * interval);
    assert((steps * step) * interval == step * (steps * interval)) by (nonlinear_arith);
    if newest < goal {
        let remaining = (goal - newest) as nat;
        assert(remaining * (steps * interval) == steps * (remaining * interval))
            by (nonlinear_arith);
        vstd::arithmetic::div_mod::lemma_div_multiples_vanish_quotient(
            steps as int,
            (remaining * interval) as int,
            step as int,
        );
        assert(whole_seconds(remaining, rate.amount as nat, rate.seconds as nat) == (remaining
            * interval) / step);
    }
}

} // verus!
