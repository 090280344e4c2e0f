//! Vesting periods: evenly spaced windows over which a grant unlocks.

use vstd::prelude::*;

use vstd::arithmetic::mul::lemma_mul_inequality;
use vstd::arithmetic::mul::lemma_mul_is_distributive_add_other_way;

verus! {

/// Without an explicit schedule, a grant vests over this many periods ...
pub const DEFAULT_NUM_VESTING_PERIODS: u64 = 8;

/// ... of three months of thirty days each.
pub const DEFAULT_VESTING_PERIOD_SECONDS: u64 = 3 * 30 * 86400;

/// One vesting period: it starts at `start_time` and runs `period_seconds`.
#[derive(Clone, Copy, PartialEq, Eq, Structural, Debug)]
pub struct VestingPeriod {
    pub start_time: u64,
    pub period_seconds: u64,
}

impl VestingPeriod {
    /// When the period ends, in seconds of the same clock.
    pub fn end_time(&self) -> (r: u64)
        requires
            self.start_time + self.period_seconds <= u64::MAX,
        ensures
            r == self.start_time + self.period_seconds,
    {
        self.start_time + self.period_seconds
    }
}

/// How a grant vests: over how many periods of which length. Left out, each
/// falls back to its default.
#[derive(Clone, Copy, PartialEq, Eq, Structural, Debug)]
pub struct VestingSpecification {
    pub period_seconds_override: Option<u64>,
    pub num_periods_override: Option<u64>,
}

impl VestingSpecification {
    pub open spec fn spec_period_seconds(&self) -> u64 {
        match self.period_seconds_override {
            Some(s) => s,
            None => DEFAULT_VESTING_PERIOD_SECONDS,
        }
    }

    pub open spec fn spec_num_periods(&self) -> u64 {
        match self.num_periods_override {
            Some(n) => n,
            None => DEFAULT_NUM_VESTING_PERIODS,
        }
    }

    pub fn new(period_seconds: Option<u64>, num_periods: Option<u64>) -> (r: Self)
        ensures
            r.period_seconds_override == period_seconds,
            r.num_periods_override == num_periods,
    {
        VestingSpecification {
            period_seconds_override: period_seconds,
            num_periods_override: num_periods,
        }
    }

    pub fn period_seconds(&self) -> (r: u64)
        ensures
            r == self.spec_period_seconds(),
    {
        match self.period_seconds_override {
            Some(s) => s,
            None => DEFAULT_VESTING_PERIOD_SECONDS,
        }
    }

    pub fn num_periods(&self) -> (r: u64)
        ensures
            r == self.spec_num_periods(),
    {
        match self.num_periods_override {
            Some(n) => n,
            None => DEFAULT_NUM_VESTING_PERIODS,
        }
    }
}

/// Lays out the vesting periods back to back from `start_time`: period `i`
/// starts exactly `i` period lengths after the start.
pub fn populate_vesting_periods(start_time: u64, vesting_spec: VestingSpecification) -> (r: Vec<
    VestingPeriod,
>)
    requires
        vesting_spec.spec_num_periods() <= usize::MAX,
        start_time + vesting_spec.spec_num_periods() * vesting_spec.spec_period_seconds()
            <= u64::MAX,
    ensures
        r@.len() == vesting_spec.spec_num_periods(),
        forall|i: int| 0 <= i < r@.len()
            ==> (#[trigger] r@[i]).start_time == start_time + i * vesting_spec.spec_period_seconds(),
        forall|i: int| 0 <= i < r@.len()
            ==> (#[trigger] r@[i]).period_seconds == vesting_spec.spec_period_seconds(),
{
    let num = vesting_spec.num_periods();
    let period = vesting_spec.period_seconds();
    let mut periods: Vec<VestingPeriod> = Vec::new();
    let mut i: u64 = 0;
    let mut cur = start_time;
    while i < num
        invariant
            i <= num,
            num <= usize::MAX,
            period == vesting_spec.spec_period_seconds(),
            num == vesting_spec.spec_num_periods(),
            start_time + num * period <= u64::MAX,
            cur == start_time + i * period,
            periods@.len() == i,
            forall|x: int| 0 <= x < i
                ==> (#[trigger] periods@[x]).start_time == start_time + x * period,
            forall|x: int| 0 <= x < i ==> (#[trigger] periods@[x]).period_seconds == period,
        decreases num - i,
    {
        proof {
            lemma_mul_inequality(i as int + 1, num as int, period as int);
            lemma_mul_is_distributive_add_other_way(period as int, i as int, 1);
        }
        periods.push(VestingPeriod { start_time: cur, period_seconds: period });
        cur = cur + period;
        i = i + 1;
    }
    periods
}

} // verus!
