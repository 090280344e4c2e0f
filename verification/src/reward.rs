//! Node reward parameters.
//!
//! The directory side scores a node by its measured performance, a
//! percentage. Here a percentage is an exact fixed-point fraction of one:
//! `atomics` parts of `PERCENT_SCALE`, never more than the whole.

use vstd::prelude::*;

verus! {

/// One whole, in atomic fixed-point units.
pub const PERCENT_SCALE: u64 = 1_000_000_000_000_000_000;

/// An exact percentage: a fraction of one, at `PERCENT_SCALE` resolution.
#[derive(Clone, Copy, PartialEq, Eq, Structural, Debug)]
pub struct Percent {
    atomics: u64,
}

/// A percentage value outside the unit range was refused.
#[derive(Debug)]
pub enum PercentError {
    ValueOutOfRange,
}

impl Percent {
    /// The fraction in atomic units; at most the whole.
    pub closed spec fn spec_atomics(&self) -> u64 {
        self.atomics
    }

    pub open spec fn wf(&self) -> bool {
        self.spec_atomics() <= PERCENT_SCALE
    }

    /// Exactly one hundred percent.
    pub fn hundred() -> (r: Percent)
        ensures
            r.wf(),
            r.spec_atomics() == PERCENT_SCALE,
    {
        Percent { atomics: PERCENT_SCALE }
    }

    /// Exactly zero percent.
    pub fn zero() -> (r: Percent)
        ensures
            r.wf(),
            r.spec_atomics() == 0,
    {
        Percent { atomics: 0 }
    }

    /// A percentage from a whole-number value: accepted exactly for values
    /// up to one hundred.
    pub fn from_percentage_value(value: u64) -> (r: Result<Percent, PercentError>)
        ensures
            value <= 100 <==> r is Ok,
            value <= 100 ==> (r matches Ok(p) && p.wf()
                && p.spec_atomics() == value * (PERCENT_SCALE as int) / 100),
            value > 100 ==> r == Result::<Percent, PercentError>::Err(PercentError::ValueOutOfRange),
    {
        if value > 100 {
            return Err(PercentError::ValueOutOfRange);
        }
        let atomics = value * (PERCENT_SCALE / 100);
        proof {
            assert(value * (PERCENT_SCALE as int / 100) == value * (PERCENT_SCALE as int) / 100
                && value * (PERCENT_SCALE as int / 100) <= PERCENT_SCALE
                && value * (PERCENT_SCALE as int) / 100 >= 0) by (nonlinear_arith)
                requires value <= 100;
        }
        Ok(Percent { atomics })
    }

    /// The fraction in atomic units.
    pub fn atomics(&self) -> (r: u64)
        ensures
            r == self.spec_atomics(),
    {
        self.atomics
    }

    pub fn is_zero(&self) -> (r: bool)
        ensures
            r == (self.spec_atomics() == 0),
    {
        self.atomics == 0
    }
}

/// The per-node inputs of a reward calculation: measured performance, and
/// whether the node worked in the active set.
#[derive(Clone, Copy, PartialEq, Eq, Structural, Debug)]
pub struct NodeRewardParams {
    pub performance: Percent,
    pub in_active_set: bool,
}

impl NodeRewardParams {
    pub fn new(performance: Percent, in_active_set: bool) -> (r: Self)
        ensures
            r.performance == performance,
            r.in_active_set == in_active_set,
    {
        NodeRewardParams { performance, in_active_set }
    }
}

} // verus!
