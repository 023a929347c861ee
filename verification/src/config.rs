//! The configuration of a cache. It is given once, at the start, and never
//! changes.

use vstd::prelude::*;
use crate::tier::capacities_fit;

verus! {

/// What a cache is set up with.
pub struct Config {
    /// The number of fetches that may run at once: the number of sessions
    /// of the resource that are there to be used. One session, one slot.
    pub gate_capacity: usize,
    /// The occupancy of the tier from which a sweep evicts.
    pub soft_capacity: usize,
    /// The occupancy of the tier that a sweep evicts down to.
    pub target_capacity: usize,
    /// The occupancy that the tier never exceeds.
    pub hard_capacity: usize,
    /// The time between two sweeps, in the unit of the clock that the
    /// cache is given.
    pub eviction_interval: u64,
    /// The number of rows above which the store sheds rows.
    pub store_threshold: usize,
    /// The number of rows that the store sheds down to.
    pub store_target: usize,
}

/// The share of `percent` in a hundred of a soft capacity of `soft`, rounded
/// down: the target capacity that goes with it.
pub open spec fn share(soft: int, percent: int) -> int {
    soft * percent / 100
}

/// The target capacity that is `percent` in a hundred of the soft capacity
/// `soft`, rounded down; `None` for more than a hundred.
pub fn target_of(soft: usize, percent: usize) -> (target: Option<usize>)
    ensures
        target.is_some() <==> percent <= 100,
        target matches Some(t) ==> t == share(soft as int, percent as int) && t <= soft,
{
    if percent > 100 {
        return None;
    }
    let whole = soft / 100;
    let rest = soft % 100;
    assert(whole * percent <= whole * 100) by (nonlinear_arith)
        requires
            percent <= 100,
    ;
    assert(rest * percent <= 99 * 100) by (nonlinear_arith)
        requires
            rest <= 99,
            percent <= 100,
    ;
    let from_whole = whole * percent;
    let from_rest = rest * percent / 100;
    assert(soft * percent == 100 * (whole * percent) + rest * percent) by (nonlinear_arith)
        requires
            soft == 100 * whole + rest,
    ;
    assert(from_whole + from_rest == share(soft as int, percent as int)) by {
        vstd::arithmetic::div_mod::lemma_fundamental_div_mod_converse(
            soft * percent,
            100,
            whole * percent + (rest * percent) / 100,
            (rest * percent) % 100,
        );
    }
    assert(from_rest <= rest) by (nonlinear_arith)
        requires
            from_rest == rest * percent / 100,
            percent <= 100,
            rest >= 0,
    ;
    Some(from_whole + from_rest)
}

impl Config {
    /// The configuration can be used: the admission gate has a slot, the
    /// capacities of the tier fit together, sweeps are a positive time
    /// apart, and the store sheds down to no more than its threshold.
    pub open spec fn valid(&self) -> bool {
        &&& self.gate_capacity >= 1
        &&& capacities_fit(
            self.soft_capacity as int,
            self.target_capacity as int,
            self.hard_capacity as int,
        )
        &&& self.eviction_interval >= 1
        &&& self.store_target <= self.store_threshold
    }

    /// Whether the configuration can be used.
    pub fn is_valid(&self) -> (ok: bool)
        ensures
            ok == self.valid(),
    {
        self.gate_capacity >= 1 && self.target_capacity <= self.soft_capacity
            && self.soft_capacity <= self.hard_capacity && self.hard_capacity >= 1
            && self.eviction_interval >= 1 && self.store_target <= self.store_threshold
    }
}

} // verus!
