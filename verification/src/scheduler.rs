//! The eviction scheduler: when a sweep is due, how many rows the store has
//! to shed, and one whole run against a store.

use vstd::prelude::*;
use crate::cache::{with_records, Cache, CacheView};
use crate::config::Config;
use crate::orchestrator::flight_keys;
use crate::record::{Record, RecordView};
use crate::store::{delete_lowest_step, PersistentStore};
use crate::table::{unretained, views};
use crate::tier::{kept_keys, reconcile_step, sweep_step, swept_out};

verus! {

/// The time of the run after one at `now`: `interval` later, and at the
/// end of time where the clock has no room for that.
pub open spec fn next_run(now: int, interval: int) -> int {
    if now + interval > u64::MAX {
        u64::MAX as int
    } else {
        now + interval
    }
}

/// The number of rows that a store of `len` rows has to shed: none up to
/// the threshold, and above it all that exceed the target.
pub open spec fn excess(len: int, threshold: int, target: int) -> int {
    if len > threshold {
        len - target
    } else {
        0
    }
}

/// The cache after one run against the store `store`: the sweep of the
/// tier, and, where the store has shed rows, the reconcile with the rows
/// that are left in it.
pub open spec fn cache_after_run(c: CacheView, store: Seq<RecordView>, threshold: int, target: int) -> CacheView {
    let pinned = flight_keys(c.orchestrator.flights).to_set();
    let swept = sweep_step(c.records, pinned, c.soft, c.target);
    if excess(store.len() as int, threshold, target) > 0 {
        with_records(
            c,
            reconcile_step(
                swept,
                delete_lowest_step(store, excess(store.len() as int, threshold, target)),
                pinned,
            ),
        )
    } else {
        with_records(c, swept)
    }
}

/// The store after one run: above its threshold it sheds its lowest rows
/// down to its target.
pub open spec fn store_after_run(store: Seq<RecordView>, threshold: int, target: int) -> Seq<
    RecordView,
> {
    delete_lowest_step(store, excess(store.len() as int, threshold, target))
}

/// What the reconcile of one run drops from the tier, in the order in
/// which it stood.
pub open spec fn dropped_in_run(c: CacheView, store: Seq<RecordView>, threshold: int, target: int) -> Seq<
    RecordView,
> {
    let pinned = flight_keys(c.orchestrator.flights).to_set();
    if excess(store.len() as int, threshold, target) > 0 {
        unretained(
            sweep_step(c.records, pinned, c.soft, c.target),
            kept_keys(store_after_run(store, threshold, target), pinned),
        )
    } else {
        Seq::empty()
    }
}

/// What one run did.
pub struct RunReport {
    /// What the sweep evicted from the tier, lowest first.
    pub evicted: Vec<Record>,
    /// The number of rows that the store deleted.
    pub deleted: usize,
    /// What the reconcile dropped from the tier.
    pub dropped: Vec<Record>,
}

/// The eviction scheduler.
pub struct EvictionScheduler {
    interval: u64,
    due_at: u64,
    store_threshold: usize,
    store_target: usize,
}

impl EvictionScheduler {
    /// The time between two runs.
    pub closed spec fn interval(&self) -> int {
        self.interval as int
    }

    /// The time from which the next run is due.
    pub closed spec fn due_at(&self) -> int {
        self.due_at as int
    }

    /// The number of rows above which the store sheds rows.
    pub closed spec fn store_threshold(&self) -> int {
        self.store_threshold as int
    }

    /// The number of rows that the store sheds down to.
    pub closed spec fn store_target(&self) -> int {
        self.store_target as int
    }

    /// Runs are a positive time apart, and the store sheds down to no more
    /// than its threshold.
    pub open spec fn wf(&self) -> bool {
        self.interval() >= 1 && 0 <= self.store_target() <= self.store_threshold()
    }

    /// `other` is set up as `self` is.
    pub open spec fn same_setup(&self, other: &EvictionScheduler) -> bool {
        self.interval() == other.interval() && self.store_threshold() == other.store_threshold()
            && self.store_target() == other.store_target()
    }

    /// A scheduler that is started at time `now`: its first run is due one
    /// interval later. `None` for an interval of zero or a target above the
    /// threshold.
    pub fn new(interval: u64, store_threshold: usize, store_target: usize, now: u64) -> (made:
        Option<EvictionScheduler>)
        ensures
            made.is_some() <==> interval >= 1 && store_target <= store_threshold,
            made matches Some(s) ==> s.wf() && s.interval() == interval && s.store_threshold()
                == store_threshold && s.store_target() == store_target && s.due_at() == next_run(
                now as int,
                interval as int,
            ),
    {
        if interval >= 1 && store_target <= store_threshold {
            let due_at = if now > u64::MAX - interval {
                u64::MAX
            } else {
                now + interval
            };
            Some(EvictionScheduler { interval, due_at, store_threshold, store_target })
        } else {
            None
        }
    }

    /// The scheduler that `config` describes, started at time `now`; `None`
    /// where the configuration cannot be used.
    pub fn from_config(config: &Config, now: u64) -> (made: Option<EvictionScheduler>)
        ensures
            made.is_some() <==> config.valid(),
            made matches Some(s) ==> s.wf() && s.interval() == config.eviction_interval
                && s.store_threshold() == config.store_threshold && s.store_target()
                == config.store_target && s.due_at() == next_run(
                now as int,
                config.eviction_interval as int,
            ),
    {
        if config.is_valid() {
            EvictionScheduler::new(
                config.eviction_interval,
                config.store_threshold,
                config.store_target,
                now,
            )
        } else {
            None
        }
    }

    /// Whether a run is due at time `now`.
    pub fn is_due(&self, now: u64) -> (due: bool)
        ensures
            due == (now >= self.due_at()),
    {
        now >= self.due_at
    }

    /// Starts a run at time `now` if one is due, and then puts the next one
    /// an interval later. Returns whether a run is to be made.
    pub fn tick(&mut self, now: u64) -> (run: bool)
        requires
            old(self).wf(),
        ensures
            final(self).wf(),
            final(self).same_setup(old(self)),
            run == (now >= old(self).due_at()),
            run ==> final(self).due_at() == next_run(now as int, old(self).interval()),
            !run ==> final(self).due_at() == old(self).due_at(),
    {
        if now >= self.due_at {
            self.due_at = if now > u64::MAX - self.interval {
                u64::MAX
            } else {
                now + self.interval
            };
            true
        } else {
            false
        }
    }

    /// The number of rows that a store of `store_len` rows has to delete in
    /// a run: none up to the threshold, and above it all that exceed the
    /// target.
    pub fn store_excess(&self, store_len: usize) -> (n: usize)
        requires
            self.wf(),
        ensures
            n == excess(store_len as int, self.store_threshold(), self.store_target()),
    {
        if store_len > self.store_threshold {
            store_len - self.store_target
        } else {
            0
        }
    }

    /// One run at time `now` against the store `store`, if one is due:
    /// `None`, and nothing changed, where none is. The tier is swept; the
    /// store, where it is above its threshold, deletes its lowest rows down
    /// to its target, and the tier is then reconciled with the rows that are
    /// left in the store.
    pub fn run(&mut self, cache: &mut Cache, store: &mut PersistentStore, now: u64) -> (report:
        Option<RunReport>)
        requires
            old(self).wf(),
            old(cache).wf(),
            old(store).wf(),
        ensures
            final(self).wf(),
            final(cache).wf(),
            final(store).wf(),
            final(self).same_setup(old(self)),
            report.is_some() <==> now >= old(self).due_at(),
            report is None ==> final(cache)@ == old(cache)@ && final(store)@ == old(store)@
                && final(self).due_at() == old(self).due_at(),
            report matches Some(r) ==> {
                &&& final(self).due_at() == next_run(now as int, old(self).interval())
                &&& final(cache)@ == cache_after_run(
                    old(cache)@,
                    old(store)@,
                    old(self).store_threshold(),
                    old(self).store_target(),
                )
                &&& final(store)@ == store_after_run(
                    old(store)@,
                    old(self).store_threshold(),
                    old(self).store_target(),
                )
                &&& views(r.evicted@) == swept_out(
                    old(cache)@.records,
                    flight_keys(old(cache)@.orchestrator.flights).to_set(),
                    old(cache)@.soft,
                    old(cache)@.target,
                )
                &&& r.deleted == old(store)@.len() - final(store)@.len()
                &&& views(r.dropped@) == dropped_in_run(
                    old(cache)@,
                    old(store)@,
                    old(self).store_threshold(),
                    old(self).store_target(),
                )
            },
    {
        if !self.tick(now) {
            return None;
        }
        let evicted = cache.sweep();
        let n = self.store_excess(store.len());
        if n > 0 {
            let deleted = store.delete_lowest_n(n);
            let survivors = store.scan_all();
            let dropped = cache.reconcile(&survivors);
            Some(RunReport { evicted, deleted, dropped })
        } else {
            proof {
                crate::rank::lemma_evict_shape(store@, Set::empty(), store@.len() as int);
            }
            let dropped: Vec<Record> = Vec::new();
            assert(views(dropped@) =~= Seq::empty());
            Some(RunReport { evicted, deleted: 0, dropped })
        }
    }
}

} // verus!
