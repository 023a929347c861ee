//! The cache as one context object: the hot tier and the fetch orchestrator
//! behind the steps of a lookup.
//!
//! A lookup first asks [`Cache::lookup`]. On a miss the caller consults the
//! durable store and hands the reply to [`Cache::miss`], which warms the tier
//! from the store or takes the caller into a flight. The caller that is told
//! to start a fetch runs it and reports with [`Cache::complete_fetch`], which
//! publishes the record and names the waiters to wake, the record to write
//! through and the key whose fetch starts next. Each step is atomic: the
//! program keeps the cache behind one lock and takes it for one step at a
//! time.

use vstd::prelude::*;
use crate::config::Config;
use crate::error::CacheError;
use crate::orchestrator::{
    abandon_step, flight_at, flight_keys, in_flight, lemma_flight_keys, orchestrator_wf,
    request_step, resolve_step, Abandon, FetchOrchestrator, KeyState, OrchestratorView, Request,
    Resolution,
};
use crate::rank::{lemma_evict_shape, lemma_evict_spares_pinned};
use crate::record::{fresh, touched, valid_record, Record, RecordView};
use crate::table::{
    has_key, is_table, lemma_retained, position, retained, unretained, views,
};
use crate::tier::{
    capacities_fit, install_step, kept_keys, lookup_step, reconcile_step, sweep_step, swept_out,
    CacheTier, Insertion,
};

verus! {

/// What a cache is to the contracts.
pub ghost struct CacheView {
    /// The records of the hot tier, in the order in which their keys were
    /// first inserted.
    pub records: Seq<RecordView>,
    /// The occupancy from which a sweep evicts.
    pub soft: int,
    /// The occupancy that a sweep evicts down to.
    pub target: int,
    /// The occupancy that the tier never exceeds.
    pub hard: int,
    /// The flights and the admission gate.
    pub orchestrator: OrchestratorView,
}

/// The tier is a table within its capacities, and the orchestrator is well
/// formed.
pub open spec fn cache_wf(c: CacheView) -> bool {
    &&& is_table(c.records)
    &&& c.records.len() <= c.hard
    &&& capacities_fit(c.soft, c.target, c.hard)
    &&& orchestrator_wf(c.orchestrator)
}

/// The cache `c` with the records `records`.
pub open spec fn with_records(c: CacheView, records: Seq<RecordView>) -> CacheView {
    CacheView {
        records,
        soft: c.soft,
        target: c.target,
        hard: c.hard,
        orchestrator: c.orchestrator,
    }
}

/// The cache `c` with the orchestrator `orchestrator`.
pub open spec fn with_orchestrator(c: CacheView, orchestrator: OrchestratorView) -> CacheView {
    CacheView { records: c.records, soft: c.soft, target: c.target, hard: c.hard, orchestrator }
}

/// What the durable store said when it was asked for a key.
pub enum StoreReply {
    /// The store holds this record.
    Found(Record),
    /// The store holds no record under the key.
    Missing,
    /// The store could not be reached.
    Unavailable,
}

impl StoreReply {
    /// The error that the reply reports: [`CacheError::StoreUnavailable`]
    /// where the store could not be reached. It is for the log; the lookup
    /// goes on.
    pub fn error(&self) -> (error: Option<CacheError>)
        ensures
            error == if *self is Unavailable {
                Some(CacheError::StoreUnavailable)
            } else {
                None::<CacheError>
            },
    {
        match self {
            StoreReply::Unavailable => Some(CacheError::StoreUnavailable),
            StoreReply::Found(_) => None,
            StoreReply::Missing => None,
        }
    }
}

/// The reply brings a record that can warm the tier for `key`: a valid
/// record under that key.
pub open spec fn brings(reply: StoreReply, key: Seq<char>) -> bool {
    reply matches StoreReply::Found(r) && r@.key == key && valid_record(r@)
}

/// What the resource returned for a fetch.
pub enum Fetched {
    /// A value. An empty one counts as none.
    Value(String),
    /// The resource has nothing under the key.
    NotFound,
    /// The fetch failed.
    Failed,
}

/// The fetch for `key` brought a value that can be cached: the value is not
/// empty, and neither is the key.
pub open spec fn cacheable(key: Seq<char>, fetched: Fetched) -> bool {
    fetched matches Fetched::Value(v) && v@.len() > 0 && key.len() > 0
}

/// What a miss led to.
pub enum Miss {
    /// The tier holds the key by now: the record, one access counted.
    Hit(Record),
    /// The store held the key: the tier was warmed with the record, one
    /// access counted. The caller writes this record back to the store.
    Warmed(Record),
    /// The key is empty: no fetch can bring a record for it, so the lookup
    /// fails at once.
    Failed,
    /// A flight was opened with a slot: the caller starts the fetch and
    /// waits for its outcome.
    Started,
    /// A flight was opened and waits for a slot: the caller waits.
    Queued,
    /// The key was in flight: the caller joined and waits.
    Joined,
}

impl Miss {
    /// The error that fails the lookup at once: [`CacheError::FetchFailed`]
    /// for an empty key, and none otherwise.
    pub fn error(&self) -> (error: Option<CacheError>)
        ensures
            error == if *self is Failed {
                Some(CacheError::FetchFailed)
            } else {
                None::<CacheError>
            },
    {
        match self {
            Miss::Failed => Some(CacheError::FetchFailed),
            _ => None,
        }
    }
}

/// What a completed fetch leaves to do.
pub struct Completion {
    /// What every waiter of the flight gets: the value, or
    /// [`CacheError::FetchFailed`].
    pub outcome: Result<String, CacheError>,
    /// The callers to wake with the outcome.
    pub waiters: Vec<u64>,
    /// The record to write through to the durable store, after a success.
    pub persist: Option<Record>,
    /// The record that the tier evicted to take the new one.
    pub evicted: Option<Record>,
    /// The key whose fetch is to be started now: the freed slot passed to
    /// it.
    pub next: Option<String>,
}

/// The cache.
pub struct Cache {
    tier: CacheTier,
    orchestrator: FetchOrchestrator,
}

impl View for Cache {
    type V = CacheView;

    closed spec fn view(&self) -> CacheView {
        CacheView {
            records: self.tier@,
            soft: self.tier.soft(),
            target: self.tier.target(),
            hard: self.tier.hard(),
            orchestrator: self.orchestrator@,
        }
    }
}

impl Cache {
    /// The cache is well formed: see [`cache_wf`].
    pub open spec fn wf(&self) -> bool {
        cache_wf(self@)
    }

    /// An empty cache with the given capacities of its gate and its tier;
    /// `None` where the admission gate would have no slot or the capacities of
    /// the tier do not fit together.
    pub fn new(gate_capacity: usize, soft: usize, target: usize, hard: usize) -> (made: Option<
        Cache,
    >)
        ensures
            made.is_some() <==> gate_capacity >= 1 && capacities_fit(
                soft as int,
                target as int,
                hard as int,
            ),
            made matches Some(c) ==> {
                &&& c.wf()
                &&& c@.records.len() == 0
                &&& c@.soft == soft && c@.target == target && c@.hard == hard
                &&& c@.orchestrator.flights.len() == 0
                &&& c@.orchestrator.gate.capacity == gate_capacity
                &&& c@.orchestrator.gate.holders.len() == 0
                &&& c@.orchestrator.gate.waiting.len() == 0
            },
    {
        match CacheTier::new(soft, target, hard) {
            None => None,
            Some(tier) => match FetchOrchestrator::new(gate_capacity) {
                None => None,
                Some(orchestrator) => Some(Cache { tier, orchestrator }),
            },
        }
    }

    /// The empty cache that `config` describes; `None` where the
    /// configuration cannot be used.
    pub fn from_config(config: &Config) -> (made: Option<Cache>)
        ensures
            made.is_some() <==> config.valid(),
            made matches Some(c) ==> {
                &&& c.wf()
                &&& c@.records.len() == 0
                &&& c@.soft == config.soft_capacity
                &&& c@.target == config.target_capacity
                &&& c@.hard == config.hard_capacity
                &&& c@.orchestrator.flights.len() == 0
                &&& c@.orchestrator.gate.capacity == config.gate_capacity
                &&& c@.orchestrator.gate.holders.len() == 0
                &&& c@.orchestrator.gate.waiting.len() == 0
            },
    {
        if config.is_valid() {
            Cache::new(
                config.gate_capacity,
                config.soft_capacity,
                config.target_capacity,
                config.hard_capacity,
            )
        } else {
            None
        }
    }

    /// The number of records in the tier.
    pub fn size(&self) -> (n: usize)
        ensures
            n == self@.records.len(),
    {
        self.tier.size()
    }

    /// The number of fetches that are running.
    pub fn fetching(&self) -> (n: usize)
        ensures
            n == self@.orchestrator.gate.holders.len(),
    {
        self.orchestrator.fetching()
    }

    /// The number of flights that wait for a slot.
    pub fn queued(&self) -> (n: usize)
        ensures
            n == self@.orchestrator.gate.waiting.len(),
    {
        self.orchestrator.queued()
    }

    /// The number of slots of the admission gate.
    pub fn gate_capacity(&self) -> (n: usize)
        ensures
            n == self@.orchestrator.gate.capacity,
    {
        self.orchestrator.capacity()
    }

    /// Whether a sweep would evict now.
    pub fn needs_sweep(&self) -> (due: bool)
        ensures
            due == (self@.records.len() >= self@.soft),
    {
        self.tier.needs_sweep()
    }

    /// Looks `key` up in the tier at time `now`. A hit counts one more
    /// access and returns the record as it then stands. On `None` the caller
    /// goes on to the store and then to [`Cache::miss`].
    pub fn lookup(&mut self, key: &String, now: u64) -> (hit: Option<Record>)
        requires
            old(self).wf(),
        ensures
            final(self).wf(),
            final(self)@ == with_records(
                old(self)@,
                lookup_step(old(self)@.records, key@, now as int),
            ),
            hit.is_some() <==> has_key(old(self)@.records, key@),
            hit matches Some(r) ==> r@ == touched(
                old(self)@.records[position(old(self)@.records, key@)],
                now as int,
            ),
    {
        self.tier.lookup(key, now)
    }

    /// Takes the miss of `key` by the caller `waiter`, with what the store
    /// said. An unreachable store is taken as one that misses: the cache
    /// goes on in memory alone.
    ///
    /// In this order: a key that the tier holds by now is a hit; a record
    /// that the store brought warms the tier; an empty key fails; and
    /// otherwise the caller is taken into the flight for the key, which is
    /// opened if the key was idle.
    pub fn miss(&mut self, key: &String, reply: StoreReply, waiter: u64, now: u64) -> (outcome:
        Miss)
        requires
            old(self).wf(),
        ensures
            final(self).wf(),
            match outcome {
                Miss::Hit(r) => {
                    &&& has_key(old(self)@.records, key@)
                    &&& r@ == touched(
                        old(self)@.records[position(old(self)@.records, key@)],
                        now as int,
                    )
                    &&& final(self)@ == with_records(
                        old(self)@,
                        lookup_step(old(self)@.records, key@, now as int),
                    )
                },
                Miss::Warmed(r) => {
                    &&& !has_key(old(self)@.records, key@)
                    &&& reply matches StoreReply::Found(stored)
                    &&& brings(reply, key@)
                    &&& r@ == touched(stored@, now as int)
                    &&& final(self)@ == with_records(
                        old(self)@,
                        install_step(old(self)@.records, r@, old(self)@.hard),
                    )
                },
                Miss::Failed => {
                    &&& !has_key(old(self)@.records, key@)
                    &&& !brings(reply, key@)
                    &&& key@.len() == 0
                    &&& final(self)@ == old(self)@
                },
                _ => {
                    &&& !has_key(old(self)@.records, key@)
                    &&& !brings(reply, key@)
                    &&& key@.len() > 0
                    &&& final(self)@ == with_orchestrator(
                        old(self)@,
                        request_step(old(self)@.orchestrator, key@, waiter),
                    )
                },
            },
            outcome is Hit || outcome is Warmed ==> has_key(final(self)@.records, key@),
            outcome is Started || outcome is Queued || outcome is Joined ==> in_flight(
                final(self)@.orchestrator.flights,
                key@,
            ) && final(self)@.orchestrator.flights[flight_at(
                final(self)@.orchestrator.flights,
                key@,
            )].waiters.contains(waiter),
            outcome is Joined ==> in_flight(old(self)@.orchestrator.flights, key@),
            outcome is Started ==> !in_flight(old(self)@.orchestrator.flights, key@) && old(
                self,
            )@.orchestrator.gate.holders.len() < old(self)@.orchestrator.gate.capacity,
            outcome is Queued ==> !in_flight(old(self)@.orchestrator.flights, key@) && old(
                self,
            )@.orchestrator.gate.holders.len() >= old(self)@.orchestrator.gate.capacity,
    {
        match self.tier.lookup(key, now) {
            Some(record) => {
                return Miss::Hit(record);
            },
            None => {},
        }
        match reply {
            StoreReply::Found(stored) => {
                if stored.key == *key && stored.is_valid() {
                    let mut record = stored;
                    record.touch(now);
                    let copy = record.clone();
                    self.tier.warm(record);
                    return Miss::Warmed(copy);
                }
            },
            StoreReply::Missing => {},
            StoreReply::Unavailable => {},
        }
        if key.as_str().is_empty() {
            return Miss::Failed;
        }
        match self.orchestrator.request(key, waiter) {
            Request::Started => Miss::Started,
            Request::Queued => Miss::Queued,
            Request::Joined => Miss::Joined,
        }
    }

    /// Takes the outcome of the fetch for `key` at time `now`. `None` where
    /// the key is not in flight: nothing is changed.
    ///
    /// Otherwise the flight is resolved and the key is idle again. A value
    /// that can be cached is inserted into the tier with an access count of
    /// 1 before anything else, and is handed back to be written through to
    /// the store; every waiter gets it. Anything else (no value, an empty
    /// one, a failure) is the one failure [`CacheError::FetchFailed`] for
    /// every waiter: the tier is left as it was and nothing is remembered of
    /// the failure.
    pub fn complete_fetch(&mut self, key: &String, fetched: Fetched, now: u64) -> (done: Option<
        Completion,
    >)
        requires
            old(self).wf(),
        ensures
            final(self).wf(),
            done.is_some() <==> in_flight(old(self)@.orchestrator.flights, key@),
            done is None ==> final(self)@ == old(self)@,
            !in_flight(final(self)@.orchestrator.flights, key@),
            done matches Some(c) ==> {
                &&& final(self)@.orchestrator == resolve_step(old(self)@.orchestrator, key@)
                &&& final(self)@ == with_orchestrator(
                    with_records(old(self)@, final(self)@.records),
                    final(self)@.orchestrator,
                )
                &&& c.waiters@ == old(self)@.orchestrator.flights[flight_at(
                    old(self)@.orchestrator.flights,
                    key@,
                )].waiters
                &&& (c.next.is_some() <==> old(self)@.orchestrator.gate.holders.contains(key@)
                    && old(self)@.orchestrator.gate.waiting.len() > 0)
                &&& (c.next matches Some(k) ==> k@ == old(self)@.orchestrator.gate.waiting[0])
                &&& (c.outcome is Ok <==> cacheable(key@, fetched))
                &&& (c.outcome matches Err(e) ==> e is FetchFailed)
                &&& (c.outcome is Err ==> final(self)@.records == old(self)@.records
                    && c.persist is None && c.evicted is None)
                &&& (c.outcome matches Ok(v) ==> {
                    &&& fetched matches Fetched::Value(brought)
                    &&& v@ == brought@
                    &&& final(self)@.records == install_step(
                        old(self)@.records,
                        fresh(key@, v@, now as int),
                        old(self)@.hard,
                    )
                    &&& has_key(final(self)@.records, key@)
                    &&& c.persist matches Some(r)
                    &&& r@ == fresh(key@, v@, now as int)
                    &&& (c.evicted is Some <==> !has_key(old(self)@.records, key@) && old(
                        self,
                    )@.records.len() >= old(self)@.hard)
                })
            },
    {
        match self.orchestrator.state(key) {
            KeyState::Idle => {
                return None;
            },
            _ => {},
        }
        // The tier first, so that readers see the value as soon as possible.
        let mut outcome: Result<String, CacheError> = Err(CacheError::FetchFailed);
        let mut persist: Option<Record> = None;
        let mut evicted: Option<Record> = None;
        match fetched {
            Fetched::Value(value) => {
                if !value.as_str().is_empty() && !key.as_str().is_empty() {
                    let record = Record {
                        key: key.clone(),
                        value: value.clone(),
                        access_count: 1,
                        last_accessed: now,
                    };
                    match self.tier.warm(record.clone()) {
                        Insertion::Evicted(gone) => {
                            evicted = Some(gone);
                        },
                        _ => {},
                    }
                    persist = Some(record);
                    outcome = Ok(value);
                }
            },
            Fetched::NotFound => {},
            Fetched::Failed => {},
        }
        // Then the slot and the waiters.
        match self.orchestrator.resolve(key) {
            None => None,
            Some(resolution) => {
                let Resolution { waiters, next } = resolution;
                Some(Completion { outcome, waiters, persist, evicted, next })
            },
        }
    }

    /// Takes the caller `waiter` out of the flight for `key`: it gave up. A
    /// caller that leaves before a slot was granted fails with
    /// [`CacheError::GateTimeout`], and its flight, if it was the last
    /// waiter, will get no slot later. Other waiters are not affected, and a
    /// fetch that is running goes on.
    pub fn abandon(&mut self, key: &String, waiter: u64) -> (outcome: Abandon)
        requires
            old(self).wf(),
        ensures
            final(self).wf(),
            final(self)@ == with_orchestrator(
                old(self)@,
                abandon_step(old(self)@.orchestrator, key@, waiter),
            ),
            outcome is NotWaiting <==> !(in_flight(old(self)@.orchestrator.flights, key@) && old(
                self,
            )@.orchestrator.flights[flight_at(
                old(self)@.orchestrator.flights,
                key@,
            )].waiters.contains(waiter)),
            outcome is Withdrawn <==> in_flight(old(self)@.orchestrator.flights, key@) && old(
                self,
            )@.orchestrator.flights[flight_at(old(self)@.orchestrator.flights, key@)].waiters
                == seq![waiter] && old(self)@.orchestrator.gate.waiting.contains(key@),
            outcome is LeftFetch <==> !(outcome is NotWaiting) && old(
                self,
            )@.orchestrator.gate.holders.contains(key@),
    {
        self.orchestrator.abandon(key, waiter)
    }

    /// One eviction sweep of the tier. Below the soft capacity nothing
    /// happens. From the soft capacity on, records are evicted, lowest
    /// first, down to the target capacity; the record of a key that is in
    /// flight is never evicted. Returns what was evicted, in the order in
    /// which it left.
    pub fn sweep(&mut self) -> (evicted: Vec<Record>)
        requires
            old(self).wf(),
        ensures
            final(self).wf(),
            final(self)@ == with_records(
                old(self)@,
                sweep_step(
                    old(self)@.records,
                    flight_keys(old(self)@.orchestrator.flights).to_set(),
                    old(self)@.soft,
                    old(self)@.target,
                ),
            ),
            views(evicted@) == swept_out(
                old(self)@.records,
                flight_keys(old(self)@.orchestrator.flights).to_set(),
                old(self)@.soft,
                old(self)@.target,
            ),
            forall|key: Seq<char>|
                in_flight(old(self)@.orchestrator.flights, key) && #[trigger] has_key(
                    old(self)@.records,
                    key,
                ) ==> has_key(final(self)@.records, key),
            old(self)@.records.len() >= old(self)@.soft ==> final(self)@.records.len() <= old(
                self,
            )@.target || forall|j: int|
                0 <= j < final(self)@.records.len() ==> in_flight(
                    old(self)@.orchestrator.flights,
                    (#[trigger] final(self)@.records[j]).key,
                ),
    {
        let pinned = self.orchestrator.in_flight_keys();
        proof {
            let before = self@.records;
            let flights = self@.orchestrator.flights;
            let pins = flight_keys(flights).to_set();
            let after = sweep_step(before, pins, self@.soft, self@.target);
            lemma_evict_spares_pinned(before, pins, self@.target);
            lemma_evict_shape(before, pins, self@.target);
            assert forall|key: Seq<char>|
                in_flight(flights, key) && #[trigger] has_key(before, key) implies has_key(
                after,
                key,
            ) by {
                lemma_flight_keys(flights, key);
                let i = position(before, key);
                assert(after.contains(before[i]));
                let j = choose|j: int| 0 <= j < after.len() && after[j] == before[i];
                assert(after[j].key == key);
            }
            if before.len() >= self@.soft && after.len() > self@.target {
                assert forall|j: int| 0 <= j < after.len() implies in_flight(
                    flights,
                    (#[trigger] after[j]).key,
                ) by {
                    lemma_flight_keys(flights, after[j].key);
                }
            }
        }
        self.tier.sweep(&pinned)
    }

    /// Reconciles the tier with the rows that survived a delete-by-rank in
    /// the durable store: a record whose key the store no longer holds is
    /// dropped, unless the key is in flight. What stays, stays as it is.
    /// Returns what was dropped, in the order in which it stood.
    pub fn reconcile(&mut self, survivors: &Vec<Record>) -> (dropped: Vec<Record>)
        requires
            old(self).wf(),
        ensures
            final(self).wf(),
            final(self)@ == with_records(
                old(self)@,
                reconcile_step(
                    old(self)@.records,
                    views(survivors@),
                    flight_keys(old(self)@.orchestrator.flights).to_set(),
                ),
            ),
            views(dropped@) == unretained(
                old(self)@.records,
                kept_keys(views(survivors@), flight_keys(old(self)@.orchestrator.flights).to_set()),
            ),
            forall|key: Seq<char>|
                #[trigger] has_key(final(self)@.records, key) <==> has_key(old(self)@.records, key)
                    && (has_key(views(survivors@), key) || in_flight(
                    old(self)@.orchestrator.flights,
                    key,
                )),
    {
        let pinned = self.orchestrator.in_flight_keys();
        proof {
            let before = self@.records;
            let flights = self@.orchestrator.flights;
            let keep = kept_keys(views(survivors@), flight_keys(flights).to_set());
            lemma_retained(before, keep);
            assert forall|key: Seq<char>|
                #[trigger] has_key(retained(before, keep), key) <==> has_key(before, key) && (
                has_key(views(survivors@), key) || in_flight(flights, key)) by {
                lemma_flight_keys(flights, key);
            }
        }
        self.tier.reconcile(survivors, &pinned)
    }

    /// A copy of all records of the tier, in the order in which their keys
    /// were first inserted. Counts no access and changes nothing.
    pub fn list_all(&self) -> (copy: Vec<Record>)
        ensures
            views(copy@) == self@.records,
    {
        self.tier.snapshot()
    }
}

} // verus!
