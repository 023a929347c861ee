//! The fetch orchestrator: single-flight coalescing of misses.
//!
//! A key is idle or in flight. The first miss of an idle key opens a flight
//! with the caller as its only waiter and asks the admission gate for a slot
//! under the key's name: with a slot the fetch starts, without one the flight
//! waits in line. Every further miss of the key joins the flight and starts
//! nothing. When the fetch comes back the flight is resolved: all its waiters
//! get the one outcome, its slot goes back to the admission gate, and the key
//! is idle again at once, after a failure as after a success.

use vstd::prelude::*;
use crate::error::CacheError;
use crate::gate::{
    acquire_step, gate_wf, known, lemma_acquire, lemma_not_both, lemma_release, lemma_withdraw,
    release_step, withdraw_step, Admission, AdmissionGate, GateView, Release,
};
use crate::table::texts;

verus! {

/// What a flight is to the contracts.
pub ghost struct FlightView {
    /// The key that is being fetched.
    pub key: Seq<char>,
    /// The callers that wait for the outcome, in the order in which they
    /// came.
    pub waiters: Seq<u64>,
}

/// What an orchestrator is to the contracts.
pub ghost struct OrchestratorView {
    /// The flights, in the order in which they were opened.
    pub flights: Seq<FlightView>,
    /// The admission gate.
    pub gate: GateView,
}

/// Some flight of `flights` is for `key`.
pub open spec fn in_flight(flights: Seq<FlightView>, key: Seq<char>) -> bool {
    exists|i: int| 0 <= i < flights.len() && #[trigger] flights[i].key == key
}

/// Where the flight for `key` stands in `flights`, if there is one.
pub open spec fn flight_at(flights: Seq<FlightView>, key: Seq<char>) -> int {
    choose|i: int| 0 <= i < flights.len() && #[trigger] flights[i].key == key
}

/// No two flights are for the same key.
pub open spec fn distinct_flights(flights: Seq<FlightView>) -> bool {
    forall|i: int, j: int|
        0 <= i < flights.len() && 0 <= j < flights.len() && i != j ==> #[trigger] flights[i].key
            != #[trigger] flights[j].key
}

/// The keys of the flights, in the order of the flights.
pub open spec fn flight_keys(flights: Seq<FlightView>) -> Seq<Seq<char>> {
    Seq::new(flights.len(), |i: int| flights[i].key)
}

/// One flight per key, each waiter once per flight, and the admission gate
/// knows exactly the keys that are in flight.
pub open spec fn orchestrator_wf(o: OrchestratorView) -> bool {
    &&& gate_wf(o.gate)
    &&& distinct_flights(o.flights)
    &&& forall|i: int|
        0 <= i < o.flights.len() ==> (#[trigger] o.flights[i]).waiters.no_duplicates()
    &&& forall|key: Seq<char>|
        #![trigger in_flight(o.flights, key)]
        #![trigger known(o.gate, key)]
        in_flight(o.flights, key) <==> known(o.gate, key)
}

/// The keys whose fetch is running: those that hold a slot of the admission
/// gate.
pub open spec fn fetching(o: OrchestratorView) -> Seq<Seq<char>> {
    o.gate.holders
}

/// The flight after `waiter` has joined it. A waiter stands in a flight
/// once.
pub open spec fn joined(f: FlightView, waiter: u64) -> FlightView {
    if f.waiters.contains(waiter) {
        f
    } else {
        FlightView { key: f.key, waiters: f.waiters.push(waiter) }
    }
}

/// The orchestrator after `waiter` has missed `key`.
pub open spec fn request_step(o: OrchestratorView, key: Seq<char>, waiter: u64) -> OrchestratorView {
    if in_flight(o.flights, key) {
        OrchestratorView {
            flights: o.flights.update(
                flight_at(o.flights, key),
                joined(o.flights[flight_at(o.flights, key)], waiter),
            ),
            gate: o.gate,
        }
    } else {
        OrchestratorView {
            flights: o.flights.push(FlightView { key, waiters: seq![waiter] }),
            gate: acquire_step(o.gate, key),
        }
    }
}

/// The orchestrator after the flight for `key` has been resolved.
pub open spec fn resolve_step(o: OrchestratorView, key: Seq<char>) -> OrchestratorView {
    if in_flight(o.flights, key) {
        OrchestratorView {
            flights: o.flights.remove(flight_at(o.flights, key)),
            gate: withdraw_step(release_step(o.gate, key), key),
        }
    } else {
        o
    }
}

/// The orchestrator after `waiter` has given up waiting for `key`. The last
/// waiter of a flight that still waits for a slot takes the flight with it;
/// a fetch that is running goes on without waiters.
pub open spec fn abandon_step(o: OrchestratorView, key: Seq<char>, waiter: u64) -> OrchestratorView {
    if in_flight(o.flights, key) && o.flights[flight_at(o.flights, key)].waiters.contains(waiter) {
        let i = flight_at(o.flights, key);
        let left = o.flights[i].waiters.remove(o.flights[i].waiters.index_of(waiter));
        if left.len() == 0 && o.gate.waiting.contains(key) {
            OrchestratorView { flights: o.flights.remove(i), gate: withdraw_step(o.gate, key) }
        } else {
            OrchestratorView {
                flights: o.flights.update(i, FlightView { key, waiters: left }),
                gate: o.gate,
            }
        }
    } else {
        o
    }
}

/// With one flight per key, a key's flight stands at one place only.
pub proof fn lemma_flight_at(flights: Seq<FlightView>, key: Seq<char>, i: int)
    requires
        distinct_flights(flights),
        0 <= i < flights.len(),
        flights[i].key == key,
    ensures
        in_flight(flights, key),
        flight_at(flights, key) == i,
{
    let p = flight_at(flights, key);
    assert(0 <= p < flights.len() && flights[p].key == key);
    if p != i {
        assert(flights[p].key != flights[i].key);
    }
}

/// The keys of the flights are the keys that are in flight.
pub proof fn lemma_flight_keys(flights: Seq<FlightView>, key: Seq<char>)
    ensures
        flight_keys(flights).to_set().contains(key) <==> in_flight(flights, key),
{
    let keys = flight_keys(flights);
    if keys.contains(key) {
        let i = choose|i: int| 0 <= i < keys.len() && keys[i] == key;
        assert(flights[i].key == key);
    }
    if in_flight(flights, key) {
        let i = flight_at(flights, key);
        assert(keys[i] == key);
    }
}

/// Closing one flight leaves one flight per key, and only that key idle.
pub proof fn lemma_close_flight(flights: Seq<FlightView>, i: int)
    requires
        distinct_flights(flights),
        0 <= i < flights.len(),
    ensures
        distinct_flights(flights.remove(i)),
        !in_flight(flights.remove(i), flights[i].key),
        forall|k: Seq<char>|
            k != flights[i].key ==> (#[trigger] in_flight(flights.remove(i), k) <==> in_flight(
                flights,
                k,
            )),
        forall|a: int|
            0 <= a < flights.remove(i).len() ==> flights.contains(#[trigger] flights.remove(i)[a]),
{
    let t = flights.remove(i);
    assert forall|a: int, b: int| 0 <= a < t.len() && 0 <= b < t.len() && a != b implies #[trigger] t[a].key
        != #[trigger] t[b].key by {
        let a0 = if a < i { a } else { a + 1 };
        let b0 = if b < i { b } else { b + 1 };
        assert(t[a] == flights[a0] && t[b] == flights[b0]);
    }
    assert forall|a: int| 0 <= a < t.len() implies flights.contains(#[trigger] t[a]) by {
        let a0 = if a < i { a } else { a + 1 };
        assert(t[a] == flights[a0]);
    }
    if in_flight(t, flights[i].key) {
        let a = flight_at(t, flights[i].key);
        let a0 = if a < i { a } else { a + 1 };
        assert(t[a] == flights[a0]);
        assert(flights[a0].key != flights[i].key);
    }
    assert forall|k: Seq<char>| k != flights[i].key implies (#[trigger] in_flight(t, k)
        <==> in_flight(flights, k)) by {
        if in_flight(t, k) {
            let a = flight_at(t, k);
            let a0 = if a < i { a } else { a + 1 };
            assert(t[a] == flights[a0]);
            assert(flights[a0].key == k);
        }
        if in_flight(flights, k) {
            let a0 = flight_at(flights, k);
            let a = if a0 < i { a0 } else { a0 - 1 };
            assert(t[a] == flights[a0]);
            assert(t[a].key == k);
        }
    }
}

/// Opening a flight for an idle key leaves one flight per key.
pub proof fn lemma_open_flight(flights: Seq<FlightView>, f: FlightView)
    requires
        distinct_flights(flights),
        !in_flight(flights, f.key),
    ensures
        distinct_flights(flights.push(f)),
        in_flight(flights.push(f), f.key),
        flight_at(flights.push(f), f.key) == flights.len(),
        forall|k: Seq<char>|
            k != f.key ==> (#[trigger] in_flight(flights.push(f), k) <==> in_flight(flights, k)),
{
    let t = flights.push(f);
    assert forall|a: int, b: int| 0 <= a < t.len() && 0 <= b < t.len() && a != b implies #[trigger] t[a].key
        != #[trigger] t[b].key by {
        if a < flights.len() {
            assert(t[a] == flights[a]);
        }
        if b < flights.len() {
            assert(t[b] == flights[b]);
        }
    }
    assert(t[flights.len() as int].key == f.key);
    lemma_flight_at(t, f.key, flights.len() as int);
    assert forall|k: Seq<char>| k != f.key implies (#[trigger] in_flight(t, k) <==> in_flight(
        flights,
        k,
    )) by {
        if in_flight(t, k) {
            let a = flight_at(t, k);
            assert(t[a] == flights[a]);
            assert(flights[a].key == k);
        }
        if in_flight(flights, k) {
            let a = flight_at(flights, k);
            assert(t[a] == flights[a]);
            assert(t[a].key == k);
        }
    }
}

/// Changing the waiters of a flight leaves the keys in flight as they
/// were.
pub proof fn lemma_change_flight(flights: Seq<FlightView>, i: int, f: FlightView)
    requires
        distinct_flights(flights),
        0 <= i < flights.len(),
        f.key == flights[i].key,
    ensures
        distinct_flights(flights.update(i, f)),
        forall|k: Seq<char>| #[trigger] in_flight(flights.update(i, f), k) <==> in_flight(flights, k),
{
    let t = flights.update(i, f);
    assert forall|a: int, b: int| 0 <= a < t.len() && 0 <= b < t.len() && a != b implies #[trigger] t[a].key
        != #[trigger] t[b].key by {
        assert(t[a].key == flights[a].key && t[b].key == flights[b].key);
    }
    assert forall|k: Seq<char>| #[trigger] in_flight(t, k) <==> in_flight(flights, k) by {
        if in_flight(t, k) {
            let a = flight_at(t, k);
            assert(flights[a].key == k);
        }
        if in_flight(flights, k) {
            let a = flight_at(flights, k);
            assert(t[a].key == k);
        }
    }
}

/// [`request_step`] leaves an orchestrator, with `key` in flight.
pub proof fn lemma_request(o: OrchestratorView, key: Seq<char>, waiter: u64)
    requires
        orchestrator_wf(o),
    ensures
        orchestrator_wf(request_step(o, key, waiter)),
        in_flight(request_step(o, key, waiter).flights, key),
        request_step(o, key, waiter).flights[flight_at(
            request_step(o, key, waiter).flights,
            key,
        )].waiters.contains(waiter),
        forall|k: Seq<char>|
            k != key ==> (#[trigger] in_flight(request_step(o, key, waiter).flights, k)
                <==> in_flight(o.flights, k)),
{
    let n = request_step(o, key, waiter);
    if in_flight(o.flights, key) {
        let i = flight_at(o.flights, key);
        let f = joined(o.flights[i], waiter);
        lemma_change_flight(o.flights, i, f);
        lemma_flight_at(n.flights, key, i);
        assert(f.waiters.no_duplicates() && f.waiters.contains(waiter)) by {
            if !o.flights[i].waiters.contains(waiter) {
                let w = o.flights[i].waiters;
                assert forall|a: int, b: int|
                    0 <= a < f.waiters.len() && 0 <= b < f.waiters.len() && a != b implies f.waiters[a]
                    != f.waiters[b] by {
                    if a < w.len() {
                        assert(w.contains(w[a]));
                    }
                    if b < w.len() {
                        assert(w.contains(w[b]));
                    }
                }
                assert(f.waiters[w.len() as int] == waiter);
            }
        }
        assert forall|a: int| 0 <= a < n.flights.len() implies (#[trigger] n.flights[a]).waiters.no_duplicates() by {
            if a != i {
                assert(n.flights[a] == o.flights[a]);
            }
        }
    } else {
        let f = FlightView { key, waiters: seq![waiter] };
        lemma_open_flight(o.flights, f);
        lemma_acquire(o.gate, key);
        assert(f.waiters[0] == waiter);
        assert forall|a: int| 0 <= a < n.flights.len() implies (#[trigger] n.flights[a]).waiters.no_duplicates() by {
            if a < o.flights.len() {
                assert(n.flights[a] == o.flights[a]);
            }
        }
        assert forall|k: Seq<char>|
            #![trigger in_flight(n.flights, k)]
            #![trigger known(n.gate, k)]
            in_flight(n.flights, k) <==> known(n.gate, k) by {
            if k != key {
                assert(in_flight(n.flights, k) <==> in_flight(o.flights, k));
                assert(in_flight(o.flights, k) <==> known(o.gate, k));
            }
        }
    }
}

/// [`resolve_step`] leaves an orchestrator, with `key` idle.
pub proof fn lemma_resolve(o: OrchestratorView, key: Seq<char>)
    requires
        orchestrator_wf(o),
    ensures
        orchestrator_wf(resolve_step(o, key)),
        !in_flight(resolve_step(o, key).flights, key),
        !known(resolve_step(o, key).gate, key),
        resolve_step(o, key).gate.holders.len() <= o.gate.holders.len(),
        forall|k: Seq<char>|
            k != key ==> (#[trigger] in_flight(resolve_step(o, key).flights, k) <==> in_flight(
                o.flights,
                k,
            )),
{
    let n = resolve_step(o, key);
    if in_flight(o.flights, key) {
        let i = flight_at(o.flights, key);
        lemma_close_flight(o.flights, i);
        let g1 = release_step(o.gate, key);
        lemma_release(o.gate, key);
        lemma_withdraw(g1, key);
        lemma_not_both(o.gate, key);
        assert(known(o.gate, key));
        assert forall|a: int| 0 <= a < n.flights.len() implies (#[trigger] n.flights[a]).waiters.no_duplicates() by {
            let a0 = if a < i { a } else { a + 1 };
            assert(n.flights[a] == o.flights[a0]);
        }
        assert forall|k: Seq<char>|
            #![trigger in_flight(n.flights, k)]
            #![trigger known(n.gate, k)]
            in_flight(n.flights, k) <==> known(n.gate, k) by {
            if k != key {
                assert(in_flight(n.flights, k) <==> in_flight(o.flights, k));
                assert(in_flight(o.flights, k) <==> known(o.gate, k));
                assert(known(g1, k) == known(o.gate, k));
                assert(n.gate.holders == g1.holders);
                assert(n.gate.waiting.contains(k) == g1.waiting.contains(k));
            }
        }
    } else {
        assert(!known(o.gate, key));
    }
}

/// [`abandon_step`] leaves an orchestrator.
pub proof fn lemma_abandon(o: OrchestratorView, key: Seq<char>, waiter: u64)
    requires
        orchestrator_wf(o),
    ensures
        orchestrator_wf(abandon_step(o, key, waiter)),
        abandon_step(o, key, waiter).gate.holders == o.gate.holders,
        forall|k: Seq<char>|
            k != key ==> (#[trigger] in_flight(abandon_step(o, key, waiter).flights, k)
                <==> in_flight(o.flights, k)),
{
    let n = abandon_step(o, key, waiter);
    if in_flight(o.flights, key) && o.flights[flight_at(o.flights, key)].waiters.contains(waiter) {
        let i = flight_at(o.flights, key);
        let w = o.flights[i].waiters;
        let p = w.index_of(waiter);
        let left = w.remove(p);
        if left.len() == 0 && o.gate.waiting.contains(key) {
            lemma_close_flight(o.flights, i);
            lemma_withdraw(o.gate, key);
            lemma_not_both(o.gate, key);
            assert forall|a: int| 0 <= a < n.flights.len() implies (#[trigger] n.flights[a]).waiters.no_duplicates() by {
                let a0 = if a < i { a } else { a + 1 };
                assert(n.flights[a] == o.flights[a0]);
            }
            assert forall|k: Seq<char>|
                #![trigger in_flight(n.flights, k)]
                #![trigger known(n.gate, k)]
                in_flight(n.flights, k) <==> known(n.gate, k) by {
                if k != key {
                    assert(in_flight(n.flights, k) <==> in_flight(o.flights, k));
                    assert(in_flight(o.flights, k) <==> known(o.gate, k));
                }
            }
        } else {
            let f = FlightView { key, waiters: left };
            lemma_change_flight(o.flights, i, f);
            assert(left.no_duplicates()) by {
                assert forall|a: int, b: int|
                    0 <= a < left.len() && 0 <= b < left.len() && a != b implies left[a]
                    != left[b] by {
                    let a0 = if a < p { a } else { a + 1 };
                    let b0 = if b < p { b } else { b + 1 };
                    assert(left[a] == w[a0] && left[b] == w[b0]);
                }
            }
            assert forall|a: int| 0 <= a < n.flights.len() implies (#[trigger] n.flights[a]).waiters.no_duplicates() by {
                if a != i {
                    assert(n.flights[a] == o.flights[a]);
                }
            }
        }
    }
}

/// The state of a key. A key in flight waits for a slot or is being
/// fetched. A resolved key is idle at once: no state in between outlives
/// the step that resolves it.
pub enum KeyState {
    /// No flight is open for the key.
    Idle,
    /// A flight is open and waits for a slot of the admission gate.
    AwaitingSlot,
    /// A flight is open and its fetch is running.
    Fetching,
}

/// What the caller of a miss has to do.
pub enum Request {
    /// A flight was opened and got a slot: the caller starts the fetch, then
    /// waits for its outcome.
    Started,
    /// A flight was opened and waits for a slot: the caller waits; the
    /// fetch starts when a slot passes to the key.
    Queued,
    /// The key was in flight: the caller joined its waiters and starts
    /// nothing.
    Joined,
}

/// What became of a caller's giving up.
pub enum Abandon {
    /// The caller was not waiting for the key: nothing was changed.
    NotWaiting,
    /// The caller left a flight whose fetch is running. The fetch goes on.
    LeftFetch,
    /// The caller left a flight that waits for a slot and has other
    /// waiters. The flight keeps its place in line.
    LeftLine,
    /// The caller was the last waiter of a flight that still waited for a
    /// slot: the flight was closed and will get no slot.
    Withdrawn,
}

impl Abandon {
    /// The error that the caller who gave up gets. Who leaves before a slot
    /// was granted fails with [`CacheError::GateTimeout`]; who leaves a
    /// fetch that is running, or was not waiting at all, gets none.
    pub fn error(&self) -> (error: Option<CacheError>)
        ensures
            error == if *self is LeftLine || *self is Withdrawn {
                Some(CacheError::GateTimeout)
            } else {
                None::<CacheError>
            },
    {
        match self {
            Abandon::LeftLine => Some(CacheError::GateTimeout),
            Abandon::Withdrawn => Some(CacheError::GateTimeout),
            Abandon::LeftFetch => None,
            Abandon::NotWaiting => None,
        }
    }
}

/// What a resolved flight leaves behind.
pub struct Resolution {
    /// The callers that waited: each gets the one outcome of the fetch.
    pub waiters: Vec<u64>,
    /// The key that the freed slot passed to: its fetch is to be started
    /// now.
    pub next: Option<String>,
}

/// One open flight.
struct Flight {
    key: String,
    waiters: Vec<u64>,
}

impl View for Flight {
    type V = FlightView;

    closed spec fn view(&self) -> FlightView {
        FlightView { key: self.key@, waiters: self.waiters@ }
    }
}

/// The views of the flights of `flights`, in the same order.
spec fn flight_views(flights: Seq<Flight>) -> Seq<FlightView> {
    Seq::new(flights.len(), |i: int| flights[i]@)
}

/// Where `id` stands first in `ids`, if it stands there.
fn find_id(ids: &Vec<u64>, id: u64) -> (found: Option<usize>)
    ensures
        found.is_some() <==> ids@.contains(id),
        found matches Some(i) ==> i < ids.len() && ids[i as int] == id,
{
    let mut i: usize = 0;
    while i < ids.len()
        invariant
            i <= ids.len(),
            forall|j: int| 0 <= j < i ==> ids[j] != id,
        decreases ids.len() - i,
    {
        if ids[i] == id {
            return Some(i);
        }
        i = i + 1;
    }
    None
}

/// The fetch orchestrator: the flights that are open, and the admission gate.
pub struct FetchOrchestrator {
    flights: Vec<Flight>,
    gate: AdmissionGate,
}

impl View for FetchOrchestrator {
    type V = OrchestratorView;

    closed spec fn view(&self) -> OrchestratorView {
        OrchestratorView { flights: flight_views(self.flights@), gate: self.gate@ }
    }
}

impl FetchOrchestrator {
    /// The orchestrator is well formed: see [`orchestrator_wf`].
    pub open spec fn wf(&self) -> bool {
        orchestrator_wf(self@)
    }

    /// An orchestrator without flights, on a gate of `capacity` free slots;
    /// `None` for a capacity of zero.
    pub fn new(capacity: usize) -> (made: Option<FetchOrchestrator>)
        ensures
            made.is_some() <==> capacity >= 1,
            made matches Some(o) ==> o.wf() && o@.flights.len() == 0 && o@.gate.capacity
                == capacity && o@.gate.holders.len() == 0 && o@.gate.waiting.len() == 0,
    {
        match AdmissionGate::new(capacity) {
            None => None,
            Some(gate) => {
                let made = FetchOrchestrator { flights: Vec::new(), gate };
                proof {
                    assert forall|key: Seq<char>|
                        #![trigger in_flight(made@.flights, key)]
                        #![trigger known(made@.gate, key)]
                        in_flight(made@.flights, key) <==> known(made@.gate, key) by {}
                }
                Some(made)
            },
        }
    }

    /// Where the flight for `key` stands, if one is open.
    fn find_flight(&self, key: &String) -> (found: Option<usize>)
        ensures
            found.is_some() <==> in_flight(self@.flights, key@),
            found matches Some(i) ==> i < self.flights.len() && self@.flights[i as int].key == key@,
    {
        let mut i: usize = 0;
        while i < self.flights.len()
            invariant
                i <= self.flights.len(),
                forall|j: int| 0 <= j < i ==> self@.flights[j].key != key@,
            decreases self.flights.len() - i,
        {
            assert(self@.flights[i as int] == self.flights[i as int]@);
            if self.flights[i].key == *key {
                assert(self@.flights[i as int].key == key@);
                return Some(i);
            }
            i = i + 1;
        }
        None
    }

    /// The number of slots of the admission gate.
    pub fn capacity(&self) -> (n: usize)
        ensures
            n == self@.gate.capacity,
    {
        self.gate.capacity()
    }

    /// The number of fetches that are running.
    pub fn fetching(&self) -> (n: usize)
        ensures
            n == fetching(self@).len(),
    {
        self.gate.in_flight()
    }

    /// The number of flights that wait for a slot.
    pub fn queued(&self) -> (n: usize)
        ensures
            n == self@.gate.waiting.len(),
    {
        self.gate.queued()
    }

    /// The state of `key`.
    pub fn state(&self, key: &String) -> (state: KeyState)
        requires
            self.wf(),
        ensures
            state is Idle <==> !in_flight(self@.flights, key@),
            state is Fetching <==> self@.gate.holders.contains(key@),
            state is AwaitingSlot <==> self@.gate.waiting.contains(key@),
    {
        proof {
            lemma_not_both(self@.gate, key@);
            assert(in_flight(self@.flights, key@) <==> known(self@.gate, key@));
        }
        if self.gate.holds(key) {
            KeyState::Fetching
        } else if self.gate.is_waiting(key) {
            KeyState::AwaitingSlot
        } else {
            KeyState::Idle
        }
    }

    /// The keys that are in flight, in the order in which their flights
    /// were opened.
    pub fn in_flight_keys(&self) -> (keys: Vec<String>)
        ensures
            texts(keys@) == flight_keys(self@.flights),
    {
        let mut keys: Vec<String> = Vec::new();
        let mut i: usize = 0;
        while i < self.flights.len()
            invariant
                i <= self.flights.len(),
                texts(keys@) == flight_keys(self@.flights).subrange(0, i as int),
            decreases self.flights.len() - i,
        {
            let ghost so_far = keys@;
            keys.push(self.flights[i].key.clone());
            assert(self@.flights[i as int] == self.flights[i as int]@);
            assert(texts(keys@) =~= texts(so_far).push(
                self@.flights[i as int].key,
            ));
            assert(texts(keys@) =~= flight_keys(self@.flights).subrange(0, i + 1));
            i = i + 1;
        }
        assert(flight_keys(self@.flights).subrange(0, self.flights.len() as int) =~= flight_keys(
            self@.flights,
        ));
        keys
    }

    /// Takes the miss of `key` by the caller `waiter`. For an idle key a
    /// flight is opened with the caller as its only waiter and a slot is
    /// asked for; for a key in flight the caller joins the waiters, and no
    /// second fetch is started.
    pub fn request(&mut self, key: &String, waiter: u64) -> (outcome: Request)
        requires
            old(self).wf(),
        ensures
            final(self).wf(),
            final(self)@ == request_step(old(self)@, key@, waiter),
            in_flight(final(self)@.flights, key@),
            final(self)@.flights[flight_at(final(self)@.flights, key@)].waiters.contains(waiter),
            outcome is Joined <==> in_flight(old(self)@.flights, key@),
            outcome is Started <==> !in_flight(old(self)@.flights, key@) && old(
                self,
            )@.gate.holders.len() < old(self)@.gate.capacity,
            outcome is Queued <==> !in_flight(old(self)@.flights, key@) && old(
                self,
            )@.gate.holders.len() >= old(self)@.gate.capacity,
    {
        let ghost o = self@;
        proof {
            lemma_request(o, key@, waiter);
            assert(in_flight(o.flights, key@) <==> known(o.gate, key@));
        }
        match self.find_flight(key) {
            Some(i) => {
                proof {
                    lemma_flight_at(o.flights, key@, i as int);
                }
                let mut flight = self.flights.remove(i);
                assert(flight@ == o.flights[i as int]);
                if find_id(&flight.waiters, waiter).is_none() {
                    flight.waiters.push(waiter);
                }
                assert(flight@ == joined(o.flights[i as int], waiter));
                self.flights.insert(i, flight);
                assert(self@.flights =~= o.flights.update(i as int, joined(o.flights[i as int], waiter)));
                Request::Joined
            },
            None => {
                let mut waiters: Vec<u64> = Vec::new();
                waiters.push(waiter);
                assert(waiters@ =~= seq![waiter]);
                self.flights.push(Flight { key: key.clone(), waiters });
                assert(self@.flights =~= o.flights.push(
                    FlightView { key: key@, waiters: seq![waiter] },
                ));
                match self.gate.acquire(key.clone()) {
                    Admission::Granted => Request::Started,
                    Admission::Queued => Request::Queued,
                }
            },
        }
    }

    /// Resolves the flight for `key`: the fetch came back, or the flight is
    /// given up as a whole. The flight is closed and the key is idle; its slot
    /// goes back to the admission gate and passes to the key that has waited
    /// longest, if any. `None` where no flight was open: nothing was changed.
    pub fn resolve(&mut self, key: &String) -> (done: Option<Resolution>)
        requires
            old(self).wf(),
        ensures
            final(self).wf(),
            final(self)@ == resolve_step(old(self)@, key@),
            !in_flight(final(self)@.flights, key@),
            done.is_some() <==> in_flight(old(self)@.flights, key@),
            done matches Some(r) ==> {
                &&& r.waiters@ == old(self)@.flights[flight_at(old(self)@.flights, key@)].waiters
                &&& (r.next.is_some() <==> old(self)@.gate.holders.contains(key@) && old(
                    self,
                )@.gate.waiting.len() > 0)
                &&& (r.next matches Some(k) ==> k@ == old(self)@.gate.waiting[0])
            },
    {
        let ghost o = self@;
        proof {
            lemma_resolve(o, key@);
            lemma_release(o.gate, key@);
            lemma_not_both(o.gate, key@);
            assert(in_flight(o.flights, key@) <==> known(o.gate, key@));
        }
        match self.find_flight(key) {
            None => None,
            Some(i) => {
                proof {
                    lemma_flight_at(o.flights, key@, i as int);
                }
                let flight = self.flights.remove(i);
                assert(flight@ == o.flights[i as int]);
                assert(self@.flights =~= o.flights.remove(i as int));
                let next = match self.gate.release(key) {
                    Release::Passed(next) => Some(next),
                    Release::Freed => None,
                    Release::NotHeld => None,
                };
                self.gate.withdraw(key);
                Some(Resolution { waiters: flight.waiters, next })
            },
        }
    }

    /// Takes the caller `waiter` out of the flight for `key`: it gave up.
    /// A fetch that is running is never cancelled on that account: it
    /// belongs to the flight, not to a caller. A flight that still waits
    /// for a slot and has lost its last waiter is closed and leaves the
    /// line, so that it gets no slot later.
    pub fn abandon(&mut self, key: &String, waiter: u64) -> (outcome: Abandon)
        requires
            old(self).wf(),
        ensures
            final(self).wf(),
            final(self)@ == abandon_step(old(self)@, key@, waiter),
            outcome is NotWaiting <==> !(in_flight(old(self)@.flights, key@) && old(
                self,
            )@.flights[flight_at(old(self)@.flights, key@)].waiters.contains(waiter)),
            outcome is Withdrawn <==> in_flight(old(self)@.flights, key@) && old(
                self,
            )@.flights[flight_at(old(self)@.flights, key@)].waiters == seq![waiter] && old(
                self,
            )@.gate.waiting.contains(key@),
            outcome is LeftFetch <==> !(outcome is NotWaiting) && old(self)@.gate.holders.contains(
                key@,
            ),
    {
        let ghost o = self@;
        proof {
            lemma_abandon(o, key@, waiter);
            lemma_not_both(o.gate, key@);
            assert(in_flight(o.flights, key@) <==> known(o.gate, key@));
        }
        match self.find_flight(key) {
            None => Abandon::NotWaiting,
            Some(i) => {
                proof {
                    lemma_flight_at(o.flights, key@, i as int);
                }
                let ghost w = o.flights[i as int].waiters;
                let mut flight = self.flights.remove(i);
                assert(flight@ == o.flights[i as int]);
                match find_id(&flight.waiters, waiter) {
                    None => {
                        assert(seq![waiter][0] == waiter);
                        self.flights.insert(i, flight);
                        assert(self@.flights =~= o.flights);
                        Abandon::NotWaiting
                    },
                    Some(p) => {
                        proof {
                            assert(w.index_of(waiter) == p) by {
                                let q = w.index_of(waiter);
                                assert(0 <= q < w.len() && w[q] == waiter);
                            }
                        }
                        flight.waiters.remove(p);
                        assert(flight.waiters@ == w.remove(p as int));
                        assert(w == seq![waiter] <==> w.remove(p as int).len() == 0) by {
                            if w.remove(p as int).len() == 0 {
                                assert(w =~= seq![waiter]);
                            }
                        }
                        let in_line = self.gate.is_waiting(key);
                        if flight.waiters.len() == 0 && in_line {
                            assert(self@.flights =~= o.flights.remove(i as int));
                            self.gate.withdraw(key);
                            Abandon::Withdrawn
                        } else {
                            self.flights.insert(i, flight);
                            assert(self@.flights =~= o.flights.update(
                                i as int,
                                FlightView { key: key@, waiters: w.remove(p as int) },
                            ));
                            if in_line {
                                Abandon::LeftLine
                            } else {
                                Abandon::LeftFetch
                            }
                        }
                    },
                }
            },
        }
    }
}

} // verus!
