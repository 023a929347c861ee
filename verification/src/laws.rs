//! What holds of the cache across several steps. Each law is stated over the
//! step functions that the contracts of the executable functions use, so
//! that it holds of every run of them.

use vstd::prelude::*;
use crate::gate::{
    acquire_step, gate_wf, known, lemma_acquire, lemma_not_both, lemma_release, lemma_withdraw,
    release_step, withdraw_step, GateView,
};
use crate::orchestrator::{
    abandon_step, fetching, flight_at, in_flight, joined, lemma_abandon, lemma_flight_at,
    lemma_open_flight, lemma_request, lemma_resolve, orchestrator_wf, request_step, resolve_step,
    FlightView, OrchestratorView,
};
use crate::rank::{
    before, evict_down, evicted_by, is_lowest, lemma_evict_coldest, lemma_evict_keeps_order,
    lemma_evict_shape, lemma_evict_spares_pinned, lemma_evicted_in_order, lemma_lowest, lowest,
};
use crate::record::{colder, fresh, touched, valid_record, RecordView};
use crate::table::{
    has_key, is_table, lemma_position, lemma_push_keeps_table, lemma_update_keeps_table, position,
};
use crate::store::{delete_lowest_step, deleted_lowest, upsert_step};
use crate::tier::{install_step, lemma_install, lookup_step, sweep_step, swept_out};

verus! {

/// A hit is repeatable. Let a lookup of `key` at time `first` hit in the
/// tier `s`, and let `t` be any later state of the tier that still holds the
/// record as that lookup left it (nothing evicted or replaced it). Then a
/// lookup at time `second` hits again, returns the same value, and returns
/// an access count that is exactly one greater, as long as the count has not
/// reached the largest value a `u64` holds.
pub proof fn law_repeated_hit(
    s: Seq<RecordView>,
    t: Seq<RecordView>,
    key: Seq<char>,
    first: int,
    second: int,
)
    requires
        is_table(s),
        is_table(t),
        has_key(s, key),
        has_key(t, key),
        t[position(t, key)] == lookup_step(s, key, first)[position(s, key)],
        touched(s[position(s, key)], first).access_count < u64::MAX,
    ensures
        has_key(lookup_step(s, key, first), key),
        lookup_step(s, key, first)[position(s, key)] == touched(s[position(s, key)], first),
        touched(t[position(t, key)], second).access_count == touched(
            s[position(s, key)],
            first,
        ).access_count + 1,
        touched(t[position(t, key)], second).value == touched(s[position(s, key)], first).value,
        touched(t[position(t, key)], second).key == key,
        touched(t[position(t, key)], second).last_accessed >= touched(
            s[position(s, key)],
            first,
        ).last_accessed,
{
    let p = position(s, key);
    assert(0 <= p < s.len() && s[p].key == key);
    let s1 = lookup_step(s, key, first);
    assert(s1[p].key == key);
    let q = position(t, key);
    assert(0 <= q < t.len() && t[q].key == key);
}

/// The first hit after a fetch. Once a fetched value has been installed
/// under `key`, a lookup of the key hits, returns that value, and returns an
/// access count of 2: one greater than the count of 1 that the fetch left.
pub proof fn law_hit_after_fetch(
    s: Seq<RecordView>,
    key: Seq<char>,
    value: Seq<char>,
    hard: int,
    fetched_at: int,
    now: int,
)
    requires
        is_table(s),
        s.len() <= hard,
        1 <= hard,
        key.len() > 0,
    ensures
        is_table(install_step(s, fresh(key, value, fetched_at), hard)),
        install_step(s, fresh(key, value, fetched_at), hard).len() <= hard,
        has_key(install_step(s, fresh(key, value, fetched_at), hard), key),
        touched(
            install_step(s, fresh(key, value, fetched_at), hard)[position(
                install_step(s, fresh(key, value, fetched_at), hard),
                key,
            )],
            now,
        ).access_count == 2,
        touched(
            install_step(s, fresh(key, value, fetched_at), hard)[position(
                install_step(s, fresh(key, value, fetched_at), hard),
                key,
            )],
            now,
        ).value == value,
{
    let r = fresh(key, value, fetched_at);
    lemma_install(s, r, hard);
}

/// The orchestrator after the callers `callers` have missed `key` one
/// after another, with nothing in between.
pub open spec fn requests(o: OrchestratorView, key: Seq<char>, callers: Seq<u64>) -> OrchestratorView
    decreases callers.len(),
{
    if callers.len() == 0 {
        o
    } else {
        request_step(requests(o, key, callers.drop_last()), key, callers.last())
    }
}

/// Single flight. Let any number of callers miss an idle key one after
/// another. Then one flight is open for the key, and the admission gate was
/// asked for one slot only: what it granted or queued for the first caller
/// stands, and every later caller found the key in flight and started nothing.
/// The waiters of the flight are exactly the callers, so that resolving the
/// flight hands its one outcome to all of them; and resolving it leaves the
/// key idle.
pub proof fn law_single_flight(o: OrchestratorView, key: Seq<char>, callers: Seq<u64>)
    requires
        orchestrator_wf(o),
        !in_flight(o.flights, key),
        callers.len() >= 1,
    ensures
        orchestrator_wf(requests(o, key, callers)),
        requests(o, key, callers).gate == acquire_step(o.gate, key),
        requests(o, key, callers).flights.len() == o.flights.len() + 1,
        requests(o, key, callers).flights.subrange(0, o.flights.len() as int) == o.flights,
        in_flight(requests(o, key, callers).flights, key),
        flight_at(requests(o, key, callers).flights, key) == o.flights.len(),
        requests(o, key, callers).flights[o.flights.len() as int].waiters.no_duplicates(),
        forall|w: u64|
            requests(o, key, callers).flights[o.flights.len() as int].waiters.contains(w)
                <==> callers.contains(w),
        forall|i: int|
            1 <= i < callers.len() ==> in_flight(
                #[trigger] requests(o, key, callers.take(i)).flights,
                key,
            ),
        !in_flight(resolve_step(requests(o, key, callers), key).flights, key),
    decreases callers.len(),
{
    let n = requests(o, key, callers);
    let last = o.flights.len() as int;
    if callers.len() == 1 {
        assert(callers.drop_last().len() == 0);
        assert(requests(o, key, callers.drop_last()) == o);
        let f = FlightView { key, waiters: seq![callers.last()] };
        lemma_request(o, key, callers.last());
        lemma_open_flight(o.flights, f);
        assert(n.flights.subrange(0, last) =~= o.flights);
        assert forall|w: u64| n.flights[last].waiters.contains(w) <==> callers.contains(w) by {
            assert(f.waiters[0] == callers[0]);
            if f.waiters.contains(w) {
                let a = choose|a: int| 0 <= a < f.waiters.len() && f.waiters[a] == w;
                assert(callers[0] == w);
            }
            if callers.contains(w) {
                let a = choose|a: int| 0 <= a < callers.len() && callers[a] == w;
                assert(f.waiters[0] == w);
            }
        }
    } else {
        let head = callers.drop_last();
        let m = requests(o, key, head);
        law_single_flight(o, key, head);
        lemma_request(m, key, callers.last());
        let f = joined(m.flights[last], callers.last());
        assert(n.flights == m.flights.update(last, f));
        lemma_flight_at(n.flights, key, last);
        assert(n.flights.subrange(0, last) =~= m.flights.subrange(0, last));
        assert forall|w: u64| n.flights[last].waiters.contains(w) <==> callers.contains(w) by {
            let old_w = m.flights[last].waiters;
            if f.waiters.contains(w) {
                let a = choose|a: int| 0 <= a < f.waiters.len() && f.waiters[a] == w;
                if a < old_w.len() {
                    assert(old_w.contains(old_w[a]));
                    assert(head.contains(w));
                    let b = choose|b: int| 0 <= b < head.len() && head[b] == w;
                    assert(callers[b] == w);
                } else {
                    assert(callers[callers.len() - 1] == w);
                }
            }
            if callers.contains(w) {
                let b = choose|b: int| 0 <= b < callers.len() && callers[b] == w;
                if b < head.len() {
                    assert(head[b] == w);
                    assert(head.contains(w));
                    assert(old_w.contains(w));
                    let a = choose|a: int| 0 <= a < old_w.len() && old_w[a] == w;
                    assert(f.waiters[a] == w);
                } else {
                    if !old_w.contains(w) {
                        assert(f.waiters[old_w.len() as int] == w);
                    } else {
                        let a = choose|a: int| 0 <= a < old_w.len() && old_w[a] == w;
                        assert(f.waiters[a] == w);
                    }
                }
            }
        }
        assert forall|i: int| 1 <= i < callers.len() implies in_flight(
            #[trigger] requests(o, key, callers.take(i)).flights,
            key,
        ) by {
            if i < head.len() {
                assert(callers.take(i) =~= head.take(i));
            } else {
                assert(callers.take(i) =~= head);
            }
        }
    }
    lemma_resolve(n, key);
}

/// One thing that happens to an orchestrator.
pub ghost enum Event {
    /// A caller missed a key.
    Missed { key: Seq<char>, waiter: u64 },
    /// The flight for a key was resolved.
    Resolved { key: Seq<char> },
    /// A caller gave up waiting for a key.
    GaveUp { key: Seq<char>, waiter: u64 },
}

/// The orchestrator after one event.
pub open spec fn after(o: OrchestratorView, event: Event) -> OrchestratorView {
    match event {
        Event::Missed { key, waiter } => request_step(o, key, waiter),
        Event::Resolved { key } => resolve_step(o, key),
        Event::GaveUp { key, waiter } => abandon_step(o, key, waiter),
    }
}

/// The orchestrator after the events `events`, in their order.
pub open spec fn run(o: OrchestratorView, events: Seq<Event>) -> OrchestratorView
    decreases events.len(),
{
    if events.len() == 0 {
        o
    } else {
        after(run(o, events.drop_last()), events.last())
    }
}

/// The admission gate bounds the fetches. Whatever happens to an orchestrator,
/// in whatever order and however often, the number of fetches that are running
/// never exceeds the capacity of the admission gate, which never changes; and
/// a key holds no two slots.
pub proof fn law_bounded_fetches(o: OrchestratorView, events: Seq<Event>)
    requires
        orchestrator_wf(o),
    ensures
        orchestrator_wf(run(o, events)),
        run(o, events).gate.capacity == o.gate.capacity,
        fetching(run(o, events)).len() <= o.gate.capacity,
        fetching(run(o, events)).no_duplicates(),
    decreases events.len(),
{
    if events.len() > 0 {
        let before = run(o, events.drop_last());
        law_bounded_fetches(o, events.drop_last());
        match events.last() {
            Event::Missed { key, waiter } => {
                lemma_request(before, key, waiter);
            },
            Event::Resolved { key } => {
                lemma_resolve(before, key);
            },
            Event::GaveUp { key, waiter } => {
                lemma_abandon(before, key, waiter);
            },
        }
    }
}

/// The event closes the flight for `key`, or may close it: the flight is
/// resolved, or one of its waiters gives up.
pub open spec fn closes(event: Event, key: Seq<char>) -> bool {
    match event {
        Event::Missed { key: k, waiter } => false,
        Event::Resolved { key: k } => k == key,
        Event::GaveUp { key: k, waiter } => k == key,
    }
}

/// The callers that wait for `key`.
pub open spec fn waiters_of(o: OrchestratorView, key: Seq<char>) -> Seq<u64> {
    o.flights[flight_at(o.flights, key)].waiters
}

/// An event that does not close the flight for `key` leaves the flight
/// open, leaves its fetch running if it was, and loses none of its waiters.
pub proof fn lemma_flight_survives(o: OrchestratorView, key: Seq<char>, event: Event)
    requires
        orchestrator_wf(o),
        in_flight(o.flights, key),
        !closes(event, key),
    ensures
        orchestrator_wf(after(o, event)),
        in_flight(after(o, event).flights, key),
        o.gate.holders.contains(key) ==> after(o, event).gate.holders.contains(key),
        forall|w: u64|
            waiters_of(o, key).contains(w) ==> #[trigger] waiters_of(after(o, event), key).contains(
                w,
            ),
        event matches Event::Missed { key: k, waiter } && k == key ==> after(o, event).gate
            == o.gate && after(o, event).flights.len() == o.flights.len(),
{
    let n = after(o, event);
    let i = flight_at(o.flights, key);
    assert(0 <= i < o.flights.len() && o.flights[i].key == key);
    match event {
        Event::Missed { key: k, waiter } => {
            lemma_request(o, k, waiter);
            lemma_acquire(o.gate, k);
            if k == key {
                lemma_flight_at(n.flights, key, i);
                let w0 = o.flights[i].waiters;
                let w1 = n.flights[i].waiters;
                assert forall|w: u64| w0.contains(w) implies w1.contains(w) by {
                    let a = choose|a: int| 0 <= a < w0.len() && w0[a] == w;
                    assert(w1[a] == w);
                }
            } else if in_flight(o.flights, k) {
                let j = flight_at(o.flights, k);
                assert(0 <= j < o.flights.len() && o.flights[j].key == k);
                assert(n.flights[i] == o.flights[i]);
                lemma_flight_at(n.flights, key, i);
            } else {
                assert(n.flights[i] == o.flights[i]);
                lemma_flight_at(n.flights, key, i);
            }
        },
        Event::Resolved { key: k } => {
            lemma_resolve(o, k);
            lemma_release(o.gate, k);
            lemma_withdraw(release_step(o.gate, k), k);
            if in_flight(o.flights, k) {
                let j = flight_at(o.flights, k);
                assert(0 <= j < o.flights.len() && o.flights[j].key == k);
                let i1 = if i < j { i } else { i - 1 };
                assert(n.flights[i1] == o.flights[i]);
                lemma_flight_at(n.flights, key, i1);
            }
        },
        Event::GaveUp { key: k, waiter } => {
            lemma_abandon(o, k, waiter);
            if in_flight(o.flights, k) && o.flights[flight_at(o.flights, k)].waiters.contains(waiter) {
                let j = flight_at(o.flights, k);
                assert(0 <= j < o.flights.len() && o.flights[j].key == k);
                let left = o.flights[j].waiters.remove(o.flights[j].waiters.index_of(waiter));
                if left.len() == 0 && o.gate.waiting.contains(k) {
                    let i1 = if i < j { i } else { i - 1 };
                    assert(n.flights[i1] == o.flights[i]);
                    lemma_flight_at(n.flights, key, i1);
                } else {
                    assert(n.flights[i] == o.flights[i]);
                    lemma_flight_at(n.flights, key, i);
                }
            }
        },
    }
}

/// A flight stays single. While the flight for `key` is open, whatever
/// else happens in between (other keys are missed, fetched and resolved,
/// other callers give up), every miss of the key finds it in flight and
/// joins: no second flight is opened and no second fetch is started for it.
/// A fetch that is running keeps running, and no caller that waits is lost,
/// so that the one outcome of the flight reaches all of them.
pub proof fn law_flight_stays_single(o: OrchestratorView, key: Seq<char>, events: Seq<Event>)
    requires
        orchestrator_wf(o),
        in_flight(o.flights, key),
        forall|i: int| 0 <= i < events.len() ==> !closes(#[trigger] events[i], key),
    ensures
        orchestrator_wf(run(o, events)),
        in_flight(run(o, events).flights, key),
        o.gate.holders.contains(key) ==> run(o, events).gate.holders.contains(key),
        forall|w: u64|
            waiters_of(o, key).contains(w) ==> #[trigger] waiters_of(run(o, events), key).contains(
                w,
            ),
        forall|i: int|
            0 <= i < events.len() ==> in_flight(#[trigger] run(o, events.take(i)).flights, key),
    decreases events.len(),
{
    if events.len() > 0 {
        let head = events.drop_last();
        assert forall|i: int| 0 <= i < head.len() implies !closes(#[trigger] head[i], key) by {
            assert(head[i] == events[i]);
        }
        law_flight_stays_single(o, key, head);
        let before = run(o, head);
        assert(events[events.len() - 1] == events.last());
        lemma_flight_survives(before, key, events.last());
        assert forall|i: int| 0 <= i < events.len() implies in_flight(
            #[trigger] run(o, events.take(i)).flights,
            key,
        ) by {
            if i < head.len() {
                assert(events.take(i) =~= head.take(i));
            } else {
                assert(events.take(i) =~= head);
            }
        }
    }
}

/// A fetch starts only with a slot. A miss starts a fetch exactly when it
/// opens a flight while a slot is free, and the key then holds a slot; a
/// resolved flight passes its slot to the key that has waited longest, and
/// that key then holds it. Nothing else adds a key to those that are being
/// fetched.
pub proof fn law_fetch_needs_slot(o: OrchestratorView, key: Seq<char>, waiter: u64)
    requires
        orchestrator_wf(o),
    ensures
        !in_flight(o.flights, key) && o.gate.holders.len() < o.gate.capacity ==> fetching(
            request_step(o, key, waiter),
        ) == fetching(o).push(key),
        in_flight(o.flights, key) || o.gate.holders.len() >= o.gate.capacity ==> fetching(
            request_step(o, key, waiter),
        ) == fetching(o),
        fetching(abandon_step(o, key, waiter)) == fetching(o),
        o.gate.holders.contains(key) && o.gate.waiting.len() > 0 ==> fetching(resolve_step(o, key))
            == fetching(o).remove(fetching(o).index_of(key)).push(o.gate.waiting[0]),
        o.gate.holders.contains(key) && o.gate.waiting.len() == 0 ==> fetching(
            resolve_step(o, key),
        ) == fetching(o).remove(fetching(o).index_of(key)),
        !o.gate.holders.contains(key) ==> fetching(resolve_step(o, key)) == fetching(o),
{
    assert(in_flight(o.flights, key) <==> known(o.gate, key));
    lemma_not_both(o.gate, key);
    lemma_release(o.gate, key);
    lemma_withdraw(o.gate, key);
    lemma_acquire(o.gate, key);
    lemma_abandon(o, key, waiter);
}

/// The record that is evicted first is one record: only one place of a
/// tier goes before all others that are not pinned, and it is the place that
/// the eviction takes.
pub proof fn law_one_lowest(s: Seq<RecordView>, pinned: Set<Seq<char>>, i: int)
    requires
        is_lowest(s, pinned, i),
    ensures
        lowest(s, pinned) == i,
{
    lemma_lowest(s, pinned);
    let l = lowest(s, pinned);
    if l < 0 {
        assert(pinned.contains(s[i].key));
    } else if l != i {
        assert(before(s, i, l));
        assert(before(s, l, i));
    }
}

/// The admission gate never grants more slots than it has. Whatever a
/// ticket does (ask for a slot, give one back, give up waiting), it
/// stays well formed: no more holders than slots, no ticket twice, and nobody
/// waiting while a slot is free.
pub proof fn law_gate_bound(g: GateView, ticket: Seq<char>)
    requires
        gate_wf(g),
    ensures
        gate_wf(acquire_step(g, ticket)),
        gate_wf(release_step(g, ticket)),
        gate_wf(withdraw_step(g, ticket)),
        acquire_step(g, ticket).holders.len() <= g.capacity,
        release_step(g, ticket).holders.len() <= g.capacity,
        withdraw_step(g, ticket).holders.len() <= g.capacity,
        !withdraw_step(g, ticket).waiting.contains(ticket),
        !withdraw_step(g, ticket).holders.contains(ticket) || g.holders.contains(ticket),
{
    lemma_acquire(g, ticket);
    lemma_release(g, ticket);
    lemma_withdraw(g, ticket);
}

/// One thing that a ticket does at the admission gate.
pub ghost enum GateEvent {
    /// The ticket asks for a slot.
    Asked { ticket: Seq<char> },
    /// The ticket gives its slot back.
    GaveBack { ticket: Seq<char> },
    /// The ticket gives up waiting.
    Withdrew { ticket: Seq<char> },
}

/// The admission gate after one event.
pub open spec fn gate_after(g: GateView, event: GateEvent) -> GateView {
    match event {
        GateEvent::Asked { ticket } => acquire_step(g, ticket),
        GateEvent::GaveBack { ticket } => release_step(g, ticket),
        GateEvent::Withdrew { ticket } => withdraw_step(g, ticket),
    }
}

/// The admission gate after the events `events`, in their order.
pub open spec fn gate_run(g: GateView, events: Seq<GateEvent>) -> GateView
    decreases events.len(),
{
    if events.len() == 0 {
        g
    } else {
        gate_after(gate_run(g, events.drop_last()), events.last())
    }
}

/// Who gave up gets no slot later. A ticket that has left the line, or
/// that the admission gate never knew, gets no slot and no place in line
/// through anything that other tickets do: only by asking again.
pub proof fn law_withdrawn_gets_no_slot(g: GateView, ticket: Seq<char>, events: Seq<GateEvent>)
    requires
        gate_wf(g),
        !g.holders.contains(ticket),
        forall|i: int|
            0 <= i < events.len() ==> !(#[trigger] events[i] matches GateEvent::Asked { ticket: t }
                && t == ticket),
    ensures
        gate_wf(gate_run(withdraw_step(g, ticket), events)),
        !known(gate_run(withdraw_step(g, ticket), events), ticket),
    decreases events.len(),
{
    let start = withdraw_step(g, ticket);
    lemma_withdraw(g, ticket);
    if events.len() == 0 {
    } else {
        let head = events.drop_last();
        assert forall|i: int| 0 <= i < head.len() implies !(#[trigger] head[i] matches GateEvent::Asked {
            ticket: t,
        } && t == ticket) by {
            assert(head[i] == events[i]);
        }
        law_withdrawn_gets_no_slot(g, ticket, head);
        let before = gate_run(start, head);
        assert(events[events.len() - 1] == events.last());
        match events.last() {
            GateEvent::Asked { ticket: other } => {
                lemma_acquire(before, other);
            },
            GateEvent::GaveBack { ticket: other } => {
                lemma_release(before, other);
            },
            GateEvent::Withdrew { ticket: other } => {
                lemma_withdraw(before, other);
            },
        }
    }
}

/// First come, first served. While a ticket waits, a newcomer gets no slot:
/// it joins the end of the line. A slot that is given back passes to the
/// head of the line, and everyone else in line moves up by one place. So the
/// ticket at place `p` of the line holds a slot after `p + 1` slots have
/// been given back, unless it gives up first.
pub proof fn law_first_come_first_served(
    g: GateView,
    newcomer: Seq<char>,
    holder: Seq<char>,
    p: int,
)
    requires
        gate_wf(g),
        0 <= p < g.waiting.len(),
        !known(g, newcomer),
        g.holders.contains(holder),
    ensures
        acquire_step(g, newcomer).holders == g.holders,
        acquire_step(g, newcomer).waiting == g.waiting.push(newcomer),
        release_step(g, holder).holders.contains(g.waiting[0]),
        release_step(g, holder).waiting == g.waiting.remove(0),
        p > 0 ==> release_step(g, holder).waiting[p - 1] == g.waiting[p],
{
    lemma_release(g, holder);
    let rest = g.holders.remove(g.holders.index_of(holder));
    assert(rest.push(g.waiting[0])[rest.len() as int] == g.waiting[0]);
}

/// A sweep that evicts, or that finds the tier within its target, leaves
/// the tier as the policy asks. No more than `target` records are left,
/// unless all that are left are pinned. No record that is left and is not
/// pinned has a lower access count than a record that was evicted, and among
/// equal counts none has an older last access. Where no record of the tier
/// is pinned this is the whole of it: no more than `target` records are
/// left, and none of them has a lower access count than an evicted one.
pub proof fn law_sweep(s: Seq<RecordView>, pinned: Set<Seq<char>>, soft: int, target: int)
    requires
        is_table(s),
        0 <= target <= soft,
        s.len() >= soft || s.len() <= target,
    ensures
        is_table(sweep_step(s, pinned, soft, target)),
        sweep_step(s, pinned, soft, target).len() + swept_out(s, pinned, soft, target).len()
            == s.len(),
        sweep_step(s, pinned, soft, target).len() <= target || forall|j: int|
            0 <= j < sweep_step(s, pinned, soft, target).len() ==> pinned.contains(
                (#[trigger] sweep_step(s, pinned, soft, target)[j]).key,
            ),
        forall|j: int, k: int|
            0 <= j < sweep_step(s, pinned, soft, target).len() && 0 <= k < swept_out(
                s,
                pinned,
                soft,
                target,
            ).len() && !pinned.contains((#[trigger] sweep_step(s, pinned, soft, target)[j]).key)
                ==> !colder(
                sweep_step(s, pinned, soft, target)[j],
                #[trigger] swept_out(s, pinned, soft, target)[k],
            ),
        forall|a: int, b: int|
            0 <= a < b < swept_out(s, pinned, soft, target).len() ==> !colder(
                #[trigger] swept_out(s, pinned, soft, target)[b],
                #[trigger] swept_out(s, pinned, soft, target)[a],
            ),
        (forall|i: int| 0 <= i < s.len() ==> !pinned.contains((#[trigger] s[i]).key)) ==> {
            &&& sweep_step(s, pinned, soft, target).len() <= target
            &&& forall|j: int, k: int|
                0 <= j < sweep_step(s, pinned, soft, target).len() && 0 <= k < swept_out(
                    s,
                    pinned,
                    soft,
                    target,
                ).len() ==> (#[trigger] sweep_step(s, pinned, soft, target)[j]).access_count >= (
                #[trigger] swept_out(s, pinned, soft, target)[k]).access_count
        },
{
    let r = sweep_step(s, pinned, soft, target);
    let e = swept_out(s, pinned, soft, target);
    lemma_evict_shape(s, pinned, target);
    lemma_evict_coldest(s, pinned, target);
    lemma_evicted_in_order(s, pinned, target);
    if s.len() >= soft {
        assert(r == evict_down(s, pinned, target));
        assert(e == evicted_by(s, pinned, target));
    } else {
        assert(r == s);
        assert(e.len() == 0);
    }
    if forall|i: int| 0 <= i < s.len() ==> !pinned.contains((#[trigger] s[i]).key) {
        assert forall|j: int| 0 <= j < r.len() implies !pinned.contains((#[trigger] r[j]).key) by {
            assert(s.contains(r[j]));
            let a = choose|a: int| 0 <= a < s.len() && s[a] == r[j];
            assert(!pinned.contains(s[a].key));
        }
        if r.len() > target {
            assert(pinned.contains(r[0].key));
        }
        assert forall|j: int, k: int| 0 <= j < r.len() && 0 <= k < e.len() implies (
        #[trigger] r[j]).access_count >= (#[trigger] e[k]).access_count by {
            assert(!pinned.contains(r[j].key));
            assert(!colder(r[j], e[k]));
        }
    }
}

/// A sweep never evicts the record of a pinned key, and it keeps what it
/// leaves in the order in which it stood.
pub proof fn law_sweep_spares_pinned(
    s: Seq<RecordView>,
    pinned: Set<Seq<char>>,
    soft: int,
    target: int,
)
    requires
        is_table(s),
        0 <= target <= soft,
    ensures
        forall|i: int|
            0 <= i < s.len() && pinned.contains((#[trigger] s[i]).key) ==> sweep_step(
                s,
                pinned,
                soft,
                target,
            ).contains(s[i]),
        forall|a: int, b: int|
            0 <= a < b < sweep_step(s, pinned, soft, target).len() ==> position(
                s,
                (#[trigger] sweep_step(s, pinned, soft, target)[a]).key,
            ) < position(s, (#[trigger] sweep_step(s, pinned, soft, target)[b]).key),
{
    let r = sweep_step(s, pinned, soft, target);
    lemma_evict_spares_pinned(s, pinned, target);
    lemma_evict_keeps_order(s, pinned, target);
    if s.len() < soft {
        assert forall|i: int| 0 <= i < s.len() implies r.contains(#[trigger] s[i]) by {
            assert(r[i] == s[i]);
        }
        assert forall|a: int, b: int| 0 <= a < b < r.len() implies position(
            s,
            (#[trigger] r[a]).key,
        ) < position(s, (#[trigger] r[b]).key) by {
            lemma_position(s, r[a].key, a);
            lemma_position(s, r[b].key, b);
        }
    }
}

/// A failure is not remembered. After the flight for `key` has been resolved,
/// for a failed fetch as for any other, the key is idle. A miss of the key
/// that follows opens a new flight with the caller as its only waiter and asks
/// the admission gate anew; where the failed fetch held a slot and no other
/// key waited for one, a slot is free, so that the new fetch starts at once.
pub proof fn law_retry_after_failure(o: OrchestratorView, key: Seq<char>, waiter: u64)
    requires
        orchestrator_wf(o),
        in_flight(o.flights, key),
    ensures
        orchestrator_wf(resolve_step(o, key)),
        !in_flight(resolve_step(o, key).flights, key),
        orchestrator_wf(request_step(resolve_step(o, key), key, waiter)),
        in_flight(request_step(resolve_step(o, key), key, waiter).flights, key),
        request_step(resolve_step(o, key), key, waiter).flights[flight_at(
            request_step(resolve_step(o, key), key, waiter).flights,
            key,
        )].waiters == seq![waiter],
        known(request_step(resolve_step(o, key), key, waiter).gate, key),
        o.gate.holders.contains(key) && o.gate.waiting.len() == 0 ==> resolve_step(
            o,
            key,
        ).gate.holders.len() < resolve_step(o, key).gate.capacity && request_step(
            resolve_step(o, key),
            key,
            waiter,
        ).gate.holders.contains(key),
{
    let idle = resolve_step(o, key);
    let again = request_step(idle, key, waiter);
    lemma_resolve(o, key);
    lemma_request(idle, key, waiter);
    lemma_release(o.gate, key);
    lemma_not_both(o.gate, key);
    lemma_acquire(idle.gate, key);
    let f = FlightView { key, waiters: seq![waiter] };
    lemma_open_flight(idle.flights, f);
    if o.gate.holders.contains(key) && o.gate.waiting.len() == 0 {
        let i = o.gate.holders.index_of(key);
        assert(0 <= i < o.gate.holders.len());
        assert(idle.gate.holders == o.gate.holders.remove(i));
        assert(again.gate.holders == idle.gate.holders.push(key));
        assert(again.gate.holders[idle.gate.holders.len() as int] == key);
    }
}

/// An upsert is idempotent, and the last writer wins: writing a record a
/// second time changes nothing, and after two writes under one key the
/// store holds the second record, where the first one went.
pub proof fn law_upsert(s: Seq<RecordView>, first: RecordView, second: RecordView)
    requires
        is_table(s),
        valid_record(first),
        valid_record(second),
        first.key == second.key,
    ensures
        is_table(upsert_step(s, first)),
        upsert_step(upsert_step(s, first), first) == upsert_step(s, first),
        has_key(upsert_step(upsert_step(s, first), second), second.key),
        upsert_step(upsert_step(s, first), second)[position(
            upsert_step(upsert_step(s, first), second),
            second.key,
        )] == second,
        upsert_step(upsert_step(s, first), second) == upsert_step(s, second),
        upsert_step(s, first).len() == if has_key(s, first.key) {
            s.len()
        } else {
            s.len() + 1
        },
{
    let once = upsert_step(s, first);
    if has_key(s, first.key) {
        let p = position(s, first.key);
        assert(0 <= p < s.len() && s[p].key == first.key);
        lemma_update_keeps_table(s, p, first);
        lemma_position(once, first.key, p);
        lemma_update_keeps_table(once, p, second);
        lemma_position(upsert_step(once, second), second.key, p);
        assert(once.update(p, first) =~= once);
        assert(once.update(p, second) =~= s.update(p, second));
    } else {
        lemma_push_keeps_table(s, first);
        let p = s.len() as int;
        lemma_update_keeps_table(once, p, second);
        lemma_position(upsert_step(once, second), second.key, p);
        assert(once.update(p, first) =~= once);
        assert(once.update(p, second) =~= s.push(second));
    }
}

/// Delete-by-rank deletes from the bottom: `n` rows go, or all where the
/// store has fewer, and no row that is left has a lower access count than a
/// row that was deleted, nor among equal counts an older last access.
pub proof fn law_delete_lowest(s: Seq<RecordView>, n: int)
    requires
        is_table(s),
        0 <= n,
    ensures
        is_table(delete_lowest_step(s, n)),
        delete_lowest_step(s, n).len() == if n <= s.len() {
            s.len() - n
        } else {
            0
        },
        deleted_lowest(s, n).len() == if n <= s.len() {
            n
        } else {
            s.len() as int
        },
        forall|j: int, k: int|
            0 <= j < delete_lowest_step(s, n).len() && 0 <= k < deleted_lowest(s, n).len()
                ==> !colder(
                #[trigger] delete_lowest_step(s, n)[j],
                #[trigger] deleted_lowest(s, n)[k],
            ),
{
    let none = Set::<Seq<char>>::empty();
    crate::store::lemma_delete_lowest(s, n);
    lemma_evict_coldest(s, none, crate::store::left_after(s.len() as int, n));
}

} // verus!
