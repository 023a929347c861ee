//! The admission gate: a counting gate of a fixed capacity. Who asks for a
//! slot names itself by a ticket. A ticket either holds one of the slots or
//! waits in line for one; a released slot passes to the ticket that has
//! waited longest. The capacity is the number of sessions of the guarded
//! resource that may be used at once.

use vstd::prelude::*;
use crate::table::{find_text, texts};

verus! {

/// What a gate is to the contracts.
pub ghost struct GateView {
    /// The number of slots.
    pub capacity: int,
    /// The tickets that hold a slot, in the order in which they got it.
    pub holders: Seq<Seq<char>>,
    /// The tickets that wait for a slot, the one that has waited longest
    /// first.
    pub waiting: Seq<Seq<char>>,
}

/// A gate never grants more slots than it has, knows each ticket once, and
/// lets no ticket wait while a slot is free.
pub open spec fn gate_wf(g: GateView) -> bool {
    &&& 1 <= g.capacity
    &&& g.holders.len() <= g.capacity
    &&& g.holders.no_duplicates()
    &&& g.waiting.no_duplicates()
    &&& g.holders.disjoint(g.waiting)
    &&& (g.waiting.len() > 0 ==> g.holders.len() == g.capacity)
}

/// The admission gate knows the ticket: it holds a slot or waits.
pub open spec fn known(g: GateView, ticket: Seq<char>) -> bool {
    g.holders.contains(ticket) || g.waiting.contains(ticket)
}

/// The admission gate after `ticket` has asked for a slot. A ticket that the
/// admission gate knows changes nothing. A new ticket gets a slot if one is
/// free and otherwise joins the end of the line.
pub open spec fn acquire_step(g: GateView, ticket: Seq<char>) -> GateView {
    if known(g, ticket) {
        g
    } else if g.holders.len() < g.capacity {
        GateView { capacity: g.capacity, holders: g.holders.push(ticket), waiting: g.waiting }
    } else {
        GateView { capacity: g.capacity, holders: g.holders, waiting: g.waiting.push(ticket) }
    }
}

/// The admission gate after `ticket` has given its slot back. A ticket that
/// holds no slot changes nothing. Otherwise the slot passes to the head of the
/// line, if anyone waits.
pub open spec fn release_step(g: GateView, ticket: Seq<char>) -> GateView {
    if !g.holders.contains(ticket) {
        g
    } else if g.waiting.len() > 0 {
        GateView {
            capacity: g.capacity,
            holders: g.holders.remove(g.holders.index_of(ticket)).push(g.waiting[0]),
            waiting: g.waiting.remove(0),
        }
    } else {
        GateView {
            capacity: g.capacity,
            holders: g.holders.remove(g.holders.index_of(ticket)),
            waiting: g.waiting,
        }
    }
}

/// The admission gate after `ticket` has given up waiting. A ticket that does
/// not wait changes nothing.
pub open spec fn withdraw_step(g: GateView, ticket: Seq<char>) -> GateView {
    if g.waiting.contains(ticket) {
        GateView {
            capacity: g.capacity,
            holders: g.holders,
            waiting: g.waiting.remove(g.waiting.index_of(ticket)),
        }
    } else {
        g
    }
}

/// In a sequence without duplicates a value stands at one place only.
pub proof fn lemma_index_of(s: Seq<Seq<char>>, i: int)
    requires
        s.no_duplicates(),
        0 <= i < s.len(),
    ensures
        s.contains(s[i]),
        s.index_of(s[i]) == i,
{
    let p = s.index_of(s[i]);
    assert(0 <= p < s.len() && s[p] == s[i]);
}

/// Taking one value out of a sequence without duplicates leaves one
/// without duplicates and without that value; the other values stay.
pub proof fn lemma_remove_value(s: Seq<Seq<char>>, i: int)
    requires
        s.no_duplicates(),
        0 <= i < s.len(),
    ensures
        s.remove(i).no_duplicates(),
        !s.remove(i).contains(s[i]),
        forall|x: Seq<char>| x != s[i] ==> (s.remove(i).contains(x) <==> s.contains(x)),
{
    let t = s.remove(i);
    assert forall|a: int, b: int| 0 <= a < t.len() && 0 <= b < t.len() && a != b implies t[a]
        != t[b] by {
        let a0 = if a < i { a } else { a + 1 };
        let b0 = if b < i { b } else { b + 1 };
        assert(t[a] == s[a0] && t[b] == s[b0]);
    }
    if t.contains(s[i]) {
        let a = choose|a: int| 0 <= a < t.len() && t[a] == s[i];
        let a0 = if a < i { a } else { a + 1 };
        assert(t[a] == s[a0]);
    }
    assert forall|x: Seq<char>| x != s[i] implies (t.contains(x) <==> s.contains(x)) by {
        if t.contains(x) {
            let a = choose|a: int| 0 <= a < t.len() && t[a] == x;
            let a0 = if a < i { a } else { a + 1 };
            assert(s[a0] == x);
        }
        if s.contains(x) {
            let a0 = choose|a: int| 0 <= a < s.len() && s[a] == x;
            let a = if a0 < i { a0 } else { a0 - 1 };
            assert(t[a] == x);
        }
    }
}

/// Appending a new value to a sequence without duplicates leaves one
/// without duplicates.
pub proof fn lemma_push_value(s: Seq<Seq<char>>, x: Seq<char>)
    requires
        s.no_duplicates(),
        !s.contains(x),
    ensures
        s.push(x).no_duplicates(),
        s.push(x).contains(x),
        forall|y: Seq<char>| y != x ==> (s.push(x).contains(y) <==> s.contains(y)),
{
    let t = s.push(x);
    assert forall|a: int, b: int| 0 <= a < t.len() && 0 <= b < t.len() && a != b implies t[a]
        != t[b] by {
        if a < s.len() {
            assert(t[a] == s[a]);
            assert(s.contains(s[a]));
        }
        if b < s.len() {
            assert(t[b] == s[b]);
            assert(s.contains(s[b]));
        }
    }
    assert(t[s.len() as int] == x);
    assert forall|y: Seq<char>| y != x implies (t.contains(y) <==> s.contains(y)) by {
        if t.contains(y) {
            let a = choose|a: int| 0 <= a < t.len() && t[a] == y;
            assert(s[a] == y);
        }
        if s.contains(y) {
            let a = choose|a: int| 0 <= a < s.len() && s[a] == y;
            assert(t[a] == y);
        }
    }
}

/// [`acquire_step`] leaves a gate.
pub proof fn lemma_acquire(g: GateView, ticket: Seq<char>)
    requires
        gate_wf(g),
    ensures
        gate_wf(acquire_step(g, ticket)),
        known(acquire_step(g, ticket), ticket),
        forall|other: Seq<char>|
            other != ticket ==> {
                &&& acquire_step(g, ticket).holders.contains(other) == g.holders.contains(other)
                &&& acquire_step(g, ticket).waiting.contains(other) == g.waiting.contains(other)
            },
{
    let h = acquire_step(g, ticket);
    if !known(g, ticket) {
        if g.holders.len() < g.capacity {
            lemma_push_value(g.holders, ticket);
            assert(h.holders.disjoint(h.waiting)) by {
                assert forall|i: int, j: int|
                    0 <= i < h.holders.len() && 0 <= j < h.waiting.len() implies h.holders[i]
                    != h.waiting[j] by {
                    if i < g.holders.len() {
                        assert(h.holders[i] == g.holders[i]);
                    } else {
                        assert(g.waiting.contains(g.waiting[j]));
                    }
                }
            }
        } else {
            lemma_push_value(g.waiting, ticket);
            assert(h.holders.disjoint(h.waiting)) by {
                assert forall|i: int, j: int|
                    0 <= i < h.holders.len() && 0 <= j < h.waiting.len() implies h.holders[i]
                    != h.waiting[j] by {
                    if j < g.waiting.len() {
                        assert(h.waiting[j] == g.waiting[j]);
                    } else {
                        assert(g.holders.contains(g.holders[i]));
                    }
                }
            }
        }
    }
}

/// [`release_step`] leaves a gate.
pub proof fn lemma_release(g: GateView, ticket: Seq<char>)
    requires
        gate_wf(g),
    ensures
        gate_wf(release_step(g, ticket)),
        !release_step(g, ticket).holders.contains(ticket),
        release_step(g, ticket).waiting.contains(ticket) == g.waiting.contains(ticket),
        forall|other: Seq<char>|
            other != ticket ==> known(release_step(g, ticket), other) == known(g, other),
        forall|other: Seq<char>|
            other != ticket && g.holders.contains(other) ==> release_step(
                g,
                ticket,
            ).holders.contains(other),
{
    let h = release_step(g, ticket);
    if g.holders.contains(ticket) {
        let i = g.holders.index_of(ticket);
        let rest = g.holders.remove(i);
        lemma_remove_value(g.holders, i);
        assert(!g.waiting.contains(ticket)) by {
            if g.waiting.contains(ticket) {
                let j = g.waiting.index_of(ticket);
                assert(g.holders[i] != g.waiting[j]);
            }
        }
        if g.waiting.len() > 0 {
            let next = g.waiting[0];
            assert(g.waiting.contains(next));
            assert(!g.holders.contains(next)) by {
                if g.holders.contains(next) {
                    let a = g.holders.index_of(next);
                    assert(g.holders[a] != g.waiting[0]);
                }
            }
            lemma_push_value(rest, next);
            lemma_remove_value(g.waiting, 0);
            assert(h.holders.disjoint(h.waiting)) by {
                assert forall|a: int, b: int|
                    0 <= a < h.holders.len() && 0 <= b < h.waiting.len() implies h.holders[a]
                    != h.waiting[b] by {
                    assert(h.waiting[b] == g.waiting[b + 1]);
                    if a < rest.len() {
                        assert(rest.contains(rest[a]));
                        assert(g.holders.contains(rest[a]));
                        let a0 = g.holders.index_of(rest[a]);
                        assert(g.holders[a0] != g.waiting[b + 1]);
                    } else {
                        assert(h.holders[a] == g.waiting[0]);
                    }
                }
            }
        } else {
            assert(h.holders.disjoint(h.waiting));
        }
    }
}

/// [`withdraw_step`] leaves a gate.
pub proof fn lemma_withdraw(g: GateView, ticket: Seq<char>)
    requires
        gate_wf(g),
    ensures
        gate_wf(withdraw_step(g, ticket)),
        !withdraw_step(g, ticket).waiting.contains(ticket),
        withdraw_step(g, ticket).holders == g.holders,
        forall|other: Seq<char>|
            other != ticket ==> withdraw_step(g, ticket).waiting.contains(other)
                == g.waiting.contains(other),
{
    let h = withdraw_step(g, ticket);
    if g.waiting.contains(ticket) {
        let i = g.waiting.index_of(ticket);
        lemma_remove_value(g.waiting, i);
        assert(h.holders.disjoint(h.waiting)) by {
            assert forall|a: int, b: int|
                0 <= a < h.holders.len() && 0 <= b < h.waiting.len() implies h.holders[a]
                != h.waiting[b] by {
                let b0 = if b < i { b } else { b + 1 };
                assert(h.waiting[b] == g.waiting[b0]);
            }
        }
    }
}

/// What became of a request for a slot.
pub enum Admission {
    /// The ticket holds a slot.
    Granted,
    /// The ticket waits in line.
    Queued,
}

/// What became of a release.
pub enum Release {
    /// The ticket held no slot: nothing was changed.
    NotHeld,
    /// The slot is free again.
    Freed,
    /// The slot passed to this ticket, the head of the line.
    Passed(String),
}

/// The admission gate.
pub struct AdmissionGate {
    capacity: usize,
    holders: Vec<String>,
    waiting: Vec<String>,
}

impl View for AdmissionGate {
    type V = GateView;

    closed spec fn view(&self) -> GateView {
        GateView {
            capacity: self.capacity as int,
            holders: texts(self.holders@),
            waiting: texts(self.waiting@),
        }
    }
}

impl AdmissionGate {
    /// The admission gate is well formed: see [`gate_wf`].
    pub open spec fn wf(&self) -> bool {
        gate_wf(self@)
    }

    /// A gate of `capacity` free slots, or `None` for a capacity of zero.
    pub fn new(capacity: usize) -> (made: Option<AdmissionGate>)
        ensures
            made.is_some() <==> capacity >= 1,
            made matches Some(g) ==> g.wf() && g@.capacity == capacity && g@.holders.len() == 0
                && g@.waiting.len() == 0,
    {
        if capacity >= 1 {
            Some(AdmissionGate { capacity, holders: Vec::new(), waiting: Vec::new() })
        } else {
            None
        }
    }

    /// The number of slots.
    pub fn capacity(&self) -> (n: usize)
        ensures
            n == self@.capacity,
    {
        self.capacity
    }

    /// The number of slots that are held.
    pub fn in_flight(&self) -> (n: usize)
        ensures
            n == self@.holders.len(),
    {
        self.holders.len()
    }

    /// The number of tickets that wait.
    pub fn queued(&self) -> (n: usize)
        ensures
            n == self@.waiting.len(),
    {
        self.waiting.len()
    }

    /// Whether `ticket` holds a slot.
    pub fn holds(&self, ticket: &String) -> (yes: bool)
        ensures
            yes == self@.holders.contains(ticket@),
    {
        find_text(&self.holders, ticket).is_some()
    }

    /// Whether `ticket` waits in line.
    pub fn is_waiting(&self, ticket: &String) -> (yes: bool)
        ensures
            yes == self@.waiting.contains(ticket@),
    {
        find_text(&self.waiting, ticket).is_some()
    }

    /// Asks for a slot for `ticket`. A ticket that holds a slot keeps it and
    /// gets no second one; a ticket that waits keeps its place. A new ticket
    /// gets a slot if one is free and otherwise joins the end of the line.
    pub fn acquire(&mut self, ticket: String) -> (outcome: Admission)
        requires
            old(self).wf(),
        ensures
            final(self).wf(),
            final(self)@ == acquire_step(old(self)@, ticket@),
            outcome is Granted <==> final(self)@.holders.contains(ticket@),
            outcome is Queued <==> final(self)@.waiting.contains(ticket@),
            outcome is Granted <==> old(self)@.holders.contains(ticket@) || (!old(
                self,
            )@.waiting.contains(ticket@) && old(self)@.holders.len() < old(self)@.capacity),
    {
        let ghost g = self@;
        proof {
            lemma_acquire(g, ticket@);
        }
        if self.holds(&ticket) {
            proof {
                lemma_not_both(g, ticket@);
            }
            Admission::Granted
        } else if self.is_waiting(&ticket) {
            Admission::Queued
        } else if self.holders.len() < self.capacity {
            self.holders.push(ticket);
            proof {
                assert(self@.holders =~= g.holders.push(ticket@));
                lemma_not_both(self@, ticket@);
            }
            Admission::Granted
        } else {
            self.waiting.push(ticket);
            proof {
                assert(self@.waiting =~= g.waiting.push(ticket@));
                lemma_not_both(self@, ticket@);
            }
            Admission::Queued
        }
    }

    /// Gives the slot of `ticket` back. Where a ticket waits, the slot
    /// passes at once to the one that has waited longest.
    pub fn release(&mut self, ticket: &String) -> (outcome: Release)
        requires
            old(self).wf(),
        ensures
            final(self).wf(),
            final(self)@ == release_step(old(self)@, ticket@),
            outcome is NotHeld <==> !old(self)@.holders.contains(ticket@),
            outcome is Freed <==> old(self)@.holders.contains(ticket@) && old(self)@.waiting.len()
                == 0,
            outcome matches Release::Passed(next) ==> old(self)@.waiting.len() > 0 && next@ == old(
                self,
            )@.waiting[0],
    {
        let ghost g = self@;
        proof {
            lemma_release(g, ticket@);
        }
        match find_text(&self.holders, ticket) {
            None => Release::NotHeld,
            Some(i) => {
                proof {
                    lemma_index_of(g.holders, i as int);
                }
                self.holders.remove(i);
                assert(texts(self.holders@) =~= g.holders.remove(i as int));
                if self.waiting.len() > 0 {
                    let next = self.waiting.remove(0);
                    assert(texts(self.waiting@) =~= g.waiting.remove(0));
                    assert(next@ == g.waiting[0]);
                    self.holders.push(next.clone());
                    assert(texts(self.holders@) =~= g.holders.remove(i as int).push(g.waiting[0]));
                    Release::Passed(next)
                } else {
                    Release::Freed
                }
            },
        }
    }

    /// Takes `ticket` out of the line: it gave up before a slot was granted
    /// and will get none later. Returns whether it was waiting.
    pub fn withdraw(&mut self, ticket: &String) -> (was_waiting: bool)
        requires
            old(self).wf(),
        ensures
            final(self).wf(),
            final(self)@ == withdraw_step(old(self)@, ticket@),
            was_waiting == old(self)@.waiting.contains(ticket@),
    {
        let ghost g = self@;
        proof {
            lemma_withdraw(g, ticket@);
        }
        match find_text(&self.waiting, ticket) {
            None => false,
            Some(i) => {
                proof {
                    lemma_index_of(g.waiting, i as int);
                }
                self.waiting.remove(i);
                assert(texts(self.waiting@) =~= g.waiting.remove(i as int));
                true
            },
        }
    }
}

/// No ticket both holds a slot and waits.
pub proof fn lemma_not_both(g: GateView, ticket: Seq<char>)
    requires
        gate_wf(g),
    ensures
        !(g.holders.contains(ticket) && g.waiting.contains(ticket)),
{
    if g.holders.contains(ticket) && g.waiting.contains(ticket) {
        let i = g.holders.index_of(ticket);
        let j = g.waiting.index_of(ticket);
        assert(g.holders[i] != g.waiting[j]);
    }
}

} // verus!
