//! The hot tier: records in memory, in the order in which their keys were
//! first inserted, under three capacities. At `soft` a sweep is due, a sweep
//! evicts down to `target`, and `hard` is never exceeded: an insert into a
//! full tier evicts one record first.

use vstd::prelude::*;
use crate::rank::{
    evict_down, evicted_by, find_lowest, is_lowest, lemma_evict_shape, lemma_lowest, lowest, shed,
};
use crate::record::{fresh, touched, valid_record, Record, RecordView};
use crate::table::{
    copy_rows, find, has_key, is_table, key_set, lemma_position, lemma_push_keeps_table,
    lemma_remove_keeps_table, lemma_retained, lemma_update_keeps_table, lists, position, retained,
    unretained, views,
};

verus! {

/// The tier after a lookup of `key` at time `now`: a hit counts one more
/// access of the record, a miss changes nothing.
pub open spec fn lookup_step(s: Seq<RecordView>, key: Seq<char>, now: int) -> Seq<RecordView> {
    if has_key(s, key) {
        s.update(position(s, key), touched(s[position(s, key)], now))
    } else {
        s
    }
}

/// The tier after the record `r` has been installed under a hard capacity of
/// `hard`. A record under the same key is replaced where it stands. A new
/// key is appended, after the eviction of the lowest record where the tier
/// is full.
pub open spec fn install_step(s: Seq<RecordView>, r: RecordView, hard: int) -> Seq<RecordView> {
    if has_key(s, r.key) {
        s.update(position(s, r.key), r)
    } else if s.len() >= hard {
        s.remove(lowest(s, Set::empty())).push(r)
    } else {
        s.push(r)
    }
}

/// The tier after a sweep: nothing happens below `soft`; from `soft` on the
/// lowest records that are not pinned are evicted down to `target`.
pub open spec fn sweep_step(s: Seq<RecordView>, pinned: Set<Seq<char>>, soft: int, target: int) -> Seq<
    RecordView,
> {
    if s.len() >= soft {
        evict_down(s, pinned, target)
    } else {
        s
    }
}

/// What a sweep evicts, in the order in which it leaves.
pub open spec fn swept_out(s: Seq<RecordView>, pinned: Set<Seq<char>>, soft: int, target: int) -> Seq<
    RecordView,
> {
    if s.len() >= soft {
        evicted_by(s, pinned, target)
    } else {
        Seq::empty()
    }
}

/// The keys that a reconcile keeps: those that survived in the store, and
/// those that are pinned.
pub open spec fn kept_keys(survivors: Seq<RecordView>, pinned: Set<Seq<char>>) -> Set<Seq<char>> {
    Set::new(|k: Seq<char>| has_key(survivors, k) || pinned.contains(k))
}

/// The tier after it has been reconciled with the rows that survived in
/// the store: a record stays where its key survived or is pinned, and stays
/// as it is.
pub open spec fn reconcile_step(
    s: Seq<RecordView>,
    survivors: Seq<RecordView>,
    pinned: Set<Seq<char>>,
) -> Seq<RecordView> {
    retained(s, kept_keys(survivors, pinned))
}

/// The three capacities fit together.
pub open spec fn capacities_fit(soft: int, target: int, hard: int) -> bool {
    0 <= target <= soft <= hard && 1 <= hard
}

/// Installing a valid record leaves a table within the hard capacity that
/// holds the record under its key.
pub proof fn lemma_install(s: Seq<RecordView>, r: RecordView, hard: int)
    requires
        is_table(s),
        s.len() <= hard,
        1 <= hard,
        valid_record(r),
    ensures
        is_table(install_step(s, r, hard)),
        install_step(s, r, hard).len() <= hard,
        has_key(install_step(s, r, hard), r.key),
        install_step(s, r, hard)[position(install_step(s, r, hard), r.key)] == r,
{
    let n = install_step(s, r, hard);
    if has_key(s, r.key) {
        let p = position(s, r.key);
        assert(0 <= p < s.len() && s[p].key == r.key);
        lemma_update_keeps_table(s, p, r);
        lemma_position(n, r.key, p);
    } else if s.len() >= hard {
        let none = Set::<Seq<char>>::empty();
        lemma_lowest(s, none);
        let i = lowest(s, none);
        assert(i >= 0) by {
            if i < 0 {
                assert(none.contains(s[0].key));
            }
        }
        lemma_remove_keeps_table(s, i);
        lemma_push_keeps_table(s.remove(i), r);
    } else {
        lemma_push_keeps_table(s, r);
    }
}

/// What became of an insert.
pub enum Insertion {
    /// The record is not valid (an empty key, or a count of zero): nothing
    /// was changed.
    Refused,
    /// The key was there: its record was replaced where it stood.
    Replaced,
    /// A new key was appended.
    Added,
    /// The tier was full: this record was evicted, then the new key was
    /// appended.
    Evicted(Record),
}

/// The hot tier.
pub struct CacheTier {
    entries: Vec<Record>,
    soft: usize,
    target: usize,
    hard: usize,
}

impl View for CacheTier {
    type V = Seq<RecordView>;

    closed spec fn view(&self) -> Seq<RecordView> {
        views(self.entries@)
    }
}

impl CacheTier {
    /// The occupancy from which a sweep evicts.
    pub closed spec fn soft(&self) -> int {
        self.soft as int
    }

    /// The occupancy that a sweep evicts down to.
    pub closed spec fn target(&self) -> int {
        self.target as int
    }

    /// The occupancy that is never exceeded.
    pub closed spec fn hard(&self) -> int {
        self.hard as int
    }

    /// The tier holds a table of no more than `hard` records, and its
    /// capacities fit together.
    pub open spec fn wf(&self) -> bool {
        &&& is_table(self@)
        &&& self@.len() <= self.hard()
        &&& capacities_fit(self.soft(), self.target(), self.hard())
    }

    /// `other` has the capacities of `self`.
    pub open spec fn same_capacities(&self, other: &CacheTier) -> bool {
        self.soft() == other.soft() && self.target() == other.target() && self.hard()
            == other.hard()
    }

    /// An empty tier, or `None` where the capacities do not fit together.
    pub fn new(soft: usize, target: usize, hard: usize) -> (made: Option<CacheTier>)
        ensures
            made.is_some() <==> capacities_fit(soft as int, target as int, hard as int),
            made matches Some(t) ==> t.wf() && t@.len() == 0 && t.soft() == soft && t.target()
                == target && t.hard() == hard,
    {
        if target <= soft && soft <= hard && hard >= 1 {
            let tier = CacheTier { entries: Vec::new(), soft, target, hard };
            assert(tier@ =~= Seq::empty());
            Some(tier)
        } else {
            None
        }
    }

    /// The number of records in the tier.
    pub fn size(&self) -> (n: usize)
        ensures
            n == self@.len(),
    {
        self.entries.len()
    }

    /// The occupancy from which a sweep evicts.
    pub fn soft_capacity(&self) -> (n: usize)
        ensures
            n == self.soft(),
    {
        self.soft
    }

    /// The occupancy that a sweep evicts down to.
    pub fn target_capacity(&self) -> (n: usize)
        ensures
            n == self.target(),
    {
        self.target
    }

    /// The occupancy that is never exceeded.
    pub fn hard_capacity(&self) -> (n: usize)
        ensures
            n == self.hard(),
    {
        self.hard
    }

    /// Whether a sweep would evict now.
    pub fn needs_sweep(&self) -> (due: bool)
        ensures
            due == (self@.len() >= self.soft()),
    {
        self.entries.len() >= self.soft
    }

    /// Whether the tier holds a record under `key`. Counts no access.
    pub fn contains(&self, key: &String) -> (yes: bool)
        ensures
            yes == has_key(self@, key@),
    {
        find(&self.entries, key).is_some()
    }

    /// Looks `key` up at time `now`. A hit counts one more access of the
    /// record and returns the record as it then stands; a miss changes
    /// nothing.
    pub fn lookup(&mut self, key: &String, now: u64) -> (hit: Option<Record>)
        requires
            old(self).wf(),
        ensures
            final(self).wf(),
            final(self).same_capacities(old(self)),
            final(self)@ == lookup_step(old(self)@, key@, now as int),
            hit.is_some() == has_key(old(self)@, key@),
            hit matches Some(r) ==> r@ == touched(
                old(self)@[position(old(self)@, key@)],
                now as int,
            ),
            has_key(final(self)@, key@) == has_key(old(self)@, key@),
            hit matches Some(r) ==> final(self)@[position(final(self)@, key@)] == r@,
    {
        match find(&self.entries, key) {
            None => None,
            Some(i) => {
                let ghost before = self@;
                let mut record = self.entries[i].clone();
                record.touch(now);
                let copy = record.clone();
                self.entries.set(i, record);
                proof {
                    lemma_position(before, key@, i as int);
                    lemma_update_keeps_table(before, i as int, copy@);
                    assert(self@ =~= before.update(i as int, copy@));
                    lemma_position(self@, key@, i as int);
                }
                Some(copy)
            },
        }
    }

    /// Installs a valid record: see [`install_step`].
    fn install(&mut self, record: Record) -> (outcome: Insertion)
        requires
            old(self).wf(),
            valid_record(record@),
        ensures
            final(self).wf(),
            final(self).same_capacities(old(self)),
            final(self)@ == install_step(old(self)@, record@, old(self).hard()),
            has_key(final(self)@, record@.key),
            final(self)@[position(final(self)@, record@.key)] == record@,
            outcome is Replaced <==> has_key(old(self)@, record@.key),
            outcome is Added <==> !has_key(old(self)@, record@.key) && old(self)@.len() < old(
                self,
            ).hard(),
            outcome is Evicted <==> !has_key(old(self)@, record@.key) && old(self)@.len() >= old(
                self,
            ).hard(),
            outcome matches Insertion::Evicted(gone) ==> is_lowest(
                old(self)@,
                Set::empty(),
                lowest(old(self)@, Set::empty()),
            ) && gone@ == old(self)@[lowest(old(self)@, Set::empty())],
    {
        let ghost before = self@;
        proof {
            lemma_install(before, record@, self.hard());
        }
        match find(&self.entries, &record.key) {
            Some(i) => {
                proof {
                    lemma_position(before, record@.key, i as int);
                    lemma_update_keeps_table(before, i as int, record@);
                }
                self.entries.set(i, record);
                assert(self@ =~= before.update(i as int, record@));
                Insertion::Replaced
            },
            None => {
                let mut evicted: Option<Record> = None;
                if self.entries.len() >= self.hard {
                    let nobody: Vec<String> = Vec::new();
                    assert(key_set(nobody@) =~= Set::empty());
                    if let Some(i) = find_lowest(&self.entries, &nobody) {
                        evicted = Some(self.entries.remove(i));
                        proof {
                            lemma_remove_keeps_table(before, i as int);
                            lemma_push_keeps_table(before.remove(i as int), record@);
                            assert(self@ =~= before.remove(i as int));
                        }
                    } else {
                        assert(key_set(nobody@).contains(self.entries[0]@.key));
                    }
                } else {
                    proof {
                        lemma_push_keeps_table(before, record@);
                    }
                }
                let ghost middle = self@;
                self.entries.push(record);
                assert(self@ =~= middle.push(record@));
                match evicted {
                    Some(gone) => Insertion::Evicted(gone),
                    None => Insertion::Added,
                }
            },
        }
    }

    /// Inserts what a first successful fetch of `key` at time `now`
    /// brought: a record with an access count of 1. An empty key is refused.
    /// A record under the same key is replaced where it stands. Where the
    /// tier is full and the key is new, the lowest record is evicted first:
    /// the one with the lowest access count, among equal counts the one with
    /// the oldest last access, among those the one that stands first.
    pub fn insert(&mut self, key: String, value: String, now: u64) -> (outcome: Insertion)
        requires
            old(self).wf(),
        ensures
            final(self).wf(),
            final(self).same_capacities(old(self)),
            outcome is Refused <==> key@.len() == 0,
            outcome is Refused ==> final(self)@ == old(self)@,
            !(outcome is Refused) ==> final(self)@ == install_step(
                old(self)@,
                fresh(key@, value@, now as int),
                old(self).hard(),
            ),
            !(outcome is Refused) ==> has_key(final(self)@, key@) && final(self)@[position(
                final(self)@,
                key@,
            )] == fresh(key@, value@, now as int),
            outcome is Replaced <==> key@.len() > 0 && has_key(old(self)@, key@),
            outcome is Added <==> key@.len() > 0 && !has_key(old(self)@, key@) && old(self)@.len()
                < old(self).hard(),
            outcome matches Insertion::Evicted(gone) ==> is_lowest(
                old(self)@,
                Set::empty(),
                lowest(old(self)@, Set::empty()),
            ) && gone@ == old(self)@[lowest(old(self)@, Set::empty())],
    {
        match Record::new(key, value, now) {
            None => Insertion::Refused,
            Some(record) => self.install(record),
        }
    }

    /// Installs a record as the durable store holds it, with the access
    /// statistics that it has there. A record that is not valid is refused.
    /// Otherwise as [`CacheTier::insert`].
    pub fn warm(&mut self, record: Record) -> (outcome: Insertion)
        requires
            old(self).wf(),
        ensures
            final(self).wf(),
            final(self).same_capacities(old(self)),
            outcome is Refused <==> !valid_record(record@),
            outcome is Refused ==> final(self)@ == old(self)@,
            !(outcome is Refused) ==> final(self)@ == install_step(
                old(self)@,
                record@,
                old(self).hard(),
            ),
            !(outcome is Refused) ==> has_key(final(self)@, record@.key) && final(self)@[position(
                final(self)@,
                record@.key,
            )] == record@,
            outcome is Replaced <==> valid_record(record@) && has_key(old(self)@, record@.key),
            outcome is Added <==> valid_record(record@) && !has_key(old(self)@, record@.key)
                && old(self)@.len() < old(self).hard(),
            outcome matches Insertion::Evicted(gone) ==> is_lowest(
                old(self)@,
                Set::empty(),
                lowest(old(self)@, Set::empty()),
            ) && gone@ == old(self)@[lowest(old(self)@, Set::empty())],
    {
        if record.is_valid() {
            self.install(record)
        } else {
            Insertion::Refused
        }
    }

    /// A copy of the records, in the order in which their keys were first
    /// inserted. Counts no access.
    pub fn snapshot(&self) -> (copy: Vec<Record>)
        ensures
            views(copy@) == self@,
    {
        copy_rows(&self.entries)
    }

    /// One sweep. Below the soft capacity nothing happens. From the soft
    /// capacity on, records are evicted, lowest first, until the target
    /// capacity is reached or only pinned records are left; a record whose
    /// key `pinned` lists is never evicted. Returns what was evicted, in the
    /// order in which it left.
    pub fn sweep(&mut self, pinned: &Vec<String>) -> (evicted: Vec<Record>)
        requires
            old(self).wf(),
        ensures
            final(self).wf(),
            final(self).same_capacities(old(self)),
            final(self)@ == sweep_step(
                old(self)@,
                key_set(pinned@),
                old(self).soft(),
                old(self).target(),
            ),
            views(evicted@) == swept_out(
                old(self)@,
                key_set(pinned@),
                old(self).soft(),
                old(self).target(),
            ),
            final(self)@.len() + evicted@.len() == old(self)@.len(),
    {
        if self.entries.len() >= self.soft {
            proof {
                lemma_evict_shape(self@, key_set(pinned@), self.target as int);
            }
            shed(&mut self.entries, pinned, self.target)
        } else {
            let nothing: Vec<Record> = Vec::new();
            assert(views(nothing@) =~= Seq::empty());
            nothing
        }
    }

    /// Reconciles the tier with the rows that survived a delete-by-rank in
    /// the store, so that the tier holds nothing that the store has deleted.
    /// A record is dropped where its key is not among `survivors`, unless
    /// `pinned` lists the key; what stays, stays as it is and where it is.
    /// Returns what was dropped, in the order in which it stood.
    pub fn reconcile(&mut self, survivors: &Vec<Record>, pinned: &Vec<String>) -> (dropped: Vec<
        Record,
    >)
        requires
            old(self).wf(),
        ensures
            final(self).wf(),
            final(self).same_capacities(old(self)),
            final(self)@ == reconcile_step(old(self)@, views(survivors@), key_set(pinned@)),
            views(dropped@) == unretained(
                old(self)@,
                kept_keys(views(survivors@), key_set(pinned@)),
            ),
    {
        let ghost before = self@;
        let ghost keep = kept_keys(views(survivors@), key_set(pinned@));
        let mut kept: Vec<Record> = Vec::new();
        let mut dropped: Vec<Record> = Vec::new();
        let mut i: usize = 0;
        assert(before.take(0) =~= Seq::empty());
        assert(views(kept@) =~= Seq::empty());
        assert(views(dropped@) =~= Seq::empty());
        while i < self.entries.len()
            invariant
                i <= self.entries.len(),
                before == views(self.entries@),
                keep == kept_keys(views(survivors@), key_set(pinned@)),
                views(kept@) == retained(before.take(i as int), keep),
                views(dropped@) == unretained(before.take(i as int), keep),
            decreases self.entries.len() - i,
        {
            let ghost kept_so_far = views(kept@);
            let ghost dropped_so_far = views(dropped@);
            proof {
                assert(before.take(i + 1).drop_last() =~= before.take(i as int));
                assert(before.take(i + 1).last() == self.entries[i as int]@);
            }
            let record = self.entries[i].clone();
            if find(survivors, &record.key).is_some() || lists(pinned, &record.key) {
                kept.push(record);
                assert(views(kept@) =~= kept_so_far.push(self.entries[i as int]@));
            } else {
                dropped.push(record);
                assert(views(dropped@) =~= dropped_so_far.push(self.entries[i as int]@));
            }
            i = i + 1;
        }
        proof {
            assert(before.take(self.entries.len() as int) =~= before);
            lemma_retained(before, keep);
        }
        self.entries = kept;
        dropped
    }
}

} // verus!
