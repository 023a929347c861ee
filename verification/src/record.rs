//! One cached record: a key, its value and the access statistics by which
//! records are ranked for eviction.

use vstd::prelude::*;

verus! {

/// What a [`Record`] is to the contracts: its strings as sequences of
/// characters, its counters as integers.
pub ghost struct RecordView {
    pub key: Seq<char>,
    pub value: Seq<char>,
    pub access_count: int,
    pub last_accessed: int,
}

/// A cached record.
pub struct Record {
    pub key: String,
    pub value: String,
    pub access_count: u64,
    pub last_accessed: u64,
}

impl View for Record {
    type V = RecordView;

    open spec fn view(&self) -> RecordView {
        RecordView {
            key: self.key@,
            value: self.value@,
            access_count: self.access_count as int,
            last_accessed: self.last_accessed as int,
        }
    }
}

/// A record is valid when its key is not empty and it has been counted at
/// least once.
pub open spec fn valid_record(r: RecordView) -> bool {
    r.key.len() > 0 && r.access_count >= 1
}

/// The access count after one more access. The count stops at the largest
/// value a `u64` holds.
pub open spec fn bumped(count: int) -> int {
    if count < u64::MAX {
        count + 1
    } else {
        count
    }
}

/// The later of a record's last access and the time of a new one, so that
/// the last access never moves backwards.
pub open spec fn later(last: int, now: int) -> int {
    if now > last {
        now
    } else {
        last
    }
}

/// The record after one more access at time `now`.
pub open spec fn touched(r: RecordView, now: int) -> RecordView {
    RecordView {
        key: r.key,
        value: r.value,
        access_count: bumped(r.access_count),
        last_accessed: later(r.last_accessed, now),
    }
}

/// The record that a first successful fetch of `key` at time `now` creates.
pub open spec fn fresh(key: Seq<char>, value: Seq<char>, now: int) -> RecordView {
    RecordView { key, value, access_count: 1, last_accessed: now }
}

/// `a` is evicted before `b` going by the statistics alone: a lower access
/// count first, and among equal counts the older last access.
pub open spec fn colder(a: RecordView, b: RecordView) -> bool {
    a.access_count < b.access_count || (a.access_count == b.access_count && a.last_accessed
        < b.last_accessed)
}

impl Clone for Record {
    fn clone(&self) -> (copy: Self)
        ensures
            copy == *self,
    {
        Record {
            key: self.key.clone(),
            value: self.value.clone(),
            access_count: self.access_count,
            last_accessed: self.last_accessed,
        }
    }
}

impl Record {
    /// The record of a first successful fetch, or `None` for an empty key:
    /// no record has one.
    pub fn new(key: String, value: String, now: u64) -> (made: Option<Record>)
        ensures
            made.is_some() <==> key@.len() > 0,
            made matches Some(r) ==> r@ == fresh(key@, value@, now as int) && valid_record(r@),
    {
        if key.as_str().is_empty() {
            None
        } else {
            Some(Record { key, value, access_count: 1, last_accessed: now })
        }
    }

    /// Whether the record may stand in a tier or a store.
    pub fn is_valid(&self) -> (ok: bool)
        ensures
            ok == valid_record(self@),
    {
        !self.key.as_str().is_empty() && self.access_count >= 1
    }

    /// Counts one more access at time `now`.
    pub fn touch(&mut self, now: u64)
        ensures
            final(self)@ == touched(old(self)@, now as int),
    {
        if self.access_count < u64::MAX {
            self.access_count = self.access_count + 1;
        }
        if now > self.last_accessed {
            self.last_accessed = now;
        }
    }

    /// Whether `self` is evicted before `other`, going by the statistics
    /// alone.
    pub fn colder_than(&self, other: &Record) -> (yes: bool)
        ensures
            yes == colder(self@, other@),
    {
        self.access_count < other.access_count || (self.access_count == other.access_count
            && self.last_accessed < other.last_accessed)
    }
}

} // verus!
