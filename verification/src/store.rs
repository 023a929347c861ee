//! The table of the durable store: one record per key, point lookups,
//! upserts, delete-by-rank and a full scan. This is the table as the cache
//! relies on it, held in memory; a durable store does the same to its rows.

use vstd::prelude::*;
use crate::rank::{evict_down, evicted_by, lemma_evict_shape, shed};
use crate::record::{Record, RecordView};
use crate::table::{
    copy_rows, find, has_key, is_table, key_set, lemma_position, lemma_push_keeps_table,
    lemma_update_keeps_table, position, views,
};

verus! {

/// The table after an upsert of `r`: the last writer wins under a key that
/// is there, and a new key is appended.
pub open spec fn upsert_step(s: Seq<RecordView>, r: RecordView) -> Seq<RecordView> {
    if has_key(s, r.key) {
        s.update(position(s, r.key), r)
    } else {
        s.push(r)
    }
}

/// The number of rows that are left when the `n` lowest are deleted from
/// `len` rows.
pub open spec fn left_after(len: int, n: int) -> int {
    if n >= len {
        0
    } else {
        len - n
    }
}

/// The table after its `n` lowest rows have been deleted: those with the
/// smallest access count, among equal counts those with the oldest last
/// access.
pub open spec fn delete_lowest_step(s: Seq<RecordView>, n: int) -> Seq<RecordView> {
    evict_down(s, Set::empty(), left_after(s.len() as int, n))
}

/// The rows that [`delete_lowest_step`] deletes, lowest first.
pub open spec fn deleted_lowest(s: Seq<RecordView>, n: int) -> Seq<RecordView> {
    evicted_by(s, Set::empty(), left_after(s.len() as int, n))
}

/// Deleting the `n` lowest rows deletes `n` rows, or all of them where the
/// table has fewer.
pub proof fn lemma_delete_lowest(s: Seq<RecordView>, n: int)
    requires
        is_table(s),
        0 <= n,
    ensures
        is_table(delete_lowest_step(s, n)),
        delete_lowest_step(s, n).len() == left_after(s.len() as int, n),
        deleted_lowest(s, n).len() == s.len() - left_after(s.len() as int, n),
{
    let none = Set::<Seq<char>>::empty();
    let target = left_after(s.len() as int, n);
    let r = evict_down(s, none, target);
    lemma_evict_shape(s, none, target);
    if r.len() > target {
        assert(none.contains(r[0].key));
    }
}

/// The table of the store.
pub struct PersistentStore {
    rows: Vec<Record>,
}

impl View for PersistentStore {
    type V = Seq<RecordView>;

    closed spec fn view(&self) -> Seq<RecordView> {
        views(self.rows@)
    }
}

impl PersistentStore {
    /// The store holds a table.
    pub open spec fn wf(&self) -> bool {
        is_table(self@)
    }

    /// An empty store.
    pub fn new() -> (made: PersistentStore)
        ensures
            made.wf(),
            made@.len() == 0,
    {
        let made = PersistentStore { rows: Vec::new() };
        assert(made@ =~= Seq::empty());
        made
    }

    /// The number of rows.
    pub fn len(&self) -> (n: usize)
        ensures
            n == self@.len(),
    {
        self.rows.len()
    }

    /// The record under `key`, if the store holds one.
    pub fn get(&self, key: &String) -> (found: Option<Record>)
        requires
            self.wf(),
        ensures
            found.is_some() <==> has_key(self@, key@),
            found matches Some(r) ==> r@ == self@[position(self@, key@)],
    {
        match find(&self.rows, key) {
            None => None,
            Some(i) => {
                proof {
                    lemma_position(self@, key@, i as int);
                }
                Some(self.rows[i].clone())
            },
        }
    }

    /// Writes `record` under its key: the last writer wins. A record that
    /// is not valid is refused, and `false` returned.
    pub fn upsert(&mut self, record: Record) -> (written: bool)
        requires
            old(self).wf(),
        ensures
            final(self).wf(),
            written == crate::record::valid_record(record@),
            written ==> final(self)@ == upsert_step(old(self)@, record@),
            !written ==> final(self)@ == old(self)@,
    {
        if !record.is_valid() {
            return false;
        }
        let ghost before = self@;
        match find(&self.rows, &record.key) {
            Some(i) => {
                proof {
                    lemma_position(before, record@.key, i as int);
                    lemma_update_keeps_table(before, i as int, record@);
                }
                self.rows.set(i, record);
                assert(self@ =~= before.update(i as int, record@));
            },
            None => {
                proof {
                    lemma_push_keeps_table(before, record@);
                }
                self.rows.push(record);
                assert(self@ =~= before.push(record@));
            },
        }
        true
    }

    /// Deletes the `n` lowest rows: those with the smallest access count,
    /// among equal counts those with the oldest last access. Returns the
    /// number of rows deleted, which is less than `n` where the store has
    /// fewer rows.
    pub fn delete_lowest_n(&mut self, n: usize) -> (deleted: usize)
        requires
            old(self).wf(),
        ensures
            final(self).wf(),
            final(self)@ == delete_lowest_step(old(self)@, n as int),
            final(self)@.len() == left_after(old(self)@.len() as int, n as int),
            deleted == old(self)@.len() - final(self)@.len(),
            deleted == if n <= old(self)@.len() {
                n as int
            } else {
                old(self)@.len() as int
            },
    {
        let len = self.rows.len();
        let target: usize = if n >= len {
            0
        } else {
            len - n
        };
        let nobody: Vec<String> = Vec::new();
        proof {
            assert(key_set(nobody@) =~= Set::empty());
            lemma_delete_lowest(self@, n as int);
        }
        let gone = shed(&mut self.rows, &nobody, target);
        assert(gone@.len() == views(gone@).len());
        gone.len()
    }

    /// A copy of all rows, in the order in which their keys were first
    /// written.
    pub fn scan_all(&self) -> (rows: Vec<Record>)
        ensures
            views(rows@) == self@,
    {
        copy_rows(&self.rows)
    }
}

} // verus!
