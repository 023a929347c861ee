//! Records in a row: the shape that the hot tier and the store's table share.
//! A table holds valid records, no two of them under one key.

use vstd::prelude::*;
use crate::record::{valid_record, Record, RecordView};

verus! {

/// The views of the records of `rows`, in the same order.
pub open spec fn views(rows: Seq<Record>) -> Seq<RecordView> {
    Seq::new(rows.len(), |i: int| rows[i]@)
}

/// Some record of `s` has the key `key`.
pub open spec fn has_key(s: Seq<RecordView>, key: Seq<char>) -> bool {
    exists|i: int| 0 <= i < s.len() && #[trigger] s[i].key == key
}

/// Where the record with the key `key` stands in `s`, if `s` has one.
pub open spec fn position(s: Seq<RecordView>, key: Seq<char>) -> int {
    choose|i: int| 0 <= i < s.len() && #[trigger] s[i].key == key
}

/// No two records of `s` have the same key.
pub open spec fn unique_keys(s: Seq<RecordView>) -> bool {
    forall|i: int, j: int|
        0 <= i < s.len() && 0 <= j < s.len() && i != j ==> #[trigger] s[i].key != #[trigger] s[j].key
}

/// Every record of `s` is valid.
pub open spec fn all_valid(s: Seq<RecordView>) -> bool {
    forall|i: int| 0 <= i < s.len() ==> valid_record(#[trigger] s[i])
}

/// `s` is a table: valid records under distinct keys.
pub open spec fn is_table(s: Seq<RecordView>) -> bool {
    unique_keys(s) && all_valid(s)
}

/// The strings of `keys` as sequences of characters, in the same order.
pub open spec fn texts(keys: Seq<String>) -> Seq<Seq<char>> {
    Seq::new(keys.len(), |i: int| keys[i]@)
}

/// The keys that `keys` lists, as a set.
pub open spec fn key_set(keys: Seq<String>) -> Set<Seq<char>> {
    texts(keys).to_set()
}

/// In a table a key stands at one place only.
pub proof fn lemma_position(s: Seq<RecordView>, key: Seq<char>, i: int)
    requires
        unique_keys(s),
        0 <= i < s.len(),
        s[i].key == key,
    ensures
        has_key(s, key),
        position(s, key) == i,
{
    let p = position(s, key);
    assert(0 <= p < s.len() && s[p].key == key);
    if p != i {
        assert(s[p].key != s[i].key);
    }
}

/// Taking one record out of a table leaves a table, without that key.
pub proof fn lemma_remove_keeps_table(s: Seq<RecordView>, i: int)
    requires
        is_table(s),
        0 <= i < s.len(),
    ensures
        is_table(s.remove(i)),
        !has_key(s.remove(i), s[i].key),
        forall|k: Seq<char>| k != s[i].key ==> (has_key(s.remove(i), k) <==> has_key(s, k)),
{
    let t = s.remove(i);
    assert forall|a: int, b: int| 0 <= a < t.len() && 0 <= b < t.len() && a != b implies #[trigger] t[a].key
        != #[trigger] t[b].key by {
        let a0 = if a < i { a } else { a + 1 };
        let b0 = if b < i { b } else { b + 1 };
        assert(t[a] == s[a0] && t[b] == s[b0]);
    }
    assert forall|a: int| 0 <= a < t.len() implies valid_record(#[trigger] t[a]) by {
        let a0 = if a < i { a } else { a + 1 };
        assert(t[a] == s[a0]);
    }
    if has_key(t, s[i].key) {
        let a = position(t, s[i].key);
        let a0 = if a < i { a } else { a + 1 };
        assert(t[a] == s[a0]);
        assert(s[a0].key != s[i].key);
    }
    assert forall|k: Seq<char>| k != s[i].key implies (has_key(t, k) <==> has_key(s, k)) by {
        if has_key(t, k) {
            let a = position(t, k);
            let a0 = if a < i { a } else { a + 1 };
            assert(t[a] == s[a0]);
            assert(s[a0].key == k);
        }
        if has_key(s, k) {
            let a0 = position(s, k);
            let a = if a0 < i { a0 } else { a0 - 1 };
            assert(t[a] == s[a0]);
            assert(t[a].key == k);
        }
    }
}

/// A valid record under a new key may be appended to a table.
pub proof fn lemma_push_keeps_table(s: Seq<RecordView>, r: RecordView)
    requires
        is_table(s),
        valid_record(r),
        !has_key(s, r.key),
    ensures
        is_table(s.push(r)),
        has_key(s.push(r), r.key),
        position(s.push(r), r.key) == s.len(),
        forall|k: Seq<char>| k != r.key ==> (has_key(s.push(r), k) <==> has_key(s, k)),
{
    let t = s.push(r);
    assert forall|a: int, b: int| 0 <= a < t.len() && 0 <= b < t.len() && a != b implies #[trigger] t[a].key
        != #[trigger] t[b].key by {
        if a < s.len() {
            assert(t[a] == s[a]);
        }
        if b < s.len() {
            assert(t[b] == s[b]);
        }
    }
    assert forall|a: int| 0 <= a < t.len() implies valid_record(#[trigger] t[a]) by {
        if a < s.len() {
            assert(t[a] == s[a]);
        }
    }
    assert(t[s.len() as int].key == r.key);
    lemma_position(t, r.key, s.len() as int);
    assert forall|k: Seq<char>| k != r.key implies (has_key(t, k) <==> has_key(s, k)) by {
        if has_key(t, k) {
            let a = position(t, k);
            assert(t[a] == s[a]);
            assert(s[a].key == k);
        }
        if has_key(s, k) {
            let a = position(s, k);
            assert(t[a] == s[a]);
            assert(t[a].key == k);
        }
    }
}

/// Replacing a record by a valid one under the same key leaves a table with
/// the same keys.
pub proof fn lemma_update_keeps_table(s: Seq<RecordView>, i: int, r: RecordView)
    requires
        is_table(s),
        0 <= i < s.len(),
        valid_record(r),
        r.key == s[i].key,
    ensures
        is_table(s.update(i, r)),
        forall|k: Seq<char>| has_key(s.update(i, r), k) <==> has_key(s, k),
{
    let t = s.update(i, r);
    assert forall|a: int, b: int| 0 <= a < t.len() && 0 <= b < t.len() && a != b implies #[trigger] t[a].key
        != #[trigger] t[b].key by {
        assert(t[a].key == s[a].key && t[b].key == s[b].key);
    }
    assert forall|a: int| 0 <= a < t.len() implies valid_record(#[trigger] t[a]) by {
        if a != i {
            assert(t[a] == s[a]);
        }
    }
    assert forall|k: Seq<char>| has_key(t, k) <==> has_key(s, k) by {
        if has_key(t, k) {
            let a = position(t, k);
            assert(s[a].key == k);
        }
        if has_key(s, k) {
            let a = position(s, k);
            assert(t[a].key == k);
        }
    }
}

/// The records of `s` whose key is in `keep`, in their order.
pub open spec fn retained(s: Seq<RecordView>, keep: Set<Seq<char>>) -> Seq<RecordView>
    decreases s.len(),
{
    if s.len() == 0 {
        s
    } else if keep.contains(s.last().key) {
        retained(s.drop_last(), keep).push(s.last())
    } else {
        retained(s.drop_last(), keep)
    }
}

/// The records of `s` whose key is not in `keep`, in their order.
pub open spec fn unretained(s: Seq<RecordView>, keep: Set<Seq<char>>) -> Seq<RecordView>
    decreases s.len(),
{
    if s.len() == 0 {
        s
    } else if keep.contains(s.last().key) {
        unretained(s.drop_last(), keep)
    } else {
        unretained(s.drop_last(), keep).push(s.last())
    }
}

/// What is retained of a table is a table, made of records of the table
/// whose key is in `keep`; every such record is retained, and every other
/// record is not.
pub proof fn lemma_retained(s: Seq<RecordView>, keep: Set<Seq<char>>)
    requires
        is_table(s),
    ensures
        is_table(retained(s, keep)),
        retained(s, keep).len() + unretained(s, keep).len() == s.len(),
        forall|j: int|
            0 <= j < retained(s, keep).len() ==> s.contains(#[trigger] retained(s, keep)[j])
                && keep.contains(retained(s, keep)[j].key),
        forall|j: int|
            0 <= j < unretained(s, keep).len() ==> s.contains(#[trigger] unretained(s, keep)[j])
                && !keep.contains(unretained(s, keep)[j].key),
        forall|i: int|
            0 <= i < s.len() ==> (keep.contains((#[trigger] s[i]).key) <==> retained(
                s,
                keep,
            ).contains(s[i])),
        forall|k: Seq<char>| has_key(retained(s, keep), k) <==> has_key(s, k) && keep.contains(k),
    decreases s.len(),
{
    let r = retained(s, keep);
    let u = unretained(s, keep);
    if s.len() > 0 {
        let head = s.drop_last();
        let last = s.last();
        let n = head.len() as int;
        assert(is_table(head)) by {
            assert forall|a: int, b: int|
                0 <= a < head.len() && 0 <= b < head.len() && a != b implies #[trigger] head[a].key
                != #[trigger] head[b].key by {
                assert(head[a] == s[a] && head[b] == s[b]);
            }
            assert forall|a: int| 0 <= a < head.len() implies valid_record(#[trigger] head[a]) by {
                assert(head[a] == s[a]);
            }
        }
        lemma_retained(head, keep);
        let rh = retained(head, keep);
        let uh = unretained(head, keep);
        assert forall|x: RecordView| head.contains(x) implies s.contains(x) && x.key != last.key by {
            let a = choose|a: int| 0 <= a < head.len() && head[a] == x;
            assert(s[a] == x);
            assert(s[a].key != s[n].key);
        }
        assert(s[n] == last);
        if keep.contains(last.key) {
            assert(!has_key(rh, last.key)) by {
                if has_key(rh, last.key) {
                    let a = position(rh, last.key);
                    assert(head.contains(rh[a]));
                }
            }
            lemma_push_keeps_table(rh, last);
            assert(r[rh.len() as int] == last);
        }
        assert forall|j: int| 0 <= j < r.len() implies s.contains(#[trigger] r[j])
            && keep.contains(r[j].key) by {
            if j < rh.len() {
                assert(r[j] == rh[j]);
                assert(head.contains(rh[j]));
            }
        }
        assert forall|j: int| 0 <= j < u.len() implies s.contains(#[trigger] u[j])
            && !keep.contains(u[j].key) by {
            if j < uh.len() {
                assert(u[j] == uh[j]);
                assert(head.contains(uh[j]));
            }
        }
        assert forall|i: int| 0 <= i < s.len() implies (keep.contains((#[trigger] s[i]).key)
            <==> r.contains(s[i])) by {
            if i < n {
                assert(head[i] == s[i]);
                if rh.contains(s[i]) {
                    let a = choose|a: int| 0 <= a < rh.len() && rh[a] == s[i];
                    assert(r[a] == s[i]);
                }
                if r.contains(s[i]) {
                    let a = choose|a: int| 0 <= a < r.len() && r[a] == s[i];
                    if a < rh.len() {
                        assert(rh[a] == s[i]);
                    } else {
                        assert(s[i].key != s[n].key);
                    }
                }
            } else {
                if r.contains(s[i]) {
                    let a = choose|a: int| 0 <= a < r.len() && r[a] == s[i];
                    assert(keep.contains(r[a].key));
                }
            }
        }
        assert forall|k: Seq<char>| has_key(r, k) <==> has_key(s, k) && keep.contains(k) by {
            if has_key(r, k) {
                let a = position(r, k);
                assert(s.contains(r[a]));
                let b = choose|b: int| 0 <= b < s.len() && s[b] == r[a];
                assert(s[b].key == k);
            }
            if has_key(s, k) && keep.contains(k) {
                let b = position(s, k);
                assert(r.contains(s[b]));
                let a = choose|a: int| 0 <= a < r.len() && r[a] == s[b];
                assert(r[a].key == k);
            }
        }
    }
}

/// Where the record under `key` stands in `rows`, if there is one.
pub fn find(rows: &Vec<Record>, key: &String) -> (found: Option<usize>)
    ensures
        found.is_some() <==> has_key(views(rows@), key@),
        found matches Some(i) ==> i < rows.len() && rows[i as int]@.key == key@,
        found matches Some(i) ==> forall|j: int| 0 <= j < i ==> rows[j]@.key != key@,
{
    let mut i: usize = 0;
    while i < rows.len()
        invariant
            i <= rows.len(),
            forall|j: int| 0 <= j < i ==> rows[j]@.key != key@,
        decreases rows.len() - i,
    {
        if rows[i].key == *key {
            assert(views(rows@)[i as int].key == key@);
            return Some(i);
        }
        i = i + 1;
    }
    proof {
        if has_key(views(rows@), key@) {
            let p = position(views(rows@), key@);
            assert(views(rows@)[p] == rows[p]@);
        }
    }
    None
}

/// Where `key` stands first in `keys`, if it stands there.
pub fn find_text(keys: &Vec<String>, key: &String) -> (found: Option<usize>)
    ensures
        found.is_some() <==> texts(keys@).contains(key@),
        found matches Some(i) ==> i < keys.len() && texts(keys@)[i as int] == key@,
        found matches Some(i) ==> forall|j: int| 0 <= j < i ==> texts(keys@)[j] != key@,
{
    let mut i: usize = 0;
    while i < keys.len()
        invariant
            i <= keys.len(),
            forall|j: int| 0 <= j < i ==> texts(keys@)[j] != key@,
        decreases keys.len() - i,
    {
        assert(texts(keys@)[i as int] == keys[i as int]@);
        if keys[i] == *key {
            return Some(i);
        }
        i = i + 1;
    }
    None
}

/// Whether `keys` lists `key`.
pub fn lists(keys: &Vec<String>, key: &String) -> (yes: bool)
    ensures
        yes == key_set(keys@).contains(key@),
{
    find_text(keys, key).is_some()
}

/// A copy of `rows`, record by record.
pub fn copy_rows(rows: &Vec<Record>) -> (copy: Vec<Record>)
    ensures
        copy@ == rows@,
{
    let mut copy: Vec<Record> = Vec::new();
    let mut i: usize = 0;
    while i < rows.len()
        invariant
            i <= rows.len(),
            copy@ == rows@.subrange(0, i as int),
        decreases rows.len() - i,
    {
        copy.push(rows[i].clone());
        assert(copy@ =~= rows@.subrange(0, i + 1));
        i = i + 1;
    }
    assert(rows@.subrange(0, rows.len() as int) =~= rows@);
    copy
}

} // verus!
