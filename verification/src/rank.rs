//! The order of eviction: lowest access count first, among equal counts the
//! oldest last access first, and among records equal in both the one that
//! stands first. Records whose key is pinned are passed over.

use vstd::prelude::*;
use crate::record::{colder, Record, RecordView};
use crate::table::{has_key, is_table, key_set, lemma_position, lemma_remove_keeps_table, lists, position, views};

verus! {

/// The record at `i` is evicted before the record at `j`.
pub open spec fn before(s: Seq<RecordView>, i: int, j: int) -> bool {
    colder(s[i], s[j]) || (!colder(s[j], s[i]) && i < j)
}

/// `i` is the place of the record that is evicted first: it is not pinned,
/// and it goes before every other record that is not pinned.
pub open spec fn is_lowest(s: Seq<RecordView>, pinned: Set<Seq<char>>, i: int) -> bool {
    &&& 0 <= i < s.len()
    &&& !pinned.contains(s[i].key)
    &&& forall|j: int|
        0 <= j < s.len() && j != i && !pinned.contains((#[trigger] s[j]).key) ==> before(s, i, j)
}

/// The place of the record that is evicted first among the first `n`
/// records of `s`, or -1 where all of them are pinned.
pub open spec fn lowest_in(s: Seq<RecordView>, pinned: Set<Seq<char>>, n: int) -> int
    decreases n,
{
    if n <= 0 {
        -1
    } else {
        let rest = lowest_in(s, pinned, n - 1);
        if pinned.contains(s[n - 1].key) {
            rest
        } else if rest < 0 || colder(s[n - 1], s[rest]) {
            n - 1
        } else {
            rest
        }
    }
}

/// The place of the record of `s` that is evicted first, or -1 where every
/// record is pinned.
pub open spec fn lowest(s: Seq<RecordView>, pinned: Set<Seq<char>>) -> int {
    lowest_in(s, pinned, s.len() as int)
}

/// What is left of `s` once records have been evicted, one at a time and
/// lowest first, until no more than `target` are left or all that are left
/// are pinned.
pub open spec fn evict_down(s: Seq<RecordView>, pinned: Set<Seq<char>>, target: int) -> Seq<
    RecordView,
>
    decreases s.len(),
{
    let i = lowest(s, pinned);
    if s.len() <= target || i < 0 || i >= s.len() {
        s
    } else {
        evict_down(s.remove(i), pinned, target)
    }
}

/// The records that [`evict_down`] takes out of `s`, in the order in which
/// they leave.
pub open spec fn evicted_by(s: Seq<RecordView>, pinned: Set<Seq<char>>, target: int) -> Seq<
    RecordView,
>
    decreases s.len(),
{
    let i = lowest(s, pinned);
    if s.len() <= target || i < 0 || i >= s.len() {
        Seq::empty()
    } else {
        seq![s[i]] + evicted_by(s.remove(i), pinned, target)
    }
}

/// [`lowest_in`] finds the record that goes before all others among the
/// first `n`, and finds none only where all of them are pinned.
pub proof fn lemma_lowest_in(s: Seq<RecordView>, pinned: Set<Seq<char>>, n: int)
    requires
        0 <= n <= s.len(),
    ensures
        -1 <= lowest_in(s, pinned, n) < n,
        lowest_in(s, pinned, n) < 0 ==> forall|j: int|
            0 <= j < n ==> pinned.contains((#[trigger] s[j]).key),
        lowest_in(s, pinned, n) >= 0 ==> !pinned.contains(s[lowest_in(s, pinned, n)].key),
        lowest_in(s, pinned, n) >= 0 ==> forall|j: int|
            0 <= j < n && j != lowest_in(s, pinned, n) && !pinned.contains((#[trigger] s[j]).key)
                ==> before(s, lowest_in(s, pinned, n), j),
    decreases n,
{
    if n > 0 {
        lemma_lowest_in(s, pinned, n - 1);
        let rest = lowest_in(s, pinned, n - 1);
        let r = lowest_in(s, pinned, n);
        if r >= 0 {
            assert forall|j: int|
                0 <= j < n && j != r && !pinned.contains((#[trigger] s[j]).key) implies before(
                s,
                r,
                j,
            ) by {
                if j < n - 1 && rest >= 0 && j != rest {
                    assert(before(s, rest, j));
                }
            }
        }
    }
}

/// The record that is evicted first, as [`lowest`] finds it.
pub proof fn lemma_lowest(s: Seq<RecordView>, pinned: Set<Seq<char>>)
    ensures
        -1 <= lowest(s, pinned) < s.len(),
        lowest(s, pinned) >= 0 ==> is_lowest(s, pinned, lowest(s, pinned)),
        lowest(s, pinned) < 0 ==> forall|j: int|
            0 <= j < s.len() ==> pinned.contains((#[trigger] s[j]).key),
{
    lemma_lowest_in(s, pinned, s.len() as int);
}

/// What stands in `s` without the record at `i` stands in `s`, and every
/// other record of `s` still stands there.
pub proof fn lemma_remove_members(s: Seq<RecordView>, i: int)
    requires
        0 <= i < s.len(),
    ensures
        forall|x: RecordView| s.remove(i).contains(x) ==> s.contains(x),
        forall|a: int| 0 <= a < s.len() && a != i ==> s.remove(i).contains(#[trigger] s[a]),
{
    let t = s.remove(i);
    assert forall|x: RecordView| t.contains(x) implies s.contains(x) by {
        let a = choose|a: int| 0 <= a < t.len() && t[a] == x;
        let a0 = if a < i { a } else { a + 1 };
        assert(s[a0] == x);
    }
    assert forall|a: int| 0 <= a < s.len() && a != i implies t.contains(#[trigger] s[a]) by {
        let a1 = if a < i { a } else { a - 1 };
        assert(t[a1] == s[a]);
    }
}

/// Eviction loses and invents nothing: what is left and what was evicted
/// are the records of `s`, what is left is a table, pinned records are left,
/// and no more is evicted than the target asks for.
pub proof fn lemma_evict_shape(s: Seq<RecordView>, pinned: Set<Seq<char>>, target: int)
    requires
        is_table(s),
        0 <= target,
    ensures
        is_table(evict_down(s, pinned, target)),
        evict_down(s, pinned, target).len() + evicted_by(s, pinned, target).len() == s.len(),
        s.len() <= target ==> evict_down(s, pinned, target) == s,
        s.len() >= target ==> evict_down(s, pinned, target).len() >= target,
        evict_down(s, pinned, target).len() <= target || forall|j: int|
            0 <= j < evict_down(s, pinned, target).len() ==> pinned.contains(
                (#[trigger] evict_down(s, pinned, target)[j]).key,
            ),
        forall|j: int|
            0 <= j < evict_down(s, pinned, target).len() ==> s.contains(
                #[trigger] evict_down(s, pinned, target)[j],
            ),
        forall|k: int|
            0 <= k < evicted_by(s, pinned, target).len() ==> {
                &&& s.contains(#[trigger] evicted_by(s, pinned, target)[k])
                &&& !pinned.contains(evicted_by(s, pinned, target)[k].key)
                &&& !has_key(evict_down(s, pinned, target), evicted_by(s, pinned, target)[k].key)
            },
        forall|a: int|
            0 <= a < s.len() ==> evict_down(s, pinned, target).contains(#[trigger] s[a])
                || evicted_by(s, pinned, target).contains(s[a]),
    decreases s.len(),
{
    let r = evict_down(s, pinned, target);
    let e = evicted_by(s, pinned, target);
    let i = lowest(s, pinned);
    lemma_lowest(s, pinned);
    if s.len() <= target || i < 0 {
        assert(r == s);
        assert(e.len() == 0);
        assert forall|a: int| 0 <= a < s.len() implies r.contains(#[trigger] s[a]) by {
            assert(r[a] == s[a]);
        }
    } else {
        let t = s.remove(i);
        let r1 = evict_down(t, pinned, target);
        let e1 = evicted_by(t, pinned, target);
        lemma_remove_keeps_table(s, i);
        lemma_remove_members(s, i);
        lemma_evict_shape(t, pinned, target);
        assert(r == r1);
        assert(e == seq![s[i]] + e1);
        assert forall|j: int| 0 <= j < r.len() implies s.contains(#[trigger] r[j]) by {
            assert(t.contains(r1[j]));
        }
        assert forall|k: int| 0 <= k < e.len() implies {
            &&& s.contains(#[trigger] e[k])
            &&& !pinned.contains(e[k].key)
            &&& !has_key(r, e[k].key)
        } by {
            if k == 0 {
                assert(e[0] == s[i]);
                if has_key(r, s[i].key) {
                    let p = position(r, s[i].key);
                    assert(t.contains(r1[p]));
                    let q = choose|q: int| 0 <= q < t.len() && t[q] == r1[p];
                    assert(t[q].key == s[i].key);
                    assert(has_key(t, s[i].key));
                }
            } else {
                assert(e[k] == e1[k - 1]);
                assert(t.contains(e1[k - 1]));
            }
        }
        assert forall|a: int| 0 <= a < s.len() implies r.contains(#[trigger] s[a]) || e.contains(
            s[a],
        ) by {
            if a == i {
                assert(e[0] == s[a]);
            } else {
                assert(t.contains(s[a]));
                let q = choose|q: int| 0 <= q < t.len() && t[q] == s[a];
                assert(r1.contains(t[q]) || e1.contains(t[q]));
                if e1.contains(t[q]) {
                    let k = choose|k: int| 0 <= k < e1.len() && e1[k] == t[q];
                    assert(e[k + 1] == s[a]);
                }
            }
        }
    }
}

/// Frequency-ranked removal: no record that is left and not pinned goes
/// before a record that was evicted, so none of them has a lower access
/// count than an evicted one.
pub proof fn lemma_evict_coldest(s: Seq<RecordView>, pinned: Set<Seq<char>>, target: int)
    requires
        is_table(s),
        0 <= target,
    ensures
        forall|j: int, k: int|
            0 <= j < evict_down(s, pinned, target).len() && 0 <= k < evicted_by(
                s,
                pinned,
                target,
            ).len() && !pinned.contains((#[trigger] evict_down(s, pinned, target)[j]).key)
                ==> !colder(
                evict_down(s, pinned, target)[j],
                #[trigger] evicted_by(s, pinned, target)[k],
            ),
    decreases s.len(),
{
    let r = evict_down(s, pinned, target);
    let e = evicted_by(s, pinned, target);
    let i = lowest(s, pinned);
    lemma_lowest(s, pinned);
    if !(s.len() <= target || i < 0) {
        let t = s.remove(i);
        let e1 = evicted_by(t, pinned, target);
        lemma_remove_keeps_table(s, i);
        lemma_remove_members(s, i);
        lemma_evict_shape(t, pinned, target);
        lemma_evict_coldest(t, pinned, target);
        assert(e == seq![s[i]] + e1);
        assert forall|j: int, k: int|
            0 <= j < r.len() && 0 <= k < e.len() && !pinned.contains((#[trigger] r[j]).key)
                implies !colder(r[j], #[trigger] e[k]) by {
            if k == 0 {
                assert(t.contains(r[j]));
                assert(s.contains(r[j]));
                let a = choose|a: int| 0 <= a < s.len() && s[a] == r[j];
                if a != i {
                    assert(!pinned.contains(s[a].key));
                    assert(before(s, i, a));
                }
            } else {
                assert(e[k] == e1[k - 1]);
            }
        }
    }
}

/// Eviction never takes the record of a pinned key.
pub proof fn lemma_evict_spares_pinned(s: Seq<RecordView>, pinned: Set<Seq<char>>, target: int)
    requires
        is_table(s),
        0 <= target,
    ensures
        forall|i: int|
            0 <= i < s.len() && pinned.contains((#[trigger] s[i]).key) ==> evict_down(
                s,
                pinned,
                target,
            ).contains(s[i]),
{
    let r = evict_down(s, pinned, target);
    let e = evicted_by(s, pinned, target);
    lemma_evict_shape(s, pinned, target);
    assert forall|i: int| 0 <= i < s.len() && pinned.contains((#[trigger] s[i]).key) implies r.contains(
        s[i],
    ) by {
        if e.contains(s[i]) {
            let k = choose|k: int| 0 <= k < e.len() && e[k] == s[i];
            assert(!pinned.contains(e[k].key));
        }
    }
}

/// Records leave in the order of their rank: none that leaves later is
/// colder than one that left before it.
pub proof fn lemma_evicted_in_order(s: Seq<RecordView>, pinned: Set<Seq<char>>, target: int)
    requires
        is_table(s),
        0 <= target,
    ensures
        forall|a: int, b: int|
            0 <= a < b < evicted_by(s, pinned, target).len() ==> !colder(
                #[trigger] evicted_by(s, pinned, target)[b],
                #[trigger] evicted_by(s, pinned, target)[a],
            ),
    decreases s.len(),
{
    let e = evicted_by(s, pinned, target);
    let i = lowest(s, pinned);
    lemma_lowest(s, pinned);
    if !(s.len() <= target || i < 0) {
        let t = s.remove(i);
        let e1 = evicted_by(t, pinned, target);
        lemma_remove_keeps_table(s, i);
        lemma_remove_members(s, i);
        lemma_evict_shape(t, pinned, target);
        lemma_evicted_in_order(t, pinned, target);
        assert(e == seq![s[i]] + e1);
        assert forall|a: int, b: int| 0 <= a < b < e.len() implies !colder(
            #[trigger] e[b],
            #[trigger] e[a],
        ) by {
            assert(e[b] == e1[b - 1]);
            if a == 0 {
                assert(t.contains(e1[b - 1]));
                assert(s.contains(e1[b - 1]));
                let q = choose|q: int| 0 <= q < s.len() && s[q] == e1[b - 1];
                if q != i {
                    assert(!pinned.contains(s[q].key));
                    assert(before(s, i, q));
                }
            } else {
                assert(e[a] == e1[a - 1]);
            }
        }
    }
}

/// Eviction keeps what is left in the order in which it stood.
pub proof fn lemma_evict_keeps_order(s: Seq<RecordView>, pinned: Set<Seq<char>>, target: int)
    requires
        is_table(s),
        0 <= target,
    ensures
        forall|a: int, b: int|
            0 <= a < b < evict_down(s, pinned, target).len() ==> position(
                s,
                (#[trigger] evict_down(s, pinned, target)[a]).key,
            ) < position(s, (#[trigger] evict_down(s, pinned, target)[b]).key),
    decreases s.len(),
{
    let r = evict_down(s, pinned, target);
    let i = lowest(s, pinned);
    lemma_lowest(s, pinned);
    if s.len() <= target || i < 0 {
        assert forall|a: int, b: int| 0 <= a < b < r.len() implies position(
            s,
            (#[trigger] r[a]).key,
        ) < position(s, (#[trigger] r[b]).key) by {
            lemma_position(s, r[a].key, a);
            lemma_position(s, r[b].key, b);
        }
    } else {
        let t = s.remove(i);
        lemma_remove_keeps_table(s, i);
        lemma_evict_shape(t, pinned, target);
        lemma_evict_keeps_order(t, pinned, target);
        assert forall|a: int, b: int| 0 <= a < b < r.len() implies position(
            s,
            (#[trigger] r[a]).key,
        ) < position(s, (#[trigger] r[b]).key) by {
            assert(t.contains(r[a]) && t.contains(r[b]));
            let pa = choose|q: int| 0 <= q < t.len() && t[q] == r[a];
            let pb = choose|q: int| 0 <= q < t.len() && t[q] == r[b];
            lemma_position(t, r[a].key, pa);
            lemma_position(t, r[b].key, pb);
            let qa = if pa < i { pa } else { pa + 1 };
            let qb = if pb < i { pb } else { pb + 1 };
            assert(s[qa] == t[pa] && s[qb] == t[pb]);
            lemma_position(s, r[a].key, qa);
            lemma_position(s, r[b].key, qb);
        }
    }
}

/// The place of the record of `rows` that is evicted first, `None` where
/// every record is pinned.
pub fn find_lowest(rows: &Vec<Record>, pinned: &Vec<String>) -> (found: Option<usize>)
    ensures
        found matches Some(i) ==> i as int == lowest(views(rows@), key_set(pinned@)) && is_lowest(
            views(rows@),
            key_set(pinned@),
            i as int,
        ),
        found is None ==> lowest(views(rows@), key_set(pinned@)) < 0,
        found is None ==> forall|j: int|
            0 <= j < rows.len() ==> key_set(pinned@).contains((#[trigger] rows[j])@.key),
{
    let ghost s = views(rows@);
    let ghost pins = key_set(pinned@);
    let mut best: Option<usize> = None;
    let mut i: usize = 0;
    while i < rows.len()
        invariant
            i <= rows.len(),
            s == views(rows@),
            pins == key_set(pinned@),
            best matches Some(b) ==> b < i && b as int == lowest_in(s, pins, i as int),
            best is None ==> lowest_in(s, pins, i as int) < 0,
        decreases rows.len() - i,
    {
        assert(s[i as int] == rows[i as int]@);
        if !lists(pinned, &rows[i].key) {
            match best {
                None => {
                    best = Some(i);
                },
                Some(b) => {
                    assert(s[b as int] == rows[b as int]@);
                    if rows[i].colder_than(&rows[b]) {
                        best = Some(i);
                    }
                },
            }
        }
        i = i + 1;
    }
    proof {
        lemma_lowest(s, pins);
        if best is None {
            assert forall|j: int| 0 <= j < rows.len() implies pins.contains(
                (#[trigger] rows[j])@.key,
            ) by {
                assert(s[j] == rows[j]@);
            }
        }
    }
    best
}

/// Evicts from `rows`, lowest first, until no more than `target` records are
/// left or all that are left are pinned. Returns what was evicted, in the
/// order in which it left.
pub fn shed(rows: &mut Vec<Record>, pinned: &Vec<String>, target: usize) -> (evicted: Vec<Record>)
    ensures
        views(final(rows)@) == evict_down(views(old(rows)@), key_set(pinned@), target as int),
        views(evicted@) == evicted_by(views(old(rows)@), key_set(pinned@), target as int),
{
    let ghost orig = views(rows@);
    let ghost pins = key_set(pinned@);
    let ghost t = target as int;
    let mut evicted: Vec<Record> = Vec::new();
    let mut more: bool = rows.len() > target;
    assert(views(evicted@) + evicted_by(orig, pins, t) =~= evicted_by(orig, pins, t));
    while more
        invariant
            pins == key_set(pinned@),
            t == target as int,
            evict_down(views(rows@), pins, t) == evict_down(orig, pins, t),
            views(evicted@) + evicted_by(views(rows@), pins, t) == evicted_by(orig, pins, t),
            more ==> rows.len() > target,
            !more ==> rows.len() <= target || lowest(views(rows@), pins) < 0,
        decreases rows.len() + (if more { 1int } else { 0int }),
    {
        let ghost cur = views(rows@);
        let ghost out = views(evicted@);
        match find_lowest(rows, pinned) {
            None => {
                more = false;
            },
            Some(i) => {
                let gone = rows.remove(i);
                evicted.push(gone);
                proof {
                    assert(views(rows@) =~= cur.remove(i as int));
                    assert(views(evicted@) =~= out.push(cur[i as int]));
                    assert(out.push(cur[i as int]) + evicted_by(cur.remove(i as int), pins, t) =~= out
                        + (seq![cur[i as int]] + evicted_by(cur.remove(i as int), pins, t)));
                }
                more = rows.len() > target;
            },
        }
    }
    assert(views(evicted@) + Seq::<RecordView>::empty() =~= views(evicted@));
    evicted
}

} // verus!
