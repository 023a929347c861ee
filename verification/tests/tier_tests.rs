use poster_cache::rank::{find_lowest, shed};
use poster_cache::record::Record;
use poster_cache::table::{copy_rows, find, find_text, lists};
use poster_cache::tier::{CacheTier, Insertion};

fn s(text: &str) -> String {
    text.to_string()
}

fn rec(key: &str, count: u64, last: u64) -> Record {
    Record { key: s(key), value: format!("{}.jpg", key), access_count: count, last_accessed: last }
}

fn keys(rows: &Vec<Record>) -> Vec<String> {
    let mut out = Vec::new();
    for row in rows {
        out.push(row.key.clone());
    }
    out
}

#[test]
fn tier_needs_capacities_that_fit() {
    assert!(CacheTier::new(3, 2, 3).is_some());
    assert!(CacheTier::new(0, 0, 1).is_some());
    assert!(CacheTier::new(2, 3, 4).is_none());
    assert!(CacheTier::new(5, 2, 4).is_none());
    assert!(CacheTier::new(0, 0, 0).is_none());
}

#[test]
fn tier_reports_its_capacities() {
    let tier = CacheTier::new(10, 8, 12).unwrap();
    assert_eq!(tier.soft_capacity(), 10);
    assert_eq!(tier.target_capacity(), 8);
    assert_eq!(tier.hard_capacity(), 12);
    assert_eq!(tier.size(), 0);
    assert!(!tier.needs_sweep());
}

#[test]
fn lookup_of_a_missing_key_changes_nothing() {
    let mut tier = CacheTier::new(3, 2, 3).unwrap();
    tier.insert(s("A"), s("a"), 1);
    assert!(tier.lookup(&s("B"), 2).is_none());
    let rows = tier.snapshot();
    assert_eq!(rows.len(), 1);
    assert_eq!(rows[0].access_count, 1);
    assert_eq!(rows[0].last_accessed, 1);
}

#[test]
fn second_hit_counts_exactly_one_more_and_returns_the_same_value() {
    let mut tier = CacheTier::new(3, 2, 3).unwrap();
    tier.insert(s("A"), s("a.jpg"), 1);
    tier.insert(s("B"), s("b.jpg"), 2);
    let first = tier.lookup(&s("A"), 5).unwrap();
    tier.lookup(&s("B"), 6);
    let second = tier.lookup(&s("A"), 7).unwrap();
    assert_eq!(first.access_count, 2);
    assert_eq!(second.access_count, first.access_count + 1);
    assert_eq!(first.value, "a.jpg");
    assert_eq!(second.value, first.value);
    assert_eq!(second.last_accessed, 7);
}

#[test]
fn contains_counts_no_access() {
    let mut tier = CacheTier::new(3, 2, 3).unwrap();
    tier.insert(s("A"), s("a"), 1);
    assert!(tier.contains(&s("A")));
    assert!(!tier.contains(&s("Z")));
    assert_eq!(tier.snapshot()[0].access_count, 1);
}

#[test]
fn insert_refuses_an_empty_key() {
    let mut tier = CacheTier::new(3, 2, 3).unwrap();
    assert!(matches!(tier.insert(s(""), s("v"), 1), Insertion::Refused));
    assert_eq!(tier.size(), 0);
}

#[test]
fn insert_replaces_a_record_where_it_stands() {
    let mut tier = CacheTier::new(3, 2, 3).unwrap();
    tier.insert(s("A"), s("old"), 1);
    tier.insert(s("B"), s("b"), 2);
    tier.lookup(&s("A"), 3);
    assert!(matches!(tier.insert(s("A"), s("new"), 9), Insertion::Replaced));
    let rows = tier.snapshot();
    assert_eq!(keys(&rows), vec![s("A"), s("B")]);
    assert_eq!(rows[0].value, "new");
    assert_eq!(rows[0].access_count, 1);
    assert_eq!(rows[0].last_accessed, 9);
}

#[test]
fn insert_into_a_full_tier_evicts_the_lowest_count() {
    let mut tier = CacheTier::new(2, 1, 2).unwrap();
    tier.insert(s("A"), s("a"), 1);
    tier.insert(s("B"), s("b"), 2);
    tier.lookup(&s("A"), 3);
    match tier.insert(s("C"), s("c"), 4) {
        Insertion::Evicted(gone) => assert_eq!(gone.key, "B"),
        _ => panic!("a record had to be evicted"),
    }
    assert_eq!(keys(&tier.snapshot()), vec![s("A"), s("C")]);
    assert_eq!(tier.size(), 2);
}

#[test]
fn insert_into_a_full_tier_breaks_ties_by_the_oldest_access() {
    let mut tier = CacheTier::new(3, 1, 3).unwrap();
    tier.insert(s("A"), s("a"), 30);
    tier.insert(s("B"), s("b"), 10);
    tier.insert(s("C"), s("c"), 20);
    match tier.insert(s("D"), s("d"), 40) {
        Insertion::Evicted(gone) => assert_eq!(gone.key, "B"),
        _ => panic!("a record had to be evicted"),
    }
    assert_eq!(keys(&tier.snapshot()), vec![s("A"), s("C"), s("D")]);
}

#[test]
fn insert_into_a_full_tier_takes_the_first_of_equal_records() {
    let mut tier = CacheTier::new(2, 1, 2).unwrap();
    tier.insert(s("A"), s("a"), 5);
    tier.insert(s("B"), s("b"), 5);
    match tier.insert(s("C"), s("c"), 5) {
        Insertion::Evicted(gone) => assert_eq!(gone.key, "A"),
        _ => panic!("a record had to be evicted"),
    }
    assert_eq!(keys(&tier.snapshot()), vec![s("B"), s("C")]);
}

#[test]
fn replacing_in_a_full_tier_evicts_nothing() {
    let mut tier = CacheTier::new(2, 1, 2).unwrap();
    tier.insert(s("A"), s("a"), 1);
    tier.insert(s("B"), s("b"), 2);
    assert!(matches!(tier.insert(s("B"), s("b2"), 3), Insertion::Replaced));
    assert_eq!(tier.size(), 2);
}

#[test]
fn warm_keeps_the_statistics_of_the_store() {
    let mut tier = CacheTier::new(3, 2, 3).unwrap();
    assert!(matches!(tier.warm(rec("A", 41, 7)), Insertion::Added));
    let hit = tier.lookup(&s("A"), 8).unwrap();
    assert_eq!(hit.access_count, 42);
    assert_eq!(hit.value, "A.jpg");
}

#[test]
fn warm_refuses_a_record_that_is_not_valid() {
    let mut tier = CacheTier::new(3, 2, 3).unwrap();
    assert!(matches!(tier.warm(rec("A", 0, 7)), Insertion::Refused));
    assert!(matches!(tier.warm(rec("", 1, 7)), Insertion::Refused));
    assert_eq!(tier.size(), 0);
}

#[test]
fn snapshot_is_in_the_order_of_first_insertion() {
    let mut tier = CacheTier::new(5, 2, 5).unwrap();
    tier.insert(s("C"), s("c"), 1);
    tier.insert(s("A"), s("a"), 2);
    tier.insert(s("B"), s("b"), 3);
    tier.lookup(&s("B"), 4);
    tier.insert(s("C"), s("c2"), 5);
    assert_eq!(keys(&tier.snapshot()), vec![s("C"), s("A"), s("B")]);
}

#[test]
fn sweep_below_the_soft_capacity_does_nothing() {
    let mut tier = CacheTier::new(4, 1, 5).unwrap();
    tier.insert(s("A"), s("a"), 1);
    tier.insert(s("B"), s("b"), 2);
    tier.insert(s("C"), s("c"), 3);
    assert!(!tier.needs_sweep());
    let evicted = tier.sweep(&Vec::new());
    assert!(evicted.is_empty());
    assert_eq!(tier.size(), 3);
}

#[test]
fn sweep_evicts_down_to_the_target_lowest_first() {
    let mut tier = CacheTier::new(5, 2, 6).unwrap();
    tier.warm(rec("A", 5, 10));
    tier.warm(rec("B", 1, 50));
    tier.warm(rec("C", 9, 20));
    tier.warm(rec("D", 1, 40));
    tier.warm(rec("E", 3, 30));
    assert!(tier.needs_sweep());

    let evicted = tier.sweep(&Vec::new());

    assert_eq!(keys(&evicted), vec![s("D"), s("B"), s("E")]);
    assert_eq!(keys(&tier.snapshot()), vec![s("A"), s("C")]);
    assert!(tier.size() <= tier.target_capacity());
    let lowest_left = tier.snapshot().iter().map(|r| r.access_count).min().unwrap();
    let highest_gone = evicted.iter().map(|r| r.access_count).max().unwrap();
    assert!(lowest_left >= highest_gone);
}

#[test]
fn sweep_never_evicts_a_pinned_key() {
    let mut tier = CacheTier::new(3, 1, 3).unwrap();
    tier.warm(rec("A", 1, 1));
    tier.warm(rec("B", 2, 2));
    tier.warm(rec("C", 3, 3));
    let evicted = tier.sweep(&vec![s("A")]);
    assert_eq!(keys(&evicted), vec![s("B"), s("C")]);
    assert_eq!(keys(&tier.snapshot()), vec![s("A")]);
}

#[test]
fn sweep_stops_when_only_pinned_records_are_left() {
    let mut tier = CacheTier::new(3, 1, 3).unwrap();
    tier.warm(rec("A", 1, 1));
    tier.warm(rec("B", 2, 2));
    tier.warm(rec("C", 3, 3));
    let evicted = tier.sweep(&vec![s("A"), s("C")]);
    assert_eq!(keys(&evicted), vec![s("B")]);
    assert_eq!(keys(&tier.snapshot()), vec![s("A"), s("C")]);
}

#[test]
fn sweep_to_a_target_of_zero_empties_the_tier() {
    let mut tier = CacheTier::new(2, 0, 2).unwrap();
    tier.insert(s("A"), s("a"), 1);
    tier.insert(s("B"), s("b"), 2);
    let evicted = tier.sweep(&Vec::new());
    assert_eq!(evicted.len(), 2);
    assert_eq!(tier.size(), 0);
}

#[test]
fn reconcile_drops_what_the_store_no_longer_holds() {
    let mut tier = CacheTier::new(5, 2, 5).unwrap();
    tier.warm(rec("A", 5, 1));
    tier.warm(rec("B", 1, 2));
    tier.warm(rec("C", 9, 3));
    tier.warm(rec("D", 2, 4));
    let survivors = vec![rec("C", 1, 1), rec("A", 1, 1), rec("Z", 1, 1)];

    let dropped = tier.reconcile(&survivors, &vec![s("D")]);

    assert_eq!(keys(&dropped), vec![s("B")]);
    let rows = tier.snapshot();
    assert_eq!(keys(&rows), vec![s("A"), s("C"), s("D")]);
    assert_eq!(rows[0].access_count, 5);
    assert_eq!(rows[1].access_count, 9);
}

#[test]
fn lowest_is_found_among_the_records_that_are_not_pinned() {
    let rows = vec![rec("A", 2, 1), rec("B", 1, 9), rec("C", 1, 3), rec("D", 1, 3)];
    assert_eq!(find_lowest(&rows, &Vec::new()), Some(2));
    assert_eq!(find_lowest(&rows, &vec![s("C")]), Some(3));
    assert_eq!(find_lowest(&rows, &vec![s("C"), s("D"), s("B")]), Some(0));
    assert_eq!(find_lowest(&rows, &vec![s("A"), s("B"), s("C"), s("D")]), None);
    assert_eq!(find_lowest(&Vec::new(), &Vec::new()), None);
}

#[test]
fn shed_takes_the_lowest_until_the_target_is_met() {
    let mut rows = vec![rec("A", 4, 1), rec("B", 3, 1), rec("C", 2, 1), rec("D", 1, 1)];
    let gone = shed(&mut rows, &Vec::new(), 3);
    assert_eq!(keys(&gone), vec![s("D")]);
    assert_eq!(keys(&rows), vec![s("A"), s("B"), s("C")]);
    let gone = shed(&mut rows, &Vec::new(), 5);
    assert!(gone.is_empty());
    let gone = shed(&mut rows, &Vec::new(), 0);
    assert_eq!(keys(&gone), vec![s("C"), s("B"), s("A")]);
    assert!(rows.is_empty());
}

#[test]
fn rows_are_found_by_key() {
    let rows = vec![rec("A", 1, 1), rec("B", 1, 1)];
    assert_eq!(find(&rows, &s("B")), Some(1));
    assert_eq!(find(&rows, &s("C")), None);
    let names = vec![s("x"), s("y"), s("x")];
    assert_eq!(find_text(&names, &s("x")), Some(0));
    assert_eq!(find_text(&names, &s("y")), Some(1));
    assert_eq!(find_text(&names, &s("z")), None);
    assert!(lists(&names, &s("y")));
    assert!(!lists(&names, &s("")));
    assert_eq!(keys(&copy_rows(&rows)), vec![s("A"), s("B")]);
}
