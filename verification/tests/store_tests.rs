use poster_cache::cache::{Cache, Fetched, Miss, StoreReply};
use poster_cache::config::Config;
use poster_cache::record::Record;
use poster_cache::scheduler::EvictionScheduler;
use poster_cache::store::PersistentStore;

fn s(text: &str) -> String {
    text.to_string()
}

fn rec(key: &str, count: u64, last: u64) -> Record {
    Record { key: s(key), value: format!("{}.jpg", key), access_count: count, last_accessed: last }
}

fn keys(rows: &Vec<Record>) -> Vec<String> {
    let mut out = Vec::new();
    for row in rows {
        out.push(row.key.clone());
    }
    out
}

#[test]
fn store_gets_what_was_upserted() {
    let mut store = PersistentStore::new();
    assert_eq!(store.len(), 0);
    assert!(store.get(&s("a")).is_none());
    assert!(store.upsert(rec("a", 3, 7)));
    let found = store.get(&s("a")).unwrap();
    assert_eq!(found.access_count, 3);
    assert_eq!(found.last_accessed, 7);
    assert_eq!(found.value, "a.jpg");
    assert_eq!(store.len(), 1);
}

#[test]
fn upsert_is_idempotent_and_the_last_writer_wins() {
    let mut store = PersistentStore::new();
    store.upsert(rec("a", 1, 1));
    store.upsert(rec("b", 1, 2));
    store.upsert(rec("a", 5, 9));
    store.upsert(rec("a", 5, 9));
    assert_eq!(store.len(), 2);
    let rows = store.scan_all();
    assert_eq!(keys(&rows), vec![s("a"), s("b")]);
    assert_eq!(rows[0].access_count, 5);
    assert_eq!(rows[0].last_accessed, 9);
}

#[test]
fn upsert_refuses_a_record_that_is_not_valid() {
    let mut store = PersistentStore::new();
    assert!(!store.upsert(rec("", 1, 1)));
    assert!(!store.upsert(rec("a", 0, 1)));
    assert_eq!(store.len(), 0);
}

#[test]
fn delete_lowest_takes_the_smallest_counts_oldest_first() {
    let mut store = PersistentStore::new();
    store.upsert(rec("a", 5, 10));
    store.upsert(rec("b", 1, 30));
    store.upsert(rec("c", 1, 20));
    store.upsert(rec("d", 2, 5));
    store.upsert(rec("e", 9, 1));
    assert_eq!(store.delete_lowest_n(3), 3);
    assert_eq!(keys(&store.scan_all()), vec![s("a"), s("e")]);
}

#[test]
fn delete_lowest_reports_fewer_when_the_store_has_fewer() {
    let mut store = PersistentStore::new();
    store.upsert(rec("a", 5, 10));
    store.upsert(rec("b", 1, 30));
    assert_eq!(store.delete_lowest_n(0), 0);
    assert_eq!(store.len(), 2);
    assert_eq!(store.delete_lowest_n(7), 2);
    assert_eq!(store.len(), 0);
    assert_eq!(store.delete_lowest_n(1), 0);
}

#[test]
fn scheduler_needs_a_valid_setup() {
    assert!(EvictionScheduler::new(3600, 100, 80, 0).is_some());
    assert!(EvictionScheduler::new(0, 100, 80, 0).is_none());
    assert!(EvictionScheduler::new(3600, 80, 100, 0).is_none());
    let config = Config {
        gate_capacity: 1,
        soft_capacity: 10,
        target_capacity: 8,
        hard_capacity: 12,
        eviction_interval: 60,
        store_threshold: 10,
        store_target: 8,
    };
    assert!(EvictionScheduler::from_config(&config, 0).is_some());
    assert!(EvictionScheduler::from_config(&Config { hard_capacity: 9, ..config }, 0).is_none());
}

#[test]
fn run_is_due_one_interval_after_the_last() {
    let mut scheduler = EvictionScheduler::new(3600, 100, 80, 1000).unwrap();
    assert!(!scheduler.is_due(1000));
    assert!(!scheduler.is_due(4599));
    assert!(scheduler.is_due(4600));
    assert!(!scheduler.tick(4599));
    assert!(scheduler.tick(4700));
    assert!(!scheduler.is_due(8299));
    assert!(scheduler.is_due(8300));
}

#[test]
fn next_run_stops_at_the_end_of_the_clock() {
    let mut scheduler = EvictionScheduler::new(10, 1, 1, u64::MAX - 3).unwrap();
    assert!(!scheduler.is_due(u64::MAX - 1));
    assert!(scheduler.is_due(u64::MAX));
    assert!(scheduler.tick(u64::MAX));
    assert!(scheduler.is_due(u64::MAX));
}

#[test]
fn store_sheds_down_to_its_target_only_above_its_threshold() {
    let scheduler = EvictionScheduler::new(60, 10_000, 8_000, 0).unwrap();
    assert_eq!(scheduler.store_excess(0), 0);
    assert_eq!(scheduler.store_excess(9_999), 0);
    assert_eq!(scheduler.store_excess(10_000), 0);
    assert_eq!(scheduler.store_excess(10_001), 2_001);
    assert_eq!(scheduler.store_excess(12_500), 4_500);
}

#[test]
fn run_that_is_not_due_changes_nothing() {
    let mut scheduler = EvictionScheduler::new(60, 2, 1, 0).unwrap();
    let mut cache = Cache::new(1, 1, 0, 2).unwrap();
    let mut store = PersistentStore::new();
    store.upsert(rec("a", 1, 1));
    store.upsert(rec("b", 1, 1));
    store.upsert(rec("c", 1, 1));
    assert!(scheduler.run(&mut cache, &mut store, 59).is_none());
    assert_eq!(store.len(), 3);
}

#[test]
fn run_sweeps_the_tier_sheds_the_store_and_reconciles() {
    let mut scheduler = EvictionScheduler::new(60, 4, 3, 0).unwrap();
    let mut cache = Cache::new(2, 4, 3, 4).unwrap();
    let mut store = PersistentStore::new();
    let stats = [("a", 9u64), ("b", 2), ("c", 5), ("d", 7), ("e", 3)];
    for (i, (key, count)) in stats.iter().enumerate() {
        store.upsert(rec(key, *count, i as u64));
    }
    for (key, count) in stats.iter().take(4) {
        let reply = StoreReply::Found(rec(key, *count - 1, 0));
        assert!(matches!(cache.miss(&s(key), reply, 1, 10), Miss::Warmed(_)));
    }
    assert!(matches!(cache.miss(&s("f"), StoreReply::Missing, 1, 11), Miss::Started));

    let report = scheduler.run(&mut cache, &mut store, 60).expect("a run is due");

    assert_eq!(keys(&report.evicted), vec![s("b")]);
    assert_eq!(report.deleted, 2);
    assert_eq!(keys(&store.scan_all()), vec![s("a"), s("c"), s("d")]);
    assert!(report.dropped.is_empty());
    assert_eq!(keys(&cache.list_all()), vec![s("a"), s("c"), s("d")]);
    assert!(!scheduler.is_due(119));
    assert!(scheduler.is_due(120));

    let done = cache.complete_fetch(&s("f"), Fetched::Value(s("f.jpg")), 61).unwrap();
    assert_eq!(done.waiters, vec![1]);
}

#[test]
fn run_drops_from_the_tier_what_the_store_deleted() {
    let mut scheduler = EvictionScheduler::new(60, 2, 1, 0).unwrap();
    let mut cache = Cache::new(1, 10, 8, 12).unwrap();
    let mut store = PersistentStore::new();
    store.upsert(rec("a", 1, 1));
    store.upsert(rec("b", 8, 1));
    store.upsert(rec("c", 2, 1));
    for key in ["a", "b", "c"] {
        let reply = StoreReply::Found(rec(key, 20, 0));
        cache.miss(&s(key), reply, 1, 10);
    }

    let report = scheduler.run(&mut cache, &mut store, 100).expect("a run is due");

    assert!(report.evicted.is_empty());
    assert_eq!(report.deleted, 2);
    assert_eq!(keys(&report.dropped), vec![s("a"), s("c")]);
    assert_eq!(keys(&cache.list_all()), vec![s("b")]);
    assert_eq!(keys(&store.scan_all()), vec![s("b")]);
}
