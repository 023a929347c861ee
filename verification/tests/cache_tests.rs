use poster_cache::cache::{Cache, Fetched, Miss, StoreReply};
use poster_cache::config::{target_of, Config};
use poster_cache::error::CacheError;
use poster_cache::orchestrator::Abandon;
use poster_cache::record::Record;

fn s(text: &str) -> String {
    text.to_string()
}

fn rec(key: &str, count: u64, last: u64) -> Record {
    Record { key: s(key), value: format!("{}.jpg", key), access_count: count, last_accessed: last }
}

fn keys(rows: &Vec<Record>) -> Vec<String> {
    let mut out = Vec::new();
    for row in rows {
        out.push(row.key.clone());
    }
    out
}

fn filled(cache: &mut Cache, key: &str, now: u64) {
    assert!(matches!(cache.miss(&s(key), StoreReply::Missing, 0, now), Miss::Started));
    cache.complete_fetch(&s(key), Fetched::Value(format!("{}.jpg", key)), now).unwrap();
}

#[test]
fn cache_needs_a_valid_setup() {
    assert!(Cache::new(1, 3, 2, 3).is_some());
    assert!(Cache::new(0, 3, 2, 3).is_none());
    assert!(Cache::new(1, 3, 4, 5).is_none());
    assert!(Cache::new(1, 3, 2, 2).is_none());
    let cache = Cache::new(2, 10, 8, 12).unwrap();
    assert_eq!(cache.gate_capacity(), 2);
    assert_eq!(cache.size(), 0);
    assert_eq!(cache.fetching(), 0);
    assert_eq!(cache.queued(), 0);
}

#[test]
fn config_is_checked() {
    let good = Config {
        gate_capacity: 1,
        soft_capacity: 10_000,
        target_capacity: 8_000,
        hard_capacity: 12_000,
        eviction_interval: 3_600,
        store_threshold: 10_000,
        store_target: 8_000,
    };
    assert!(good.is_valid());
    assert!(Cache::from_config(&good).is_some());
    assert!(!Config { gate_capacity: 0, ..good }.is_valid());
    assert!(!Config { target_capacity: 10_001, ..good }.is_valid());
    assert!(!Config { hard_capacity: 9_999, ..good }.is_valid());
    assert!(!Config { eviction_interval: 0, ..good }.is_valid());
    assert!(!Config { store_target: 10_001, ..good }.is_valid());
    assert!(Cache::from_config(&Config { gate_capacity: 0, ..good }).is_none());
    assert!(Cache::from_config(&Config { eviction_interval: 0, ..good }).is_none());
}

#[test]
fn full_miss_fetches_publishes_and_then_hits() {
    let mut cache = Cache::new(1, 10, 8, 12).unwrap();
    assert!(cache.lookup(&s("alien"), 100).is_none());
    assert!(matches!(cache.miss(&s("alien"), StoreReply::Missing, 1, 100), Miss::Started));
    assert_eq!(cache.fetching(), 1);

    let done = cache.complete_fetch(&s("alien"), Fetched::Value(s("alien.jpg")), 105).unwrap();

    assert_eq!(done.outcome, Ok(s("alien.jpg")));
    assert_eq!(done.waiters, vec![1]);
    assert_eq!(done.next, None);
    assert!(done.evicted.is_none());
    let persisted = done.persist.expect("a record to write through");
    assert_eq!(persisted.key, "alien");
    assert_eq!(persisted.value, "alien.jpg");
    assert_eq!(persisted.access_count, 1);
    assert_eq!(persisted.last_accessed, 105);
    assert_eq!(cache.fetching(), 0);

    let hit = cache.lookup(&s("alien"), 110).expect("a hit");
    assert_eq!(hit.value, "alien.jpg");
    assert_eq!(hit.access_count, 2);
    let again = cache.lookup(&s("alien"), 111).expect("a hit");
    assert_eq!(again.access_count, 3);
    assert_eq!(again.value, hit.value);
}

#[test]
fn record_from_the_store_warms_the_tier() {
    let mut cache = Cache::new(1, 10, 8, 12).unwrap();
    match cache.miss(&s("alien"), StoreReply::Found(rec("alien", 4, 50)), 1, 100) {
        Miss::Warmed(record) => {
            assert_eq!(record.access_count, 5);
            assert_eq!(record.last_accessed, 100);
            assert_eq!(record.value, "alien.jpg");
        },
        _ => panic!("the store brought the record"),
    }
    assert_eq!(cache.fetching(), 0);
    assert_eq!(cache.size(), 1);
    assert_eq!(cache.lookup(&s("alien"), 101).unwrap().access_count, 6);
}

#[test]
fn record_under_another_key_or_not_valid_does_not_warm() {
    let mut cache = Cache::new(2, 10, 8, 12).unwrap();
    assert!(matches!(
        cache.miss(&s("alien"), StoreReply::Found(rec("aliens", 4, 50)), 1, 100),
        Miss::Started
    ));
    assert!(matches!(
        cache.miss(&s("brazil"), StoreReply::Found(rec("brazil", 0, 50)), 2, 100),
        Miss::Started
    ));
    assert_eq!(cache.size(), 0);
    assert_eq!(cache.fetching(), 2);
}

#[test]
fn unreachable_store_is_taken_as_a_miss() {
    let mut cache = Cache::new(1, 10, 8, 12).unwrap();
    assert!(matches!(cache.miss(&s("alien"), StoreReply::Unavailable, 1, 100), Miss::Started));
    let done = cache.complete_fetch(&s("alien"), Fetched::Value(s("a.jpg")), 101).unwrap();
    assert_eq!(done.outcome, Ok(s("a.jpg")));
    assert_eq!(cache.lookup(&s("alien"), 102).unwrap().value, "a.jpg");
}

#[test]
fn miss_of_a_key_that_arrived_meanwhile_is_a_hit() {
    let mut cache = Cache::new(1, 10, 8, 12).unwrap();
    filled(&mut cache, "alien", 100);
    match cache.miss(&s("alien"), StoreReply::Missing, 2, 120) {
        Miss::Hit(record) => {
            assert_eq!(record.access_count, 2);
            assert_eq!(record.last_accessed, 120);
        },
        _ => panic!("the tier holds the key"),
    }
    assert_eq!(cache.fetching(), 0);
}

#[test]
fn empty_key_fails_at_once() {
    let mut cache = Cache::new(1, 10, 8, 12).unwrap();
    assert!(cache.lookup(&s(""), 1).is_none());
    assert!(matches!(cache.miss(&s(""), StoreReply::Missing, 1, 1), Miss::Failed));
    assert!(matches!(cache.miss(&s(""), StoreReply::Found(rec("", 1, 1)), 1, 1), Miss::Failed));
    assert_eq!(cache.fetching(), 0);
    assert_eq!(cache.size(), 0);
}

#[test]
fn failure_reaches_every_waiter_and_is_not_cached() {
    let mut cache = Cache::new(1, 10, 8, 12).unwrap();
    assert!(matches!(cache.miss(&s("k"), StoreReply::Missing, 1, 1), Miss::Started));
    assert!(matches!(cache.miss(&s("k"), StoreReply::Missing, 2, 1), Miss::Joined));
    assert!(matches!(cache.miss(&s("k"), StoreReply::Missing, 3, 1), Miss::Joined));

    let done = cache.complete_fetch(&s("k"), Fetched::Failed, 2).unwrap();

    assert_eq!(done.outcome, Err(CacheError::FetchFailed));
    assert_eq!(done.waiters, vec![1, 2, 3]);
    assert!(done.persist.is_none());
    assert_eq!(cache.size(), 0);
    assert_eq!(cache.fetching(), 0);
    assert!(cache.lookup(&s("k"), 3).is_none());
}

#[test]
fn failed_key_can_be_fetched_again_at_once() {
    let mut cache = Cache::new(1, 10, 8, 12).unwrap();
    assert!(matches!(cache.miss(&s("k"), StoreReply::Missing, 1, 1), Miss::Started));
    cache.complete_fetch(&s("k"), Fetched::NotFound, 2).unwrap();
    assert!(matches!(cache.miss(&s("k"), StoreReply::Missing, 2, 3), Miss::Started));
    let done = cache.complete_fetch(&s("k"), Fetched::Value(s("k.jpg")), 4).unwrap();
    assert_eq!(done.outcome, Ok(s("k.jpg")));
    assert_eq!(done.waiters, vec![2]);
}

#[test]
fn empty_value_and_not_found_are_the_same_failure() {
    let mut cache = Cache::new(1, 10, 8, 12).unwrap();
    cache.miss(&s("a"), StoreReply::Missing, 1, 1);
    let empty = cache.complete_fetch(&s("a"), Fetched::Value(s("")), 2).unwrap();
    assert_eq!(empty.outcome, Err(CacheError::FetchFailed));
    cache.miss(&s("a"), StoreReply::Missing, 1, 3);
    let missing = cache.complete_fetch(&s("a"), Fetched::NotFound, 4).unwrap();
    assert_eq!(missing.outcome, Err(CacheError::FetchFailed));
    cache.miss(&s("a"), StoreReply::Missing, 1, 5);
    let failed = cache.complete_fetch(&s("a"), Fetched::Failed, 6).unwrap();
    assert_eq!(failed.outcome, Err(CacheError::FetchFailed));
    assert_eq!(cache.size(), 0);
}

#[test]
fn completion_of_a_key_that_is_not_in_flight_changes_nothing() {
    let mut cache = Cache::new(1, 10, 8, 12).unwrap();
    assert!(cache.complete_fetch(&s("k"), Fetched::Value(s("v")), 1).is_none());
    assert_eq!(cache.size(), 0);
    assert!(cache.lookup(&s("k"), 2).is_none());
}

#[test]
fn publish_into_a_full_tier_hands_back_the_evicted_record() {
    let mut cache = Cache::new(1, 2, 1, 2).unwrap();
    filled(&mut cache, "a", 1);
    filled(&mut cache, "b", 2);
    cache.lookup(&s("a"), 3);
    cache.miss(&s("c"), StoreReply::Missing, 1, 4);
    let done = cache.complete_fetch(&s("c"), Fetched::Value(s("c.jpg")), 5).unwrap();
    assert_eq!(done.evicted.expect("the tier was full").key, "b");
    assert_eq!(keys(&cache.list_all()), vec![s("a"), s("c")]);
}

#[test]
fn caller_that_gives_up_in_line_gets_no_slot_later() {
    let mut cache = Cache::new(1, 10, 8, 12).unwrap();
    cache.miss(&s("x"), StoreReply::Missing, 1, 1);
    assert!(matches!(cache.miss(&s("y"), StoreReply::Missing, 2, 1), Miss::Queued));
    assert!(matches!(cache.miss(&s("z"), StoreReply::Missing, 3, 1), Miss::Queued));
    assert!(matches!(cache.abandon(&s("y"), 2), Abandon::Withdrawn));
    assert_eq!(cache.queued(), 1);
    let done = cache.complete_fetch(&s("x"), Fetched::Value(s("x.jpg")), 2).unwrap();
    assert_eq!(done.next, Some(s("z")));
    assert!(cache.complete_fetch(&s("y"), Fetched::Value(s("y.jpg")), 3).is_none());
}

#[test]
fn sweep_spares_the_record_of_a_key_in_flight() {
    let mut cache = Cache::new(4, 3, 1, 3).unwrap();
    cache.miss(&s("a"), StoreReply::Missing, 1, 1);
    assert!(matches!(cache.miss(&s("a"), StoreReply::Found(rec("a", 1, 1)), 2, 2), Miss::Warmed(_)));
    assert!(matches!(cache.miss(&s("b"), StoreReply::Found(rec("b", 5, 1)), 3, 3), Miss::Warmed(_)));
    assert!(matches!(cache.miss(&s("c"), StoreReply::Found(rec("c", 7, 1)), 4, 4), Miss::Warmed(_)));
    assert!(cache.needs_sweep());

    let evicted = cache.sweep();

    assert_eq!(keys(&evicted), vec![s("b"), s("c")]);
    assert_eq!(keys(&cache.list_all()), vec![s("a")]);
}

#[test]
fn sweep_of_a_cache_without_flights_reaches_the_target() {
    let mut cache = Cache::new(1, 3, 2, 3).unwrap();
    filled(&mut cache, "A", 1);
    filled(&mut cache, "B", 2);
    filled(&mut cache, "C", 3);
    cache.lookup(&s("A"), 4);
    let evicted = cache.sweep();
    assert_eq!(keys(&evicted), vec![s("B")]);
    assert_eq!(cache.size(), 2);
    assert_eq!(keys(&cache.list_all()), vec![s("A"), s("C")]);
}

#[test]
fn reconcile_keeps_survivors_and_keys_in_flight() {
    let mut cache = Cache::new(4, 10, 8, 12).unwrap();
    filled(&mut cache, "a", 1);
    filled(&mut cache, "b", 2);
    filled(&mut cache, "c", 3);
    cache.miss(&s("d"), StoreReply::Missing, 1, 4);
    cache.miss(&s("d"), StoreReply::Found(rec("d", 2, 1)), 2, 5);

    let dropped = cache.reconcile(&vec![rec("b", 1, 2)]);

    assert_eq!(keys(&dropped), vec![s("a"), s("c")]);
    assert_eq!(keys(&cache.list_all()), vec![s("b"), s("d")]);
}

#[test]
fn list_all_changes_nothing() {
    let mut cache = Cache::new(1, 10, 8, 12).unwrap();
    filled(&mut cache, "a", 1);
    filled(&mut cache, "b", 2);
    let first = cache.list_all();
    let second = cache.list_all();
    assert_eq!(keys(&first), vec![s("a"), s("b")]);
    assert_eq!(first[0].access_count, 1);
    assert_eq!(second[0].access_count, 1);
    assert_eq!(second[1].value, "b.jpg");
}

#[test]
fn target_is_a_share_of_the_soft_capacity_rounded_down() {
    assert_eq!(target_of(10_000, 80), Some(8_000));
    assert_eq!(target_of(3, 80), Some(2));
    assert_eq!(target_of(7, 50), Some(3));
    assert_eq!(target_of(199, 99), Some(197));
    assert_eq!(target_of(0, 50), Some(0));
    assert_eq!(target_of(12, 0), Some(0));
    assert_eq!(target_of(usize::MAX, 100), Some(usize::MAX));
    assert_eq!(target_of(10, 101), None);
}

#[test]
fn errors_of_the_steps() {
    assert_eq!(StoreReply::Unavailable.error(), Some(CacheError::StoreUnavailable));
    assert_eq!(StoreReply::Missing.error(), None);
    assert_eq!(StoreReply::Found(rec("a", 1, 1)).error(), None);

    let mut cache = Cache::new(1, 10, 8, 12).unwrap();
    assert_eq!(cache.miss(&s(""), StoreReply::Missing, 1, 1).error(), Some(CacheError::FetchFailed));
    assert_eq!(cache.miss(&s("k"), StoreReply::Missing, 1, 1).error(), None);
    assert_eq!(cache.miss(&s("l"), StoreReply::Missing, 2, 1).error(), None);
    assert_eq!(cache.abandon(&s("l"), 2).error(), Some(CacheError::GateTimeout));
}
