use poster_cache::cache::{Cache, Fetched, Miss, StoreReply};
use poster_cache::tier::{CacheTier, Insertion};

fn s(text: &str) -> String {
    text.to_string()
}

#[test]
fn sweep_removes_the_older_of_two_equal_counts() {
    let mut tier = CacheTier::new(3, 2, 3).expect("capacities fit");
    assert!(matches!(tier.insert(s("A"), s("a"), 1), Insertion::Added));
    assert!(matches!(tier.insert(s("B"), s("b"), 2), Insertion::Added));
    assert!(matches!(tier.insert(s("C"), s("c"), 3), Insertion::Added));
    let hit = tier.lookup(&s("A"), 4).expect("A is there");
    assert_eq!(hit.access_count, 2);

    let evicted = tier.sweep(&Vec::new());

    assert_eq!(evicted.len(), 1);
    assert_eq!(evicted[0].key, "B");
    assert_eq!(tier.size(), 2);
    assert!(tier.contains(&s("A")));
    assert!(tier.contains(&s("C")));
    assert!(!tier.contains(&s("B")));
}

#[test]
fn second_fetch_waits_for_the_slot_of_the_first() {
    let mut cache = Cache::new(1, 10, 8, 12).expect("valid");
    assert!(matches!(cache.miss(&s("X"), StoreReply::Missing, 1, 100), Miss::Started));
    assert!(matches!(cache.miss(&s("Y"), StoreReply::Missing, 2, 100), Miss::Queued));
    assert_eq!(cache.fetching(), 1);
    assert_eq!(cache.queued(), 1);

    let done = cache
        .complete_fetch(&s("X"), Fetched::Value(s("x.png")), 101)
        .expect("X was in flight");

    assert_eq!(done.outcome, Ok(s("x.png")));
    assert_eq!(done.waiters, vec![1]);
    assert_eq!(done.next, Some(s("Y")));
    assert_eq!(cache.fetching(), 1);
    assert_eq!(cache.queued(), 0);
}
