use poster_cache::error::CacheError;
use poster_cache::orchestrator::{Abandon, FetchOrchestrator, KeyState, Request};

fn s(text: &str) -> String {
    text.to_string()
}

#[test]
fn orchestrator_needs_a_slot() {
    assert!(FetchOrchestrator::new(0).is_none());
    let orchestrator = FetchOrchestrator::new(2).unwrap();
    assert_eq!(orchestrator.capacity(), 2);
    assert_eq!(orchestrator.fetching(), 0);
    assert_eq!(orchestrator.queued(), 0);
    assert!(orchestrator.in_flight_keys().is_empty());
}

#[test]
fn first_miss_starts_the_fetch_and_later_ones_join() {
    let mut orchestrator = FetchOrchestrator::new(2).unwrap();
    assert!(matches!(orchestrator.state(&s("k")), KeyState::Idle));
    assert!(matches!(orchestrator.request(&s("k"), 1), Request::Started));
    assert!(matches!(orchestrator.state(&s("k")), KeyState::Fetching));
    assert!(matches!(orchestrator.request(&s("k"), 2), Request::Joined));
    assert!(matches!(orchestrator.request(&s("k"), 3), Request::Joined));
    assert_eq!(orchestrator.fetching(), 1);
    assert_eq!(orchestrator.in_flight_keys(), vec![s("k")]);
}

#[test]
fn fifty_callers_of_one_key_share_one_fetch_and_one_outcome() {
    let mut orchestrator = FetchOrchestrator::new(8).unwrap();
    let mut started = 0;
    let mut joined = 0;
    for caller in 0..50u64 {
        match orchestrator.request(&s("the-thing"), caller) {
            Request::Started => started += 1,
            Request::Joined => joined += 1,
            Request::Queued => panic!("a slot was free"),
        }
    }
    assert_eq!(started, 1);
    assert_eq!(joined, 49);
    assert_eq!(orchestrator.fetching(), 1);

    let done = orchestrator.resolve(&s("the-thing")).expect("the key was in flight");

    let expected: Vec<u64> = (0..50).collect();
    assert_eq!(done.waiters, expected);
    assert_eq!(done.next, None);
    assert!(matches!(orchestrator.state(&s("the-thing")), KeyState::Idle));
    assert_eq!(orchestrator.fetching(), 0);
}

#[test]
fn a_caller_stands_in_a_flight_once() {
    let mut orchestrator = FetchOrchestrator::new(1).unwrap();
    orchestrator.request(&s("k"), 7);
    orchestrator.request(&s("k"), 7);
    orchestrator.request(&s("k"), 8);
    orchestrator.request(&s("k"), 7);
    let done = orchestrator.resolve(&s("k")).unwrap();
    assert_eq!(done.waiters, vec![7, 8]);
}

#[test]
fn flights_beyond_the_capacity_wait_in_line() {
    let mut orchestrator = FetchOrchestrator::new(2).unwrap();
    assert!(matches!(orchestrator.request(&s("a"), 1), Request::Started));
    assert!(matches!(orchestrator.request(&s("b"), 2), Request::Started));
    assert!(matches!(orchestrator.request(&s("c"), 3), Request::Queued));
    assert!(matches!(orchestrator.request(&s("d"), 4), Request::Queued));
    assert!(matches!(orchestrator.request(&s("c"), 5), Request::Joined));
    assert!(matches!(orchestrator.state(&s("c")), KeyState::AwaitingSlot));
    assert_eq!(orchestrator.fetching(), 2);
    assert_eq!(orchestrator.queued(), 2);

    let done = orchestrator.resolve(&s("b")).unwrap();
    assert_eq!(done.waiters, vec![2]);
    assert_eq!(done.next, Some(s("c")));
    assert!(matches!(orchestrator.state(&s("c")), KeyState::Fetching));
    assert!(matches!(orchestrator.state(&s("d")), KeyState::AwaitingSlot));
    assert_eq!(orchestrator.fetching(), 2);

    let done = orchestrator.resolve(&s("c")).unwrap();
    assert_eq!(done.waiters, vec![3, 5]);
    assert_eq!(done.next, Some(s("d")));
    assert_eq!(orchestrator.in_flight_keys(), vec![s("a"), s("d")]);
}

#[test]
fn resolve_of_an_idle_key_changes_nothing() {
    let mut orchestrator = FetchOrchestrator::new(1).unwrap();
    orchestrator.request(&s("a"), 1);
    assert!(orchestrator.resolve(&s("b")).is_none());
    assert_eq!(orchestrator.fetching(), 1);
    assert_eq!(orchestrator.in_flight_keys(), vec![s("a")]);
}

#[test]
fn resolve_of_a_flight_in_line_frees_no_slot() {
    let mut orchestrator = FetchOrchestrator::new(1).unwrap();
    orchestrator.request(&s("a"), 1);
    orchestrator.request(&s("b"), 2);
    orchestrator.request(&s("c"), 3);
    let done = orchestrator.resolve(&s("b")).unwrap();
    assert_eq!(done.waiters, vec![2]);
    assert_eq!(done.next, None);
    assert_eq!(orchestrator.fetching(), 1);
    assert_eq!(orchestrator.queued(), 1);
    let done = orchestrator.resolve(&s("a")).unwrap();
    assert_eq!(done.next, Some(s("c")));
}

#[test]
fn a_caller_that_leaves_a_running_fetch_does_not_cancel_it() {
    let mut orchestrator = FetchOrchestrator::new(1).unwrap();
    orchestrator.request(&s("a"), 1);
    orchestrator.request(&s("a"), 2);
    assert!(matches!(orchestrator.abandon(&s("a"), 1), Abandon::LeftFetch));
    assert!(matches!(orchestrator.abandon(&s("a"), 2), Abandon::LeftFetch));
    assert!(matches!(orchestrator.state(&s("a")), KeyState::Fetching));
    assert_eq!(orchestrator.fetching(), 1);
    let done = orchestrator.resolve(&s("a")).unwrap();
    assert!(done.waiters.is_empty());
}

#[test]
fn the_last_waiter_in_line_takes_its_flight_with_it() {
    let mut orchestrator = FetchOrchestrator::new(1).unwrap();
    orchestrator.request(&s("a"), 1);
    orchestrator.request(&s("b"), 2);
    orchestrator.request(&s("b"), 3);
    orchestrator.request(&s("c"), 4);
    assert!(matches!(orchestrator.abandon(&s("b"), 2), Abandon::LeftLine));
    assert!(matches!(orchestrator.state(&s("b")), KeyState::AwaitingSlot));
    assert!(matches!(orchestrator.abandon(&s("b"), 3), Abandon::Withdrawn));
    assert!(matches!(orchestrator.state(&s("b")), KeyState::Idle));
    assert_eq!(orchestrator.queued(), 1);

    let done = orchestrator.resolve(&s("a")).unwrap();
    assert_eq!(done.next, Some(s("c")));
}

#[test]
fn abandon_by_a_stranger_changes_nothing() {
    let mut orchestrator = FetchOrchestrator::new(1).unwrap();
    orchestrator.request(&s("a"), 1);
    assert!(matches!(orchestrator.abandon(&s("a"), 9), Abandon::NotWaiting));
    assert!(matches!(orchestrator.abandon(&s("z"), 1), Abandon::NotWaiting));
    let done = orchestrator.resolve(&s("a")).unwrap();
    assert_eq!(done.waiters, vec![1]);
}

#[test]
fn fetches_never_exceed_the_capacity_under_ten_thousand_distinct_keys() {
    let mut orchestrator = FetchOrchestrator::new(3).unwrap();
    let mut started = 0;
    for i in 0..10_000u64 {
        if let Request::Started = orchestrator.request(&format!("k{}", i), i) {
            started += 1;
        }
        assert!(orchestrator.fetching() <= 3);
    }
    assert_eq!(started, 3);
    let mut handed_on = 0;
    for i in 0..10_000u64 {
        let done = orchestrator.resolve(&format!("k{}", i)).unwrap();
        if done.next.is_some() {
            handed_on += 1;
        }
        assert!(orchestrator.fetching() <= 3);
    }
    assert_eq!(started + handed_on, 10_000);
    assert_eq!(orchestrator.fetching(), 0);
}

#[test]
fn who_gives_up_in_line_gets_a_gate_timeout() {
    assert_eq!(Abandon::LeftLine.error(), Some(CacheError::GateTimeout));
    assert_eq!(Abandon::Withdrawn.error(), Some(CacheError::GateTimeout));
    assert_eq!(Abandon::LeftFetch.error(), None);
    assert_eq!(Abandon::NotWaiting.error(), None);

    let mut orchestrator = FetchOrchestrator::new(1).unwrap();
    orchestrator.request(&s("a"), 1);
    orchestrator.request(&s("b"), 2);
    assert_eq!(orchestrator.abandon(&s("b"), 2).error(), Some(CacheError::GateTimeout));
    assert_eq!(orchestrator.abandon(&s("a"), 1).error(), None);
}

#[test]
fn a_flight_stays_single_while_other_keys_come_and_go() {
    let mut orchestrator = FetchOrchestrator::new(2).unwrap();
    assert!(matches!(orchestrator.request(&s("k"), 1), Request::Started));
    assert!(matches!(orchestrator.request(&s("a"), 10), Request::Started));
    assert!(matches!(orchestrator.request(&s("k"), 2), Request::Joined));
    assert!(matches!(orchestrator.request(&s("b"), 11), Request::Queued));
    orchestrator.resolve(&s("a")).unwrap();
    assert!(matches!(orchestrator.request(&s("k"), 3), Request::Joined));
    assert!(matches!(orchestrator.abandon(&s("b"), 11), Abandon::LeftFetch));
    orchestrator.resolve(&s("b")).unwrap();
    assert!(matches!(orchestrator.request(&s("c"), 12), Request::Started));
    assert!(matches!(orchestrator.request(&s("k"), 4), Request::Joined));
    assert!(matches!(orchestrator.state(&s("k")), KeyState::Fetching));

    let done = orchestrator.resolve(&s("k")).unwrap();

    assert_eq!(done.waiters, vec![1, 2, 3, 4]);
}
