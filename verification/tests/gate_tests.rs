use poster_cache::gate::{Admission, AdmissionGate, Release};

fn s(text: &str) -> String {
    text.to_string()
}

#[test]
fn gate_needs_a_slot() {
    assert!(AdmissionGate::new(0).is_none());
    let gate = AdmissionGate::new(3).unwrap();
    assert_eq!(gate.capacity(), 3);
    assert_eq!(gate.in_flight(), 0);
    assert_eq!(gate.queued(), 0);
}

#[test]
fn gate_grants_up_to_its_capacity_then_queues() {
    let mut gate = AdmissionGate::new(2).unwrap();
    assert!(matches!(gate.acquire(s("a")), Admission::Granted));
    assert!(matches!(gate.acquire(s("b")), Admission::Granted));
    assert!(matches!(gate.acquire(s("c")), Admission::Queued));
    assert_eq!(gate.in_flight(), 2);
    assert_eq!(gate.queued(), 1);
    assert!(gate.holds(&s("a")));
    assert!(gate.holds(&s("b")));
    assert!(!gate.holds(&s("c")));
    assert!(gate.is_waiting(&s("c")));
    assert!(!gate.is_waiting(&s("a")));
}

#[test]
fn released_slot_passes_to_the_longest_waiting() {
    let mut gate = AdmissionGate::new(1).unwrap();
    gate.acquire(s("a"));
    gate.acquire(s("b"));
    gate.acquire(s("c"));
    match gate.release(&s("a")) {
        Release::Passed(next) => assert_eq!(next, "b"),
        _ => panic!("the slot had to pass on"),
    }
    assert!(gate.holds(&s("b")));
    assert!(gate.is_waiting(&s("c")));
    assert_eq!(gate.in_flight(), 1);
    match gate.release(&s("b")) {
        Release::Passed(next) => assert_eq!(next, "c"),
        _ => panic!("the slot had to pass on"),
    }
    assert!(matches!(gate.release(&s("c")), Release::Freed));
    assert_eq!(gate.in_flight(), 0);
    assert_eq!(gate.queued(), 0);
}

#[test]
fn a_ticket_gets_no_second_slot() {
    let mut gate = AdmissionGate::new(2).unwrap();
    assert!(matches!(gate.acquire(s("a")), Admission::Granted));
    assert!(matches!(gate.acquire(s("a")), Admission::Granted));
    assert_eq!(gate.in_flight(), 1);
    gate.acquire(s("b"));
    assert!(matches!(gate.acquire(s("c")), Admission::Queued));
    assert!(matches!(gate.acquire(s("c")), Admission::Queued));
    assert_eq!(gate.queued(), 1);
}

#[test]
fn release_of_a_ticket_without_a_slot_changes_nothing() {
    let mut gate = AdmissionGate::new(1).unwrap();
    gate.acquire(s("a"));
    gate.acquire(s("b"));
    assert!(matches!(gate.release(&s("b")), Release::NotHeld));
    assert!(matches!(gate.release(&s("z")), Release::NotHeld));
    assert_eq!(gate.in_flight(), 1);
    assert_eq!(gate.queued(), 1);
}

#[test]
fn a_ticket_that_gave_up_gets_no_slot_later() {
    let mut gate = AdmissionGate::new(1).unwrap();
    gate.acquire(s("a"));
    gate.acquire(s("b"));
    gate.acquire(s("c"));
    assert!(gate.withdraw(&s("b")));
    assert!(!gate.withdraw(&s("b")));
    assert!(!gate.withdraw(&s("a")));
    match gate.release(&s("a")) {
        Release::Passed(next) => assert_eq!(next, "c"),
        _ => panic!("the slot had to pass on"),
    }
    assert!(!gate.holds(&s("b")));
    assert!(!gate.is_waiting(&s("b")));
}

#[test]
fn holders_never_exceed_the_capacity_under_ten_thousand_tickets() {
    let mut gate = AdmissionGate::new(4).unwrap();
    let mut granted = 0;
    for i in 0..10_000 {
        if let Admission::Granted = gate.acquire(format!("key-{}", i)) {
            granted += 1;
        }
        assert!(gate.in_flight() <= gate.capacity());
    }
    assert_eq!(granted, 4);
    assert_eq!(gate.in_flight(), 4);
    assert_eq!(gate.queued(), 9_996);
    for i in 0..10_000 {
        gate.release(&format!("key-{}", i));
        assert!(gate.in_flight() <= gate.capacity());
    }
    assert_eq!(gate.in_flight(), 0);
    assert_eq!(gate.queued(), 0);
}
