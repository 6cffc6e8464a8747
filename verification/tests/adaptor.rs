use event_store::errors::AdaptorError;
use event_store::errors::StoreError;
use event_store::store::FaultPoint;
use event_store::store::Store;
use event_store::values::Event;
use event_store::values::Person;
use event_store::values::Stats;

fn event(id: &str, visited_at: i64, times: Vec<i64>) -> Event {
    Event {
        id: id.to_string(),
        name: format!("{} name", id),
        created_at: 500,
        visited_at,
        times,
        timezone: "Europe/London".to_string(),
    }
}

fn person(name: &str, availability: Vec<i64>) -> Person {
    Person {
        name: name.to_string(),
        password_hash: "SECRET-REDACTED".to_string(),
        created_at: 700,
        availability,
    }
}

#[test]
fn fresh_store_stats_are_zero_and_first_increment_returns_one() {
    let mut store = Store::new();
    let zero = store.get_stats().unwrap();
    assert_eq!(zero, Stats { event_count: 0, person_count: 0 });
    // Reading did not persist a row: the first increment still starts
    // from zero and returns exactly one.
    let n = store.increment_stat_event_count().unwrap();
    assert_eq!(n, 1);
    let after = store.get_stats().unwrap();
    assert_eq!(after, Stats { event_count: 1, person_count: 0 });
}

#[test]
fn increments_are_independent_and_return_new_values() {
    let mut store = Store::new();
    assert_eq!(store.increment_stat_person_count().unwrap(), 1);
    assert_eq!(store.increment_stat_person_count().unwrap(), 2);
    assert_eq!(store.increment_stat_event_count().unwrap(), 1);
    assert_eq!(
        store.get_stats().unwrap(),
        Stats { event_count: 1, person_count: 2 }
    );
}

#[test]
fn create_event_returns_stored_representation() {
    let mut store = Store::new();
    let ev = event("e1", 1000, vec![1500, 1600]);
    let stored = store.create_event(ev.clone()).unwrap();
    assert_eq!(stored, ev);
}

#[test]
fn create_event_rejects_duplicate_id() {
    let mut store = Store::new();
    store.create_event(event("e1", 1000, vec![])).unwrap();
    let r = store.create_event(event("e1", 2000, vec![9]));
    assert!(matches!(r, Err(AdaptorError::Store(StoreError::UniqueViolation))));
}

#[test]
fn get_event_missing_is_absent() {
    let mut store = Store::new();
    assert_eq!(store.get_event("nope".to_string()).unwrap(), None);
}

#[test]
fn get_event_returns_pre_touch_values_and_bumps_visited_at() {
    let mut store = Store::new();
    let ev = event("e1", 1000, vec![1500]);
    store.create_event(ev.clone()).unwrap();
    // First read at clock 2000: the caller sees the stored value, the
    // row is bumped to 2000 behind its back.
    let got = store.get_event_at("e1".to_string(), 2000).unwrap().unwrap();
    assert_eq!(got, ev);
    // Second read at clock 3000 observes the first bump.
    let got2 = store.get_event_at("e1".to_string(), 3000).unwrap().unwrap();
    assert_eq!(got2.visited_at, 2000);
    // Third read observes the second bump: strictly increasing writes.
    let got3 = store.get_event_at("e1".to_string(), 3500).unwrap().unwrap();
    assert_eq!(got3.visited_at, 3000);
    assert!(got3.visited_at > got2.visited_at);
}

#[test]
fn touch_never_moves_visited_at_backward() {
    let mut store = Store::new();
    store.create_event(event("e1", 5000, vec![])).unwrap();
    // A clock behind the stored value leaves it where it was.
    store.get_event_at("e1".to_string(), 100).unwrap().unwrap();
    let seen = store.get_event_at("e1".to_string(), 6000).unwrap().unwrap();
    assert_eq!(seen.visited_at, 5000);
}

#[test]
fn get_people_missing_event_is_absent_and_empty_event_is_empty() {
    let mut store = Store::new();
    assert_eq!(store.get_people("e1".to_string()).unwrap(), None);
    store.create_event(event("e1", 1000, vec![])).unwrap();
    assert_eq!(store.get_people("e1".to_string()).unwrap(), Some(vec![]));
}

#[test]
fn upsert_person_against_missing_event_is_absent_and_writes_nothing() {
    let mut store = Store::new();
    store.create_event(event("e1", 1000, vec![])).unwrap();
    let r = store.upsert_person("ghost".to_string(), person("alice", vec![1])).unwrap();
    assert_eq!(r, None);
    // No row was created anywhere.
    assert_eq!(store.get_people("e1".to_string()).unwrap(), Some(vec![]));
    assert_eq!(store.get_people("ghost".to_string()).unwrap(), None);
}

#[test]
fn upsert_person_inserts_then_overwrites_last_write_wins() {
    let mut store = Store::new();
    store.create_event(event("e1", 1000, vec![])).unwrap();
    let first = person("alice", vec![1500, 1600]);
    let r1 = store.upsert_person("e1".to_string(), first.clone()).unwrap();
    assert_eq!(r1, Some(first));
    let second = person("alice", vec![1700]);
    let r2 = store.upsert_person("e1".to_string(), second.clone()).unwrap();
    assert_eq!(r2, Some(second.clone()));
    // Exactly one person under that name, carrying the latest
    // availability.
    let people = store.get_people("e1".to_string()).unwrap().unwrap();
    assert_eq!(people.len(), 1);
    assert_eq!(people[0], second);
}

#[test]
fn upsert_person_keeps_people_of_other_events_apart() {
    let mut store = Store::new();
    store.create_event(event("e1", 1000, vec![])).unwrap();
    store.create_event(event("e2", 1000, vec![])).unwrap();
    store.upsert_person("e1".to_string(), person("alice", vec![1])).unwrap();
    store.upsert_person("e2".to_string(), person("alice", vec![2])).unwrap();
    let p1 = store.get_people("e1".to_string()).unwrap().unwrap();
    let p2 = store.get_people("e2".to_string()).unwrap().unwrap();
    assert_eq!(p1[0].availability, vec![1]);
    assert_eq!(p2[0].availability, vec![2]);
}

#[test]
fn availability_and_times_survive_the_serialized_column() {
    let mut store = Store::new();
    let times = vec![0, -62135596800000, 9223372036854775807, 42];
    store.create_event(event("e1", 1000, times.clone())).unwrap();
    let avail = vec![-1, 0, 1, 253402300799999];
    store.upsert_person("e1".to_string(), person("alice", avail.clone())).unwrap();
    let ev = store.get_event_at("e1".to_string(), 1000).unwrap().unwrap();
    assert_eq!(ev.times, times);
    let people = store.get_people("e1".to_string()).unwrap().unwrap();
    assert_eq!(people[0].availability, avail);
}

#[test]
fn delete_events_removes_old_events_and_their_people_only() {
    let mut store = Store::new();
    store.create_event(event("old1", 1000, vec![])).unwrap();
    store.create_event(event("old2", 1500, vec![])).unwrap();
    store.create_event(event("fresh", 2000, vec![])).unwrap();
    store.upsert_person("old1".to_string(), person("alice", vec![1])).unwrap();
    store.upsert_person("old1".to_string(), person("bob", vec![2])).unwrap();
    store.upsert_person("fresh".to_string(), person("carol", vec![3])).unwrap();
    let removed = store.delete_events(2000).unwrap();
    assert_eq!(removed, Stats { event_count: 2, person_count: 2 });
    assert_eq!(store.get_event_at("old1".to_string(), 9000).unwrap(), None);
    assert_eq!(store.get_event_at("old2".to_string(), 9000).unwrap(), None);
    assert_eq!(store.get_people("old1".to_string()).unwrap(), None);
    let fresh_people = store.get_people("fresh".to_string()).unwrap().unwrap();
    assert_eq!(fresh_people.len(), 1);
    assert_eq!(fresh_people[0].name, "carol");
}

#[test]
fn delete_events_boundary_is_strict() {
    let mut store = Store::new();
    store.create_event(event("at", 2000, vec![])).unwrap();
    store.create_event(event("before", 1999, vec![])).unwrap();
    let removed = store.delete_events(2000).unwrap();
    // Strictly earlier than the cutoff: the event visited exactly at
    // the cutoff stays.
    assert_eq!(removed, Stats { event_count: 1, person_count: 0 });
    assert!(store.get_event_at("at".to_string(), 2000).unwrap().is_some());
}

#[test]
fn delete_events_returns_deltas_and_leaves_stats_row_alone() {
    let mut store = Store::new();
    store.increment_stat_event_count().unwrap();
    store.increment_stat_person_count().unwrap();
    store.create_event(event("e1", 1000, vec![])).unwrap();
    store.upsert_person("e1".to_string(), person("alice", vec![1])).unwrap();
    let removed = store.delete_events(1500).unwrap();
    // The sweep reports what it removed, not the running totals, and
    // the stored totals are not decremented.
    assert_eq!(removed, Stats { event_count: 1, person_count: 1 });
    assert_eq!(
        store.get_stats().unwrap(),
        Stats { event_count: 1, person_count: 1 }
    );
}

#[test]
fn sweep_scenario_event_and_person_then_both_absent() {
    let mut store = Store::new();
    let t0: i64 = 1700000000000;
    store.create_event(event("e1", t0, vec![])).unwrap();
    store.upsert_person("e1".to_string(), person("alice", vec![t0 + 3600])).unwrap();
    let removed = store.delete_events(t0 + 1000).unwrap();
    assert_eq!(removed, Stats { event_count: 1, person_count: 1 });
    assert_eq!(store.get_event("e1".to_string()).unwrap(), None);
    assert_eq!(store.get_people("e1".to_string()).unwrap(), None);
}

#[test]
fn injected_fault_fails_every_operation_as_a_store_error() {
    let mut store = Store::new();
    store.create_event(event("e1", 1000, vec![])).unwrap();
    store.arm_fault(FaultPoint::NextAccess);
    assert!(matches!(store.get_stats(), Err(AdaptorError::Store(StoreError::Backend))));
    assert!(matches!(
        store.increment_stat_event_count(),
        Err(AdaptorError::Store(StoreError::Backend))
    ));
    assert!(matches!(
        store.get_people("e1".to_string()),
        Err(AdaptorError::Store(StoreError::Backend))
    ));
    assert!(matches!(
        store.upsert_person("e1".to_string(), person("alice", vec![])),
        Err(AdaptorError::Store(StoreError::Backend))
    ));
    assert!(matches!(
        store.get_event("e1".to_string()),
        Err(AdaptorError::Store(StoreError::Backend))
    ));
    // Inside the sweep's transaction wrapper the same failure surfaces
    // as a transaction error.
    assert!(matches!(
        store.delete_events(5000),
        Err(AdaptorError::Transaction(StoreError::Backend))
    ));
    store.clear_fault();
    assert!(store.get_stats().is_ok());
}

#[test]
fn sweep_fault_after_people_delete_rolls_everything_back() {
    let mut store = Store::new();
    store.create_event(event("old", 1000, vec![7, 8])).unwrap();
    store.create_event(event("fresh", 9000, vec![])).unwrap();
    store.upsert_person("old".to_string(), person("alice", vec![1])).unwrap();
    store.upsert_person("fresh".to_string(), person("bob", vec![2])).unwrap();
    store.increment_stat_event_count().unwrap();

    store.arm_fault(FaultPoint::AfterPeopleDelete);
    let r = store.delete_events(5000);
    assert!(matches!(r, Err(AdaptorError::Transaction(StoreError::Backend))));
    store.clear_fault();

    // The store is exactly as it was before the failed sweep.
    let old_people = store.get_people("old".to_string()).unwrap().unwrap();
    assert_eq!(old_people.len(), 1);
    assert_eq!(old_people[0], person("alice", vec![1]));
    let ev = store.get_event_at("old".to_string(), 1000).unwrap().unwrap();
    assert_eq!(ev, event("old", 1000, vec![7, 8]));
    assert_eq!(
        store.get_stats().unwrap(),
        Stats { event_count: 1, person_count: 0 }
    );
    // And the sweep still works once the store recovers.
    let removed = store.delete_events(5000).unwrap();
    assert_eq!(removed, Stats { event_count: 1, person_count: 1 });
}
