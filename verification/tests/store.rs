use chartr::event::{Actor, Event, EventKind, EventStore, StoreError};
use chartr::text::{bytes_lt, str_lt};

fn span(start: i64, duration: Option<u32>, value: &str) -> Event {
    Event {
        fields: Vec::new(),
        kind: EventKind::Span(start, duration),
        value: value.to_string(),
        tooltip: None,
    }
}

fn instant(at: i64, value: &str) -> Event {
    Event {
        fields: Vec::new(),
        kind: EventKind::Instant(at),
        value: value.to_string(),
        tooltip: None,
    }
}

fn values(store: &EventStore, actor: &str) -> Vec<String> {
    store
        .events_for(&actor.to_string())
        .unwrap()
        .iter()
        .map(|e| e.value.clone())
        .collect()
}

#[test]
fn start_and_end_of_each_kind() {
    let bounded = span(1_500_000, Some(750_000), "a");
    assert_eq!(bounded.start_time(), 1_500_000);
    assert_eq!(bounded.end_time(), Some(2_250_000));
    let open = span(-7, None, "b");
    assert_eq!(open.start_time(), -7);
    assert_eq!(open.end_time(), None);
    let point = instant(42, "c");
    assert_eq!(point.start_time(), 42);
    assert_eq!(point.end_time(), Some(42));
}

#[test]
fn end_time_at_the_largest_time() {
    let e = span(i64::MAX - 10, Some(10), "edge");
    assert_eq!(e.end_time(), Some(i64::MAX));
}

#[test]
fn order_is_by_start_then_end() {
    let a = span(10, Some(5), "a");
    let b = span(10, Some(6), "b");
    let c = span(11, Some(1), "c");
    let open = span(10, None, "open");
    assert!(a.precedes(&b));
    assert!(!b.precedes(&a));
    assert!(b.precedes(&c));
    assert!(open.precedes(&a));
    assert!(!a.precedes(&open));
    assert!(!a.precedes(&a));
    assert!(a.coincides(&span(10, Some(5), "other")));
    assert!(!a.coincides(&b));
    assert!(open.coincides(&span(10, None, "x")));
    assert!(instant(15, "i").coincides(&span(15, Some(0), "empty")));
    assert!(!instant(15, "i").coincides(&a));
}

#[test]
fn new_actor_has_identity_and_no_tooltip() {
    let a = Actor::new("myproc");
    assert_eq!(a.identity, "myproc");
    assert_eq!(a.tooltip, None);
}

#[test]
fn register_returns_the_identity() {
    let mut store = EventStore::default();
    assert_eq!(store.register_actor(Actor::new("A")), Ok("A".to_string()));
    assert_eq!(store.actors(), vec!["A".to_string()]);
    assert_eq!(store.events_for(&"A".to_string()).unwrap().len(), 0);
    assert_eq!(store.get_actor(&"A".to_string()).identity, "A");
}

#[test]
fn registering_twice_fails_and_changes_nothing() {
    let mut store = EventStore::default();
    store.register_actor(Actor::new("A")).unwrap();
    store.register_actor(Actor::new("B")).unwrap();
    store.add_event(&"A".to_string(), span(5, Some(1), "kept")).unwrap();
    let mut second = Actor::new("A");
    second.tooltip = Some("later".to_string());
    assert_eq!(store.register_actor(second), Err(StoreError::DuplicateActor));
    assert_eq!(store.actors(), vec!["A".to_string(), "B".to_string()]);
    assert_eq!(values(&store, "A"), vec!["kept".to_string()]);
    assert_eq!(store.get_actor(&"A".to_string()).tooltip, None);
    assert_eq!(store.actor_count(), 2);
}

#[test]
fn unknown_actor_is_refused_and_nothing_changes() {
    let mut store = EventStore::default();
    store.register_actor(Actor::new("A")).unwrap();
    store.add_event(&"A".to_string(), span(1, None, "one")).unwrap();
    assert_eq!(
        store.add_event(&"nobody".to_string(), span(2, None, "two")),
        Err(StoreError::UnknownActor)
    );
    assert!(matches!(
        store.events_for(&"nobody".to_string()),
        Err(StoreError::UnknownActor)
    ));
    assert_eq!(store.actors(), vec!["A".to_string()]);
    assert_eq!(values(&store, "A"), vec!["one".to_string()]);
    assert_eq!(store.all_events().len(), 1);
    assert_eq!(store.find(&"nobody".to_string()), None);
}

#[test]
fn events_come_out_sorted_whatever_the_order_in() {
    let mut store = EventStore::default();
    let id = store.register_actor(Actor::new("A")).unwrap();
    store.add_event(&id, span(30, Some(5), "d")).unwrap();
    store.add_event(&id, span(-10, Some(5), "a")).unwrap();
    store.add_event(&id, span(30, Some(1), "c")).unwrap();
    store.add_event(&id, instant(0, "b")).unwrap();
    store.add_event(&id, span(30, None, "open")).unwrap();
    store.add_event(&id, span(40, Some(0), "e")).unwrap();
    assert_eq!(values(&store, "A"), vec!["a", "b", "open", "c", "d", "e"]);
    let events = store.events_for(&id).unwrap();
    for pair in events.windows(2) {
        assert!(pair[0].precedes(&pair[1]));
    }
}

#[test]
fn event_with_the_same_start_and_end_is_dropped() {
    let mut store = EventStore::default();
    let id = store.register_actor(Actor::new("A")).unwrap();
    store.add_event(&id, span(10, Some(5), "first")).unwrap();
    assert_eq!(store.add_event(&id, span(10, Some(5), "second")), Ok(()));
    assert_eq!(store.add_event(&id, instant(15, "not the same start")), Ok(()));
    assert_eq!(store.add_event(&id, span(15, Some(0), "same as the instant")), Ok(()));
    assert_eq!(values(&store, "A"), vec!["first", "not the same start"]);
}

#[test]
fn actors_come_out_in_the_order_of_their_identities() {
    let mut store = EventStore::default();
    for name in ["pear", "apple", "zebra", "app", "Apple", "", "äpfel"] {
        store.register_actor(Actor::new(name)).unwrap();
    }
    let mut expected: Vec<String> = ["pear", "apple", "zebra", "app", "Apple", "", "äpfel"]
        .iter()
        .map(|s| s.to_string())
        .collect();
    expected.sort();
    assert_eq!(store.actors(), expected);
    assert_eq!(store.actors()[0], "");
    assert_eq!(store.actors()[1], "Apple");
    assert_eq!(store.find(&"app".to_string()), Some(2));
    assert_eq!(store.row(2).0.identity, "app");
}

#[test]
fn all_events_go_actor_by_actor() {
    let mut store = EventStore::default();
    let b = store.register_actor(Actor::new("b")).unwrap();
    let a = store.register_actor(Actor::new("a")).unwrap();
    store.add_event(&b, span(1, None, "b1")).unwrap();
    store.add_event(&a, span(9, None, "a9")).unwrap();
    store.add_event(&a, span(3, None, "a3")).unwrap();
    let first: Vec<&str> = store.all_events().iter().map(|e| e.value.as_str()).collect();
    assert_eq!(first, vec!["a3", "a9", "b1"]);
    let again: Vec<&str> = store.all_events().iter().map(|e| e.value.as_str()).collect();
    assert_eq!(again, first);
    assert_eq!(EventStore::new().all_events().len(), 0);
}

#[test]
fn fields_and_tooltip_stay_with_the_event() {
    let mut store = EventStore::default();
    let id = store.register_actor(Actor::new("A")).unwrap();
    let make = || Event {
        fields: vec![("fill".to_string(), "#AB7C94".to_string())],
        kind: EventKind::Span(0, Some(1)),
        value: "v".to_string(),
        tooltip: Some("tip".to_string()),
    };
    assert!(make().is_wf());
    store.add_event(&id, make()).unwrap();
    assert_eq!(store.events_for(&id).unwrap()[0], make());
}

#[test]
fn strings_compare_as_their_bytes() {
    assert!(str_lt("a", "b"));
    assert!(!str_lt("b", "a"));
    assert!(str_lt("a", "ab"));
    assert!(!str_lt("ab", "a"));
    assert!(!str_lt("same", "same"));
    assert!(str_lt("", "x"));
    assert!(!str_lt("", ""));
    assert!(str_lt("Z", "a"));
    assert!(str_lt("z", "é"));
    assert!(bytes_lt(&[1, 2], &[1, 3]));
    assert!(!bytes_lt(&[2], &[1, 9]));
}

#[test]
fn events_that_no_store_takes() {
    assert!(!span(i64::MAX, Some(1), "late").is_wf());
    assert!(span(i64::MAX, Some(0), "edge").is_wf());
    assert!(span(i64::MAX, None, "open").is_wf());
    assert!(instant(i64::MIN, "early").is_wf());
    let mut twice = span(0, Some(1), "twice");
    twice.fields = vec![
        ("fill".to_string(), "red".to_string()),
        ("class".to_string(), "x".to_string()),
        ("fill".to_string(), "blue".to_string()),
    ];
    assert!(!twice.is_wf());
    twice.fields.pop();
    assert!(twice.is_wf());
}
