use std::sync::Arc;

use calwatch::cfg::{CalendarConfig, CalendarItem, Config};
use calwatch::event::{Event, UpdateResult};
use calwatch::horizon::UpdateError;
use calwatch::manager::Manager;
use calwatch::store::{Store, StoreError};

fn item(time_amount: &str) -> CalendarItem {
    CalendarItem {
        source: "https://example.org/feed.ics".to_string(),
        channel: vec![1],
        role: vec![2],
        time_amount: time_amount.to_string(),
    }
}

fn config() -> Config {
    Config {
        calendar: CalendarConfig {
            calendars: vec![
                ("math".to_string(), item("2w")),
                ("physics".to_string(), item("1d")),
                ("broken".to_string(), item("soon")),
            ],
            refetch: "0 * * * *".to_string(),
        },
        ..Config::default()
    }
}

fn ev(summary: &str, start: i64, uid: &str) -> Event {
    Event {
        summary: summary.to_string(),
        start,
        end: start + 60,
        location: "room 1".to_string(),
        description: String::new(),
        uid: uid.to_string(),
    }
}

#[test]
fn config_lookup_by_name() {
    let c = config();
    assert_eq!(c.calendar.get("physics").map(|i| i.time_amount.clone()), Some("1d".to_string()));
    assert!(c.calendar.get("chemistry").is_none());
}

#[test]
fn apply_creates_the_calendar_lazily() {
    let mut store = Store::new(config(), vec![]);
    assert!(store.get("math").is_none());
    let e = ev("algebra", 100, "m1");
    let r = store.apply("math", vec![e.clone()], 0).unwrap();
    assert_eq!(r, vec![UpdateResult::Created(Arc::new(e.clone()))]);
    assert_eq!(store.get("math").unwrap().events(), vec![Arc::new(e)]);
    assert!(store.get("physics").is_none());
}

#[test]
fn apply_unknown_calendar_fails_and_changes_nothing() {
    let mut store = Store::new(config(), vec![]);
    let r = store.apply("chemistry", vec![ev("x", 1, "x")], 0);
    assert_eq!(r, Err(StoreError::UnknownCalendar));
    assert!(store.get("chemistry").is_none());
    assert!(store.snapshot().is_empty());
}

#[test]
fn apply_with_bad_time_amount_fails() {
    let mut store = Store::new(config(), vec![]);
    let r = store.apply("broken", vec![ev("x", 1, "x")], 0);
    assert_eq!(r, Err(StoreError::Update(UpdateError::InvalidTimeAmount)));
    assert!(store.get("broken").is_none());
}

#[test]
fn apply_uses_each_calendars_window() {
    let mut store = Store::new(config(), vec![]);
    let far = ev("far", 3 * 86_400, "f");
    store.apply("math", vec![far.clone()], 0).unwrap();
    store.apply("physics", vec![far.clone()], 0).unwrap();
    // a day ahead: physics does not look that far, math does
    assert!(store.apply("physics", vec![], 0).unwrap().is_empty());
    assert_eq!(
        store.apply("math", vec![], 0).unwrap(),
        vec![UpdateResult::Removed(Arc::new(far))]
    );
}

#[test]
fn snapshot_and_rebuild_round_trip() {
    let mut store = Store::new(config(), vec![]);
    store.apply("math", vec![ev("a", 10, "a"), ev("b", 5, "b")], 0).unwrap();
    store.apply("physics", vec![ev("c", 7, "c")], 0).unwrap();
    let saved = store.snapshot();
    assert_eq!(saved.len(), 2);
    let again = Store::new(config(), saved);
    for name in ["math", "physics"] {
        let a = store.get(name).unwrap();
        let b = again.get(name).unwrap();
        assert_eq!(a.events(), b.events());
        assert_eq!(a.get_range(0, 100), b.get_range(0, 100));
        assert_eq!(a.lookup(&"a".to_string()), b.lookup(&"a".to_string()));
    }
}

#[test]
fn rebuild_with_a_repeated_name_keeps_the_last_entry() {
    let saved = vec![
        ("math".to_string(), vec![Arc::new(ev("old", 1, "o"))]),
        ("math".to_string(), vec![Arc::new(ev("new", 2, "n"))]),
    ];
    let store = Store::new(config(), saved);
    assert_eq!(store.get("math").unwrap().events(), vec![Arc::new(ev("new", 2, "n"))]);
    assert_eq!(store.snapshot().len(), 1);
}

#[test]
fn manager_skips_failed_fetches() {
    let mut m = Manager::new(config(), vec![]);
    let e = ev("a", 1, "a");
    let r = m
        .update_calendars(vec![
            ("physics".to_string(), 0, None),
            ("math".to_string(), 0, Some(vec![e.clone()])),
        ])
        .unwrap();
    assert_eq!(r, vec![("math".to_string(), vec![UpdateResult::Created(Arc::new(e))])]);
    assert!(m.store.get("physics").is_none());
}

#[test]
fn manager_stops_at_the_first_error() {
    let mut m = Manager::new(config(), vec![]);
    let r = m.update_calendars(vec![
        ("math".to_string(), 0, Some(vec![ev("a", 1, "a")])),
        ("broken".to_string(), 0, Some(vec![])),
        ("physics".to_string(), 0, Some(vec![ev("c", 1, "c")])),
    ]);
    assert_eq!(r, Err(StoreError::Update(UpdateError::InvalidTimeAmount)));
    assert!(m.store.get("math").is_some());
    assert!(m.store.get("physics").is_none());
}
