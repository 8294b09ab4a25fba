use std::sync::Arc;

use calwatch::calendar::Calendar;
use calwatch::cfg::CalendarItem;
use calwatch::event::{Event, UpdateResult};
use calwatch::horizon::UpdateError;

fn two_weeks() -> CalendarItem {
    CalendarItem {
        source: String::default(),
        channel: vec![0],
        role: vec![0],
        time_amount: "2w".to_string(),
    }
}

fn ev(summary: &str, start: i64, end: i64, description: &str, uid: &str) -> Event {
    Event {
        summary: summary.to_string(),
        start,
        end,
        location: "".to_string(),
        description: description.to_string(),
        uid: uid.to_string(),
    }
}

#[test]
fn add_events() {
    // use a calendar with two weeks checks
    let mut cal: Calendar = Calendar::new();
    let conf = two_weeks();

    let test_events = vec![
        Event {
            summary: "test event1".to_string(),
            start: 0,
            end: 60,
            location: "".to_string(),
            description: "".to_string(),
            uid: "000".to_string(),
        },
        Event {
            summary: "test event1".to_string(),
            start: 60,
            end: 120,
            location: "".to_string(),
            description: "".to_string(),
            uid: "002".to_string(),
        },
    ];

    let updates = cal.update(test_events.clone(), 0, &conf).unwrap();

    let expected = vec![
        UpdateResult::Created(Arc::new(test_events[0].clone())),
        UpdateResult::Created(Arc::new(test_events[1].clone())),
    ];

    assert_eq!(updates, expected)
}

#[test]
fn edit_events() {
    let mut cal: Calendar = Calendar::new();
    let conf = two_weeks();
    let test_events = vec![
        ev("test event1", 0, 60, "", "000"),
        ev("test event1", 60, 120, "", "002"),
    ];

    let inserts = cal.update(test_events.clone(), 0, &conf).unwrap();

    let expected = vec![
        UpdateResult::Created(Arc::new(test_events[0].clone())),
        UpdateResult::Created(Arc::new(test_events[1].clone())),
    ];

    assert_eq!(inserts, expected);

    let updates_data = vec![
        ev("test event1", 0, 60, "this is updated", "000"),
        ev("test event1", 60, 120, "this is updated", "002"),
    ];

    let updates = cal.update(updates_data.clone(), 0, &conf).unwrap();

    let expected = vec![
        UpdateResult::Updated {
            old: Arc::new(test_events[0].clone()),
            new: Arc::new(updates_data[0].clone()),
        },
        UpdateResult::Updated {
            old: Arc::new(test_events[1].clone()),
            new: Arc::new(updates_data[1].clone()),
        },
    ];

    assert_eq!(updates, expected)
}

fn three_events() -> Vec<Event> {
    vec![
        ev("test event1", 0, 60, "", "000"),
        ev("test event2", 60, 120, "", "002"),
        ev("test event3", 120, 180, "", "003"),
    ]
}

#[test]
fn remove_test() {
    let mut cal: Calendar = Calendar::new();
    let conf = two_weeks();
    let test_events = three_events();

    cal.update(test_events.clone(), 0, &conf).unwrap();

    let updates_data = vec![];

    let updates = cal.update(updates_data, 0, &conf).unwrap();

    let expected = vec![
        UpdateResult::Removed(Arc::new(test_events[0].clone())),
        UpdateResult::Removed(Arc::new(test_events[1].clone())),
        UpdateResult::Removed(Arc::new(test_events[2].clone())),
    ];

    assert_eq!(updates, expected)
}

#[test]
fn remove_test_2() {
    let mut cal: Calendar = Calendar::new();
    let conf = two_weeks();
    let test_events = three_events();

    cal.update(test_events.clone(), 0, &conf).unwrap();

    let updates_data = vec![
        ev("test event1", 0, 60, "", "000"),
        ev("test event3", 120, 180, "", "003"),
    ];

    let updates = cal.update(updates_data.clone(), 0, &conf).unwrap();

    let expected = vec![UpdateResult::Removed(Arc::new(test_events[1].clone()))];

    assert_eq!(updates, expected)
}

#[test]
fn creation_on_empty_calendar_is_announced() {
    let mut cal = Calendar::new();
    let e = ev("a", 1_000, 1_060, "", "1");
    let r = cal.update(vec![e.clone()], 1_000, &two_weeks()).unwrap();
    assert_eq!(r, vec![UpdateResult::Created(Arc::new(e))]);
}

#[test]
fn unchanged_event_gives_nothing() {
    let mut cal = Calendar::new();
    let e = ev("a", 1_000, 1_060, "x", "1");
    cal.update(vec![e.clone()], 1_000, &two_weeks()).unwrap();
    let r = cal.update(vec![e.clone()], 1_000, &two_weeks()).unwrap();
    assert!(r.is_empty());
    assert_eq!(cal.events().len(), 1);
}

#[test]
fn edited_description_gives_one_update() {
    let mut cal = Calendar::new();
    let old = ev("a", 1_000, 1_060, "x", "1");
    let new = ev("a", 1_000, 1_060, "y", "1");
    cal.update(vec![old.clone()], 1_000, &two_weeks()).unwrap();
    let r = cal.update(vec![new.clone()], 1_000, &two_weeks()).unwrap();
    assert_eq!(
        r,
        vec![UpdateResult::Updated { old: Arc::new(old), new: Arc::new(new.clone()) }]
    );
    assert_eq!(cal.lookup(&"1".to_string()), Some(Arc::new(new)));
}

#[test]
fn moved_event_is_updated_not_removed() {
    let mut cal = Calendar::new();
    let old = ev("a", 1_000, 1_060, "", "1");
    let new = ev("a", 5_000, 5_060, "", "1");
    cal.update(vec![old.clone()], 0, &two_weeks()).unwrap();
    let r = cal.update(vec![new.clone()], 0, &two_weeks()).unwrap();
    assert_eq!(
        r,
        vec![UpdateResult::Updated { old: Arc::new(old), new: Arc::new(new.clone()) }]
    );
    assert_eq!(cal.get_range(0, 10_000), vec![Arc::new(new)]);
}

#[test]
fn events_after_the_frontier_are_not_announced() {
    let mut cal = Calendar::new();
    let first = ev("first", 100, 160, "", "1");
    cal.update(vec![first.clone()], 0, &two_weeks()).unwrap();
    let earlier = ev("earlier", 50, 60, "", "0");
    let later = ev("later", 200, 260, "", "2");
    let r = cal
        .update(vec![first.clone(), earlier.clone(), later.clone()], 0, &two_weeks())
        .unwrap();
    assert_eq!(r, vec![UpdateResult::Created(Arc::new(earlier.clone()))]);
    // both are stored all the same
    assert_eq!(
        cal.get_range(0, 1_000),
        vec![Arc::new(earlier), Arc::new(first), Arc::new(later)]
    );
}

#[test]
fn deletion_is_bounded_to_the_window() {
    let mut cal = Calendar::new();
    let before = ev("before", 10, 20, "", "b");
    let inside = ev("inside", 1_000, 1_100, "", "i");
    let after = ev("after", 1_000_000_000, 1_000_000_100, "", "a");
    cal.update(vec![before.clone(), inside.clone(), after.clone()], 0, &two_weeks())
        .unwrap();
    let r = cal.update(vec![], 500, &two_weeks()).unwrap();
    assert_eq!(r, vec![UpdateResult::Removed(Arc::new(inside))]);
    assert_eq!(cal.events(), vec![Arc::new(before), Arc::new(after)]);
}

#[test]
fn window_end_is_exclusive() {
    let mut cal = Calendar::new();
    let conf = CalendarItem { time_amount: "10s".to_string(), ..two_weeks() };
    let edge = ev("edge", 110, 120, "", "e");
    let last = ev("last", 109, 120, "", "l");
    cal.update(vec![edge.clone(), last.clone()], 0, &conf).unwrap();
    let r = cal.update(vec![], 100, &conf).unwrap();
    assert_eq!(r, vec![UpdateResult::Removed(Arc::new(last))]);
    assert_eq!(cal.events(), vec![Arc::new(edge)]);
}

#[test]
fn same_start_events_are_both_kept() {
    let mut cal = Calendar::new();
    let a = ev("a", 100, 160, "", "a");
    let b = ev("b", 100, 160, "", "b");
    let r = cal.update(vec![b.clone(), a.clone()], 0, &two_weeks()).unwrap();
    assert_eq!(
        r,
        vec![UpdateResult::Created(Arc::new(a.clone())), UpdateResult::Created(Arc::new(b.clone()))]
    );
    assert_eq!(cal.get_range(100, 1), vec![Arc::new(a.clone()), Arc::new(b.clone())]);
    // dropping one of them from the feed removes that one alone
    let r = cal.update(vec![a.clone()], 0, &two_weeks()).unwrap();
    assert_eq!(r, vec![UpdateResult::Removed(Arc::new(b))]);
    assert_eq!(cal.events(), vec![Arc::new(a)]);
}

#[test]
fn invalid_time_amount_is_an_error_and_changes_nothing() {
    let mut cal = Calendar::new();
    let conf = CalendarItem { time_amount: "two weeks".to_string(), ..two_weeks() };
    let r = cal.update(vec![ev("a", 0, 1, "", "1")], 0, &conf);
    assert_eq!(r, Err(UpdateError::InvalidTimeAmount));
    assert!(cal.events().is_empty());
}

#[test]
fn time_amount_with_too_many_digits_is_refused() {
    let mut cal = Calendar::new();
    let conf = CalendarItem { time_amount: "100000000000s".to_string(), ..two_weeks() };
    let r = cal.update(vec![], 0, &conf);
    assert_eq!(r, Err(UpdateError::InvalidTimeAmount));
}

#[test]
fn window_past_the_last_instant_is_an_error() {
    let mut cal = Calendar::new();
    let r = cal.update(vec![ev("a", 0, 1, "", "1")], i64::MAX - 10, &two_weeks());
    assert_eq!(r, Err(UpdateError::WindowOverflow));
    assert!(cal.events().is_empty());
}

#[test]
fn get_range_is_half_open_and_ordered() {
    let mut cal = Calendar::new();
    let a = ev("a", 0, 1, "", "a");
    let b = ev("b", 60, 61, "", "b");
    let c = ev("c", 120, 121, "", "c");
    cal.update(vec![c.clone(), a.clone(), b.clone()], 0, &two_weeks()).unwrap();
    assert_eq!(cal.get_range(0, 120), vec![Arc::new(a.clone()), Arc::new(b.clone())]);
    assert_eq!(cal.get_range(60, 61), vec![Arc::new(b.clone()), Arc::new(c.clone())]);
    assert_eq!(cal.get_range(0, 120), cal.get_range(0, 120));
    assert!(cal.get_range(200, 1_000).is_empty());
    assert!(cal.get_range(0, 0).is_empty());
}

#[test]
fn lookup_by_identifier() {
    let mut cal = Calendar::new();
    let a = ev("a", 0, 1, "", "a");
    cal.update(vec![a.clone()], 0, &two_weeks()).unwrap();
    assert_eq!(cal.lookup(&"a".to_string()), Some(Arc::new(a)));
    assert_eq!(cal.lookup(&"b".to_string()), None);
}

#[test]
fn rebuilt_calendar_answers_the_same() {
    let mut cal = Calendar::new();
    let list = three_events();
    cal.update(list.clone(), 0, &two_weeks()).unwrap();
    let again = Calendar::from_events(cal.events());
    assert_eq!(again.events(), cal.events());
    assert_eq!(again.get_range(0, 100), cal.get_range(0, 100));
    assert_eq!(again.lookup(&"002".to_string()), cal.lookup(&"002".to_string()));
}

#[test]
fn rebuild_keeps_the_last_version_of_an_identifier() {
    let first = ev("first", 500, 600, "", "x");
    let second = ev("second", 100, 200, "", "x");
    let other = ev("other", 300, 400, "", "y");
    let cal = Calendar::from_events(vec![
        Arc::new(first),
        Arc::new(other.clone()),
        Arc::new(second.clone()),
    ]);
    assert_eq!(cal.events(), vec![Arc::new(second), Arc::new(other)]);
}

#[test]
fn fetched_duplicates_of_one_key_keep_the_last() {
    let mut cal = Calendar::new();
    let a1 = ev("a", 0, 1, "one", "a");
    let a2 = ev("a", 0, 1, "two", "a");
    let r = cal.update(vec![a1, a2.clone()], 0, &two_weeks()).unwrap();
    assert_eq!(r, vec![UpdateResult::Created(Arc::new(a2.clone()))]);
    assert_eq!(cal.events(), vec![Arc::new(a2)]);
}
