use std::sync::Arc;

use calwatch::audience::{has_shared_role, starts_with};
use calwatch::cfg::{CalendarConfig, CalendarItem};
use calwatch::event::{Event, UpdateResult};
use calwatch::notice::{notice, Notice, Tone};

fn item(roles: Vec<u64>) -> CalendarItem {
    CalendarItem {
        source: String::new(),
        channel: vec![],
        role: roles,
        time_amount: "1w".to_string(),
    }
}

fn calendars() -> CalendarConfig {
    CalendarConfig {
        calendars: vec![
            ("l1-math".to_string(), item(vec![1, 2])),
            ("l1-physics".to_string(), item(vec![3])),
            ("l2-math".to_string(), item(vec![2, 4])),
        ],
        refetch: String::new(),
    }
}

#[test]
fn followed_calendars_share_a_role() {
    let c = calendars();
    assert_eq!(c.followed(&vec![2]), vec!["l1-math".to_string(), "l2-math".to_string()]);
    assert_eq!(c.followed(&vec![3, 9]), vec!["l1-physics".to_string()]);
    assert!(c.followed(&vec![]).is_empty());
}

#[test]
fn summary_selection_by_name_or_roles() {
    let c = calendars();
    assert_eq!(c.chosen(Some("l2-math"), Some(&vec![3])), vec!["l2-math".to_string()]);
    assert_eq!(c.chosen(None, Some(&vec![3])), vec!["l1-physics".to_string()]);
    assert!(c.chosen(None, None).is_empty());
    assert!(c.chosen(Some("chemistry"), None).is_empty());
}

#[test]
fn completions_by_prefix_and_guild() {
    let c = calendars();
    assert_eq!(
        c.completions("l1", None),
        vec!["l1-math".to_string(), "l1-physics".to_string()]
    );
    assert_eq!(c.completions("l1", Some(&vec![3])), vec!["l1-physics".to_string()]);
    assert_eq!(c.completions("", Some(&vec![4])), vec!["l2-math".to_string()]);
    assert!(c.completions("x", None).is_empty());
}

#[test]
fn role_and_prefix_helpers() {
    assert!(has_shared_role(&vec![1, 2], &vec![5, 2]));
    assert!(!has_shared_role(&vec![1, 2], &vec![]));
    assert!(starts_with("été", "ét"));
    assert!(!starts_with("ab", "abc"));
}

fn ev(summary: &str, start: i64, end: i64, location: &str) -> Event {
    Event {
        summary: summary.to_string(),
        start,
        end,
        location: location.to_string(),
        description: String::new(),
        uid: "u".to_string(),
    }
}

#[test]
fn notices_follow_the_change() {
    let created = UpdateResult::Created(Arc::new(ev("a", 0, 1, "")));
    assert_eq!(
        notice(&created),
        Notice { tone: Tone::Added, renamed: false, rescheduled: false, shows_location: false }
    );
    let removed = UpdateResult::Removed(Arc::new(ev("a", 0, 1, "room")));
    assert_eq!(
        notice(&removed),
        Notice { tone: Tone::Deleted, renamed: false, rescheduled: false, shows_location: true }
    );
    let updated = UpdateResult::Updated {
        old: Arc::new(ev("a", 0, 1, "room")),
        new: Arc::new(ev("b", 0, 2, "")),
    };
    assert_eq!(
        notice(&updated),
        Notice { tone: Tone::Changed, renamed: true, rescheduled: true, shows_location: true }
    );
    let same = UpdateResult::Updated {
        old: Arc::new(ev("a", 0, 1, "")),
        new: Arc::new(ev("a", 0, 1, "")),
    };
    assert_eq!(
        notice(&same),
        Notice { tone: Tone::Changed, renamed: false, rescheduled: false, shows_location: false }
    );
}
