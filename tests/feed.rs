use calwatch::cfg::{variable, StorageConfig};
use calwatch::feed::{read_event, read_feed, FeedError};

fn feed(body: &str) -> String {
    format!(
        "BEGIN:VCALENDAR\nVERSION:2.0\nPRODID:test\n{}END:VCALENDAR\n",
        body
    )
}

#[test]
fn feed_events_are_read_in_order() {
    let body = [
        "BEGIN:VEVENT",
        "DTSTART:20240101T100000Z",
        "DTEND:20240101T120000Z",
        "SUMMARY:  Maths  ",
        "LOCATION:Room 1",
        "DESCRIPTION:Lecture (group A) on algebra",
        "UID:abc",
        "END:VEVENT",
        "BEGIN:VEVENT",
        "DTSTART:19700101T000100Z",
        "UID:def",
        "END:VEVENT",
        "",
    ]
    .join("\n");
    let text = feed(&body);
    let events = read_feed(text.as_bytes()).unwrap();
    assert_eq!(events.len(), 2);
    assert_eq!(events[0].start, 1_704_103_200);
    assert_eq!(events[0].end, 1_704_110_400);
    assert_eq!(events[0].summary, "Maths");
    assert_eq!(events[0].location, "Room 1");
    assert_eq!(events[0].description, "Lecture  on algebra");
    assert_eq!(events[0].uid, "abc");
    assert_eq!(events[1].start, 60);
    assert_eq!(events[1].end, 0);
    assert_eq!(events[1].summary, "");
    assert_eq!(events[1].uid, "def");
}

#[test]
fn bad_time_fails_the_feed() {
    let text = feed("BEGIN:VEVENT\nDTSTART:2024-01-01 10:00\nUID:x\nEND:VEVENT\n");
    assert_eq!(read_feed(text.as_bytes()), Err(FeedError::BadTime));
}

#[test]
fn text_without_calendar_has_no_events() {
    assert_eq!(read_feed(b"hello\n"), Ok(vec![]));
    assert_eq!(read_feed(b""), Ok(vec![]));
}

#[test]
fn properties_without_value_are_skipped() {
    let props = vec![
        ("UID".to_string(), Some("u".to_string())),
        ("SUMMARY".to_string(), None),
        ("X-OTHER".to_string(), Some("ignored".to_string())),
        ("DESCRIPTION".to_string(), Some("  (all) ".to_string())),
    ];
    let e = read_event(&props).unwrap();
    assert_eq!(e.uid, "u");
    assert_eq!(e.summary, "");
    assert_eq!(e.description, "");
}

#[test]
fn storage_path_expansion() {
    let vars = vec![("DATA".to_string(), "/srv/data".to_string())];
    let home = Some("/home/bot".to_string());
    let plain = StorageConfig { path: "db.bin".to_string() };
    assert_eq!(plain.resolve(&home, &vars), "db.bin");
    let tilde = StorageConfig { path: "~/db.bin".to_string() };
    assert_eq!(tilde.resolve(&home, &vars), "/home/bot/db.bin");
    let var = StorageConfig { path: "$DATA/db.bin".to_string() };
    assert_eq!(var.resolve(&home, &vars), "/srv/data/db.bin");
    assert_eq!(variable(&vars, "DATA"), Some("/srv/data".to_string()));
    assert_eq!(variable(&vars, "HOME"), None);
}
