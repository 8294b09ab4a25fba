use calwatch::horizon::{count_digits, horizon, window_end, UpdateError};

#[test]
fn two_weeks_in_seconds() {
    assert_eq!(horizon("2w"), Ok((1_209_600, 0)));
}

#[test]
fn mixed_units_and_fractions() {
    assert_eq!(horizon("1day 12h"), Ok((129_600, 0)));
    assert_eq!(horizon("4.2s"), Ok((4, 200_000_000)));
    assert_eq!(horizon("32ms"), Ok((0, 32_000_000)));
}

#[test]
fn unreadable_amounts() {
    assert_eq!(horizon(""), Err(UpdateError::InvalidTimeAmount));
    assert_eq!(horizon("2 fortnights"), Err(UpdateError::InvalidTimeAmount));
    assert_eq!(horizon("999999999999w"), Err(UpdateError::InvalidTimeAmount));
}

#[test]
fn digits_are_counted_on_ascii_only() {
    assert_eq!(count_digits("12µs 3d"), 3);
    assert_eq!(count_digits(""), 0);
}

#[test]
fn window_end_rounds_up_a_partial_second() {
    assert_eq!(window_end(100, 10, 0), Some(110));
    assert_eq!(window_end(100, 10, 1), Some(111));
    assert_eq!(window_end(-100, 10, 0), Some(-90));
    assert_eq!(window_end(i64::MAX - 5, 5, 0), Some(i64::MAX));
    assert_eq!(window_end(i64::MAX - 5, 5, 1), None);
    assert_eq!(window_end(0, u64::MAX, 0), None);
}
