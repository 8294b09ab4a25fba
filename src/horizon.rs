//! How far ahead a fetch is authoritative: the `time_amount` of a calendar,
//! read as a duration, and the deletion window it gives.
use vstd::prelude::*;
use vstd::utf8::encode_utf8;

use crate::event::Timestamp;

verus! {

/// Why a calendar could not be reconciled.
#[derive(Debug, Clone, Copy, PartialEq, Eq)]
pub enum UpdateError {
    /// The calendar's `time_amount` is not a duration this library accepts.
    InvalidTimeAmount,
    /// The deletion window would end after the last representable instant.
    WindowOverflow,
}

#[verifier::external_type_specification]
#[verifier::external_body]
pub struct ExDurationError(humantime::DurationError);

/// The duration, as whole seconds and nanoseconds, that humantime reads
/// from a text (`None` where it reports an error).
pub uninterp spec fn duration_of(s: Seq<char>) -> Option<(u64, u32)>;

/// The number of ASCII decimal digits in a byte string.
pub open spec fn ascii_digits(b: Seq<u8>) -> nat
    decreases b.len(),
{
    if b.len() == 0 {
        0
    } else {
        ascii_digits(b.drop_last()) + if 0x30 <= b.last() <= 0x39 {
            1nat
        } else {
            0nat
        }
    }
}

/// The largest number of digits a `time_amount` may hold.
pub const MAX_DIGITS: usize = 11;

/// Relies on humantime::parse_duration, which reads texts such as `2w` or
/// `1day 12h`; its result is split into whole seconds and the nanoseconds
/// below one second (`Duration::subsec_nanos`, always under 10^9).
/// It builds the sum with `Duration::new`, which panics when carried
/// nanoseconds overflow the seconds counter; with at most eleven digits the
/// sum stays under 4·10^18 seconds, far from that limit.
#[verifier::external_body]
fn parse_duration(s: &str) -> (r: Result<(u64, u32), humantime::DurationError>)
    requires
        ascii_digits(encode_utf8(s@)) <= MAX_DIGITS,
    ensures
        match r {
            Ok(d) => duration_of(s@) == Some(d) && d.1 < 1_000_000_000,
            Err(_) => duration_of(s@) is None,
        },
{
    match humantime::parse_duration(s) {
        Ok(d) => Ok((d.as_secs(), d.subsec_nanos())),
        Err(e) => Err(e),
    }
}

/// The duration that `time_amount` names, when it holds at most
/// `MAX_DIGITS` digits and humantime reads it.
pub open spec fn horizon_of(time_amount: Seq<char>) -> Option<(u64, u32)> {
    if ascii_digits(encode_utf8(time_amount)) <= MAX_DIGITS {
        duration_of(time_amount)
    } else {
        None
    }
}

/// Counts the ASCII digits of `s`.
pub fn count_digits(s: &str) -> (n: usize)
    ensures
        n == ascii_digits(encode_utf8(s@)),
{
    let b = s.as_bytes();
    let mut n: usize = 0;
    let mut i: usize = 0;
    while i < b.len()
        invariant
            0 <= i <= b@.len(),
            b@ == encode_utf8(s@),
            n == ascii_digits(b@.subrange(0, i as int)),
            n <= i,
        decreases b@.len() - i,
    {
        assert(b@.subrange(0, i + 1).drop_last() =~= b@.subrange(0, i as int));
        if 0x30 <= b[i] && b[i] <= 0x39 {
            n = n + 1;
        }
        i = i + 1;
    }
    assert(b@.subrange(0, b@.len() as int) =~= b@);
    n
}

/// Reads the duration that `time_amount` names.
pub fn horizon(time_amount: &str) -> (r: Result<(u64, u32), UpdateError>)
    ensures
        match r {
            Ok(d) => horizon_of(time_amount@) == Some(d) && d.1 < 1_000_000_000,
            Err(e) => horizon_of(time_amount@) is None && e == UpdateError::InvalidTimeAmount,
        },
{
    if count_digits(time_amount) > MAX_DIGITS {
        return Err(UpdateError::InvalidTimeAmount);
    }
    match parse_duration(time_amount) {
        Ok(d) => Ok(d),
        Err(_) => Err(UpdateError::InvalidTimeAmount),
    }
}

/// The exclusive end, in whole seconds, of the window that starts at
/// `fetch_time` and lasts `secs` seconds and `nanos` nanoseconds: a start
/// `t` (a whole second) lies before `fetch_time + secs + nanos·10^-9`
/// exactly when it lies before this bound.
pub open spec fn window_limit(fetch_time: int, secs: int, nanos: int) -> int {
    fetch_time + secs + if nanos > 0 {
        1int
    } else {
        0int
    }
}

/// The end of the deletion window that starts at `fetch_time` and lasts the
/// duration `time_amount` names, when it is representable.
pub open spec fn deletion_end(fetch_time: int, time_amount: Seq<char>) -> Option<int> {
    match horizon_of(time_amount) {
        None => None,
        Some(d) => if window_limit(fetch_time, d.0 as int, d.1 as int) <= i64::MAX {
            Some(window_limit(fetch_time, d.0 as int, d.1 as int))
        } else {
            None
        },
    }
}

/// The end of the deletion window, when it is representable.
pub fn window_end(fetch_time: Timestamp, secs: u64, nanos: u32) -> (r: Option<Timestamp>)
    ensures
        r == (if window_limit(fetch_time as int, secs as int, nanos as int) <= i64::MAX {
            Some(window_limit(fetch_time as int, secs as int, nanos as int) as Timestamp)
        } else {
            None
        }),
{
    let carry: i128 = if nanos > 0 {
        1
    } else {
        0
    };
    let end: i128 = fetch_time as i128 + secs as i128 + carry;
    if end <= i64::MAX as i128 {
        Some(end as i64)
    } else {
        None
    }
}

} // verus!
