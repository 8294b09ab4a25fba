//! Reading a feed: the iCalendar text of a feed becomes the list of events
//! that a calendar is reconciled with.
use vstd::prelude::*;

use crate::event::{same_text, Event, EventView};

verus! {

/// The properties of one calendar component: name and value, in order.
pub type Properties = Vec<(String, Option<String>)>;

/// Why a feed could not be read.
#[derive(Debug, Clone, Copy, PartialEq, Eq)]
pub enum FeedError {
    /// A start or end time is not of the form `YYYYMMDDTHHMMSSZ`.
    BadTime,
    /// The pattern that cleans descriptions does not compile.
    BadPattern,
}

#[verifier::external_type_specification]
#[verifier::external_body]
pub struct ExParseError(chrono::ParseError);

#[verifier::external_type_specification]
#[verifier::external_body]
pub struct ExRegexError(regex::Error);

/// The calendars that the ical crate reads from a text: for each one, the
/// properties of each of its events (`None` for a calendar it rejects).
pub uninterp spec fn ical_calendars(text: Seq<u8>) -> Seq<Option<Seq<Seq<(Seq<char>, Option<Seq<char>>)>>>>;

/// The instant, in seconds since the Unix epoch, that chrono reads from a
/// UTC date and time written in the given format.
pub uninterp spec fn utc_stamp_of(value: Seq<char>, format: Seq<char>) -> Option<i64>;

/// The text with every match of the pattern replaced (`None` when the
/// pattern does not compile), as the regex crate computes it.
pub uninterp spec fn regex_replaced(pattern: Seq<char>, text: Seq<char>, rep: Seq<char>) -> Option<Seq<char>>;

pub open spec fn properties_view(p: Seq<(String, Option<String>)>) -> Seq<(Seq<char>, Option<Seq<char>>)> {
    p.map_values(
        |x: (String, Option<String>)|
            (
                x.0@,
                match x.1 {
                    Some(v) => Some(v@),
                    None => None,
                },
            ),
    )
}

pub open spec fn calendars_view(c: Seq<Option<Vec<Properties>>>) -> Seq<Option<Seq<Seq<(Seq<char>, Option<Seq<char>>)>>>> {
    c.map_values(
        |x: Option<Vec<Properties>>|
            match x {
                Some(events) => Some(events@.map_values(|p: Properties| properties_view(p@))),
                None => None,
            },
    )
}

/// Relies on ical::IcalParser: it reads the calendars of a text one after
/// the other, each as its events' properties, or as an error.
#[verifier::external_body]
fn read_calendars(text: &[u8]) -> (r: Vec<Option<Vec<Properties>>>)
    ensures
        calendars_view(r@) == ical_calendars(text@),
{
    let mut out = Vec::new();
    for calendar in ical::IcalParser::new(text) {
        out.push(match calendar {
            Ok(c) => Some(c.events.into_iter().map(|e| e.properties.into_iter().map(|p| (p.name, p.value)).collect()).collect()),
            Err(_) => None,
        });
    }
    out
}

/// Relies on chrono's NaiveDateTime::parse_from_str, the result read as UTC
/// (`and_utc().timestamp()`).
#[verifier::external_body]
fn parse_utc(value: &str, format: &str) -> (r: Result<i64, chrono::ParseError>)
    ensures
        match r {
            Ok(t) => utc_stamp_of(value@, format@) == Some(t),
            Err(_) => utc_stamp_of(value@, format@) is None,
        },
{
    match chrono::NaiveDateTime::parse_from_str(value, format) {
        Ok(t) => Ok(t.and_utc().timestamp()),
        Err(e) => Err(e),
    }
}

/// Relies on regex::Regex::new and Regex::replace_all.
#[verifier::external_body]
fn replace_matches(pattern: &str, text: &str, rep: &str) -> (r: Result<String, regex::Error>)
    ensures
        match r {
            Ok(s) => regex_replaced(pattern@, text@, rep@) == Some(s@),
            Err(_) => regex_replaced(pattern@, text@, rep@) is None,
        },
{
    match regex::Regex::new(pattern) {
        Ok(re) => Ok(re.replace_all(text, rep).into_owned()),
        Err(e) => Err(e),
    }
}

/// Unicode White_Space, the characters `char::is_whitespace` accepts.
pub open spec fn is_white_space(c: char) -> bool {
    let n = c as u32;
    n == 0x20 || (0x09 <= n && n <= 0x0d) || n == 0x85 || n == 0xa0 || n == 0x1680 || (0x2000 <= n
        && n <= 0x200a) || n == 0x2028 || n == 0x2029 || n == 0x202f || n == 0x205f || n == 0x3000
}

pub open spec fn trim_start(s: Seq<char>) -> Seq<char>
    decreases s.len(),
{
    if s.len() > 0 && is_white_space(s[0]) {
        trim_start(s.drop_first())
    } else {
        s
    }
}

pub open spec fn trim_end(s: Seq<char>) -> Seq<char>
    decreases s.len(),
{
    if s.len() > 0 && is_white_space(s.last()) {
        trim_end(s.drop_last())
    } else {
        s
    }
}

/// The text without leading and trailing white space.
pub open spec fn trimmed(s: Seq<char>) -> Seq<char> {
    trim_end(trim_start(s))
}

/// Relies on str::trim, which removes leading and trailing White_Space.
#[verifier::external_body]
fn trim(s: &str) -> (r: String)
    ensures
        r@ == trimmed(s@),
{
    s.trim().to_string()
}

/// The form of start and end times in a feed.
pub open spec fn time_format() -> Seq<char> {
    "%Y%m%dT%H%M%SZ"@
}

/// What is cut out of descriptions: anything in parentheses.
pub open spec fn noise_pattern() -> Seq<char> {
    "\\(.*\\)"@
}

/// An event with empty texts and both times at the epoch.
pub open spec fn blank_event() -> EventView {
    EventView {
        summary: Seq::empty(),
        start: 0,
        end: 0,
        location: Seq::empty(),
        description: Seq::empty(),
        uid: Seq::empty(),
    }
}

/// The event after reading one property: times are parsed, the summary
/// trimmed, the description cleaned of parenthesized text and trimmed, the
/// location and identifier taken as they are; other properties are ignored.
pub open spec fn with_property(e: EventView, name: Seq<char>, value: Seq<char>) -> Result<EventView, FeedError> {
    if name == "DTSTART"@ {
        match utc_stamp_of(value, time_format()) {
            Some(t) => Ok(EventView { start: t, ..e }),
            None => Err(FeedError::BadTime),
        }
    } else if name == "DTEND"@ {
        match utc_stamp_of(value, time_format()) {
            Some(t) => Ok(EventView { end: t, ..e }),
            None => Err(FeedError::BadTime),
        }
    } else if name == "SUMMARY"@ {
        Ok(EventView { summary: trimmed(value), ..e })
    } else if name == "LOCATION"@ {
        Ok(EventView { location: value, ..e })
    } else if name == "DESCRIPTION"@ {
        match regex_replaced(noise_pattern(), value, Seq::empty()) {
            Some(d) => Ok(EventView { description: trimmed(d), ..e }),
            None => Err(FeedError::BadPattern),
        }
    } else if name == "UID"@ {
        Ok(EventView { uid: value, ..e })
    } else {
        Ok(e)
    }
}

/// The event that a component's properties describe, read in order from a
/// blank event; properties without a value are skipped.
pub open spec fn event_of(props: Seq<(Seq<char>, Option<Seq<char>>)>) -> Result<EventView, FeedError>
    decreases props.len(),
{
    if props.len() == 0 {
        Ok(blank_event())
    } else {
        match event_of(props.drop_last()) {
            Err(err) => Err(err),
            Ok(e) => match props.last().1 {
                None => Ok(e),
                Some(v) => with_property(e, props.last().0, v),
            },
        }
    }
}

/// The events of the accepted calendars, in order; the first event that
/// cannot be read makes the whole feed fail.
pub open spec fn events_of(cals: Seq<Option<Seq<Seq<(Seq<char>, Option<Seq<char>>)>>>>) -> Result<Seq<EventView>, FeedError>
    decreases cals.len(),
{
    if cals.len() == 0 {
        Ok(Seq::empty())
    } else {
        match events_of(cals.drop_last()) {
            Err(err) => Err(err),
            Ok(done) => match cals.last() {
                None => Ok(done),
                Some(evs) => match events_in(evs) {
                    Err(err) => Err(err),
                    Ok(more) => Ok(done + more),
                },
            },
        }
    }
}

/// The events of one calendar, in order.
pub open spec fn events_in(evs: Seq<Seq<(Seq<char>, Option<Seq<char>>)>>) -> Result<Seq<EventView>, FeedError>
    decreases evs.len(),
{
    if evs.len() == 0 {
        Ok(Seq::empty())
    } else {
        match events_in(evs.drop_last()) {
            Err(err) => Err(err),
            Ok(done) => match event_of(evs.last()) {
                Err(err) => Err(err),
                Ok(e) => Ok(done.push(e)),
            },
        }
    }
}

proof fn lemma_events_in_fails(evs: Seq<Seq<(Seq<char>, Option<Seq<char>>)>>, k: int, j: int, err: FeedError)
    requires
        0 <= k <= j <= evs.len(),
        events_in(evs.take(k)) == Err::<Seq<EventView>, FeedError>(err),
    ensures
        events_in(evs.take(j)) == Err::<Seq<EventView>, FeedError>(err),
    decreases j - k,
{
    if j > k {
        lemma_events_in_fails(evs, k, j - 1, err);
        assert(evs.take(j).drop_last() =~= evs.take(j - 1));
    }
}

proof fn lemma_events_of_fails(
    cals: Seq<Option<Seq<Seq<(Seq<char>, Option<Seq<char>>)>>>>,
    k: int,
    j: int,
    err: FeedError,
)
    requires
        0 <= k <= j <= cals.len(),
        events_of(cals.take(k)) == Err::<Seq<EventView>, FeedError>(err),
    ensures
        events_of(cals.take(j)) == Err::<Seq<EventView>, FeedError>(err),
    decreases j - k,
{
    if j > k {
        lemma_events_of_fails(cals, k, j - 1, err);
        assert(cals.take(j).drop_last() =~= cals.take(j - 1));
    }
}

/// Once reading fails, later properties do not matter.
proof fn lemma_event_of_fails(pv: Seq<(Seq<char>, Option<Seq<char>>)>, k: int, j: int, err: FeedError)
    requires
        0 <= k <= j <= pv.len(),
        event_of(pv.take(k)) == Err::<EventView, FeedError>(err),
    ensures
        event_of(pv.take(j)) == Err::<EventView, FeedError>(err),
    decreases j - k,
{
    if j > k {
        lemma_event_of_fails(pv, k, j - 1, err);
        assert(pv.take(j).drop_last() =~= pv.take(j - 1));
    }
}

/// Reads the event that a component's properties describe.
pub fn read_event(props: &Properties) -> (r: Result<Event, FeedError>)
    ensures
        match event_of(properties_view(props@)) {
            Ok(e) => r is Ok && r->Ok_0@ == e,
            Err(err) => r == Err::<Event, FeedError>(err),
        },
{
    let ghost pv = properties_view(props@);
    let mut e = Event {
        summary: String::new(),
        start: 0,
        end: 0,
        location: String::new(),
        description: String::new(),
        uid: String::new(),
    };
    assert(e@ == blank_event());
    let mut i: usize = 0;
    assert(pv.take(0) =~= Seq::<(Seq<char>, Option<Seq<char>>)>::empty());
    while i < props.len()
        invariant
            0 <= i <= props@.len(),
            pv == properties_view(props@),
            event_of(pv.take(i as int)) == Ok::<EventView, FeedError>(e@),
        decreases props@.len() - i,
    {
        assert(pv.take(i + 1).drop_last() =~= pv.take(i as int));
        assert(pv.take(i + 1).last() == pv[i as int]);
        proof {
            reveal_strlit("");
        }
        let name = props[i].0.as_str();
        match &props[i].1 {
            None => {},
            Some(value) => {
                let value = value.as_str();
                if same_text(name, "DTSTART") {
                    match parse_utc(value, "%Y%m%dT%H%M%SZ") {
                        Ok(t) => e.start = t,
                        Err(_) => {
                            proof {
                                lemma_event_of_fails(pv, i + 1, pv.len() as int, FeedError::BadTime);
                                assert(pv.take(pv.len() as int) =~= pv);
                            }
                            return Err(FeedError::BadTime);
                        },
                    }
                } else if same_text(name, "DTEND") {
                    match parse_utc(value, "%Y%m%dT%H%M%SZ") {
                        Ok(t) => e.end = t,
                        Err(_) => {
                            proof {
                                lemma_event_of_fails(pv, i + 1, pv.len() as int, FeedError::BadTime);
                                assert(pv.take(pv.len() as int) =~= pv);
                            }
                            return Err(FeedError::BadTime);
                        },
                    }
                } else if same_text(name, "SUMMARY") {
                    e.summary = trim(value);
                } else if same_text(name, "LOCATION") {
                    e.location = value.to_owned();
                } else if same_text(name, "DESCRIPTION") {
                    assert(pv[i as int].0 == "DESCRIPTION"@);
                    assert(pv[i as int].1 == Some(value@));
                    assert(noise_pattern() == "\\(.*\\)"@);
                    assert(Seq::<char>::empty() == ""@);
                    match replace_matches("\\(.*\\)", value, "") {
                        Ok(d) => e.description = trim(d.as_str()),
                        Err(_) => {
                            proof {
                                lemma_event_of_fails(pv, i + 1, pv.len() as int, FeedError::BadPattern);
                                assert(pv.take(pv.len() as int) =~= pv);
                            }
                            return Err(FeedError::BadPattern);
                        },
                    }
                } else if same_text(name, "UID") {
                    e.uid = value.to_owned();
                }
            },
        }
        i = i + 1;
    }
    assert(pv.take(props@.len() as int) =~= pv);
    Ok(e)
}

/// Reads the events of the components of one calendar.
fn read_events(evs: &Vec<Properties>, out: &mut Vec<Event>) -> (r: Result<(), FeedError>)
    ensures
        match events_in(evs@.map_values(|p: Properties| properties_view(p@))) {
            Ok(more) => r is Ok && final(out)@.map_values(|e: Event| e@) == old(out)@.map_values(|e: Event| e@) + more,
            Err(err) => r == Err::<(), FeedError>(err),
        },
{
    let ghost ev = evs@.map_values(|p: Properties| properties_view(p@));
    let ghost base = out@.map_values(|e: Event| e@);
    let mut j: usize = 0;
    assert(ev.take(0) =~= Seq::<Seq<(Seq<char>, Option<Seq<char>>)>>::empty());
    assert(out@.map_values(|e: Event| e@) =~= base + Seq::<EventView>::empty());
    while j < evs.len()
        invariant
            0 <= j <= evs@.len(),
            ev == evs@.map_values(|p: Properties| properties_view(p@)),
            events_in(ev.take(j as int)) is Ok,
            out@.map_values(|e: Event| e@) == base + events_in(ev.take(j as int))->Ok_0,
        decreases evs@.len() - j,
    {
        assert(ev.take(j + 1).drop_last() =~= ev.take(j as int));
        assert(ev.take(j + 1).last() == properties_view(evs@[j as int]@));
        match read_event(&evs[j]) {
            Ok(e) => {
                let ghost o = out@;
                out.push(e);
                assert(out@.map_values(|e: Event| e@) =~= o.map_values(|e: Event| e@).push(e@));
            },
            Err(err) => {
                proof {
                    lemma_events_in_fails(ev, j + 1, ev.len() as int, err);
                    assert(ev.take(ev.len() as int) =~= ev);
                }
                return Err(err);
            },
        }
        j = j + 1;
    }
    assert(ev.take(ev.len() as int) =~= ev);
    Ok(())
}

/// Reads the events of a feed's iCalendar text (see `events_of`).
pub fn read_feed(text: &[u8]) -> (r: Result<Vec<Event>, FeedError>)
    ensures
        match events_of(ical_calendars(text@)) {
            Ok(events) => r is Ok && r->Ok_0@.map_values(|e: Event| e@) == events,
            Err(err) => r == Err::<Vec<Event>, FeedError>(err),
        },
{
    let cals = read_calendars(text);
    let ghost cv = calendars_view(cals@);
    let mut out: Vec<Event> = Vec::new();
    let mut i: usize = 0;
    assert(cv.take(0) =~= Seq::<Option<Seq<Seq<(Seq<char>, Option<Seq<char>>)>>>>::empty());
    assert(out@.map_values(|e: Event| e@) =~= Seq::<EventView>::empty());
    while i < cals.len()
        invariant
            0 <= i <= cals@.len(),
            cv == calendars_view(cals@),
            cv == ical_calendars(text@),
            events_of(cv.take(i as int)) is Ok,
            out@.map_values(|e: Event| e@) == events_of(cv.take(i as int))->Ok_0,
        decreases cals@.len() - i,
    {
        assert(cv.take(i + 1).drop_last() =~= cv.take(i as int));
        assert(cv.take(i + 1).last() == cv[i as int]);
        match &cals[i] {
            None => {},
            Some(evs) => {
                match read_events(evs, &mut out) {
                    Ok(()) => {},
                    Err(err) => {
                        proof {
                            lemma_events_of_fails(cv, i + 1, cv.len() as int, err);
                            assert(cv.take(cv.len() as int) =~= cv);
                        }
                        return Err(err);
                    },
                }
            },
        }
        i = i + 1;
    }
    assert(cv.take(cv.len() as int) =~= cv);
    Ok(out)
}

} // verus!
