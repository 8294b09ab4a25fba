use std::sync::Arc;
use vstd::prelude::*;
use vstd::utf8::{encode_utf8, encode_utf8_decode_utf8};

verus! {

/// A point in time, in seconds since the Unix epoch (UTC).
pub type Timestamp = i64;

/// One calendar occurrence, as fetched from a feed.
#[derive(Debug, Clone, Eq)]
pub struct Event {
    /// Title of the event.
    pub summary: String,
    /// Start of the event.
    pub start: Timestamp,
    /// End of the event.
    pub end: Timestamp,
    /// Where the event takes place (may be empty).
    pub location: String,
    /// Description of the event (may be empty).
    pub description: String,
    /// Identifier given by the feed, unique within one calendar.
    pub uid: String,
}

/// The mathematical value of an [`Event`].
pub struct EventView {
    pub summary: Seq<char>,
    pub start: Timestamp,
    pub end: Timestamp,
    pub location: Seq<char>,
    pub description: Seq<char>,
    pub uid: Seq<char>,
}

impl View for Event {
    type V = EventView;

    open spec fn view(&self) -> EventView {
        EventView {
            summary: self.summary@,
            start: self.start,
            end: self.end,
            location: self.location@,
            description: self.description@,
            uid: self.uid@,
        }
    }
}

impl PartialEq for Event {
    /// Structural equality: all fields are equal.
    fn eq(&self, other: &Event) -> (r: bool)
        ensures
            r == (self@ == other@),
    {
        self.start == other.start && self.end == other.end && self.uid == other.uid
            && self.summary == other.summary && self.location == other.location
            && self.description == other.description
    }
}

impl vstd::std_specs::cmp::PartialEqSpecImpl for Event {
    open spec fn obeys_eq_spec() -> bool {
        true
    }

    open spec fn eq_spec(&self, other: &Event) -> bool {
        self@ == other@
    }
}

impl Event {
    /// An event with the given fields.
    pub fn new(
        summary: String,
        start: Timestamp,
        end: Timestamp,
        location: String,
        description: String,
        uid: String,
    ) -> (e: Event)
        ensures
            e@ == (EventView {
                summary: summary@,
                start,
                end,
                location: location@,
                description: description@,
                uid: uid@,
            }),
    {
        Event { summary, start, end, location, description, uid }
    }
}

impl Default for Event {
    fn default() -> (e: Event)
        ensures
            e@.summary.len() == 0,
            e@.start == 0,
            e@.end == 0,
            e@.location.len() == 0,
            e@.description.len() == 0,
            e@.uid.len() == 0,
    {
        Event {
            summary: String::new(),
            start: 0,
            end: 0,
            location: String::new(),
            description: String::new(),
            uid: String::new(),
        }
    }
}

/// Lexicographic order on byte strings; a proper prefix comes first.
pub open spec fn bytes_lt(a: Seq<u8>, b: Seq<u8>) -> bool
    decreases a.len(),
{
    if b.len() == 0 {
        false
    } else if a.len() == 0 {
        true
    } else if a[0] != b[0] {
        a[0] < b[0]
    } else {
        bytes_lt(a.drop_first(), b.drop_first())
    }
}

/// Order on identifiers: lexicographic on their UTF-8 encoding.
pub open spec fn uid_lt(a: Seq<char>, b: Seq<char>) -> bool {
    bytes_lt(encode_utf8(a), encode_utf8(b))
}

/// The chronological order of a calendar: by start, then by identifier.
pub open spec fn precedes(a: EventView, b: EventView) -> bool {
    a.start < b.start || (a.start == b.start && uid_lt(a.uid, b.uid))
}

pub proof fn lemma_bytes_lt_asymmetric(a: Seq<u8>, b: Seq<u8>)
    ensures
        !(bytes_lt(a, b) && bytes_lt(b, a)),
    decreases a.len(),
{
    if a.len() > 0 && b.len() > 0 && a[0] == b[0] {
        lemma_bytes_lt_asymmetric(a.drop_first(), b.drop_first());
    }
}

pub proof fn lemma_bytes_lt_total(a: Seq<u8>, b: Seq<u8>)
    requires
        a != b,
    ensures
        bytes_lt(a, b) || bytes_lt(b, a),
    decreases a.len(),
{
    if a.len() > 0 && b.len() > 0 && a[0] == b[0] {
        if a.drop_first() == b.drop_first() {
            assert(a =~= seq![a[0]] + a.drop_first());
            assert(b =~= seq![b[0]] + b.drop_first());
        }
        lemma_bytes_lt_total(a.drop_first(), b.drop_first());
    } else if a.len() == 0 && b.len() == 0 {
        assert(a =~= b);
    }
}

pub proof fn lemma_bytes_lt_transitive(a: Seq<u8>, b: Seq<u8>, c: Seq<u8>)
    requires
        bytes_lt(a, b),
        bytes_lt(b, c),
    ensures
        bytes_lt(a, c),
    decreases a.len(),
{
    if a.len() > 0 && b.len() > 0 && c.len() > 0 && a[0] == b[0] && b[0] == c[0] {
        lemma_bytes_lt_transitive(a.drop_first(), b.drop_first(), c.drop_first());
    }
}

/// The chronological order is transitive.
pub proof fn lemma_precedes_transitive(a: EventView, b: EventView, c: EventView)
    requires
        precedes(a, b),
        precedes(b, c),
    ensures
        precedes(a, c),
{
    if a.start == b.start && b.start == c.start {
        lemma_bytes_lt_transitive(encode_utf8(a.uid), encode_utf8(b.uid), encode_utf8(c.uid));
    }
}

/// The chronological order is a strict total order on events with distinct
/// (start, identifier) pairs.
pub proof fn lemma_precedes_total(a: EventView, b: EventView)
    ensures
        !(precedes(a, b) && precedes(b, a)),
        (a.start != b.start || a.uid != b.uid) ==> precedes(a, b) || precedes(b, a),
{
    lemma_bytes_lt_asymmetric(encode_utf8(a.uid), encode_utf8(b.uid));
    if a.start == b.start && a.uid != b.uid {
        encode_utf8_decode_utf8(a.uid);
        encode_utf8_decode_utf8(b.uid);
        lemma_bytes_lt_total(encode_utf8(a.uid), encode_utf8(b.uid));
    }
}

/// The order on identifiers is a strict total order.
pub proof fn lemma_uid_lt_total(a: Seq<char>, b: Seq<char>)
    ensures
        !(uid_lt(a, b) && uid_lt(b, a)),
        a != b ==> uid_lt(a, b) || uid_lt(b, a),
{
    lemma_bytes_lt_asymmetric(encode_utf8(a), encode_utf8(b));
    if a != b {
        encode_utf8_decode_utf8(a);
        encode_utf8_decode_utf8(b);
        lemma_bytes_lt_total(encode_utf8(a), encode_utf8(b));
    }
}

pub proof fn lemma_uid_lt_transitive(a: Seq<char>, b: Seq<char>, c: Seq<char>)
    requires
        uid_lt(a, b),
        uid_lt(b, c),
    ensures
        uid_lt(a, c),
{
    lemma_bytes_lt_transitive(encode_utf8(a), encode_utf8(b), encode_utf8(c));
}

/// Compares two identifiers in the order `uid_lt`.
pub fn uid_less(a: &str, b: &str) -> (r: bool)
    ensures
        r == uid_lt(a@, b@),
{
    let x = a.as_bytes();
    let y = b.as_bytes();
    let mut i: usize = 0;
    assert(x@.subrange(0, x@.len() as int) =~= x@);
    assert(y@.subrange(0, y@.len() as int) =~= y@);
    while i < x.len() && i < y.len()
        invariant
            0 <= i <= x@.len(),
            i <= y@.len(),
            x@ == encode_utf8(a@),
            y@ == encode_utf8(b@),
            bytes_lt(x@, y@) == bytes_lt(x@.subrange(i as int, x@.len() as int), y@.subrange(i as int, y@.len() as int)),
        decreases x@.len() - i,
    {
        let ghost xs = x@.subrange(i as int, x@.len() as int);
        let ghost ys = y@.subrange(i as int, y@.len() as int);
        if x[i] != y[i] {
            return x[i] < y[i];
        }
        assert(xs.drop_first() =~= x@.subrange(i + 1, x@.len() as int));
        assert(ys.drop_first() =~= y@.subrange(i + 1, y@.len() as int));
        i = i + 1;
    }
    i < y.len()
}

/// Text equality.
pub fn same_text(a: &str, b: &str) -> (r: bool)
    ensures
        r == (a@ == b@),
{
    let x = a.as_bytes();
    let y = b.as_bytes();
    proof {
        encode_utf8_decode_utf8(a@);
        encode_utf8_decode_utf8(b@);
    }
    if x.len() != y.len() {
        return false;
    }
    let mut i: usize = 0;
    while i < x.len()
        invariant
            0 <= i <= x@.len(),
            x@.len() == y@.len(),
            x@ == encode_utf8(a@),
            y@ == encode_utf8(b@),
            forall|j: int| 0 <= j < i ==> x@[j] == y@[j],
        decreases x@.len() - i,
    {
        if x[i] != y[i] {
            return false;
        }
        i = i + 1;
    }
    assert(x@ =~= y@);
    true
}

/// Decides `precedes(a@, b@)`.
pub fn event_precedes(a: &Event, b: &Event) -> (r: bool)
    ensures
        r == precedes(a@, b@),
{
    if a.start != b.start {
        a.start < b.start
    } else {
        uid_less(a.uid.as_str(), b.uid.as_str())
    }
}

/// A change found while reconciling a calendar.
#[derive(Debug, PartialEq, Eq)]
pub enum UpdateResult {
    /// A new event that the audience is told about.
    Created(Arc<Event>),
    /// An event whose fields changed.
    Updated { old: Arc<Event>, new: Arc<Event> },
    /// An event that no longer appears in the feed.
    Removed(Arc<Event>),
}

/// The mathematical value of an [`UpdateResult`].
pub enum Change {
    Created(EventView),
    Updated(EventView, EventView),
    Removed(EventView),
}

impl View for UpdateResult {
    type V = Change;

    open spec fn view(&self) -> Change {
        match self {
            UpdateResult::Created(e) => Change::Created(e@),
            UpdateResult::Updated { old, new } => Change::Updated(old@, new@),
            UpdateResult::Removed(e) => Change::Removed(e@),
        }
    }
}

} // verus!
