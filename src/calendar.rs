//! A calendar: the events of one feed, kept in chronological order with
//! unique identifiers, and the reconciliation against a fresh fetch.
use std::sync::Arc;
use vstd::prelude::*;

use crate::event::{precedes, Change, Event, EventView, Timestamp, UpdateResult};
use crate::cfg::CalendarItem;
use crate::horizon::{deletion_end, horizon, horizon_of, window_end, UpdateError};
use crate::event::lemma_uid_lt_total;
use crate::timeline::{
    by_identifier, lemma_by_identifier_distinct, lemma_by_identifier_insert,
    lemma_by_identifier_update, lemma_filter_by_identifier, uid_position,
};
use crate::timeline::{
    chronological, distinct_uids, find_key, find_uid, in_order, index, insert_sorted,
    keys_distinct, lemma_filter_ordered, lemma_in_order, lemma_index, lemma_index_update,
    lemma_insert_new, lemma_listable, lemma_remove, lists, views,
};

verus! {

/// `from <= start < until`.
pub open spec fn in_window(from: int, until: int) -> spec_fn(EventView) -> bool {
    |e: EventView| from <= e.start && e.start < until
}

/// The values of a sequence of events.
pub open spec fn event_views(v: Seq<Event>) -> Seq<EventView> {
    v.map_values(|e: Event| e@)
}

/// The values of a sequence of changes.
pub open spec fn changes(v: Seq<UpdateResult>) -> Seq<Change> {
    v.map_values(|u: UpdateResult| u@)
}

/// The events of a list that no later entry overrides by carrying the same
/// identifier.
pub open spec fn latest(ev: Seq<EventView>) -> Set<EventView> {
    Set::new(
        |e: EventView|
            exists|i: int|
                0 <= i < ev.len() && ev[i] == e && forall|j: int| i < j < ev.len() ==> ev[j].uid != e.uid,
    )
}

/// Some entry of `s` has the start and identifier of `e`.
pub open spec fn has_key(s: Seq<EventView>, e: EventView) -> bool {
    exists|j: int| 0 <= j < s.len() && s[j].start == e.start && s[j].uid == e.uid
}

/// The fetched events that count: an entry is overridden by any later entry
/// with the same start and identifier.
pub open spec fn survivors(ev: Seq<EventView>) -> Set<EventView> {
    Set::new(
        |e: EventView|
            exists|i: int|
                0 <= i < ev.len() && ev[i] == e && forall|j: int|
                    i < j < ev.len() ==> !(ev[j].start == e.start && ev[j].uid == e.uid),
    )
}

/// The start of the earliest stored event, `None` for an empty calendar.
pub open spec fn frontier_of(s: Seq<EventView>) -> Option<Timestamp> {
    if s.len() == 0 {
        None
    } else {
        Some(s[0].start)
    }
}

/// A new event is announced when it starts before the frontier (always, when
/// the calendar was empty).
pub open spec fn announced(frontier: Option<Timestamp>, start: Timestamp) -> bool {
    match frontier {
        None => true,
        Some(f) => start < f,
    }
}

/// Takes one fetched event into the identity index `m`, recording the change
/// in `out`.
pub open spec fn merge_step(
    m: Map<Seq<char>, EventView>,
    out: Seq<Change>,
    frontier: Option<Timestamp>,
    new: EventView,
) -> (Map<Seq<char>, EventView>, Seq<Change>) {
    if m.contains_key(new.uid) {
        if m[new.uid] == new {
            (m, out)
        } else {
            (m.insert(new.uid, new), out.push(Change::Updated(m[new.uid], new)))
        }
    } else {
        (
            m.insert(new.uid, new),
            if announced(frontier, new.start) {
                out.push(Change::Created(new))
            } else {
                out
            },
        )
    }
}

/// Takes the fetched events `inc`, in order, into the identity index `m`.
pub open spec fn merge(
    m: Map<Seq<char>, EventView>,
    frontier: Option<Timestamp>,
    inc: Seq<EventView>,
) -> (Map<Seq<char>, EventView>, Seq<Change>)
    decreases inc.len(),
{
    if inc.len() == 0 {
        (m, Seq::empty())
    } else {
        let prev = merge(m, frontier, inc.drop_last());
        merge_step(prev.0, prev.1, frontier, inc.last())
    }
}

/// A stored event is removed when it starts in `[from, until)` and no fetched
/// event has its start and identifier.
pub open spec fn doomed(ev: Seq<EventView>, from: int, until: int) -> spec_fn(EventView) -> bool {
    |e: EventView| from <= e.start && e.start < until && !has_key(ev, e)
}

/// The stored events that stay.
pub open spec fn spared(ev: Seq<EventView>, from: int, until: int) -> spec_fn(EventView) -> bool {
    |e: EventView| !(from <= e.start && e.start < until && !has_key(ev, e))
}

/// One removal record per event, in order.
pub open spec fn removals(s: Seq<EventView>) -> Seq<Change> {
    s.map_values(|e: EventView| Change::Removed(e))
}

/// The calendar and the changes after reconciling the stored events `old`
/// with the fetched events `ev`, fetched at `fetch_time`, with deletions
/// looked for in `[fetch_time, until)`:
/// the fetched events that count are taken in chronological order (updated
/// when their identifier is known and they differ, created otherwise), then
/// the stored events of the window that were not fetched are removed.
pub open spec fn reconciled(
    old: Seq<EventView>,
    ev: Seq<EventView>,
    fetch_time: int,
    until: int,
) -> (Seq<EventView>, Seq<Change>) {
    let merged = merge(index(old), frontier_of(old), in_order(survivors(ev)));
    let listed = in_order(merged.0.values());
    (
        listed.filter(spared(ev, fetch_time, until)),
        merged.1 + removals(listed.filter(doomed(ev, fetch_time, until))),
    )
}

/// The events of one feed, held twice as shared handles: in chronological
/// order, for range scans, and by identifier, for lookups in logarithmic
/// time. Both indices hold the same events after every operation.
pub struct Calendar {
    /// In the order `precedes`.
    events: Vec<Arc<Event>>,
    /// In the order of identifiers.
    by_uid: Vec<Arc<Event>>,
}

impl View for Calendar {
    type V = Seq<EventView>;

    /// The events, in chronological order.
    closed spec fn view(&self) -> Seq<EventView> {
        views(self.events@)
    }
}

impl Calendar {
    /// Events are in chronological order, identifiers are unique and the
    /// identity index is in step with the chronological one.
    pub open spec fn wf(&self) -> bool {
        chronological(self@) && distinct_uids(self@) && self.indexed()
    }

    /// The identity index holds the same events, ordered by identifier.
    pub closed spec fn indexed(&self) -> bool {
        &&& by_identifier(views(self.by_uid@))
        &&& forall|x: EventView| #[trigger] views(self.by_uid@).contains(x) == self@.contains(x)
    }

    /// An empty calendar.
    pub fn new() -> (c: Calendar)
        ensures
            c.wf(),
            c@ == Seq::<EventView>::empty(),
    {
        let c = Calendar { events: Vec::new(), by_uid: Vec::new() };
        assert(c@ =~= Seq::<EventView>::empty());
        assert(views(c.by_uid@) =~= Seq::<EventView>::empty());
        c
    }

    /// The events whose start lies in `[from, from + duration)` (seconds),
    /// in chronological order.
    pub fn get_range(&self, from: Timestamp, duration: i64) -> (r: Vec<Arc<Event>>)
        ensures
            views(r@) == self@.filter(in_window(from as int, from + duration)),
    {
        let ghost p = in_window(from as int, from + duration);
        let mut r: Vec<Arc<Event>> = Vec::new();
        let mut i: usize = 0;
        let until: i128 = from as i128 + duration as i128;
        assert(self@.take(0) =~= Seq::<EventView>::empty());
        proof {
            reveal(Seq::filter);
        }
        while i < self.events.len()
            invariant
                0 <= i <= self@.len(),
                self@.len() == self.events@.len(),
                self@ == views(self.events@),
                until == from + duration,
                p == in_window(from as int, from + duration),
                views(r@) == self@.take(i as int).filter(p),
            decreases self@.len() - i,
        {
            let e = self.events[i].clone();
            proof {
                reveal(Seq::filter);
                assert(self@.take(i + 1).drop_last() =~= self@.take(i as int));
                assert(self@.take(i + 1).last() == self@[i as int]);
                assert(self@.take(i + 1).filter(p) == if p(self@[i as int]) {
                    self@.take(i as int).filter(p).push(self@[i as int])
                } else {
                    self@.take(i as int).filter(p)
                });
                assert(in_window(from as int, from + duration)(self@[i as int]) == (from <= self@[i as int].start && self@[i as int].start < from + duration));
            }
            assert(e@ == self@[i as int]);
            if from <= e.start && (e.start as i128) < until {
                let ghost r0 = r@;
                r.push(e);
                assert(views(r@) =~= views(r0).push(e@));
            }
            i = i + 1;
        }
        assert(self@.take(self@.len() as int) =~= self@);
        r
    }

    /// The event with identifier `uid`.
    pub fn lookup(&self, uid: &str) -> (r: Option<Arc<Event>>)
        requires
            self.wf(),
        ensures
            match r {
                Some(e) => index(self@).contains_key(uid@) && e@ == index(self@)[uid@],
                None => !index(self@).contains_key(uid@),
            },
    {
        proof {
            lemma_index(self@);
        }
        let ghost bu = views(self.by_uid@);
        match uid_position(&self.by_uid, uid) {
            Ok(q) => {
                let e = self.by_uid[q].clone();
                assert(bu[q as int] == e@);
                assert(bu.contains(e@));
                assert(self@.contains(e@));
                proof {
                    let i = choose|i: int| 0 <= i < self@.len() && self@[i] == e@;
                    assert(index(self@)[self@[i].uid] == self@[i]);
                }
                Some(e)
            },
            Err(q) => {
                assert forall|i: int| 0 <= i < self@.len() implies self@[i].uid != uid@ by {
                    assert(self@.contains(self@[i]));
                    assert(bu.contains(self@[i]));
                    let j = choose|j: int| 0 <= j < bu.len() && bu[j] == self@[i];
                    assert(bu[j] == self.by_uid@[j]@);
                    lemma_uid_lt_total(bu[j].uid, uid@);
                }
                None
            },
        }
    }

    /// All events, in chronological order: what is persisted of a calendar.
    pub fn events(&self) -> (r: Vec<Arc<Event>>)
        ensures
            views(r@) == self@,
    {
        let mut r: Vec<Arc<Event>> = Vec::new();
        let mut i: usize = 0;
        while i < self.events.len()
            invariant
                0 <= i <= self.events@.len(),
                views(r@) == views(self.events@).take(i as int),
            decreases self.events@.len() - i,
        {
            let e = self.events[i].clone();
            assert(e@ == views(self.events@)[i as int]);
            let ghost r0 = r@;
            r.push(e);
            assert(views(r@) =~= views(r0).push(e@));
            assert(views(r@) =~= views(self.events@).take(i + 1));
            i = i + 1;
        }
        assert(views(self.events@).take(i as int) =~= views(self.events@));
        r
    }

    /// Adds an event whose identifier the calendar does not hold; returns
    /// its chronological position.
    fn add_new(&mut self, e: Arc<Event>) -> (p: usize)
        requires
            old(self).wf(),
            forall|i: int| 0 <= i < old(self)@.len() ==> old(self)@[i].uid != e@.uid,
        ensures
            final(self).wf(),
            p <= old(self)@.len(),
            final(self)@ == old(self)@.insert(p as int, e@),
    {
        let ghost s = self@;
        assert forall|i: int| 0 <= i < self.events@.len() implies !(self.events@[i]@.uid == e@.uid
            && self.events@[i]@.start == e@.start) by {
            assert(s[i] == self.events@[i]@);
        }
        let q = insert_sorted(&mut self.events, e.clone());
        proof {
            lemma_insert_new(s, q as int, e@);
        }
        let ghost bu = views(self.by_uid@);
        match uid_position(&self.by_uid, e.uid.as_str()) {
            Ok(k) => {
                // Cannot happen: the identifier is new to both indices.
                proof {
                    assert(bu[k as int] == self.by_uid@[k as int]@);
                    assert(bu.contains(bu[k as int]));
                    assert(s.contains(bu[k as int]));
                }
            },
            Err(k) => {
                self.by_uid.insert(k, e.clone());
                assert(views(self.by_uid@) =~= bu.insert(k as int, e@));
                proof {
                    lemma_by_identifier_insert(bu, k as int, e@);
                    lemma_by_identifier_distinct(bu);
                    assert forall|i: int| 0 <= i < bu.len() implies bu[i].uid != e@.uid by {
                        assert(bu[i] == old(self).by_uid@[i]@);
                        lemma_uid_lt_total(bu[i].uid, bu[i].uid);
                    }
                    lemma_insert_new(bu, k as int, e@);
                }
            },
        }
        q
    }

    /// Takes one fetched event in (see `merge_step`).
    fn absorb(&mut self, new: Arc<Event>, frontier: Option<Timestamp>, out: &mut Vec<UpdateResult>)
        requires
            old(self).wf(),
        ensures
            final(self).wf(),
            (index(final(self)@), changes(final(out)@)) == merge_step(
                index(old(self)@),
                changes(old(out)@),
                frontier,
                new@,
            ),
    {
        let ghost s = self@;
        let ghost o = changes(out@);
        proof {
            lemma_index(s);
        }
        match find_uid(&self.events, &new.uid) {
            Some(p) => {
                assert(s[p as int].uid == new@.uid);
                assert(index(s).contains_key(new@.uid) && index(s)[new@.uid] == s[p as int]);
                if !(*self.events[p]).eq(&*new) {
                    let old = self.events.remove(p);
                    assert(self@ =~= s.remove(p as int));
                    proof {
                        lemma_remove(s, p as int);
                    }
                    let ghost t = self@;
                    assert forall|i: int| 0 <= i < self.events@.len() implies !(self.events@[i]@.uid
                        == new@.uid && self.events@[i]@.start == new@.start) by {
                        assert(t[i].uid != s[p as int].uid);
                    }
                    let q = insert_sorted(&mut self.events, new.clone());
                    proof {
                        lemma_insert_new(t, q as int, new@);
                        lemma_index_update(s, self@, new@);
                    }
                    let ghost bu = views(self.by_uid@);
                    assert(s.contains(s[p as int]));
                    assert(bu.contains(s[p as int]));
                    match uid_position(&self.by_uid, new.uid.as_str()) {
                        Ok(k) => {
                            let _ = self.by_uid.remove(k);
                            self.by_uid.insert(k, new.clone());
                            assert(views(self.by_uid@) =~= bu.update(k as int, new@));
                            proof {
                                lemma_by_identifier_update(bu, k as int, new@);
                            }
                        },
                        Err(k) => {
                            // Cannot happen: both indices hold the replaced event.
                            proof {
                                let j = choose|j: int| 0 <= j < bu.len() && bu[j] == s[p as int];
                                assert(bu[j] == self.by_uid@[j]@);
                                lemma_uid_lt_total(bu[j].uid, new@.uid);
                            }
                        },
                    }
                    out.push(UpdateResult::Updated { old, new });
                    assert(changes(out@) =~= o.push(Change::Updated(s[p as int], new@)));
                }
            },
            None => {
                assert(!index(s).contains_key(new@.uid)) by {
                    if index(s).contains_key(new@.uid) {
                        let i = choose|i: int| 0 <= i < s.len() && s[i].uid == new@.uid;
                        assert(self.events@[i]@.uid != new@.uid);
                    }
                }
                assert forall|i: int| 0 <= i < s.len() implies s[i].uid != new@.uid by {
                    assert(self.events@[i]@.uid != new@.uid);
                }
                let q = self.add_new(new.clone());
                proof {
                    lemma_insert_new(s, q as int, new@);
                    lemma_index_update(s, self@, new@);
                }
                let shown = match frontier {
                    None => true,
                    Some(f) => new.start < f,
                };
                if shown {
                    out.push(UpdateResult::Created(new));
                    assert(changes(out@) =~= o.push(Change::Created(new@)));
                }
            },
        }
    }

    /// Reconciles the calendar with the full list of events of a fetch made
    /// at `fetch_time`, looking for deleted events in
    /// `[fetch_time, window_end)`; returns the changes, created and updated
    /// events first, then removed ones, each part in chronological order.
    pub fn reconcile(&mut self, events: Vec<Event>, fetch_time: Timestamp, window_end: Timestamp) -> (r: Vec<UpdateResult>)
        requires
            old(self).wf(),
        ensures
            final(self).wf(),
            (final(self)@, changes(r@)) == reconciled(
                old(self)@,
                event_views(events@),
                fetch_time as int,
                window_end as int,
            ),
    {
        let ghost ev = event_views(events@);
        let ghost s0 = self@;
        let incoming = index_fetched(events);
        let ghost inc = views(incoming@);
        proof {
            lemma_in_order(inc, survivors(ev));
        }
        let frontier: Option<Timestamp> = if self.events.len() == 0 {
            None
        } else {
            Some(self.events[0].start)
        };
        assert(frontier == frontier_of(s0));
        let mut out: Vec<UpdateResult> = Vec::new();
        let mut i: usize = 0;
        assert(inc.take(0) =~= Seq::<EventView>::empty());
        assert(changes(out@) =~= Seq::<Change>::empty());
        while i < incoming.len()
            invariant
                0 <= i <= inc.len(),
                inc == views(incoming@),
                frontier == frontier_of(s0),
                self.wf(),
                (index(self@), changes(out@)) == merge(index(s0), frontier, inc.take(i as int)),
            decreases inc.len() - i,
        {
            let new = incoming[i].clone();
            assert(new@ == inc[i as int]);
            assert(inc.take(i + 1).drop_last() =~= inc.take(i as int));
            self.absorb(new, frontier, &mut out);
            i = i + 1;
        }
        assert(inc.take(inc.len() as int) =~= inc);
        let ghost merged = merge(index(s0), frontier_of(s0), inc);
        let ghost listed = self@;
        proof {
            lemma_index(listed);
            lemma_in_order(listed, merged.0.values());
        }
        let ghost keep = spared(ev, fetch_time as int, window_end as int);
        let ghost gone = doomed(ev, fetch_time as int, window_end as int);
        let ghost out0 = changes(out@);
        let mut kept: Vec<Arc<Event>> = Vec::new();
        let mut j: usize = 0;
        assert(listed.take(0) =~= Seq::<EventView>::empty());
        proof {
            reveal(Seq::filter);
        }
        assert(removals(listed.take(0).filter(gone)) =~= Seq::<Change>::empty());
        assert(changes(out@) =~= out0 + removals(listed.take(0).filter(gone)));
        assert(views(kept@) =~= listed.take(0).filter(keep));
        while j < self.events.len()
            invariant
                0 <= j <= listed.len(),
                listed == self@,
                listed.len() == self.events@.len(),
                keep == spared(ev, fetch_time as int, window_end as int),
                gone == doomed(ev, fetch_time as int, window_end as int),
                forall|e: EventView| #[trigger] has_key(views(incoming@), e) == has_key(ev, e),
                views(kept@) == listed.take(j as int).filter(keep),
                changes(out@) == out0 + removals(listed.take(j as int).filter(gone)),
            decreases listed.len() - j,
        {
            let e = self.events[j].clone();
            let ghost x = listed[j as int];
            assert(e@ == x);
            proof {
                reveal(Seq::filter);
                assert(listed.take(j + 1).drop_last() =~= listed.take(j as int));
                assert(listed.take(j + 1).last() == x);
            }
            let fetched = is_fetched(&incoming, &e);
            let ghost f0 = listed.take(j as int).filter(gone);
            if fetch_time <= e.start && e.start < window_end && !fetched {
                assert(gone(x) && !keep(x));
                let ghost o1 = out@;
                out.push(UpdateResult::Removed(e));
                assert(removals(f0.push(x)) =~= removals(f0).push(Change::Removed(x)));
                assert(changes(out@) =~= changes(o1).push(Change::Removed(x)));
            } else {
                assert(!gone(x) && keep(x));
                let ghost k1 = kept@;
                kept.push(e);
                assert(views(kept@) =~= views(k1).push(x));
            }
            j = j + 1;
        }
        assert(listed.take(listed.len() as int) =~= listed);
        proof {
            lemma_filter_ordered(listed, keep);
        }
        let ghost bu = views(self.by_uid@);
        let mut kept_by_uid: Vec<Arc<Event>> = Vec::new();
        let mut k: usize = 0;
        assert(bu.take(0) =~= Seq::<EventView>::empty());
        assert(views(kept_by_uid@) =~= bu.take(0).filter(keep));
        while k < self.by_uid.len()
            invariant
                0 <= k <= bu.len(),
                bu == views(self.by_uid@),
                keep == spared(ev, fetch_time as int, window_end as int),
                forall|e: EventView| #[trigger] has_key(views(incoming@), e) == has_key(ev, e),
                views(kept_by_uid@) == bu.take(k as int).filter(keep),
            decreases bu.len() - k,
        {
            let e = self.by_uid[k].clone();
            let ghost x = bu[k as int];
            assert(e@ == x);
            proof {
                reveal(Seq::filter);
                assert(bu.take(k + 1).drop_last() =~= bu.take(k as int));
                assert(bu.take(k + 1).last() == x);
            }
            let fetched = is_fetched(&incoming, &e);
            if fetch_time <= e.start && e.start < window_end && !fetched {
                assert(!keep(x));
            } else {
                assert(keep(x));
                let ghost k1 = kept_by_uid@;
                kept_by_uid.push(e);
                assert(views(kept_by_uid@) =~= views(k1).push(x));
            }
            k = k + 1;
        }
        assert(bu.take(bu.len() as int) =~= bu);
        proof {
            lemma_filter_by_identifier(bu, keep);
        }
        self.events = kept;
        self.by_uid = kept_by_uid;
        out
    }

    /// Reconciles the calendar with the full list of events of a fetch made
    /// at `fetch_time` (see `reconcile`); deleted events are looked for from
    /// `fetch_time` over the calendar's `time_amount`. On error the calendar
    /// is left as it was.
    pub fn update(&mut self, events: Vec<Event>, fetch_time: Timestamp, config: &CalendarItem) -> (r: Result<Vec<UpdateResult>, UpdateError>)
        requires
            old(self).wf(),
        ensures
            final(self).wf(),
            match r {
                Ok(v) => deletion_end(fetch_time as int, config.time_amount@) is Some && (final(self)@, changes(v@))
                    == reconciled(
                    old(self)@,
                    event_views(events@),
                    fetch_time as int,
                    deletion_end(fetch_time as int, config.time_amount@)->0,
                ),
                Err(e) => deletion_end(fetch_time as int, config.time_amount@) is None && final(self)@ == old(self)@
                    && e == if horizon_of(config.time_amount@) is None {
                    UpdateError::InvalidTimeAmount
                } else {
                    UpdateError::WindowOverflow
                },
            },
    {
        let (secs, nanos) = match horizon(config.time_amount.as_str()) {
            Ok(d) => d,
            Err(e) => return Err(e),
        };
        let end = match window_end(fetch_time, secs, nanos) {
            Some(end) => end,
            None => return Err(UpdateError::WindowOverflow),
        };
        Ok(self.reconcile(events, fetch_time, end))
    }

    /// Rebuilds a calendar from persisted events; where an identifier
    /// appears more than once, its last occurrence is kept.
    pub fn from_events(list: Vec<Arc<Event>>) -> (c: Calendar)
        ensures
            c.wf(),
            c@ == in_order(latest(views(list@))),
    {
        let ghost ev = views(list@);
        let mut rest = list;
        let mut c = Calendar::new();
        while rest.len() > 0
            invariant
                c.wf(),
                rest@.len() <= ev.len(),
                views(rest@) == ev.take(rest@.len() as int),
                forall|x: EventView| #[trigger] c@.contains(x) == latest_from(ev, rest@.len() as int, x),
                forall|k: Seq<char>| #[trigger] carries(c@, k) == uid_from(ev, rest@.len() as int, k),
            decreases rest@.len(),
        {
            let ghost n = rest@.len() - 1;
            let ghost rest0 = rest@;
            assert(views(rest0)[n] == ev[n]);
            let e = rest.pop().unwrap();
            assert(views(rest@) =~= ev.take(n));
            assert(e@ == ev[n]);
            let ghost before = c@;
            match find_uid(&c.events, &e.uid) {
                Some(p) => {
                    assert(c@[p as int].uid == e@.uid);
                    assert(c@.contains(c@[p as int]));
                    assert(carries(before, e@.uid));
                    assert forall|x: EventView| #[trigger] c@.contains(x) == latest_from(ev, n, x) by {
                        if ev[n] == x {
                            let w = choose|i: int| n + 1 <= i < ev.len() && ev[i].uid == e@.uid;
                            assert(ev[w].uid == x.uid);
                        }
                        if latest_from(ev, n, x) {
                            let w = choose|i: int|
                                n <= i < ev.len() && ev[i] == x && forall|j: int|
                                    i < j < ev.len() ==> ev[j].uid != x.uid;
                            if w == n {
                                let v = choose|i: int| n + 1 <= i < ev.len() && ev[i].uid == e@.uid;
                                assert(ev[v].uid == x.uid);
                            }
                            assert(latest_from(ev, n + 1, x));
                        }
                    }
                    assert forall|k: Seq<char>| #[trigger] carries(c@, k) == uid_from(ev, n, k) by {
                        if uid_from(ev, n, k) && k != e@.uid {
                            let w = choose|i: int| n <= i < ev.len() && ev[i].uid == k;
                            assert(w != n);
                            assert(uid_from(ev, n + 1, k));
                        }
                    }
                },
                None => {
                    assert forall|i: int| 0 <= i < c.events@.len() implies !(
                    c.events@[i]@.uid == e@.uid && c.events@[i]@.start == e@.start) by {
                        assert(c.events@[i]@.uid != e@.uid);
                    }
                    let p = c.add_new(e);
                    let ghost after = c@;
                    assert(after == before.insert(p as int, ev[n]));
                    assert(forall|i: int| 0 <= i < before.len() ==> before[i].uid != ev[n].uid);
                    proof {
                        lemma_insert_new(before, p as int, ev[n]);
                    }
                    assert(!uid_from(ev, n + 1, ev[n].uid)) by {
                        if uid_from(ev, n + 1, ev[n].uid) {
                            assert(carries(before, ev[n].uid));
                            let x = choose|x: EventView| before.contains(x) && x.uid == ev[n].uid;
                            let w = choose|w: int| 0 <= w < before.len() && before[w] == x;
                            assert(before[w].uid == ev[n].uid);
                        }
                    }
                    assert forall|x: EventView| #[trigger] after.contains(x) == latest_from(ev, n, x) by {
                        if x == ev[n] {
                            assert forall|j: int| n < j < ev.len() implies ev[j].uid != x.uid by {
                                if ev[j].uid == x.uid {
                                    assert(uid_from(ev, n + 1, x.uid));
                                }
                            }
                        }
                        if latest_from(ev, n, x) {
                            let w = choose|i: int|
                                n <= i < ev.len() && ev[i] == x && forall|j: int|
                                    i < j < ev.len() ==> ev[j].uid != x.uid;
                            if w != n {
                                assert(latest_from(ev, n + 1, x));
                            }
                        }
                    }
                    assert forall|k: Seq<char>| #[trigger] carries(after, k) == uid_from(ev, n, k) by {
                        if k == ev[n].uid {
                            assert(after.contains(ev[n]));
                        }
                        if carries(after, k) {
                            let x = choose|x: EventView| after.contains(x) && x.uid == k;
                            if x != ev[n] {
                                assert(carries(before, k));
                            }
                        }
                        if uid_from(ev, n, k) {
                            let w = choose|i: int| n <= i < ev.len() && ev[i].uid == k;
                            if w != n {
                                assert(uid_from(ev, n + 1, k));
                                assert(carries(before, k));
                                let x = choose|x: EventView| before.contains(x) && x.uid == k;
                                assert(after.contains(x));
                            }
                        }
                    }
                },
            }
        }
        proof {
            assert forall|x: EventView| c@.contains(x) == latest(ev).contains(x) by {
                assert(c@.contains(x) == latest_from(ev, 0, x));
            }
            lemma_in_order(c@, latest(ev));
        }
        c
    }
}

/// Whether the fetch has an event with the start and identifier of `e`.
fn is_fetched(incoming: &Vec<Arc<Event>>, e: &Event) -> (r: bool)
    ensures
        r == has_key(views(incoming@), e@),
{
    match find_key(incoming, e) {
        Some(q) => {
            assert(views(incoming@)[q as int].start == e@.start && views(incoming@)[q as int].uid
                == e@.uid);
            true
        },
        None => {
            assert forall|q: int| 0 <= q < views(incoming@).len() implies !(views(incoming@)[q].start
                == e@.start && views(incoming@)[q].uid == e@.uid) by {
                assert(incoming@[q]@ == views(incoming@)[q]);
            }
            false
        },
    }
}

/// The fetched events that count, in chronological order.
fn index_fetched(events: Vec<Event>) -> (r: Vec<Arc<Event>>)
    ensures
        lists(views(r@), survivors(event_views(events@))),
        forall|e: EventView| #[trigger] has_key(views(r@), e) == has_key(event_views(events@), e),
{
    let ghost ev = event_views(events@);
    let mut rest = events;
    let mut r: Vec<Arc<Event>> = Vec::new();
    assert(views(r@) =~= Seq::<EventView>::empty());
    while rest.len() > 0
        invariant
            chronological(views(r@)),
            rest@.len() <= ev.len(),
            event_views(rest@) == ev.take(rest@.len() as int),
            forall|x: EventView| #[trigger] views(r@).contains(x) == survives_from(ev, rest@.len() as int, x),
            forall|e: EventView| #[trigger] has_key(views(r@), e) == key_from(ev, rest@.len() as int, e),
        decreases rest@.len(),
    {
        let ghost n = rest@.len() - 1;
        let ghost rest0 = rest@;
        assert(event_views(rest0)[n] == ev[n]);
        let e = rest.pop().unwrap();
        assert(event_views(rest@) =~= ev.take(n));
        assert(e@ == ev[n]);
        let ghost before = views(r@);
        match find_key(&r, &e) {
            Some(p) => {
                assert(before[p as int].start == e@.start && before[p as int].uid == e@.uid);
                assert(has_key(before, e@));
                assert forall|x: EventView| #[trigger] before.contains(x) == survives_from(ev, n, x) by {
                    if ev[n] == x {
                        assert(has_key(before, x));
                        let w = choose|i: int| n + 1 <= i < ev.len() && ev[i].start == x.start && ev[i].uid == x.uid;
                        assert(ev[w].start == x.start && ev[w].uid == x.uid);
                    }
                    if survives_from(ev, n, x) {
                        let w = choose|i: int|
                            n <= i < ev.len() && ev[i] == x && forall|j: int|
                                i < j < ev.len() ==> !(ev[j].start == x.start && ev[j].uid == x.uid);
                        if w == n {
                            let v = choose|i: int| n + 1 <= i < ev.len() && ev[i].start == e@.start && ev[i].uid == e@.uid;
                            assert(ev[v].start == x.start && ev[v].uid == x.uid);
                        }
                        assert(survives_from(ev, n + 1, x));
                    }
                }
                assert forall|k: EventView| #[trigger] has_key(before, k) == key_from(ev, n, k) by {
                    if key_from(ev, n, k) && !(k.start == e@.start && k.uid == e@.uid) {
                        let w = choose|i: int| n <= i < ev.len() && ev[i].start == k.start && ev[i].uid == k.uid;
                        assert(w != n);
                        assert(key_from(ev, n + 1, k));
                    }
                    if k.start == e@.start && k.uid == e@.uid {
                        assert(key_from(ev, n, k));
                        assert(has_key(before, k));
                    }
                }
            },
            None => {
                let a = Arc::new(e);
                let p = insert_sorted(&mut r, a);
                let ghost after = views(r@);
                assert(!has_key(before, ev[n]));
                assert(!key_from(ev, n + 1, ev[n]));
                assert forall|x: EventView| #[trigger] after.contains(x) == (before.contains(x) || x == ev[n]) by {
                    if after.contains(x) {
                        let w = choose|w: int| 0 <= w < after.len() && after[w] == x;
                        if w < p {
                            assert(before[w] == x);
                        } else if w > p {
                            assert(before[w - 1] == x);
                        }
                    }
                    if before.contains(x) {
                        let w = choose|w: int| 0 <= w < before.len() && before[w] == x;
                        if w < p {
                            assert(after[w] == x);
                        } else {
                            assert(after[w + 1] == x);
                        }
                    }
                    if x == ev[n] {
                        assert(after[p as int] == x);
                    }
                }
                assert forall|x: EventView| #[trigger] after.contains(x) == survives_from(ev, n, x) by {
                    if x == ev[n] {
                        assert forall|j: int| n < j < ev.len() implies !(ev[j].start == x.start && ev[j].uid == x.uid) by {
                            if ev[j].start == x.start && ev[j].uid == x.uid {
                                assert(key_from(ev, n + 1, x));
                            }
                        }
                    }
                    if survives_from(ev, n, x) {
                        let w = choose|i: int|
                            n <= i < ev.len() && ev[i] == x && forall|j: int|
                                i < j < ev.len() ==> !(ev[j].start == x.start && ev[j].uid == x.uid);
                        if w != n {
                            assert(survives_from(ev, n + 1, x));
                        }
                    }
                }
                assert forall|k: EventView| #[trigger] has_key(after, k) == key_from(ev, n, k) by {
                    if k.start == ev[n].start && k.uid == ev[n].uid {
                        assert(after[p as int] == ev[n]);
                        assert(key_from(ev, n, k));
                    }
                    if has_key(after, k) {
                        let w = choose|j: int| 0 <= j < after.len() && after[j].start == k.start && after[j].uid == k.uid;
                        if w < p {
                            assert(before[w] == after[w]);
                            assert(has_key(before, k));
                        } else if w > p {
                            assert(before[w - 1] == after[w]);
                            assert(has_key(before, k));
                        }
                    }
                    if key_from(ev, n, k) {
                        let w = choose|i: int| n <= i < ev.len() && ev[i].start == k.start && ev[i].uid == k.uid;
                        if w != n {
                            assert(key_from(ev, n + 1, k));
                            assert(has_key(before, k));
                            let v = choose|j: int| 0 <= j < before.len() && before[j].start == k.start && before[j].uid == k.uid;
                            assert(after.contains(before[v]));
                            let u = choose|j: int| 0 <= j < after.len() && after[j] == before[v];
                            assert(has_key(after, k));
                        }
                    }
                }
            },
        }
    }
    proof {
        assert forall|x: EventView| views(r@).contains(x) == survivors(ev).contains(x) by {
            assert(views(r@).contains(x) == survives_from(ev, 0, x));
        }
        assert forall|e: EventView| #[trigger] has_key(views(r@), e) == has_key(ev, e) by {
            assert(has_key(views(r@), e) == key_from(ev, 0, e));
        }
    }
    r
}

/// The change is about the event with identifier `uid`.
pub open spec fn concerns(c: Change, uid: Seq<char>) -> bool {
    match c {
        Change::Created(x) => x.uid == uid,
        Change::Updated(_, x) => x.uid == uid,
        Change::Removed(x) => x.uid == uid,
    }
}

/// The fetch holds `e`, and no other version of its identifier.
pub open spec fn supplies(ev: Seq<EventView>, e: EventView) -> bool {
    ev.contains(e) && forall|j: int| 0 <= j < ev.len() && ev[j].uid == e.uid ==> ev[j] == e
}

/// Each identifier of the index maps to an event that carries it.
pub open spec fn keyed(m: Map<Seq<char>, EventView>) -> bool {
    m.dom().finite() && forall|k: Seq<char>| #[trigger] m.contains_key(k) ==> m[k].uid == k
}

proof fn lemma_index_keyed(s: Seq<EventView>)
    ensures
        keyed(index(s)),
{
    let uids = s.map_values(|x: EventView| x.uid).to_set();
    assert(index(s).dom().subset_of(uids)) by {
        assert forall|k: Seq<char>| index(s).dom().contains(k) implies uids.contains(k) by {
            let i = choose|i: int| 0 <= i < s.len() && s[i].uid == k;
            assert(s.map_values(|x: EventView| x.uid)[i] == k);
        }
    }
    vstd::set_lib::lemma_set_subset_finite(uids, index(s).dom());
}

proof fn lemma_keyed_values(m: Map<Seq<char>, EventView>)
    requires
        keyed(m),
    ensures
        m.values().finite(),
        keys_distinct(m.values()),
        forall|x: EventView| #[trigger] m.values().contains(x) ==> m.contains_key(x.uid) && m[x.uid] == x,
{
    vstd::map_lib::lemma_values_finite(m);
}

proof fn lemma_merge_keyed(m: Map<Seq<char>, EventView>, frontier: Option<Timestamp>, inc: Seq<EventView>)
    requires
        keyed(m),
    ensures
        keyed(merge(m, frontier, inc).0),
        forall|i: int| 0 <= i < merge(m, frontier, inc).1.len() ==> !(merge(m, frontier, inc).1[i] is Removed),
    decreases inc.len(),
{
    if inc.len() > 0 {
        lemma_merge_keyed(m, frontier, inc.drop_last());
    }
}

proof fn lemma_last_index(ev: Seq<EventView>, e: EventView, i: int) -> (l: int)
    requires
        0 <= i < ev.len(),
        ev[i] == e,
    ensures
        i <= l < ev.len(),
        ev[l] == e,
        forall|j: int| l < j < ev.len() ==> ev[j] != e,
    decreases ev.len() - i,
{
    if exists|j: int| i < j < ev.len() && ev[j] == e {
        let j = choose|j: int| i < j < ev.len() && ev[j] == e;
        lemma_last_index(ev, e, j)
    } else {
        i
    }
}

proof fn lemma_survivors(ev: Seq<EventView>)
    ensures
        survivors(ev).finite(),
        keys_distinct(survivors(ev)),
        forall|e: EventView| supplies(ev, e) ==> #[trigger] survivors(ev).contains(e),
        forall|e: EventView, x: EventView|
            #[trigger] supplies(ev, e) && #[trigger] survivors(ev).contains(x) && x.uid == e.uid ==> x
                == e,
{
    let sv = survivors(ev);
    assert(sv.subset_of(ev.to_set())) by {
        assert forall|x: EventView| sv.contains(x) implies ev.to_set().contains(x) by {
            let i = choose|i: int|
                0 <= i < ev.len() && ev[i] == x && forall|j: int|
                    i < j < ev.len() ==> !(ev[j].start == x.start && ev[j].uid == x.uid);
            assert(ev.contains(x));
        }
    }
    vstd::set_lib::lemma_set_subset_finite(ev.to_set(), sv);
    assert forall|x: EventView, y: EventView|
        #[trigger] sv.contains(x) && #[trigger] sv.contains(y) && x.start == y.start && x.uid == y.uid implies x == y by {
        let i = choose|i: int|
            0 <= i < ev.len() && ev[i] == x && forall|j: int|
                i < j < ev.len() ==> !(ev[j].start == x.start && ev[j].uid == x.uid);
        let k = choose|k: int|
            0 <= k < ev.len() && ev[k] == y && forall|j: int|
                k < j < ev.len() ==> !(ev[j].start == y.start && ev[j].uid == y.uid);
        if i < k {
            assert(!(ev[k].start == x.start && ev[k].uid == x.uid));
        } else if k < i {
            assert(!(ev[i].start == y.start && ev[i].uid == y.uid));
        }
    }
    assert forall|e: EventView| supplies(ev, e) implies #[trigger] sv.contains(e) by {
        let i = choose|i: int| 0 <= i < ev.len() && ev[i] == e;
        let l = lemma_last_index(ev, e, i);
        assert forall|j: int| l < j < ev.len() implies !(ev[j].start == e.start && ev[j].uid == e.uid) by {
            if ev[j].uid == e.uid {
                assert(ev[j] == e);
            }
        }
    }
    assert forall|e: EventView, x: EventView|
        #[trigger] supplies(ev, e) && #[trigger] sv.contains(x) && x.uid == e.uid implies x == e by {
        let i = choose|i: int|
            0 <= i < ev.len() && ev[i] == x && forall|j: int|
                i < j < ev.len() ==> !(ev[j].start == x.start && ev[j].uid == x.uid);
    }
}

/// Taking in events with other identifiers leaves identifier `u` alone.
proof fn lemma_merge_untouched(
    m: Map<Seq<char>, EventView>,
    frontier: Option<Timestamp>,
    inc: Seq<EventView>,
    u: Seq<char>,
)
    requires
        forall|i: int| 0 <= i < inc.len() ==> inc[i].uid != u,
    ensures
        merge(m, frontier, inc).0.contains_key(u) == m.contains_key(u),
        m.contains_key(u) ==> merge(m, frontier, inc).0[u] == m[u],
        forall|i: int| 0 <= i < merge(m, frontier, inc).1.len() ==> !concerns(#[trigger] merge(m, frontier, inc).1[i], u),
    decreases inc.len(),
{
    if inc.len() > 0 {
        lemma_merge_untouched(m, frontier, inc.drop_last(), u);
    }
}

/// Taking in an event that is already stored, unchanged, changes nothing
/// about its identifier.
proof fn lemma_merge_stable(
    m: Map<Seq<char>, EventView>,
    frontier: Option<Timestamp>,
    inc: Seq<EventView>,
    e: EventView,
)
    requires
        m.contains_key(e.uid),
        m[e.uid] == e,
        forall|i: int| 0 <= i < inc.len() && inc[i].uid == e.uid ==> inc[i] == e,
    ensures
        merge(m, frontier, inc).0.contains_key(e.uid),
        merge(m, frontier, inc).0[e.uid] == e,
        forall|i: int| 0 <= i < merge(m, frontier, inc).1.len() ==> !concerns(#[trigger] merge(m, frontier, inc).1[i], e.uid),
    decreases inc.len(),
{
    if inc.len() > 0 {
        lemma_merge_stable(m, frontier, inc.drop_last(), e);
    }
}

/// Taking in a new version `e` of the stored event `d` records exactly one
/// change about that identifier: the update from `d` to `e`.
proof fn lemma_merge_replace(
    m: Map<Seq<char>, EventView>,
    frontier: Option<Timestamp>,
    inc: Seq<EventView>,
    d: EventView,
    e: EventView,
)
    requires
        m.contains_key(e.uid),
        m[e.uid] == d,
        d != e,
        inc.contains(e),
        forall|i: int| 0 <= i < inc.len() && inc[i].uid == e.uid ==> inc[i] == e,
    ensures
        merge(m, frontier, inc).0.contains_key(e.uid),
        merge(m, frontier, inc).0[e.uid] == e,
        exists|i: int|
            0 <= i < merge(m, frontier, inc).1.len() && merge(m, frontier, inc).1[i] == Change::Updated(d, e)
                && forall|j: int|
                0 <= j < merge(m, frontier, inc).1.len() && j != i ==> !concerns(
                    #[trigger] merge(m, frontier, inc).1[j],
                    e.uid,
                ),
    decreases inc.len(),
{
    let prev = inc.drop_last();
    let out = merge(m, frontier, inc).1;
    if prev.contains(e) {
        lemma_merge_replace(m, frontier, prev, d, e);
        let p = merge(m, frontier, prev);
        let i = choose|i: int|
            0 <= i < p.1.len() && p.1[i] == Change::Updated(d, e) && forall|j: int|
                0 <= j < p.1.len() && j != i ==> !concerns(#[trigger] p.1[j], e.uid);
        let l = inc.last();
        assert(merge(m, frontier, inc) == merge_step(p.0, p.1, frontier, l));
        if l.uid == e.uid {
            assert(l == e);
            assert(out == p.1);
        } else {
            assert(out == p.1 || (out == p.1.push(out.last()) && concerns(out.last(), l.uid)));
        }
        assert(out[i] == Change::Updated(d, e));
        assert forall|j: int| 0 <= j < out.len() && j != i implies !concerns(#[trigger] out[j], e.uid) by {
            if j < p.1.len() {
                assert(out[j] == p.1[j]);
            }
        }
        assert(0 <= i < out.len() && out[i] == Change::Updated(d, e) && forall|j: int|
            0 <= j < out.len() && j != i ==> !concerns(#[trigger] out[j], e.uid));
    } else {
        assert(inc.last() == e) by {
            let w = choose|w: int| 0 <= w < inc.len() && inc[w] == e;
            if w < inc.len() - 1 {
                assert(prev[w] == e);
            }
        }
        assert forall|i: int| 0 <= i < prev.len() implies prev[i].uid != e.uid by {
            if prev[i].uid == e.uid {
                assert(inc[i] == e);
            }
        }
        lemma_merge_untouched(m, frontier, prev, e.uid);
        let p = merge(m, frontier, prev);
        let i = p.1.len() as int;
        assert(out == p.1.push(Change::Updated(d, e)));
        assert forall|j: int| 0 <= j < out.len() && j != i implies !concerns(#[trigger] out[j], e.uid) by {
            assert(out[j] == p.1[j]);
        }
        assert(0 <= i < out.len() && out[i] == Change::Updated(d, e) && forall|j: int|
            0 <= j < out.len() && j != i ==> !concerns(#[trigger] out[j], e.uid));
    }
}

/// The removals of a reconciliation spare every stored event that the fetch
/// lists with the same start and identifier.
proof fn lemma_removals_spare(
    m: Map<Seq<char>, EventView>,
    ev: Seq<EventView>,
    fetch_time: int,
    until: int,
    e: EventView,
)
    requires
        keyed(m),
        m.contains_key(e.uid),
        m[e.uid] == e,
        has_key(ev, e),
    ensures
        forall|i: int|
            0 <= i < removals(in_order(m.values()).filter(doomed(ev, fetch_time, until))).len()
                ==> !concerns(
                #[trigger] removals(in_order(m.values()).filter(doomed(ev, fetch_time, until)))[i],
                e.uid,
            ),
{
    lemma_keyed_values(m);
    lemma_listable(m.values());
    let listed = in_order(m.values());
    let gone = listed.filter(doomed(ev, fetch_time, until));
    assert forall|i: int| 0 <= i < removals(gone).len() implies !concerns(#[trigger] removals(gone)[i], e.uid) by {
        listed.lemma_filter_pred(doomed(ev, fetch_time, until), i);
        let x = gone[i];
        assert(removals(gone)[i] == Change::Removed(x));
        assert(doomed(ev, fetch_time, until)(x));
        assert(gone.contains(x));
        listed.lemma_filter_contains_rev(doomed(ev, fetch_time, until), x);
        assert(listed.contains(x));
        assert(m.values().contains(x));
        if x.uid == e.uid {
            assert(x == e);
        }
    }
}

/// An event that is stored and fetched again unchanged (and with no other
/// version of its identifier in the fetch) gives no change at all.
pub proof fn lemma_unchanged_event_is_silent(
    old: Seq<EventView>,
    ev: Seq<EventView>,
    fetch_time: int,
    until: int,
    e: EventView,
)
    requires
        chronological(old),
        distinct_uids(old),
        old.contains(e),
        supplies(ev, e),
    ensures
        forall|i: int|
            0 <= i < reconciled(old, ev, fetch_time, until).1.len() ==> !concerns(
                #[trigger] reconciled(old, ev, fetch_time, until).1[i],
                e.uid,
            ),
{
    lemma_index(old);
    lemma_index_keyed(old);
    lemma_survivors(ev);
    lemma_listable(survivors(ev));
    let inc = in_order(survivors(ev));
    assert forall|i: int| 0 <= i < inc.len() && inc[i].uid == e.uid implies inc[i] == e by {
        assert(inc.contains(inc[i]));
        assert(survivors(ev).contains(inc[i]));
    }
    let w = choose|w: int| 0 <= w < old.len() && old[w] == e;
    assert(index(old)[old[w].uid] == old[w]);
    lemma_merge_stable(index(old), frontier_of(old), inc, e);
    lemma_merge_keyed(index(old), frontier_of(old), inc);
    let merged = merge(index(old), frontier_of(old), inc);
    let j = choose|j: int| 0 <= j < ev.len() && ev[j] == e;
    assert(has_key(ev, e));
    lemma_removals_spare(merged.0, ev, fetch_time, until, e);
    let cs = reconciled(old, ev, fetch_time, until).1;
    let rm = removals(in_order(merged.0.values()).filter(doomed(ev, fetch_time, until)));
    assert(cs == merged.1 + rm);
    assert forall|i: int| 0 <= i < cs.len() implies !concerns(#[trigger] cs[i], e.uid) by {
        if i < merged.1.len() {
            assert(cs[i] == merged.1[i]);
        } else {
            assert(cs[i] == rm[i - merged.1.len()]);
        }
    }
}

/// A fetched event whose stored version `d` differs in any field gives
/// exactly one change about its identifier: the update from `d` to it.
pub proof fn lemma_changed_event_is_updated(
    old: Seq<EventView>,
    ev: Seq<EventView>,
    fetch_time: int,
    until: int,
    d: EventView,
    e: EventView,
)
    requires
        chronological(old),
        distinct_uids(old),
        old.contains(d),
        d.uid == e.uid,
        d != e,
        supplies(ev, e),
    ensures
        exists|i: int|
            0 <= i < reconciled(old, ev, fetch_time, until).1.len() && reconciled(
                old,
                ev,
                fetch_time,
                until,
            ).1[i] == Change::Updated(d, e) && forall|j: int|
                0 <= j < reconciled(old, ev, fetch_time, until).1.len() && j != i ==> !concerns(
                    #[trigger] reconciled(old, ev, fetch_time, until).1[j],
                    e.uid,
                ),
{
    lemma_index(old);
    lemma_index_keyed(old);
    lemma_survivors(ev);
    lemma_listable(survivors(ev));
    let inc = in_order(survivors(ev));
    assert forall|i: int| 0 <= i < inc.len() && inc[i].uid == e.uid implies inc[i] == e by {
        assert(inc.contains(inc[i]));
        assert(survivors(ev).contains(inc[i]));
    }
    assert(survivors(ev).contains(e));
    assert(inc.contains(e));
    let w = choose|w: int| 0 <= w < old.len() && old[w] == d;
    assert(index(old)[old[w].uid] == old[w]);
    lemma_merge_replace(index(old), frontier_of(old), inc, d, e);
    lemma_merge_keyed(index(old), frontier_of(old), inc);
    let merged = merge(index(old), frontier_of(old), inc);
    let j = choose|j: int| 0 <= j < ev.len() && ev[j] == e;
    assert(has_key(ev, e));
    lemma_removals_spare(merged.0, ev, fetch_time, until, e);
    let cs = reconciled(old, ev, fetch_time, until).1;
    let rm = removals(in_order(merged.0.values()).filter(doomed(ev, fetch_time, until)));
    assert(cs == merged.1 + rm);
    let i = choose|i: int|
        0 <= i < merged.1.len() && merged.1[i] == Change::Updated(d, e) && forall|j: int|
            0 <= j < merged.1.len() && j != i ==> !concerns(#[trigger] merged.1[j], e.uid);
    assert(cs[i] == Change::Updated(d, e));
    assert forall|k: int| 0 <= k < cs.len() && k != i implies !concerns(#[trigger] cs[k], e.uid) by {
        if k < merged.1.len() {
            assert(cs[k] == merged.1[k]);
        } else {
            assert(cs[k] == rm[k - merged.1.len()]);
        }
    }
}

/// A reconciliation removes only events that start in the deletion window
/// `[fetch_time, until)`: stored events outside it are never removed,
/// whether or not the fetch still lists them.
pub proof fn lemma_removals_within_window(
    old: Seq<EventView>,
    ev: Seq<EventView>,
    fetch_time: int,
    until: int,
)
    ensures
        forall|i: int|
            0 <= i < reconciled(old, ev, fetch_time, until).1.len() ==> match #[trigger] reconciled(
                old,
                ev,
                fetch_time,
                until,
            ).1[i] {
                Change::Removed(x) => fetch_time <= x.start < until,
                _ => true,
            },
{
    let inc = in_order(survivors(ev));
    let merged = merge(index(old), frontier_of(old), inc);
    let listed = in_order(merged.0.values());
    let gone = listed.filter(doomed(ev, fetch_time, until));
    let cs = reconciled(old, ev, fetch_time, until).1;
    lemma_index_keyed(old);
    lemma_merge_keyed(index(old), frontier_of(old), inc);
    assert(cs == merged.1 + removals(gone));
    assert forall|i: int| 0 <= i < cs.len() implies match #[trigger] cs[i] {
        Change::Removed(x) => fetch_time <= x.start < until,
        _ => true,
    } by {
        if i >= merged.1.len() {
            let g = i - merged.1.len();
            listed.lemma_filter_pred(doomed(ev, fetch_time, until), g);
            assert(cs[i] == Change::Removed(gone[g]));
            assert(doomed(ev, fetch_time, until)(gone[g]));
        } else {
            assert(cs[i] == merged.1[i]);
        }
    }
}

/// A range query lists exactly the stored events that start in
/// `[from, until)`, in chronological order.
pub proof fn lemma_range_query(s: Seq<EventView>, from: int, until: int)
    requires
        chronological(s),
        distinct_uids(s),
    ensures
        chronological(s.filter(in_window(from, until))),
        forall|x: EventView|
            #[trigger] s.filter(in_window(from, until)).contains(x) == (s.contains(x) && from <= x.start
                < until),
{
    lemma_filter_ordered(s, in_window(from, until));
}

/// Asking twice for the same range of an unchanged calendar gives the same
/// events in the same order.
pub proof fn lemma_range_repeatable(
    s: Seq<EventView>,
    from: int,
    until: int,
    first: Seq<Arc<Event>>,
    second: Seq<Arc<Event>>,
)
    requires
        views(first) == s.filter(in_window(from, until)),
        views(second) == s.filter(in_window(from, until)),
    ensures
        views(first) == views(second),
{
}

/// A calendar rebuilt from its own listing is the same calendar.
pub proof fn lemma_rebuild(s: Seq<EventView>)
    requires
        chronological(s),
        distinct_uids(s),
    ensures
        in_order(latest(s)) == s,
{
    assert forall|x: EventView| s.contains(x) == latest(s).contains(x) by {
        if s.contains(x) {
            let i = choose|i: int| 0 <= i < s.len() && s[i] == x;
            assert forall|j: int| i < j < s.len() implies s[j].uid != x.uid by {
                assert(s[i].uid != s[j].uid);
            }
        }
    }
    lemma_in_order(s, latest(s));
}

/// Some entry of `ev` at position `n` or later has the start and identifier
/// of `e`.
spec fn key_from(ev: Seq<EventView>, n: int, e: EventView) -> bool {
    exists|i: int| n <= i < ev.len() && ev[i].start == e.start && ev[i].uid == e.uid
}

/// `x` is an entry of `ev` at position `n` or later that no later entry with
/// the same start and identifier overrides.
spec fn survives_from(ev: Seq<EventView>, n: int, x: EventView) -> bool {
    exists|i: int|
        n <= i < ev.len() && ev[i] == x && forall|j: int|
            i < j < ev.len() ==> !(ev[j].start == x.start && ev[j].uid == x.uid)
}

/// Some event of `s` has identifier `k`.
spec fn carries(s: Seq<EventView>, k: Seq<char>) -> bool {
    exists|x: EventView| s.contains(x) && x.uid == k
}

/// Some entry of `ev` at position `n` or later has identifier `k`.
spec fn uid_from(ev: Seq<EventView>, n: int, k: Seq<char>) -> bool {
    exists|i: int| n <= i < ev.len() && ev[i].uid == k
}

/// `x` is an entry of `ev` at position `n` or later that no later entry
/// overrides.
spec fn latest_from(ev: Seq<EventView>, n: int, x: EventView) -> bool {
    exists|i: int|
        n <= i < ev.len() && ev[i] == x && forall|j: int| i < j < ev.len() ==> ev[j].uid != x.uid
}

} // verus!
