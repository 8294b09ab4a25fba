//! The store: every calendar, by name, and the single entry point that
//! reconciles one of them with a fetch.
use std::sync::Arc;
use vstd::prelude::*;

use crate::calendar::{changes, event_views, latest, lemma_rebuild, reconciled, Calendar};
use crate::cfg::{first_named, is_named, CalendarItem, Config};
use crate::event::{same_text, Change, Event, EventView, Timestamp, UpdateResult};
use crate::horizon::{deletion_end, horizon_of, UpdateError};
use crate::timeline::{chronological, distinct_uids, in_order, views};

verus! {

/// Why the store could not apply a fetch.
#[derive(Debug, Clone, Copy, PartialEq, Eq)]
pub enum StoreError {
    /// The configuration has no calendar of that name.
    UnknownCalendar,
    /// The calendar could not be reconciled.
    Update(UpdateError),
}

/// What a persisted store holds: a name and the events of each calendar.
pub open spec fn saved_view(saved: Seq<(String, Vec<Arc<Event>>)>) -> Seq<(Seq<char>, Seq<EventView>)> {
    saved.map_values(|p: (String, Vec<Arc<Event>>)| (p.0@, views(p.1@)))
}

/// The calendars rebuilt from persisted entries; a later entry of the same
/// name replaces an earlier one.
pub open spec fn restored(sv: Seq<(Seq<char>, Seq<EventView>)>) -> Map<Seq<char>, Seq<EventView>>
    decreases sv.len(),
{
    if sv.len() == 0 {
        Map::empty()
    } else {
        restored(sv.drop_last()).insert(sv.last().0, in_order(latest(sv.last().1)))
    }
}

/// Every calendar is in chronological order with unique identifiers.
pub open spec fn calendars_wf(m: Map<Seq<char>, Seq<EventView>>) -> bool {
    forall|k: Seq<char>|
        #[trigger] m.contains_key(k) ==> chronological(m[k]) && distinct_uids(m[k])
}

/// `sv` lists each calendar of `m` once, with its events in order.
pub open spec fn is_snapshot(m: Map<Seq<char>, Seq<EventView>>, sv: Seq<(Seq<char>, Seq<EventView>)>) -> bool {
    &&& forall|i: int, j: int| 0 <= i < j < sv.len() ==> #[trigger] sv[i].0 != #[trigger] sv[j].0
    &&& forall|i: int| 0 <= i < sv.len() ==> #[trigger] m.contains_key(sv[i].0) && m[sv[i].0] == sv[i].1
    &&& forall|k: Seq<char>| #[trigger] m.contains_key(k) ==> exists|i: int| 0 <= i < sv.len() && sv[i].0 == k
}

/// The events of calendar `name` (none when there is no such calendar).
pub open spec fn stored(m: Map<Seq<char>, Seq<EventView>>, name: Seq<char>) -> Seq<EventView> {
    if m.contains_key(name) {
        m[name]
    } else {
        Seq::empty()
    }
}

/// The settings of the calendar called `name`, if the configuration has one.
pub open spec fn configured(config: Config, name: Seq<char>) -> Option<CalendarItem> {
    if is_named(config.calendar.calendars@, name) {
        Some(config.calendar.calendars@[first_named(config.calendar.calendars@, name)].1)
    } else {
        None
    }
}

/// Persisting a store and rebuilding it from what was persisted gives back
/// the same calendars under the same names, so range queries and identity
/// lookups answer as before.
pub proof fn lemma_round_trip(m: Map<Seq<char>, Seq<EventView>>, sv: Seq<(Seq<char>, Seq<EventView>)>)
    requires
        calendars_wf(m),
        is_snapshot(m, sv),
    ensures
        restored(sv) == m,
    decreases sv.len(),
{
    if sv.len() == 0 {
        assert(m =~= Map::<Seq<char>, Seq<EventView>>::empty()) by {
            assert forall|k: Seq<char>| !m.contains_key(k) by {
                if m.contains_key(k) {
                    let i = choose|i: int| 0 <= i < sv.len() && sv[i].0 == k;
                }
            }
        }
    } else {
        let n = sv.len() - 1;
        let k = sv[n].0;
        let m2 = m.remove(k);
        let sv2 = sv.drop_last();
        assert(m.contains_key(sv[n].0) && m[sv[n].0] == sv[n].1);
        assert forall|i: int, j: int| 0 <= i < j < sv2.len() implies #[trigger] sv2[i].0 != #[trigger] sv2[j].0 by {
            assert(sv[i].0 != sv[j].0);
        }
        assert forall|i: int| 0 <= i < sv2.len() implies #[trigger] m2.contains_key(sv2[i].0) && m2[sv2[i].0]
            == sv2[i].1 by {
            assert(sv[i].0 != sv[n].0);
            assert(m.contains_key(sv[i].0) && m[sv[i].0] == sv[i].1);
        }
        assert forall|q: Seq<char>| #[trigger] m2.contains_key(q) implies exists|i: int|
            0 <= i < sv2.len() && sv2[i].0 == q by {
            assert(m.contains_key(q));
            let i = choose|i: int| 0 <= i < sv.len() && sv[i].0 == q;
            assert(i != n);
            assert(sv2[i].0 == q);
        }
        assert forall|q: Seq<char>| #[trigger] m2.contains_key(q) implies chronological(m2[q]) && distinct_uids(m2[q]) by {
            assert(m.contains_key(q));
        }
        lemma_round_trip(m2, sv2);
        lemma_rebuild(sv[n].1);
        assert(restored(sv) == restored(sv2).insert(k, in_order(latest(sv[n].1))));
        assert(restored(sv) =~= m);
    }
}

/// What `apply` does to the calendars `m`: the calendars afterwards and the
/// changes, or the error.
pub open spec fn applied(
    m: Map<Seq<char>, Seq<EventView>>,
    config: Config,
    name: Seq<char>,
    ev: Seq<EventView>,
    fetch_time: int,
) -> Result<(Map<Seq<char>, Seq<EventView>>, Seq<Change>), StoreError> {
    match configured(config, name) {
        None => Err(StoreError::UnknownCalendar),
        Some(item) => match deletion_end(fetch_time, item.time_amount@) {
            None => Err(
                StoreError::Update(
                    if horizon_of(item.time_amount@) is None {
                        UpdateError::InvalidTimeAmount
                    } else {
                        UpdateError::WindowOverflow
                    },
                ),
            ),
            Some(end) => {
                let done = reconciled(stored(m, name), ev, fetch_time, end);
                Ok((m.insert(name, done.0), done.1))
            },
        },
    }
}

spec fn names_distinct(d: Seq<(String, Calendar)>) -> bool {
    forall|i: int, j: int| 0 <= i < j < d.len() ==> #[trigger] d[i].0@ != #[trigger] d[j].0@
}

spec fn catalog(d: Seq<(String, Calendar)>) -> Map<Seq<char>, Seq<EventView>> {
    Map::new(
        |k: Seq<char>| exists|i: int| 0 <= i < d.len() && d[i].0@ == k,
        |k: Seq<char>| d[choose|i: int| 0 <= i < d.len() && d[i].0@ == k].1@,
    )
}

proof fn lemma_catalog_at(d: Seq<(String, Calendar)>)
    requires
        names_distinct(d),
    ensures
        forall|i: int|
            0 <= i < d.len() ==> #[trigger] catalog(d).contains_key(d[i].0@) && catalog(d)[d[i].0@]
                == d[i].1@,
{
    assert forall|i: int| 0 <= i < d.len() implies #[trigger] catalog(d).contains_key(d[i].0@)
        && catalog(d)[d[i].0@] == d[i].1@ by {
        let k = d[i].0@;
        assert(exists|j: int| 0 <= j < d.len() && d[j].0@ == k);
        let j = choose|j: int| 0 <= j < d.len() && d[j].0@ == k;
        if j < i {
            assert(d[j].0@ != d[i].0@);
        } else if j > i {
            assert(d[i].0@ != d[j].0@);
        }
    }
}

/// Replacing the calendar of the entry at `p` changes that name alone.
proof fn lemma_catalog_update(d: Seq<(String, Calendar)>, p: int, entry: (String, Calendar))
    requires
        names_distinct(d),
        0 <= p < d.len(),
        entry.0@ == d[p].0@,
    ensures
        names_distinct(d.update(p, entry)),
        catalog(d.update(p, entry)) == catalog(d).insert(entry.0@, entry.1@),
{
    let e = d.update(p, entry);
    assert forall|a: int, b: int| 0 <= a < b < e.len() implies #[trigger] e[a].0@ != #[trigger] e[b].0@ by {
        assert(d[a].0@ != d[b].0@);
    }
    lemma_catalog_at(d);
    lemma_catalog_at(e);
    let m = catalog(d).insert(entry.0@, entry.1@);
    assert forall|n: Seq<char>| #[trigger] catalog(e).contains_key(n) == m.contains_key(n) by {
        if catalog(e).contains_key(n) {
            let i = choose|i: int| 0 <= i < e.len() && e[i].0@ == n;
            assert(catalog(d).contains_key(d[i].0@));
        }
        if catalog(d).contains_key(n) {
            let i = choose|i: int| 0 <= i < d.len() && d[i].0@ == n;
            assert(catalog(e).contains_key(e[i].0@));
        }
        assert(catalog(e).contains_key(e[p].0@));
    }
    assert forall|n: Seq<char>| #[trigger] catalog(e).contains_key(n) implies catalog(e)[n] == m[n] by {
        let i = choose|i: int| 0 <= i < e.len() && e[i].0@ == n;
        assert(catalog(e)[e[i].0@] == e[i].1@);
        if i != p {
            assert(catalog(d)[d[i].0@] == d[i].1@);
        }
    }
    assert(catalog(e) =~= m);
}

/// Adding an entry under a new name changes that name alone.
proof fn lemma_catalog_push(d: Seq<(String, Calendar)>, entry: (String, Calendar))
    requires
        names_distinct(d),
        forall|i: int| 0 <= i < d.len() ==> d[i].0@ != entry.0@,
    ensures
        names_distinct(d.push(entry)),
        catalog(d.push(entry)) == catalog(d).insert(entry.0@, entry.1@),
{
    let e = d.push(entry);
    let p = d.len() as int;
    assert forall|a: int, b: int| 0 <= a < b < e.len() implies #[trigger] e[a].0@ != #[trigger] e[b].0@ by {
        if b < p {
            assert(d[a].0@ != d[b].0@);
        }
    }
    lemma_catalog_at(d);
    lemma_catalog_at(e);
    let m = catalog(d).insert(entry.0@, entry.1@);
    assert forall|n: Seq<char>| #[trigger] catalog(e).contains_key(n) == m.contains_key(n) by {
        if catalog(e).contains_key(n) {
            let i = choose|i: int| 0 <= i < e.len() && e[i].0@ == n;
            if i < p {
                assert(catalog(d).contains_key(d[i].0@));
            }
        }
        if catalog(d).contains_key(n) {
            let i = choose|i: int| 0 <= i < d.len() && d[i].0@ == n;
            assert(catalog(e).contains_key(e[i].0@));
        }
        assert(catalog(e).contains_key(e[p].0@));
    }
    assert forall|n: Seq<char>| #[trigger] catalog(e).contains_key(n) implies catalog(e)[n] == m[n] by {
        let i = choose|i: int| 0 <= i < e.len() && e[i].0@ == n;
        assert(catalog(e)[e[i].0@] == e[i].1@);
        if i != p {
            assert(catalog(d)[d[i].0@] == d[i].1@);
        }
    }
    assert(catalog(e) =~= m);
}

/// The position of the calendar called `name`.
fn position(data: &Vec<(String, Calendar)>, name: &str) -> (r: Option<usize>)
    ensures
        match r {
            Some(p) => p < data@.len() && data@[p as int].0@ == name@,
            None => forall|j: int| 0 <= j < data@.len() ==> data@[j].0@ != name@,
        },
{
    let mut i: usize = 0;
    while i < data.len()
        invariant
            0 <= i <= data@.len(),
            forall|j: int| 0 <= j < i ==> data@[j].0@ != name@,
        decreases data@.len() - i,
    {
        if same_text(data[i].0.as_str(), name) {
            return Some(i);
        }
        i = i + 1;
    }
    None
}

/// Every calendar, by name, with the configuration that says how far ahead
/// each feed is authoritative.
///
/// A store is shared by readers and one writer: callers hold it behind a
/// reader/writer lock and take the write side for `apply`, so readers see a
/// calendar either before or after a reconciliation, never during one.
pub struct Store {
    data: Vec<(String, Calendar)>,
    config: Config,
}

impl View for Store {
    type V = Map<Seq<char>, Seq<EventView>>;

    /// Each calendar's events, in chronological order, by name.
    closed spec fn view(&self) -> Map<Seq<char>, Seq<EventView>> {
        catalog(self.data@)
    }
}

impl Store {
    /// Names are unique and every calendar is well formed.
    pub closed spec fn wf(&self) -> bool {
        names_distinct(self.data@) && forall|i: int|
            0 <= i < self.data@.len() ==> (#[trigger] self.data@[i]).1.wf()
    }

    /// The configuration the store applies fetches with.
    pub closed spec fn settings(&self) -> Config {
        self.config
    }

    /// A well-formed store holds well-formed calendars.
    pub proof fn lemma_wf(&self)
        requires
            self.wf(),
        ensures
            calendars_wf(self@),
    {
        lemma_catalog_at(self.data@);
        assert forall|k: Seq<char>| #[trigger] self@.contains_key(k) implies chronological(self@[k])
            && distinct_uids(self@[k]) by {
            let i = choose|i: int| 0 <= i < self.data@.len() && self.data@[i].0@ == k;
            assert(self.data@[i].1.wf());
        }
    }

    /// Rebuilds the store from persisted entries (none when nothing was
    /// persisted yet); both indices of each calendar are rebuilt from its
    /// events.
    pub fn new(config: Config, saved: Vec<(String, Vec<Arc<Event>>)>) -> (s: Store)
        ensures
            s.wf(),
            s@ == restored(saved_view(saved@)),
            s.settings() == config,
    {
        let ghost sv = saved_view(saved@);
        let mut rest = saved;
        let mut data: Vec<(String, Calendar)> = Vec::new();
        let ghost total = sv.len();
        assert(sv.take(0) =~= Seq::<(Seq<char>, Seq<EventView>)>::empty());
        assert(catalog(data@) =~= Map::<Seq<char>, Seq<EventView>>::empty());
        while rest.len() > 0
            invariant
                rest@.len() <= total,
                total == sv.len(),
                saved_view(rest@) == sv.subrange(total - rest@.len(), total as int),
                names_distinct(data@),
                forall|i: int| 0 <= i < data@.len() ==> (#[trigger] data@[i]).1.wf(),
                catalog(data@) == restored(sv.take(total - rest@.len())),
            decreases rest@.len(),
        {
            let ghost n = total - rest@.len();
            let ghost rest0 = rest@;
            assert(saved_view(rest0)[0] == sv[n]);
            let (name, events) = rest.remove(0);
            assert forall|j: int| 0 <= j < rest@.len() implies saved_view(rest@)[j] == saved_view(rest0)[j + 1] by {
                assert(rest@[j] == rest0[j + 1]);
            }
            assert(saved_view(rest@) =~= sv.subrange(n + 1, total as int));
            assert(sv.take(n + 1).drop_last() =~= sv.take(n));
            assert(sv.take(n + 1).last() == sv[n]);
            let cal = Calendar::from_events(events);
            let ghost d = data@;
            match position(&data, name.as_str()) {
                Some(i) => {
                    let _ = data.remove(i);
                    data.insert(i, (name, cal));
                    let ghost e = data@;
                    assert(e =~= d.update(i as int, e[i as int]));
                    proof {
                        lemma_catalog_update(d, i as int, e[i as int]);
                    }
                },
                None => {
                    data.push((name, cal));
                    let ghost e = data@;
                    assert(e =~= d.push(e[d.len() as int]));
                    proof {
                        lemma_catalog_push(d, e[d.len() as int]);
                    }
                },
            }
            assert forall|i: int| 0 <= i < data@.len() implies (#[trigger] data@[i]).1.wf() by {
                if i < d.len() && data@[i] == d[i] {
                    assert(d[i].1.wf());
                }
            }
        }
        assert(sv.take(total as int) =~= sv);
        Store { data, config }
    }

    /// The configuration the store applies fetches with.
    pub fn config(&self) -> (r: &Config)
        ensures
            *r == self.settings(),
    {
        &self.config
    }

    /// The calendar called `name`.
    pub fn get(&self, name: &str) -> (r: Option<&Calendar>)
        requires
            self.wf(),
        ensures
            match r {
                Some(c) => self@.contains_key(name@) && c@ == self@[name@] && c.wf(),
                None => !self@.contains_key(name@),
            },
    {
        proof {
            lemma_catalog_at(self.data@);
        }
        match position(&self.data, name) {
            Some(p) => {
                assert(self.data@[p as int].1.wf());
                Some(&self.data[p].1)
            },
            None => {
                assert(!self@.contains_key(name@)) by {
                    if self@.contains_key(name@) {
                        let j = choose|j: int| 0 <= j < self.data@.len() && self.data@[j].0@ == name@;
                    }
                }
                None
            },
        }
    }

    /// Reconciles the calendar called `name` (created empty if the store
    /// has none yet) with the full list of events of a fetch made at
    /// `fetch_time`, using that calendar's configured `time_amount`.
    /// Returns the changes; other calendars are untouched, and on error the
    /// store is left as it was.
    pub fn apply(&mut self, name: &str, events: Vec<Event>, fetch_time: Timestamp) -> (r: Result<Vec<UpdateResult>, StoreError>)
        requires
            old(self).wf(),
        ensures
            final(self).wf(),
            final(self).settings() == old(self).settings(),
            match applied(old(self)@, old(self).settings(), name@, event_views(events@), fetch_time as int) {
                Ok(done) => r is Ok && changes(r->Ok_0@) == done.1 && final(self)@ == done.0,
                Err(e) => r == Err::<Vec<UpdateResult>, StoreError>(e) && final(self)@ == old(self)@,
            },
    {
        proof {
            lemma_catalog_at(self.data@);
        }
        let item = match self.config.calendar.get(name) {
            Some(item) => item,
            None => return Err(StoreError::UnknownCalendar),
        };
        let ghost d = self.data@;
        match position(&self.data, name) {
            Some(p) => {
                let (key, mut cal) = self.data.remove(p);
                assert(cal == d[p as int].1);
                assert(cal@ == stored(catalog(d), name@));
                assert(cal.wf());
                let r = cal.update(events, fetch_time, item);
                self.data.insert(p, (key, cal));
                let ghost e = self.data@;
                assert(e =~= d.update(p as int, e[p as int]));
                proof {
                    lemma_catalog_update(d, p as int, e[p as int]);
                }
                assert forall|i: int| 0 <= i < e.len() implies (#[trigger] e[i]).1.wf() by {
                    if i != p {
                        assert(e[i] == d[i]);
                        assert(d[i].1.wf());
                    }
                }
                match r {
                    Ok(v) => Ok(v),
                    Err(err) => {
                        assert(catalog(e) =~= catalog(d));
                        Err(StoreError::Update(err))
                    },
                }
            },
            None => {
                assert(!catalog(d).contains_key(name@)) by {
                    if catalog(d).contains_key(name@) {
                        let j = choose|j: int| 0 <= j < d.len() && d[j].0@ == name@;
                    }
                }
                let mut cal = Calendar::new();
                assert(cal@ == stored(catalog(d), name@));
                match cal.update(events, fetch_time, item) {
                    Ok(v) => {
                        self.data.push((name.to_owned(), cal));
                        let ghost e = self.data@;
                        assert(e =~= d.push(e[d.len() as int]));
                        proof {
                            lemma_catalog_push(d, e[d.len() as int]);
                        }
                        assert forall|i: int| 0 <= i < e.len() implies (#[trigger] e[i]).1.wf() by {
                            if i < d.len() {
                                assert(e[i] == d[i]);
                                assert(d[i].1.wf());
                            }
                        }
                        Ok(v)
                    },
                    Err(err) => Err(StoreError::Update(err)),
                }
            },
        }
    }

    /// Each calendar's name and events, once per name: what is persisted of
    /// the store.
    pub fn snapshot(&self) -> (r: Vec<(String, Vec<Arc<Event>>)>)
        requires
            self.wf(),
        ensures
            is_snapshot(self@, saved_view(r@)),
    {
        proof {
            lemma_catalog_at(self.data@);
        }
        let mut r: Vec<(String, Vec<Arc<Event>>)> = Vec::new();
        let mut i: usize = 0;
        while i < self.data.len()
            invariant
                0 <= i <= self.data@.len(),
                names_distinct(self.data@),
                forall|j: int|
                    0 <= j < self.data@.len() ==> #[trigger] catalog(self.data@).contains_key(self.data@[j].0@)
                        && catalog(self.data@)[self.data@[j].0@] == self.data@[j].1@,
                saved_view(r@).len() == i,
                forall|j: int| 0 <= j < i ==> #[trigger] saved_view(r@)[j] == (self.data@[j].0@, self.data@[j].1@),
            decreases self.data@.len() - i,
        {
            let name = self.data[i].0.clone();
            let events = self.data[i].1.events();
            let ghost r0 = r@;
            r.push((name, events));
            assert(saved_view(r@) =~= saved_view(r0).push((self.data@[i as int].0@, self.data@[i as int].1@)));
            i = i + 1;
        }
        let ghost sv = saved_view(r@);
        assert forall|a: int, b: int| 0 <= a < b < sv.len() implies #[trigger] sv[a].0 != #[trigger] sv[b].0 by {
            assert(sv[a] == (self.data@[a].0@, self.data@[a].1@));
            assert(sv[b] == (self.data@[b].0@, self.data@[b].1@));
        }
        assert forall|k: Seq<char>| #[trigger] self@.contains_key(k) implies exists|a: int| 0 <= a < sv.len() && sv[a].0 == k by {
            let j = choose|j: int| 0 <= j < self.data@.len() && self.data@[j].0@ == k;
            assert(sv[j] == (self.data@[j].0@, self.data@[j].1@));
        }
        assert forall|a: int| 0 <= a < sv.len() implies #[trigger] self@.contains_key(sv[a].0) && self@[sv[a].0] == sv[a].1 by {
            assert(sv[a] == (self.data@[a].0@, self.data@[a].1@));
        }
        r
    }
}

} // verus!
