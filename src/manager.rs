//! Applies the results of one round of fetches to the store.
use std::sync::Arc;
use vstd::prelude::*;

use crate::calendar::{changes, event_views};
use crate::cfg::Config;
use crate::event::{Change, Event, EventView, Timestamp, UpdateResult};
use crate::store::{applied, restored, saved_view, Store, StoreError};

verus! {

/// The outcome of fetching one feed: its calendar's name, when the fetch
/// was made, and the events (`None` when the fetch or its parsing failed).
pub type Fetched = (String, Timestamp, Option<Vec<Event>>);

/// The values of a round of fetches.
pub open spec fn fetched_view(f: Seq<Fetched>) -> Seq<(Seq<char>, Timestamp, Option<Seq<EventView>>)> {
    f.map_values(
        |x: Fetched|
            (
                x.0@,
                x.1,
                match x.2 {
                    Some(v) => Some(event_views(v@)),
                    None => None,
                },
            ),
    )
}

/// The values of the changes of a round, by calendar.
pub open spec fn round_view(r: Seq<(String, Vec<UpdateResult>)>) -> Seq<(Seq<char>, Seq<Change>)> {
    r.map_values(|x: (String, Vec<UpdateResult>)| (x.0@, changes(x.1@)))
}

/// Applies a round of fetches in order: failed fetches are skipped, the
/// first error of `apply` ends the round. Gives the calendars afterwards and
/// the changes of each applied calendar, or the error.
pub open spec fn applied_round(
    m: Map<Seq<char>, Seq<EventView>>,
    config: Config,
    fv: Seq<(Seq<char>, Timestamp, Option<Seq<EventView>>)>,
) -> (Map<Seq<char>, Seq<EventView>>, Result<Seq<(Seq<char>, Seq<Change>)>, StoreError>)
    decreases fv.len(),
{
    if fv.len() == 0 {
        (m, Ok(Seq::empty()))
    } else {
        let prev = applied_round(m, config, fv.drop_last());
        let last = fv.last();
        match prev.1 {
            Err(e) => (prev.0, Err(e)),
            Ok(out) => match last.2 {
                None => (prev.0, Ok(out)),
                Some(ev) => match applied(prev.0, config, last.0, ev, last.1 as int) {
                    Ok(done) => (done.0, Ok(out.push((last.0, done.1)))),
                    Err(e) => (prev.0, Err(e)),
                },
            },
        }
    }
}

/// Owns the store and applies each round of fetches to it.
pub struct Manager {
    pub store: Store,
}

impl Manager {
    /// A manager over the store rebuilt from persisted entries.
    pub fn new(config: Config, saved: Vec<(String, Vec<Arc<Event>>)>) -> (m: Manager)
        ensures
            m.store.wf(),
            m.store@ == restored(saved_view(saved@)),
            m.store.settings() == config,
    {
        Manager { store: Store::new(config, saved) }
    }

    /// Applies a round of fetches (see `applied_round`) and returns the
    /// changes of each applied calendar, in the order of the round.
    pub fn update_calendars(&mut self, fetched: Vec<Fetched>) -> (r: Result<
        Vec<(String, Vec<UpdateResult>)>,
        StoreError,
    >)
        requires
            old(self).store.wf(),
        ensures
            final(self).store.wf(),
            final(self).store.settings() == old(self).store.settings(),
            final(self).store@ == applied_round(
                old(self).store@,
                old(self).store.settings(),
                fetched_view(fetched@),
            ).0,
            match applied_round(old(self).store@, old(self).store.settings(), fetched_view(fetched@)).1 {
                Ok(out) => r is Ok && round_view(r->Ok_0@) == out,
                Err(e) => r == Err::<Vec<(String, Vec<UpdateResult>)>, StoreError>(e),
            },
    {
        let ghost fv = fetched_view(fetched@);
        let ghost m0 = self.store@;
        let ghost config = self.store.settings();
        let ghost total = fv.len();
        let mut rest = fetched;
        let mut out: Vec<(String, Vec<UpdateResult>)> = Vec::new();
        assert(fv.take(0) =~= Seq::<(Seq<char>, Timestamp, Option<Seq<EventView>>)>::empty());
        assert(round_view(out@) =~= Seq::<(Seq<char>, Seq<Change>)>::empty());
        while rest.len() > 0
            invariant
                rest@.len() <= total,
                total == fv.len(),
                fv == fetched_view(fetched@),
                m0 == old(self).store@,
                config == old(self).store.settings(),
                fetched_view(rest@) == fv.subrange(total - rest@.len(), total as int),
                self.store.wf(),
                self.store.settings() == config,
                applied_round(m0, config, fv.take(total - rest@.len())).0 == self.store@,
                applied_round(m0, config, fv.take(total - rest@.len())).1 == Ok::<
                    Seq<(Seq<char>, Seq<Change>)>,
                    StoreError,
                >(round_view(out@)),
            decreases rest@.len(),
        {
            let ghost n = total - rest@.len();
            let ghost rest0 = rest@;
            assert(fetched_view(rest0)[0] == fv[n]);
            let (name, fetch_time, events) = rest.remove(0);
            assert forall|j: int| 0 <= j < rest@.len() implies fetched_view(rest@)[j] == fetched_view(rest0)[j + 1] by {
                assert(rest@[j] == rest0[j + 1]);
            }
            assert(fetched_view(rest@) =~= fv.subrange(n + 1, total as int));
            assert(fv.take(n + 1).drop_last() =~= fv.take(n));
            assert(fv.take(n + 1).last() == fv[n]);
            match events {
                None => {},
                Some(events) => {
                    match self.store.apply(name.as_str(), events, fetch_time) {
                        Ok(v) => {
                            let ghost o = out@;
                            out.push((name, v));
                            assert(round_view(out@) =~= round_view(o).push((fv[n].0, changes(v@))));
                        },
                        Err(e) => {
                            proof {
                                lemma_round_stops(m0, config, fv, n + 1, total as int, e);
                                assert(fv.take(total as int) =~= fv);
                            }
                            return Err(e);
                        },
                    }
                },
            }
        }
        assert(fv.take(total as int) =~= fv);
        Ok(out)
    }
}

/// Once a round has failed, later fetches change nothing.
proof fn lemma_round_stops(
    m: Map<Seq<char>, Seq<EventView>>,
    config: Config,
    fv: Seq<(Seq<char>, Timestamp, Option<Seq<EventView>>)>,
    k: int,
    j: int,
    e: StoreError,
)
    requires
        0 <= k <= j <= fv.len(),
        applied_round(m, config, fv.take(k)).1 == Err::<Seq<(Seq<char>, Seq<Change>)>, StoreError>(e),
    ensures
        applied_round(m, config, fv.take(j)).1 == Err::<Seq<(Seq<char>, Seq<Change>)>, StoreError>(e),
        applied_round(m, config, fv.take(j)).0 == applied_round(m, config, fv.take(k)).0,
    decreases j - k,
{
    if j > k {
        lemma_round_stops(m, config, fv, k, j - 1, e);
        assert(fv.take(j).drop_last() =~= fv.take(j - 1));
    }
}

} // verus!
