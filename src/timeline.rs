//! Sequences of events kept in chronological order, and the identity index
//! that such a sequence determines.
use std::sync::Arc;
use vstd::prelude::*;

use crate::event::{
    event_precedes, lemma_precedes_total, lemma_precedes_transitive, lemma_uid_lt_total,
    lemma_uid_lt_transitive, precedes, same_text, uid_less, uid_lt, Event, EventView,
};

verus! {

/// The values of a sequence of shared events.
pub open spec fn views(v: Seq<Arc<Event>>) -> Seq<EventView> {
    v.map_values(|a: Arc<Event>| a@)
}

/// Strictly increasing in the order `precedes`.
pub open spec fn chronological(s: Seq<EventView>) -> bool {
    forall|i: int, j: int| 0 <= i < j < s.len() ==> #[trigger] precedes(s[i], s[j])
}

/// No two positions hold the same identifier.
pub open spec fn distinct_uids(s: Seq<EventView>) -> bool {
    forall|i: int, j: int| 0 <= i < j < s.len() ==> #[trigger] s[i].uid != #[trigger] s[j].uid
}

/// `s` holds exactly the events of `set`, in chronological order.
pub open spec fn lists(s: Seq<EventView>, set: Set<EventView>) -> bool {
    chronological(s) && forall|e: EventView| s.contains(e) == set.contains(e)
}

/// The chronological listing of a set of events.
pub open spec fn in_order(set: Set<EventView>) -> Seq<EventView> {
    choose|s: Seq<EventView>| lists(s, set)
}

/// The identity index of a sequence: each identifier present maps to the
/// event that carries it.
pub open spec fn index(s: Seq<EventView>) -> Map<Seq<char>, EventView> {
    Map::new(
        |k: Seq<char>| exists|i: int| 0 <= i < s.len() && s[i].uid == k,
        |k: Seq<char>| s[choose|i: int| 0 <= i < s.len() && s[i].uid == k],
    )
}

pub proof fn lemma_precedes_irreflexive(a: EventView)
    ensures
        !precedes(a, a),
{
    lemma_precedes_total(a, a);
}

/// A chronological sequence is determined by the set of its events.
pub proof fn lemma_lists_unique(s1: Seq<EventView>, s2: Seq<EventView>, set: Set<EventView>)
    requires
        lists(s1, set),
        lists(s2, set),
    ensures
        s1 == s2,
    decreases s1.len(),
{
    if s1.len() == 0 {
        if s2.len() > 0 {
            assert(s2.contains(s2[0]));
        }
        assert(s1 =~= s2);
    } else {
        assert(s1.contains(s1[0]));
        if s2.len() == 0 {
            assert(false);
        }
        assert(s2.contains(s2[0]));
        let k = choose|k: int| 0 <= k < s2.len() && s2[k] == s1[0];
        let m = choose|m: int| 0 <= m < s1.len() && s1[m] == s2[0];
        if k > 0 && m > 0 {
            assert(precedes(s2[0], s2[k]));
            assert(precedes(s1[0], s1[m]));
            lemma_precedes_total(s1[0], s2[0]);
        }
        assert(s1[0] == s2[0]);
        let t1 = s1.drop_first();
        let t2 = s2.drop_first();
        let rest = set.remove(s1[0]);
        assert forall|e: EventView| t1.contains(e) == rest.contains(e) by {
            if t1.contains(e) {
                let i = choose|i: int| 0 <= i < t1.len() && t1[i] == e;
                assert(s1[i + 1] == e);
                assert(s1.contains(e));
                assert(precedes(s1[0], s1[i + 1]));
                lemma_precedes_irreflexive(e);
            }
            if rest.contains(e) {
                assert(s1.contains(e));
                let i = choose|i: int| 0 <= i < s1.len() && s1[i] == e;
                assert(i != 0);
                assert(t1[i - 1] == e);
            }
        }
        assert forall|e: EventView| t2.contains(e) == rest.contains(e) by {
            if t2.contains(e) {
                let i = choose|i: int| 0 <= i < t2.len() && t2[i] == e;
                assert(s2[i + 1] == e);
                assert(s2.contains(e));
                assert(precedes(s2[0], s2[i + 1]));
                lemma_precedes_irreflexive(e);
            }
            if rest.contains(e) {
                assert(s2.contains(e));
                let i = choose|i: int| 0 <= i < s2.len() && s2[i] == e;
                assert(i != 0);
                assert(t2[i - 1] == e);
            }
        }
        assert(chronological(t1)) by {
            assert forall|i: int, j: int| 0 <= i < j < t1.len() implies precedes(t1[i], t1[j]) by {
                assert(precedes(s1[i + 1], s1[j + 1]));
            }
        }
        assert(chronological(t2)) by {
            assert forall|i: int, j: int| 0 <= i < j < t2.len() implies precedes(t2[i], t2[j]) by {
                assert(precedes(s2[i + 1], s2[j + 1]));
            }
        }
        lemma_lists_unique(t1, t2, rest);
        assert(s1 =~= seq![s1[0]] + t1);
        assert(s2 =~= seq![s2[0]] + t2);
    }
}

/// Any chronological listing of a set is its listing.
pub proof fn lemma_in_order(s: Seq<EventView>, set: Set<EventView>)
    requires
        lists(s, set),
    ensures
        in_order(set) == s,
{
    lemma_lists_unique(in_order(set), s, set);
}

/// No two events of the set share both start and identifier.
pub open spec fn keys_distinct(set: Set<EventView>) -> bool {
    forall|x: EventView, y: EventView|
        #[trigger] set.contains(x) && #[trigger] set.contains(y) && x.start == y.start && x.uid
            == y.uid ==> x == y
}

/// Where an event goes in a chronological sequence.
proof fn lemma_insert_point(s: Seq<EventView>, x: EventView) -> (p: int)
    requires
        chronological(s),
        forall|i: int| 0 <= i < s.len() ==> !(s[i].start == x.start && s[i].uid == x.uid),
    ensures
        0 <= p <= s.len(),
        forall|i: int| 0 <= i < p ==> precedes(s[i], x),
        forall|i: int| p <= i < s.len() ==> precedes(x, s[i]),
    decreases s.len(),
{
    if s.len() == 0 {
        0
    } else {
        let l = s.len() - 1;
        if precedes(s[l], x) {
            let d = s.drop_last();
            assert forall|i: int| 0 <= i < l implies precedes(s[i], x) by {
                assert(precedes(s[i], s[l]));
                lemma_precedes_transitive(s[i], s[l], x);
            }
            s.len() as int
        } else {
            lemma_precedes_total(s[l], x);
            let d = s.drop_last();
            assert(chronological(d)) by {
                assert forall|i: int, j: int| 0 <= i < j < d.len() implies #[trigger] precedes(d[i], d[j]) by {
                    assert(precedes(s[i], s[j]));
                }
            }
            let p = lemma_insert_point(d, x);
            assert forall|i: int| 0 <= i < p implies precedes(s[i], x) by {
                assert(precedes(d[i], x));
            }
            assert forall|i: int| p <= i < s.len() implies precedes(x, s[i]) by {
                if i < l {
                    assert(precedes(x, d[i]));
                }
            }
            p
        }
    }
}

/// Every finite set of events with distinct (start, identifier) pairs has a
/// chronological listing.
pub proof fn lemma_listable(set: Set<EventView>)
    requires
        set.finite(),
        keys_distinct(set),
    ensures
        lists(in_order(set), set),
    decreases set.len(),
{
    if set.len() == 0 {
        let s = Seq::<EventView>::empty();
        assert forall|e: EventView| s.contains(e) == set.contains(e) by {
            if set.contains(e) {
                assert(set.len() != 0);
            }
        }
        assert(lists(s, set));
    } else {
        let x = set.choose();
        assert(set.contains(x));
        let rest = set.remove(x);
        assert(keys_distinct(rest));
        lemma_listable(rest);
        let s = in_order(rest);
        assert forall|i: int| 0 <= i < s.len() implies !(s[i].start == x.start && s[i].uid == x.uid) by {
            assert(s.contains(s[i]));
            assert(rest.contains(s[i]));
        }
        let p = lemma_insert_point(s, x);
        let t = s.insert(p, x);
        assert forall|a: int, b: int| 0 <= a < b < t.len() implies #[trigger] precedes(t[a], t[b]) by {
            if b < p {
                assert(precedes(s[a], s[b]));
            } else if b == p {
            } else if a < p {
                assert(precedes(s[a], s[b - 1]));
            } else if a == p {
            } else {
                assert(precedes(s[a - 1], s[b - 1]));
            }
        }
        assert forall|e: EventView| t.contains(e) == set.contains(e) by {
            if t.contains(e) {
                let w = choose|w: int| 0 <= w < t.len() && t[w] == e;
                if w < p {
                    assert(s[w] == e);
                    assert(s.contains(e));
                } else if w > p {
                    assert(s[w - 1] == e);
                    assert(s.contains(e));
                }
            }
            if set.contains(e) && e != x {
                assert(rest.contains(e));
                assert(s.contains(e));
                let w = choose|w: int| 0 <= w < s.len() && s[w] == e;
                if w < p {
                    assert(t[w] == e);
                } else {
                    assert(t[w + 1] == e);
                }
            }
            if e == x {
                assert(t[p] == e);
            }
        }
        assert(lists(t, set));
    }
}

/// What the identity index of a sequence with distinct identifiers holds.
pub proof fn lemma_index(s: Seq<EventView>)
    requires
        distinct_uids(s),
    ensures
        forall|i: int|
            0 <= i < s.len() ==> #[trigger] index(s).contains_key(s[i].uid) && index(s)[s[i].uid]
                == s[i],
        forall|k: Seq<char>|
            #[trigger] index(s).contains_key(k) ==> exists|i: int| 0 <= i < s.len() && s[i].uid == k,
        forall|e: EventView| #[trigger] index(s).values().contains(e) == s.contains(e),
{
    assert forall|i: int| 0 <= i < s.len() implies #[trigger] index(s).contains_key(s[i].uid)
        && index(s)[s[i].uid] == s[i] by {
        let k = s[i].uid;
        assert(exists|j: int| 0 <= j < s.len() && s[j].uid == k);
        let j = choose|j: int| 0 <= j < s.len() && s[j].uid == k;
        if j != i {
            if j < i {
                assert(s[j].uid != s[i].uid);
            } else {
                assert(s[i].uid != s[j].uid);
            }
        }
    }
    assert forall|e: EventView| #[trigger] index(s).values().contains(e) == s.contains(e) by {
        if s.contains(e) {
            let i = choose|i: int| 0 <= i < s.len() && s[i] == e;
            assert(index(s).contains_key(s[i].uid) && index(s)[s[i].uid] == s[i]);
        }
        if index(s).values().contains(e) {
            let k = choose|k: Seq<char>| index(s).contains_key(k) && index(s)[k] == e;
            let i = choose|i: int| 0 <= i < s.len() && s[i].uid == k;
            assert(index(s).contains_key(s[i].uid) && index(s)[s[i].uid] == s[i]);
        }
    }
}

/// Inserting an event with a new identifier keeps identifiers unique and
/// adds exactly that event.
pub proof fn lemma_insert_new(s: Seq<EventView>, p: int, e: EventView)
    requires
        distinct_uids(s),
        0 <= p <= s.len(),
        forall|i: int| 0 <= i < s.len() ==> s[i].uid != e.uid,
    ensures
        distinct_uids(s.insert(p, e)),
        forall|x: EventView| #[trigger] s.insert(p, e).contains(x) == (s.contains(x) || x == e),
{
    let t = s.insert(p, e);
    assert forall|a: int, b: int| 0 <= a < b < t.len() implies #[trigger] t[a].uid
        != #[trigger] t[b].uid by {
        if a < p && b < p {
            assert(s[a].uid != s[b].uid);
        } else if a < p && b == p {
            assert(s[a].uid != e.uid);
        } else if a < p {
            assert(s[a].uid != s[b - 1].uid);
        } else if a == p {
            assert(s[b - 1].uid != e.uid);
        } else {
            assert(s[a - 1].uid != s[b - 1].uid);
        }
    }
    assert forall|x: EventView| #[trigger] t.contains(x) == (s.contains(x) || x == e) by {
        if t.contains(x) {
            let w = choose|w: int| 0 <= w < t.len() && t[w] == x;
            if w < p {
                assert(s[w] == x);
            } else if w > p {
                assert(s[w - 1] == x);
            }
        }
        if s.contains(x) {
            let w = choose|w: int| 0 <= w < s.len() && s[w] == x;
            if w < p {
                assert(t[w] == x);
            } else {
                assert(t[w + 1] == x);
            }
        }
        if x == e {
            assert(t[p] == x);
        }
    }
}

/// Removing a position keeps the order and the uniqueness of identifiers,
/// and drops exactly the event with that identifier.
pub proof fn lemma_remove(s: Seq<EventView>, p: int)
    requires
        chronological(s),
        distinct_uids(s),
        0 <= p < s.len(),
    ensures
        chronological(s.remove(p)),
        distinct_uids(s.remove(p)),
        forall|x: EventView|
            #[trigger] s.remove(p).contains(x) == (s.contains(x) && x.uid != s[p].uid),
        forall|i: int| 0 <= i < s.remove(p).len() ==> s.remove(p)[i].uid != s[p].uid,
{
    let t = s.remove(p);
    assert forall|a: int, b: int| 0 <= a < b < t.len() implies #[trigger] precedes(t[a], t[b]) by {
        let a2 = if a < p { a } else { a + 1 };
        let b2 = if b < p { b } else { b + 1 };
        assert(precedes(s[a2], s[b2]));
    }
    assert forall|a: int, b: int| 0 <= a < b < t.len() implies #[trigger] t[a].uid
        != #[trigger] t[b].uid by {
        let a2 = if a < p { a } else { a + 1 };
        let b2 = if b < p { b } else { b + 1 };
        assert(s[a2].uid != s[b2].uid);
    }
    assert forall|i: int| 0 <= i < t.len() implies t[i].uid != s[p].uid by {
        let i2 = if i < p { i } else { i + 1 };
        if i2 < p {
            assert(s[i2].uid != s[p].uid);
        } else {
            assert(s[p].uid != s[i2].uid);
        }
    }
    assert forall|x: EventView| #[trigger] t.contains(x) == (s.contains(x) && x.uid != s[p].uid) by {
        if t.contains(x) {
            let w = choose|w: int| 0 <= w < t.len() && t[w] == x;
            let w2 = if w < p { w } else { w + 1 };
            assert(s[w2] == x);
        }
        if s.contains(x) && x.uid != s[p].uid {
            let w = choose|w: int| 0 <= w < s.len() && s[w] == x;
            if w < p {
                assert(t[w] == x);
            } else {
                assert(w != p);
                assert(t[w - 1] == x);
            }
        }
    }
}

/// Two sequences with unique identifiers and the same events have the same
/// identity index; replacing the event of one identifier updates it there.
pub proof fn lemma_index_update(s: Seq<EventView>, t: Seq<EventView>, e: EventView)
    requires
        distinct_uids(s),
        distinct_uids(t),
        forall|x: EventView| #[trigger] t.contains(x) == ((s.contains(x) && x.uid != e.uid) || x == e),
    ensures
        index(t) == index(s).insert(e.uid, e),
{
    lemma_index(s);
    lemma_index(t);
    let m = index(s).insert(e.uid, e);
    assert forall|k: Seq<char>| #[trigger] index(t).contains_key(k) == m.contains_key(k) by {
        if index(t).contains_key(k) {
            let i = choose|i: int| 0 <= i < t.len() && t[i].uid == k;
            assert(t.contains(t[i]));
            if k != e.uid {
                let j = choose|j: int| 0 <= j < s.len() && s[j] == t[i];
                assert(index(s).contains_key(s[j].uid));
            }
        }
        if m.contains_key(k) {
            if k == e.uid {
                assert(t.contains(e));
                let i = choose|i: int| 0 <= i < t.len() && t[i] == e;
                assert(index(t).contains_key(t[i].uid));
            } else {
                let j = choose|j: int| 0 <= j < s.len() && s[j].uid == k;
                assert(s.contains(s[j]));
                assert(t.contains(s[j]));
                let i = choose|i: int| 0 <= i < t.len() && t[i] == s[j];
                assert(index(t).contains_key(t[i].uid));
            }
        }
    }
    assert forall|k: Seq<char>| #[trigger] index(t).contains_key(k) implies index(t)[k] == m[k] by {
        let i = choose|i: int| 0 <= i < t.len() && t[i].uid == k;
        assert(index(t)[t[i].uid] == t[i]);
        assert(t.contains(t[i]));
        if k != e.uid {
            let j = choose|j: int| 0 <= j < s.len() && s[j] == t[i];
            assert(index(s)[s[j].uid] == s[j]);
        }
    }
    assert(index(t) =~= m);
}

/// Keeping the events that satisfy a condition keeps the order and the
/// uniqueness of identifiers.
pub proof fn lemma_filter_ordered(s: Seq<EventView>, p: spec_fn(EventView) -> bool)
    requires
        chronological(s),
        distinct_uids(s),
    ensures
        chronological(s.filter(p)),
        distinct_uids(s.filter(p)),
        forall|x: EventView| #[trigger] s.filter(p).contains(x) == (s.contains(x) && p(x)),
    decreases s.len(),
{
    reveal(Seq::filter);
    if s.len() > 0 {
        let d = s.drop_last();
        assert(chronological(d)) by {
            assert forall|i: int, j: int| 0 <= i < j < d.len() implies #[trigger] precedes(d[i], d[j]) by {
                assert(precedes(s[i], s[j]));
            }
        }
        assert(distinct_uids(d)) by {
            assert forall|i: int, j: int| 0 <= i < j < d.len() implies #[trigger] d[i].uid
                != #[trigger] d[j].uid by {
                assert(s[i].uid != s[j].uid);
            }
        }
        lemma_filter_ordered(d, p);
        let f = d.filter(p);
        let l = s.last();
        assert forall|i: int| 0 <= i < f.len() implies precedes(f[i], l) && f[i].uid != l.uid by {
            assert(f.contains(f[i]));
            let j = choose|j: int| 0 <= j < d.len() && d[j] == f[i];
            assert(precedes(s[j], s[s.len() - 1]));
            assert(s[j].uid != s[s.len() - 1].uid);
        }
        if p(l) {
            let g = f.push(l);
            assert(chronological(g)) by {
                assert forall|i: int, j: int| 0 <= i < j < g.len() implies #[trigger] precedes(g[i], g[j]) by {
                    if j < f.len() {
                        assert(precedes(f[i], f[j]));
                    }
                }
            }
            assert(distinct_uids(g)) by {
                assert forall|i: int, j: int| 0 <= i < j < g.len() implies #[trigger] g[i].uid
                    != #[trigger] g[j].uid by {
                    if j < f.len() {
                        assert(f[i].uid != f[j].uid);
                    }
                }
            }
            assert forall|x: EventView| #[trigger] g.contains(x) == (s.contains(x) && p(x)) by {
                if s.contains(x) {
                    let j = choose|j: int| 0 <= j < s.len() && s[j] == x;
                    if j < d.len() {
                        assert(d[j] == x);
                        assert(d.contains(x));
                    }
                }
                if g.contains(x) {
                    let j = choose|j: int| 0 <= j < g.len() && g[j] == x;
                    if j < f.len() {
                        assert(f.contains(x));
                    }
                }
                if d.contains(x) {
                    let j = choose|j: int| 0 <= j < d.len() && d[j] == x;
                    assert(s[j] == x);
                }
            }
        } else {
            assert forall|x: EventView| #[trigger] f.contains(x) == (s.contains(x) && p(x)) by {
                if s.contains(x) {
                    let j = choose|j: int| 0 <= j < s.len() && s[j] == x;
                    if j < d.len() {
                        assert(d[j] == x);
                        assert(d.contains(x));
                    }
                }
                if d.contains(x) {
                    let j = choose|j: int| 0 <= j < d.len() && d[j] == x;
                    assert(s[j] == x);
                }
            }
        }
    }
}

/// Strictly increasing by identifier: the order of the identity index.
pub open spec fn by_identifier(s: Seq<EventView>) -> bool {
    forall|i: int, j: int| 0 <= i < j < s.len() ==> #[trigger] uid_lt(s[i].uid, s[j].uid)
}

/// An identity index holds each identifier once.
pub proof fn lemma_by_identifier_distinct(s: Seq<EventView>)
    requires
        by_identifier(s),
    ensures
        distinct_uids(s),
{
    assert forall|i: int, j: int| 0 <= i < j < s.len() implies #[trigger] s[i].uid != #[trigger] s[j].uid by {
        assert(uid_lt(s[i].uid, s[j].uid));
        lemma_uid_lt_total(s[i].uid, s[i].uid);
    }
}

/// Where identifier `uid` is, or would go, in an identity index: `Ok` with
/// its position, or `Err` with the position it would take.
pub fn uid_position(v: &Vec<Arc<Event>>, uid: &str) -> (r: Result<usize, usize>)
    requires
        by_identifier(views(v@)),
    ensures
        match r {
            Ok(p) => p < v@.len() && v@[p as int]@.uid == uid@,
            Err(p) => p <= v@.len() && (forall|i: int| 0 <= i < p ==> uid_lt(v@[i]@.uid, uid@))
                && (forall|i: int| p <= i < v@.len() ==> uid_lt(uid@, v@[i]@.uid)),
        },
{
    let ghost s = views(v@);
    let mut lo: usize = 0;
    let mut hi: usize = v.len();
    while lo < hi
        invariant
            0 <= lo <= hi <= v@.len(),
            s == views(v@),
            by_identifier(s),
            forall|i: int| 0 <= i < lo ==> uid_lt(s[i].uid, uid@),
            forall|i: int| hi <= i < s.len() ==> uid_lt(uid@, s[i].uid),
        decreases hi - lo,
    {
        let mid = lo + (hi - lo) / 2;
        let m = v[mid].uid.as_str();
        assert(m@ == s[mid as int].uid);
        if same_text(m, uid) {
            return Ok(mid);
        }
        if uid_less(m, uid) {
            assert forall|i: int| 0 <= i < mid + 1 implies uid_lt(s[i].uid, uid@) by {
                if i < mid {
                    assert(uid_lt(s[i].uid, s[mid as int].uid));
                    lemma_uid_lt_transitive(s[i].uid, s[mid as int].uid, uid@);
                }
            }
            lo = mid + 1;
        } else {
            proof {
                lemma_uid_lt_total(s[mid as int].uid, uid@);
            }
            assert forall|i: int| mid <= i < s.len() implies uid_lt(uid@, s[i].uid) by {
                if i > mid {
                    assert(uid_lt(s[mid as int].uid, s[i].uid));
                    lemma_uid_lt_transitive(uid@, s[mid as int].uid, s[i].uid);
                }
            }
            hi = mid;
        }
    }
    assert forall|i: int| 0 <= i < lo implies uid_lt(v@[i]@.uid, uid@) by {
        assert(s[i] == v@[i]@);
    }
    assert forall|i: int| lo <= i < v@.len() implies uid_lt(uid@, v@[i]@.uid) by {
        assert(s[i] == v@[i]@);
    }
    Err(lo)
}

/// Inserting at the place `uid_position` gave keeps an identity index
/// ordered.
pub proof fn lemma_by_identifier_insert(s: Seq<EventView>, p: int, e: EventView)
    requires
        by_identifier(s),
        0 <= p <= s.len(),
        forall|i: int| 0 <= i < p ==> uid_lt(s[i].uid, e.uid),
        forall|i: int| p <= i < s.len() ==> uid_lt(e.uid, s[i].uid),
    ensures
        by_identifier(s.insert(p, e)),
{
    let t = s.insert(p, e);
    assert forall|a: int, b: int| 0 <= a < b < t.len() implies #[trigger] uid_lt(t[a].uid, t[b].uid) by {
        if b < p {
            assert(uid_lt(s[a].uid, s[b].uid));
        } else if b == p {
        } else if a < p {
            assert(uid_lt(s[a].uid, s[b - 1].uid));
        } else if a == p {
        } else {
            assert(uid_lt(s[a - 1].uid, s[b - 1].uid));
        }
    }
}

/// Replacing an event by one with the same identifier keeps an identity
/// index ordered.
pub proof fn lemma_by_identifier_update(s: Seq<EventView>, p: int, e: EventView)
    requires
        by_identifier(s),
        0 <= p < s.len(),
        s[p].uid == e.uid,
    ensures
        by_identifier(s.update(p, e)),
        forall|x: EventView| #[trigger] s.update(p, e).contains(x) == ((s.contains(x) && x.uid != e.uid) || x == e),
{
    let t = s.update(p, e);
    lemma_by_identifier_distinct(s);
    assert forall|a: int, b: int| 0 <= a < b < t.len() implies #[trigger] uid_lt(t[a].uid, t[b].uid) by {
        assert(uid_lt(s[a].uid, s[b].uid));
    }
    assert forall|x: EventView| #[trigger] t.contains(x) == ((s.contains(x) && x.uid != e.uid) || x == e) by {
        if t.contains(x) {
            let w = choose|w: int| 0 <= w < t.len() && t[w] == x;
            if w != p {
                assert(s[w] == x);
                if w < p {
                    assert(s[w].uid != s[p].uid);
                } else {
                    assert(s[p].uid != s[w].uid);
                }
            }
        }
        if s.contains(x) && x.uid != e.uid {
            let w = choose|w: int| 0 <= w < s.len() && s[w] == x;
            assert(w != p);
            assert(t[w] == x);
        }
        if x == e {
            assert(t[p] == x);
        }
    }
}

/// Keeping the events that satisfy a condition keeps an identity index
/// ordered.
pub proof fn lemma_filter_by_identifier(s: Seq<EventView>, p: spec_fn(EventView) -> bool)
    requires
        by_identifier(s),
    ensures
        by_identifier(s.filter(p)),
        forall|x: EventView| #[trigger] s.filter(p).contains(x) == (s.contains(x) && p(x)),
    decreases s.len(),
{
    reveal(Seq::filter);
    if s.len() > 0 {
        let d = s.drop_last();
        assert(by_identifier(d)) by {
            assert forall|i: int, j: int| 0 <= i < j < d.len() implies #[trigger] uid_lt(d[i].uid, d[j].uid) by {
                assert(uid_lt(s[i].uid, s[j].uid));
            }
        }
        lemma_filter_by_identifier(d, p);
        let f = d.filter(p);
        let l = s.last();
        assert forall|i: int| 0 <= i < f.len() implies uid_lt(f[i].uid, l.uid) by {
            assert(f.contains(f[i]));
            let j = choose|j: int| 0 <= j < d.len() && d[j] == f[i];
            assert(uid_lt(s[j].uid, s[s.len() - 1].uid));
        }
        if p(l) {
            let g = f.push(l);
            assert forall|i: int, j: int| 0 <= i < j < g.len() implies #[trigger] uid_lt(g[i].uid, g[j].uid) by {
                if j < f.len() {
                    assert(uid_lt(f[i].uid, f[j].uid));
                }
            }
            assert forall|x: EventView| #[trigger] g.contains(x) == (s.contains(x) && p(x)) by {
                if s.contains(x) {
                    let j = choose|j: int| 0 <= j < s.len() && s[j] == x;
                    if j < d.len() {
                        assert(d[j] == x);
                        assert(d.contains(x));
                    }
                }
                if g.contains(x) {
                    let j = choose|j: int| 0 <= j < g.len() && g[j] == x;
                    if j < f.len() {
                        assert(f.contains(x));
                    }
                }
                if d.contains(x) {
                    let j = choose|j: int| 0 <= j < d.len() && d[j] == x;
                    assert(s[j] == x);
                }
            }
        } else {
            assert forall|x: EventView| #[trigger] f.contains(x) == (s.contains(x) && p(x)) by {
                if s.contains(x) {
                    let j = choose|j: int| 0 <= j < s.len() && s[j] == x;
                    if j < d.len() {
                        assert(d[j] == x);
                        assert(d.contains(x));
                    }
                }
                if d.contains(x) {
                    let j = choose|j: int| 0 <= j < d.len() && d[j] == x;
                    assert(s[j] == x);
                }
            }
        }
    }
}

/// The first position whose event has the given identifier.
pub fn find_uid(v: &Vec<Arc<Event>>, uid: &String) -> (r: Option<usize>)
    ensures
        match r {
            Some(p) => p < v@.len() && v@[p as int]@.uid == uid@,
            None => forall|i: int| 0 <= i < v@.len() ==> v@[i]@.uid != uid@,
        },
{
    let mut i: usize = 0;
    while i < v.len()
        invariant
            0 <= i <= v@.len(),
            forall|j: int| 0 <= j < i ==> v@[j]@.uid != uid@,
        decreases v@.len() - i,
    {
        if v[i].uid == *uid {
            return Some(i);
        }
        i = i + 1;
    }
    None
}

/// The first position whose event has the start and identifier of `e`.
pub fn find_key(v: &Vec<Arc<Event>>, e: &Event) -> (r: Option<usize>)
    ensures
        match r {
            Some(p) => p < v@.len() && v@[p as int]@.uid == e@.uid && v@[p as int]@.start
                == e@.start,
            None => forall|i: int|
                0 <= i < v@.len() ==> !(v@[i]@.uid == e@.uid && v@[i]@.start == e@.start),
        },
{
    let mut i: usize = 0;
    while i < v.len()
        invariant
            0 <= i <= v@.len(),
            forall|j: int| 0 <= j < i ==> !(v@[j]@.uid == e@.uid && v@[j]@.start == e@.start),
        decreases v@.len() - i,
    {
        if v[i].start == e.start && v[i].uid == e.uid {
            return Some(i);
        }
        i = i + 1;
    }
    None
}

/// Inserts `e` at its chronological place; no event of `v` may share its
/// start and identifier. Returns the position it took.
pub fn insert_sorted(v: &mut Vec<Arc<Event>>, e: Arc<Event>) -> (p: usize)
    requires
        chronological(views(old(v)@)),
        forall|i: int|
            0 <= i < old(v)@.len() ==> !(old(v)@[i]@.uid == e@.uid && old(v)@[i]@.start
                == e@.start),
    ensures
        p <= old(v)@.len(),
        views(final(v)@) == views(old(v)@).insert(p as int, e@),
        chronological(views(final(v)@)),
{
    let ghost s = views(v@);
    let mut i: usize = 0;
    while i < v.len() && event_precedes(&v[i], &e)
        invariant
            0 <= i <= v@.len(),
            s == views(v@),
            forall|j: int| 0 <= j < i ==> precedes(s[j], e@),
        decreases v@.len() - i,
    {
        i = i + 1;
    }
    proof {
        if i < s.len() {
            lemma_precedes_total(s[i as int], e@);
            assert(precedes(e@, s[i as int]));
            assert forall|j: int| i < j < s.len() implies precedes(e@, s[j]) by {
                assert(precedes(s[i as int], s[j]));
                lemma_precedes_transitive(e@, s[i as int], s[j]);
            }
        }
    }
    v.insert(i, e);
    let ghost t = s.insert(i as int, e@);
    assert(views(v@) =~= t);
    assert forall|a: int, b: int| 0 <= a < b < t.len() implies #[trigger] precedes(t[a], t[b]) by {
        if b < i {
        } else if b == i {
        } else if a < i {
            assert(precedes(s[a], e@));
            if i < s.len() {
                assert(precedes(e@, s[b - 1]));
                lemma_precedes_transitive(s[a], e@, s[b - 1]);
            }
        } else if a == i {
        } else {
            assert(precedes(s[a - 1], s[b - 1]));
        }
    }
    i
}

} // verus!
