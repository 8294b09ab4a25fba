//! Which calendars a member follows, by role.
use vstd::prelude::*;
use vstd::utf8::encode_utf8;

use crate::cfg::{CalendarConfig, CalendarItem};
use crate::event::same_text;

verus! {

/// Some role of `user` is among `roles`.
pub open spec fn shares_role(roles: Seq<u64>, user: Seq<u64>) -> bool {
    exists|i: int, j: int| 0 <= i < roles.len() && 0 <= j < user.len() && roles[i] == user[j]
}

/// Decides `shares_role`.
pub fn has_shared_role(roles: &Vec<u64>, user: &Vec<u64>) -> (r: bool)
    ensures
        r == shares_role(roles@, user@),
{
    let mut i: usize = 0;
    while i < roles.len()
        invariant
            0 <= i <= roles@.len(),
            forall|a: int, b: int| 0 <= a < i && 0 <= b < user@.len() ==> roles@[a] != user@[b],
        decreases roles@.len() - i,
    {
        let mut j: usize = 0;
        while j < user.len()
            invariant
                0 <= i < roles@.len(),
                0 <= j <= user@.len(),
                forall|b: int| 0 <= b < j ==> roles@[i as int] != user@[b],
            decreases user@.len() - j,
        {
            if roles[i] == user[j] {
                return true;
            }
            j = j + 1;
        }
        i = i + 1;
    }
    false
}

/// The names of the entries that satisfy `p`, in order.
pub open spec fn names_where(
    cals: Seq<(String, CalendarItem)>,
    p: spec_fn((String, CalendarItem)) -> bool,
) -> Seq<Seq<char>>
    decreases cals.len(),
{
    if cals.len() == 0 {
        Seq::empty()
    } else if p(cals.last()) {
        names_where(cals.drop_last(), p).push(cals.last().0@)
    } else {
        names_where(cals.drop_last(), p)
    }
}

/// The calendar shares a role with the member.
pub open spec fn followed_by(user: Seq<u64>) -> spec_fn((String, CalendarItem)) -> bool {
    |c: (String, CalendarItem)| shares_role(c.1.role@, user)
}

/// The calendar is the one asked for by name, or, when none is, one that the
/// member (if known) follows.
pub open spec fn chosen_by(schedule: Option<Seq<char>>, user: Option<Seq<u64>>) -> spec_fn(
    (String, CalendarItem),
) -> bool {
    |c: (String, CalendarItem)|
        match schedule {
            Some(name) => c.0@ == name,
            None => match user {
                Some(u) => shares_role(c.1.role@, u),
                None => false,
            },
        }
}

/// The calendar's name starts with `partial` and, in a guild, one of its
/// roles exists there.
pub open spec fn completes(partial: Seq<char>, guild: Option<Seq<u64>>) -> spec_fn(
    (String, CalendarItem),
) -> bool {
    |c: (String, CalendarItem)|
        encode_utf8(partial).is_prefix_of(encode_utf8(c.0@)) && match guild {
            Some(g) => shares_role(c.1.role@, g),
            None => true,
        }
}

pub open spec fn names_view(v: Seq<String>) -> Seq<Seq<char>> {
    v.map_values(|s: String| s@)
}

/// `text` starts with `prefix` (as byte strings).
pub fn starts_with(text: &str, prefix: &str) -> (r: bool)
    ensures
        r == encode_utf8(prefix@).is_prefix_of(encode_utf8(text@)),
{
    let t = text.as_bytes();
    let p = prefix.as_bytes();
    if p.len() > t.len() {
        return false;
    }
    let mut i: usize = 0;
    while i < p.len()
        invariant
            0 <= i <= p@.len(),
            p@.len() <= t@.len(),
            p@ == encode_utf8(prefix@),
            t@ == encode_utf8(text@),
            forall|j: int| 0 <= j < i ==> p@[j] == t@[j],
        decreases p@.len() - i,
    {
        if p[i] != t[i] {
            return false;
        }
        i = i + 1;
    }
    assert(t@.subrange(0, p@.len() as int) =~= p@);
    true
}

impl CalendarConfig {
    /// The calendars that share a role with the member, in configuration
    /// order.
    pub fn followed(&self, user_roles: &Vec<u64>) -> (r: Vec<String>)
        ensures
            names_view(r@) == names_where(self.calendars@, followed_by(user_roles@)),
    {
        let mut r: Vec<String> = Vec::new();
        let mut i: usize = 0;
        assert(self.calendars@.take(0) =~= Seq::<(String, CalendarItem)>::empty());
        while i < self.calendars.len()
            invariant
                0 <= i <= self.calendars@.len(),
                names_view(r@) == names_where(self.calendars@.take(i as int), followed_by(user_roles@)),
            decreases self.calendars@.len() - i,
        {
            let ghost t = self.calendars@.take(i + 1);
            assert(t.drop_last() =~= self.calendars@.take(i as int));
            assert(t.last() == self.calendars@[i as int]);
            if has_shared_role(&self.calendars[i].1.role, user_roles) {
                let ghost r0 = r@;
                r.push(self.calendars[i].0.clone());
                assert(names_view(r@) =~= names_view(r0).push(self.calendars@[i as int].0@));
            }
            i = i + 1;
        }
        assert(self.calendars@.take(i as int) =~= self.calendars@);
        r
    }

    /// The calendars a schedule summary covers: the one named `schedule`,
    /// or, when none is named, those the member (if known) follows.
    pub fn chosen(&self, schedule: Option<&str>, user_roles: Option<&Vec<u64>>) -> (r: Vec<String>)
        ensures
            names_view(r@) == names_where(
                self.calendars@,
                chosen_by(
                    match schedule {
                        Some(s) => Some(s@),
                        None => None,
                    },
                    match user_roles {
                        Some(u) => Some(u@),
                        None => None,
                    },
                ),
            ),
    {
        let ghost p = chosen_by(
            match schedule {
                Some(s) => Some(s@),
                None => None,
            },
            match user_roles {
                Some(u) => Some(u@),
                None => None,
            },
        );
        let mut r: Vec<String> = Vec::new();
        let mut i: usize = 0;
        assert(self.calendars@.take(0) =~= Seq::<(String, CalendarItem)>::empty());
        while i < self.calendars.len()
            invariant
                0 <= i <= self.calendars@.len(),
                p == chosen_by(
                    match schedule {
                        Some(s) => Some(s@),
                        None => None,
                    },
                    match user_roles {
                        Some(u) => Some(u@),
                        None => None,
                    },
                ),
                names_view(r@) == names_where(self.calendars@.take(i as int), p),
            decreases self.calendars@.len() - i,
        {
            let ghost t = self.calendars@.take(i + 1);
            assert(t.drop_last() =~= self.calendars@.take(i as int));
            assert(t.last() == self.calendars@[i as int]);
            let wanted = match schedule {
                Some(name) => same_text(self.calendars[i].0.as_str(), name),
                None => match user_roles {
                    Some(u) => has_shared_role(&self.calendars[i].1.role, u),
                    None => false,
                },
            };
            if wanted {
                let ghost r0 = r@;
                r.push(self.calendars[i].0.clone());
                assert(names_view(r@) =~= names_view(r0).push(self.calendars@[i as int].0@));
            }
            i = i + 1;
        }
        assert(self.calendars@.take(i as int) =~= self.calendars@);
        r
    }

    /// Names offered while a member types `partial`: those that start with
    /// it, limited in a guild to calendars with a role that exists there.
    pub fn completions(&self, partial: &str, guild_roles: Option<&Vec<u64>>) -> (r: Vec<String>)
        ensures
            names_view(r@) == names_where(
                self.calendars@,
                completes(
                    partial@,
                    match guild_roles {
                        Some(g) => Some(g@),
                        None => None,
                    },
                ),
            ),
    {
        let ghost p = completes(
            partial@,
            match guild_roles {
                Some(g) => Some(g@),
                None => None,
            },
        );
        let mut r: Vec<String> = Vec::new();
        let mut i: usize = 0;
        assert(self.calendars@.take(0) =~= Seq::<(String, CalendarItem)>::empty());
        while i < self.calendars.len()
            invariant
                0 <= i <= self.calendars@.len(),
                p == completes(
                    partial@,
                    match guild_roles {
                        Some(g) => Some(g@),
                        None => None,
                    },
                ),
                names_view(r@) == names_where(self.calendars@.take(i as int), p),
            decreases self.calendars@.len() - i,
        {
            let ghost t = self.calendars@.take(i + 1);
            assert(t.drop_last() =~= self.calendars@.take(i as int));
            assert(t.last() == self.calendars@[i as int]);
            let in_guild = match guild_roles {
                Some(g) => has_shared_role(&self.calendars[i].1.role, g),
                None => true,
            };
            if starts_with(self.calendars[i].0.as_str(), partial) && in_guild {
                let ghost r0 = r@;
                r.push(self.calendars[i].0.clone());
                assert(names_view(r@) =~= names_view(r0).push(self.calendars@[i as int].0@));
            }
            i = i + 1;
        }
        assert(self.calendars@.take(i as int) =~= self.calendars@);
        r
    }
}

} // verus!
