//! Configuration read at startup.
use vstd::prelude::*;

use crate::event::same_text;

verus! {

/// Settings of the chat bot.
#[derive(Debug, Clone, Default)]
pub struct DiscordConfig {
    pub token: String,
}

/// One watched calendar feed.
#[derive(Debug, Clone, Default)]
pub struct CalendarItem {
    /// Address of the feed (http or https).
    pub source: String,
    /// Channels where changes are announced.
    pub channel: Vec<u64>,
    /// Roles that follow this calendar.
    pub role: Vec<u64>,
    /// How far ahead one fetch of the feed is authoritative (`2w`, `30d`):
    /// events in that window that the feed no longer lists are removed.
    pub time_amount: String,
}

/// The watched calendars, by name, and the refetch schedule.
#[derive(Debug, Clone, Default)]
pub struct CalendarConfig {
    /// Watched calendars; a name appears at most once.
    pub calendars: Vec<(String, CalendarItem)>,
    /// Cron expression of the refetch schedule.
    pub refetch: String,
}

/// Where the store is kept.
#[derive(Debug, Clone, Default)]
pub struct StorageConfig {
    /// Path of the store file; `~` and `$VAR` are expanded.
    pub path: String,
}

/// The whole configuration.
#[derive(Debug, Clone, Default)]
pub struct Config {
    pub discord: DiscordConfig,
    pub calendar: CalendarConfig,
    pub storage: StorageConfig,
}

/// Some entry of `entries` is named `name`.
pub open spec fn is_named(entries: Seq<(String, CalendarItem)>, name: Seq<char>) -> bool {
    exists|i: int| 0 <= i < entries.len() && entries[i].0@ == name
}

/// The first position of an entry named `name`.
pub open spec fn first_named(entries: Seq<(String, CalendarItem)>, name: Seq<char>) -> int {
    choose|i: int|
        0 <= i < entries.len() && entries[i].0@ == name && forall|j: int|
            0 <= j < i ==> entries[j].0@ != name
}

/// The path that shellexpand makes of `path`, given the home directory and
/// the environment variables (a `~` at the start becomes the home directory,
/// `$NAME` and `${NAME}` the variable's value).
pub uninterp spec fn expanded_path(
    path: Seq<char>,
    home: Option<Seq<char>>,
    vars: Seq<(Seq<char>, Seq<char>)>,
) -> Seq<char>;

pub open spec fn vars_view(vars: Seq<(String, String)>) -> Seq<(Seq<char>, Seq<char>)> {
    vars.map_values(|v: (String, String)| (v.0@, v.1@))
}

pub open spec fn home_view(home: Option<String>) -> Option<Seq<char>> {
    match home {
        Some(h) => Some(h@),
        None => None,
    }
}

/// The value of the first variable called `name`.
pub fn variable(vars: &Vec<(String, String)>, name: &str) -> (r: Option<String>)
    ensures
        match r {
            Some(v) => exists|i: int|
                0 <= i < vars@.len() && vars@[i].0@ == name@ && vars@[i].1@ == v@ && forall|j: int|
                    0 <= j < i ==> vars@[j].0@ != name@,
            None => forall|i: int| 0 <= i < vars@.len() ==> vars@[i].0@ != name@,
        },
{
    let mut i: usize = 0;
    while i < vars.len()
        invariant
            0 <= i <= vars@.len(),
            forall|j: int| 0 <= j < i ==> vars@[j].0@ != name@,
        decreases vars@.len() - i,
    {
        if same_text(vars[i].0.as_str(), name) {
            let v = vars[i].1.clone();
            assert(vars@[i as int].1@ == v@);
            return Some(v);
        }
        i = i + 1;
    }
    None
}

/// Relies on shellexpand::full_with_context_no_errors; variables are looked
/// up with `variable`. Its source returns the input unchanged when the input
/// neither starts with `~` nor holds a `$`.
#[verifier::external_body]
fn expand(path: &str, home: &Option<String>, vars: &Vec<(String, String)>) -> (r: String)
    ensures
        r@ == expanded_path(path@, home_view(*home), vars_view(vars@)),
        !path@.contains('$') && !(path@.len() > 0 && path@[0] == '~') ==> r@ == path@,
{
    shellexpand::full_with_context_no_errors(path, || home.clone(), |name| variable(vars, name))
        .into_owned()
}

impl StorageConfig {
    /// Where the store file is: the configured path with `~` and variables
    /// expanded, from the given home directory and environment.
    pub fn resolve(&self, home: &Option<String>, vars: &Vec<(String, String)>) -> (r: String)
        ensures
            r@ == expanded_path(self.path@, home_view(*home), vars_view(vars@)),
            !self.path@.contains('$') && !(self.path@.len() > 0 && self.path@[0] == '~') ==> r@
                == self.path@,
    {
        expand(self.path.as_str(), home, vars)
    }
}

impl CalendarConfig {
    /// The settings of the calendar called `name`.
    pub fn get(&self, name: &str) -> (r: Option<&CalendarItem>)
        ensures
            match r {
                Some(item) => is_named(self.calendars@, name@) && *item == self.calendars@[first_named(
                    self.calendars@,
                    name@,
                )].1,
                None => !is_named(self.calendars@, name@),
            },
    {
        let mut i: usize = 0;
        while i < self.calendars.len()
            invariant
                0 <= i <= self.calendars@.len(),
                forall|j: int| 0 <= j < i ==> self.calendars@[j].0@ != name@,
            decreases self.calendars@.len() - i,
        {
            if same_text(self.calendars[i].0.as_str(), name) {
                let ghost k = i as int;
                assert(0 <= k < self.calendars@.len() && self.calendars@[k].0@ == name@ && forall|j: int|
                    0 <= j < k ==> self.calendars@[j].0@ != name@);
                let ghost f = first_named(self.calendars@, name@);
                assert(f == k) by {
                    if f < k {
                        assert(self.calendars@[f].0@ != name@);
                    } else if f > k {
                        assert(self.calendars@[k].0@ != name@);
                    }
                }
                return Some(&self.calendars[i].1);
            }
            i = i + 1;
        }
        None
    }
}

} // verus!
