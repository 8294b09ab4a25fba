//! What an announcement of a change shows.
use vstd::prelude::*;

use crate::event::{same_text, UpdateResult};

verus! {

/// The kind of a change, which sets the colour and label of its announcement.
#[derive(Debug, Clone, Copy, PartialEq, Eq)]
pub enum Tone {
    Added,
    Changed,
    Deleted,
}

/// The parts an announcement shows.
#[derive(Debug, Clone, Copy, PartialEq, Eq)]
pub struct Notice {
    pub tone: Tone,
    /// An update whose title changed: the title reads `old => new`.
    pub renamed: bool,
    /// An update whose start or end changed: both time spans are shown.
    pub rescheduled: bool,
    /// A location field is shown: the event has one (for an update, the
    /// old or the new version has one).
    pub shows_location: bool,
}

/// Decides what the announcement of `u` shows.
pub fn notice(u: &UpdateResult) -> (n: Notice)
    ensures
        match u {
            UpdateResult::Created(e) => n == (Notice {
                tone: Tone::Added,
                renamed: false,
                rescheduled: false,
                shows_location: e@.location.len() > 0,
            }),
            UpdateResult::Removed(e) => n == (Notice {
                tone: Tone::Deleted,
                renamed: false,
                rescheduled: false,
                shows_location: e@.location.len() > 0,
            }),
            UpdateResult::Updated { old, new } => n == (Notice {
                tone: Tone::Changed,
                renamed: old@.summary != new@.summary,
                rescheduled: old@.start != new@.start || old@.end != new@.end,
                shows_location: old@.location.len() > 0 || new@.location.len() > 0,
            }),
        },
{
    match u {
        UpdateResult::Created(e) => Notice {
            tone: Tone::Added,
            renamed: false,
            rescheduled: false,
            shows_location: !e.location.as_str().is_empty(),
        },
        UpdateResult::Removed(e) => Notice {
            tone: Tone::Deleted,
            renamed: false,
            rescheduled: false,
            shows_location: !e.location.as_str().is_empty(),
        },
        UpdateResult::Updated { old, new } => Notice {
            tone: Tone::Changed,
            renamed: !same_text(old.summary.as_str(), new.summary.as_str()),
            rescheduled: old.start != new.start || old.end != new.end,
            shows_location: !old.location.as_str().is_empty() || !new.location.as_str().is_empty(),
        },
    }
}

} // verus!
