//! Indexed calendar store: keeps the events of several named calendars,
//! reconciles each calendar against a freshly fetched list of events and
//! reports what was created, updated or removed.

pub mod event;
pub mod timeline;
pub mod horizon;
pub mod cfg;
pub mod calendar;
pub mod store;
pub mod manager;
pub mod feed;
pub mod audience;
pub mod notice;
