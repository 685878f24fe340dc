//! A ledger of timed work on named tasks.
//!
//! Start and end events are appended to an ordered log. Sessions, per-task
//! totals and the task that is currently running are derived from that log
//! whenever they are asked for.

pub mod clock;
pub mod error;
pub mod event;
pub mod history;
pub mod laws;
pub mod ledger;
pub mod reconcile;
pub mod store;
pub mod totals;
pub mod tracker;
