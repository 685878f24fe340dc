//! Timestamps as the store writes them.
//!
//! The store holds each timestamp as text, in the form
//! `2024-05-17 10:00:00.250`. Reading and writing that text is left to
//! `chrono`; what comes back is turned into a [`Timestamp`] here. The clock
//! itself is never read here: every function that needs the time takes it
//! as an argument, given in parts to [`timestamp_from_parts`].

use core::fmt::Write;
use vstd::prelude::*;
use crate::error::LedgerError;
use crate::event::{Action, Event, EventModel, Timestamp, parsed_action};

verus! {

/// The form in which the store holds a timestamp.
pub const TIMESTAMP_FORMAT: &'static str = "%Y-%m-%d %H:%M:%S%.f";

/// What `chrono` reads from `text` under `format`: the seconds since
/// 1970-01-01 00:00:00 and the nanoseconds within the second of the date and
/// time that the text holds, or `None` where the text does not fit the format.
pub uninterp spec fn parsed_datetime(text: Seq<char>, format: Seq<char>) -> Option<(i64, u32)>;

/// Calls `chrono::NaiveDateTime::parse_from_str`, and on success reads the
/// date and time as `timestamp` and `timestamp_subsec_nanos` give them.
/// Believed, not proved: the answer depends on the text and the format alone.
#[verifier::external_body]
fn parse_datetime(text: &str, format: &str) -> (parts: Option<(i64, u32)>)
    ensures
        parts == parsed_datetime(text@, format@),
{
    match chrono::NaiveDateTime::parse_from_str(text, format) {
        Ok(moment) => Some(
            (moment.and_utc().timestamp(), moment.and_utc().timestamp_subsec_nanos()),
        ),
        Err(_) => None,
    }
}

/// The form in which a timestamp is shown: to the second.
pub const DISPLAY_FORMAT: &'static str = "%Y-%m-%d %H:%M:%S";

/// What `chrono` writes under `format` for the date and time that lies
/// `seconds` seconds and `subsec_nanos` nanoseconds after 1970-01-01 00:00:00,
/// or `None` where it knows no such date or cannot follow the format.
pub uninterp spec fn formatted_datetime(seconds: i64, subsec_nanos: u32, format: Seq<char>) -> Option<
    Seq<char>,
>;

/// Calls `chrono::DateTime::from_timestamp`, and on success writes the date
/// and time with `format`. Believed, not proved: the answer depends on the
/// moment and the format alone, and there is none where `chrono` refuses the
/// moment or the format.
#[verifier::external_body]
fn format_datetime(seconds: i64, subsec_nanos: u32, format: &str) -> (text: Option<String>)
    ensures
        match formatted_datetime(seconds, subsec_nanos, format@) {
            Some(written) => text is Some && text->0@ == written,
            None => text is None,
        },
{
    match chrono::DateTime::from_timestamp(seconds, subsec_nanos) {
        Some(moment) => {
            let mut text = String::new();
            match write!(text, "{}", moment.naive_utc().format(format)) {
                Ok(()) => Some(text),
                Err(_) => None,
            }
        },
        None => None,
    }
}

/// The whole seconds since 1970-01-01 00:00:00 at an instant: rounded down,
/// so that the rest is never negative.
pub open spec fn seconds_of(nanos: int) -> int {
    nanos / 1_000_000_000
}

/// The nanoseconds within the second at an instant.
pub open spec fn subsec_of(nanos: int) -> int {
    nanos % 1_000_000_000
}

/// The nanoseconds since 1970-01-01 00:00:00 of a moment given in seconds and
/// nanoseconds within the second.
pub open spec fn instant_of(seconds: int, subsec_nanos: int) -> int {
    seconds * 1_000_000_000 + subsec_nanos
}

/// The timestamp of a moment given in parts, where a timestamp can hold it.
pub open spec fn timestamp_of(parts: Option<(i64, u32)>) -> Option<Timestamp> {
    match parts {
        Some((seconds, subsec_nanos)) => {
            let nanos = instant_of(seconds as int, subsec_nanos as int);
            if i64::MIN <= nanos <= i64::MAX {
                Some(Timestamp { nanos: nanos as i64 })
            } else {
                None
            }
        },
        None => None,
    }
}

/// The timestamp of a moment given in seconds and nanoseconds within the
/// second; `None` where the moment lies outside what a timestamp can hold.
pub fn timestamp_from_parts(seconds: i64, subsec_nanos: u32) -> (at: Option<Timestamp>)
    ensures
        at == timestamp_of(Some((seconds, subsec_nanos))),
{
    let whole: i128 = seconds as i128 * 1_000_000_000;
    let nanos: i128 = whole + subsec_nanos as i128;
    if nanos < i64::MIN as i128 || nanos > i64::MAX as i128 {
        None
    } else {
        Some(Timestamp { nanos: nanos as i64 })
    }
}

/// The timestamp of what was read from a text, if anything was.
pub fn timestamp_from_parsed(parts: Option<(i64, u32)>) -> (at: Option<Timestamp>)
    ensures
        at == timestamp_of(parts),
{
    match parts {
        Some((seconds, subsec_nanos)) => timestamp_from_parts(seconds, subsec_nanos),
        None => None,
    }
}

/// Reads a timestamp from the store's text; `None` where the text is not a
/// date and time in the store's form, or lies outside what a timestamp holds.
pub fn parse_timestamp(text: &str) -> (at: Option<Timestamp>)
    ensures
        at == timestamp_of(parsed_datetime(text@, TIMESTAMP_FORMAT@)),
{
    timestamp_from_parsed(parse_datetime(text, TIMESTAMP_FORMAT))
}

/// Splits a timestamp into seconds and nanoseconds within the second.
pub fn timestamp_parts(at: Timestamp) -> (parts: (i64, u32))
    ensures
        parts.0 == seconds_of(at.nanos as int),
        parts.1 == subsec_of(at.nanos as int),
        parts.1 < 1_000_000_000,
        timestamp_of(Some(parts)) == Some(at),
{
    let nanos: i64 = at.nanos;
    if nanos >= 0 {
        let seconds: i64 = nanos / 1_000_000_000;
        let rest: i64 = nanos % 1_000_000_000;
        (seconds, rest as u32)
    } else {
        let up: i64 = -(nanos + 1);
        let seconds: i64 = -(up / 1_000_000_000) - 1;
        let rest: i64 = 999_999_999 - up % 1_000_000_000;
        (seconds, rest as u32)
    }
}

/// The text that `chrono` writes for a timestamp under the format of the
/// store, which keeps the fraction of the second.
pub open spec fn store_text_of(at: Timestamp) -> Option<Seq<char>> {
    formatted_datetime(
        seconds_of(at.nanos as int) as i64,
        subsec_of(at.nanos as int) as u32,
        TIMESTAMP_FORMAT@,
    )
}

/// The text that `chrono` writes for a timestamp under the format for
/// showing, which drops the fraction of the second.
pub open spec fn display_text_of(at: Timestamp) -> Option<Seq<char>> {
    formatted_datetime(
        seconds_of(at.nanos as int) as i64,
        subsec_of(at.nanos as int) as u32,
        DISPLAY_FORMAT@,
    )
}

/// The text under which the store holds a timestamp.
pub fn store_text(at: Timestamp) -> (text: Option<String>)
    ensures
        match store_text_of(at) {
            Some(written) => text is Some && text->0@ == written,
            None => text is None,
        },
{
    let (seconds, subsec_nanos) = timestamp_parts(at);
    format_datetime(seconds, subsec_nanos, TIMESTAMP_FORMAT)
}

/// The text under which a timestamp is shown, to the second.
pub fn display_text(at: Timestamp) -> (text: Option<String>)
    ensures
        match display_text_of(at) {
            Some(written) => text is Some && text->0@ == written,
            None => text is None,
        },
{
    let (seconds, subsec_nanos) = timestamp_parts(at);
    format_datetime(seconds, subsec_nanos, DISPLAY_FORMAT)
}

/// The event that a row of the store holds, given what its column of time
/// and its column of action stand for: a row without a task name, or whose
/// time or action cannot be read, is a fault of the store.
pub open spec fn decoded_row(
    id: i64,
    at: Option<Timestamp>,
    task: Seq<char>,
    action: Option<Action>,
) -> Result<EventModel, LedgerError> {
    if task.len() == 0 || at is None || action is None {
        Err(LedgerError::Persistence)
    } else {
        Ok(EventModel { id: id as int, at: at->0.nanos as int, task, action: action->0 })
    }
}

/// Builds the event of a row from its columns, once time and action are read.
pub fn event_from_columns(
    id: i64,
    at: Option<Timestamp>,
    task_name: String,
    action: Option<Action>,
) -> (row: Result<Event, LedgerError>)
    ensures
        match decoded_row(id, at, task_name@, action) {
            Ok(model) => row is Ok && row->Ok_0@ == model,
            Err(error) => row == Err::<Event, LedgerError>(error),
        },
{
    if task_name.as_str().is_empty() {
        return Err(LedgerError::Persistence);
    }
    match (at, action) {
        (Some(timestamp), Some(action)) => Ok(Event { id, timestamp, task_name, action }),
        _ => Err(LedgerError::Persistence),
    }
}

/// Reads one row of the store: its id, its time as text, its task name and
/// its action as text.
pub fn decode_row(id: i64, datetime: &str, task_name: String, action: &str) -> (row: Result<
    Event,
    LedgerError,
>)
    ensures
        match decoded_row(
            id,
            timestamp_of(parsed_datetime(datetime@, TIMESTAMP_FORMAT@)),
            task_name@,
            parsed_action(action@),
        ) {
            Ok(model) => row is Ok && row->Ok_0@ == model,
            Err(error) => row == Err::<Event, LedgerError>(error),
        },
{
    let at = parse_timestamp(datetime);
    let read = Action::parse(action);
    event_from_columns(id, at, task_name, read)
}

} // verus!
